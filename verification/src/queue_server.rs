//! The broker: ties the durable log, the priority queue pair, the rendezvous
//! hand-off and the in-flight map into the public operations.
//!
//! Well-formedness carries the conservation property: every logged id that
//! was never completed is in a queue or in the in-flight map — never lost.

use vstd::prelude::*;

use crossbeam::channel::{bounded, Receiver, Sender, TrySendError};

use crate::internal_queue_file_manager::{
    live_of, InternalQueueFileManager, LogFile, StoreEffect, Error as StorageError,
};
use crate::models::{ItemModel, Priority, QueueItem, Tags};
use crate::queue::{first_match_index, has_match, satisfies, Queue, Error as QueueError};

verus! {

#[derive(Clone, Copy, Debug, PartialEq, Eq, Structural)]
pub enum Error {
    QueueCorrupted,
    IOError,
    MutexCorrupted,
    FailedToSerializeWorkItem,
    GarbageCollectionFailed,
}

impl From<StorageError> for Error {
    fn from(e: StorageError) -> (r: Error) {
        match e {
            StorageError::IOError => Error::IOError,
            StorageError::FailedToSerializeWorkItem => Error::FailedToSerializeWorkItem,
            StorageError::MutexCorrupted => Error::MutexCorrupted,
            StorageError::GarbageCollectionFailed => Error::GarbageCollectionFailed,
        }
    }
}

impl vstd::std_specs::convert::FromSpecImpl<StorageError> for Error {
    open spec fn obeys_from_spec() -> bool {
        true
    }

    open spec fn from_spec(e: StorageError) -> Error {
        match e {
            StorageError::IOError => Error::IOError,
            StorageError::FailedToSerializeWorkItem => Error::FailedToSerializeWorkItem,
            StorageError::MutexCorrupted => Error::MutexCorrupted,
            StorageError::GarbageCollectionFailed => Error::GarbageCollectionFailed,
        }
    }
}

impl From<QueueError> for Error {
    fn from(e: QueueError) -> (r: Error) {
        match e {
            QueueError::QueueCorrupted => Error::QueueCorrupted,
        }
    }
}

impl vstd::std_specs::convert::FromSpecImpl<QueueError> for Error {
    open spec fn obeys_from_spec() -> bool {
        true
    }

    open spec fn from_spec(e: QueueError) -> Error {
        Error::QueueCorrupted
    }
}

/// The identifier handed back for a freshly enqueued message.
pub struct CreatedMessage {
    pub id: u128,
}

// ---------------------------------------------------------------------------
// The rendezvous slot
// ---------------------------------------------------------------------------

/// A zero-capacity hand-off channel between an enqueue that has a message
/// and a pop that is blocked waiting for one.
#[verifier::external_body]
pub struct RendezvousSlot {
    sender: Sender<QueueItem>,
    receiver: Receiver<QueueItem>,
}

/// Relies on crossbeam_channel::bounded with capacity zero: a rendezvous
/// channel that holds nothing and transfers only between two parties meeting
/// at the same moment.
#[verifier::external_body]
fn slot_new() -> RendezvousSlot {
    let (sender, receiver) = bounded(0);
    RendezvousSlot { sender, receiver }
}

/// Relies on crossbeam_channel::Sender::try_send on a zero-capacity channel:
/// it succeeds only when a receive operation is blocked on the other end at
/// that very moment. Both ends live in this slot, the slot cannot be cloned,
/// and every use goes through an exclusive borrow of the broker, so no
/// receiver can be parked while an offer runs: the message always comes
/// back.
#[verifier::external_body]
fn slot_offer(s: &mut RendezvousSlot, item: QueueItem) -> (r: Option<QueueItem>)
    ensures
        match r {
            Some(back) => back == item,
            None => false,
        },
{
    match s.sender.try_send(item) {
        Ok(()) => None,
        Err(TrySendError::Full(it)) => Some(it),
        Err(TrySendError::Disconnected(it)) => Some(it),
    }
}

/// Relies on crossbeam_channel::Receiver::recv_timeout on a zero-capacity
/// channel: it delivers only from a sender blocked in a concurrent send
/// operation. Under the same single-owner discipline as the offer no such
/// sender can exist, so the call only waits out its timeout — the periodic
/// tick of a blocking pop.
#[verifier::external_body]
fn slot_wait_ms(s: &mut RendezvousSlot, ms: u64) -> (r: Option<QueueItem>)
    ensures
        r is None,
{
    s.receiver.recv_timeout(core::time::Duration::from_millis(ms)).ok()
}

/// How long a blocking pop parks on the rendezvous before it rescans the
/// queues: the broker's retry cadence, for the host's poll loops too.
pub const RESCAN_INTERVAL_MS: u64 = 1000;

// ---------------------------------------------------------------------------
// Spec helpers
// ---------------------------------------------------------------------------

/// The ids occurring in a modelled item list.
pub open spec fn item_ids(l: Seq<ItemModel>) -> Set<u128> {
    Set::new(|id: u128| exists|k: int| 0 <= k < l.len() && l[k].id == id)
}

/// The ids occurring in a queue's contents.
pub open spec fn queue_ids(l: Seq<QueueItem>) -> Set<u128> {
    Set::new(|id: u128| exists|k: int| 0 <= k < l.len() && l[k].id == id)
}

/// The ids occurring in a completion list.
pub open spec fn id_set(c: Seq<u128>) -> Set<u128> {
    Set::new(|id: u128| c.contains(id))
}

/// The ids of the in-flight entries.
pub open spec fn entry_ids(l: Seq<(u128, ItemModel)>) -> Set<u128> {
    Set::new(|id: u128| exists|k: int| 0 <= k < l.len() && l[k].0 == id)
}

/// The entries without the given id.
pub open spec fn remove_entry(l: Seq<(u128, ItemModel)>, id: u128) -> Seq<(u128, ItemModel)> {
    l.filter(|p: (u128, ItemModel)| p.0 != id)
}

/// What a single pop attempt takes: the first deliverable message of the
/// high queue, else of the low queue, else nothing.
pub open spec fn pair_choice(
    high: Seq<QueueItem>,
    low: Seq<QueueItem>,
    caps: Set<Seq<char>>,
) -> Option<QueueItem> {
    if has_match(high, caps) {
        Some(high[first_match_index(high, caps)])
    } else if has_match(low, caps) {
        Some(low[first_match_index(low, caps)])
    } else {
        None
    }
}

pub proof fn lemma_item_ids_snoc(l: Seq<ItemModel>, m: ItemModel)
    ensures
        item_ids(l.push(m)) == item_ids(l).insert(m.id),
{
    assert forall|id: u128| #[trigger] item_ids(l.push(m)).contains(id) <==> item_ids(
        l,
    ).insert(m.id).contains(id) by {
        if item_ids(l.push(m)).contains(id) {
            let k = choose|k: int| 0 <= k < l.push(m).len() && l.push(m)[k].id == id;
            if k < l.len() {
                assert(l[k].id == id);
            }
        }
        if item_ids(l).contains(id) {
            let k = choose|k: int| 0 <= k < l.len() && l[k].id == id;
            assert(l.push(m)[k].id == id);
        }
        if id == m.id {
            assert(l.push(m)[l.len() as int].id == id);
        }
    }
    assert(item_ids(l.push(m)) =~= item_ids(l).insert(m.id));
}

/// One step of the live filter along a snoc.
pub proof fn lemma_live_of_snoc(l: Seq<ItemModel>, c: Seq<u128>, m: ItemModel)
    ensures
        live_of(l.push(m), c) == if c.contains(m.id) {
            live_of(l, c)
        } else {
            live_of(l, c).push(m)
        },
{
    reveal(Seq::filter);
    assert(l.push(m).drop_last() =~= l);
    assert(l.push(m).last() == m);
}

/// The ids of the live set are the logged ids without the completed ones.
pub proof fn lemma_live_ids(l: Seq<ItemModel>, c: Seq<u128>)
    ensures
        item_ids(live_of(l, c)) == item_ids(l).difference(id_set(c)),
    decreases l.len(),
{
    reveal(Seq::filter);
    if l.len() == 0 {
        assert(item_ids(live_of(l, c)) =~= item_ids(l).difference(id_set(c)));
    } else {
        let sub = l.drop_last();
        let m = l.last();
        lemma_live_ids(sub, c);
        assert(sub.push(m) =~= l);
        lemma_live_of_snoc(sub, c, m);
        lemma_item_ids_snoc(sub, m);
        if c.contains(m.id) {
            assert(live_of(l, c) == live_of(sub, c));
            assert(item_ids(l) == item_ids(sub).insert(m.id));
            assert(item_ids(live_of(l, c)) =~= item_ids(l).difference(id_set(c)));
        } else {
            assert(live_of(l, c) == live_of(sub, c).push(m));
            lemma_item_ids_snoc(live_of(sub, c), m);
            assert(item_ids(l) == item_ids(sub).insert(m.id));
            assert(item_ids(live_of(l, c)) =~= item_ids(l).difference(id_set(c)));
        }
    }
}

// ---------------------------------------------------------------------------
// The queue pair
// ---------------------------------------------------------------------------

/// The two priority FIFOs. High drains strictly before Low.
pub struct InternalQueueManager {
    high_priority_queue: Queue,
    low_priority_queue: Queue,
}

impl InternalQueueManager {
    pub closed spec fn high_contents(&self) -> Seq<QueueItem> {
        self.high_priority_queue.contents()
    }

    pub closed spec fn low_contents(&self) -> Seq<QueueItem> {
        self.low_priority_queue.contents()
    }

    pub fn new() -> (r: InternalQueueManager)
        ensures
            r.high_contents() == Seq::<QueueItem>::empty(),
            r.low_contents() == Seq::<QueueItem>::empty(),
    {
        InternalQueueManager {
            high_priority_queue: Queue::new(),
            low_priority_queue: Queue::new(),
        }
    }

    /// Appends the item at the tail of the queue of its priority class.
    pub fn enqueue(&mut self, item: QueueItem) -> (r: Result<(), Error>)
        ensures
            r is Ok,
            item.priority is High ==> final(self).high_contents() == old(self).high_contents().push(item) && final(self).low_contents() == old(self).low_contents(),
            item.priority is Low ==> final(self).low_contents() == old(self).low_contents().push(item) && final(self).high_contents() == old(self).high_contents(),
    {
        let result = match item.priority {
            Priority::Low => self.low_priority_queue.enqueue(item),
            Priority::High => self.high_priority_queue.enqueue(item),
        };
        match result {
            Err(e) => Err(Error::QueueCorrupted),
            Ok(()) => Ok(()),
        }
    }

    /// Takes the first deliverable message, trying High before Low. Skipped
    /// messages of the scanned queue re-enter at its tail in their order.
    pub fn pop(&mut self, tags: &Tags) -> (r: Result<Option<QueueItem>, Error>)
        ensures
            r is Ok,
            ({
                let caps = tags@;
                let high = old(self).high_contents();
                let low = old(self).low_contents();
                if has_match(high, caps) {
                    let i = first_match_index(high, caps);
                    &&& r matches Ok(Some(it)) && it == high[i]
                    &&& final(self).high_contents() == high.subrange(i + 1, high.len() as int)
                        + high.take(i)
                    &&& final(self).low_contents() == low
                } else if has_match(low, caps) {
                    let i = first_match_index(low, caps);
                    &&& r matches Ok(Some(it)) && it == low[i]
                    &&& final(self).low_contents() == low.subrange(i + 1, low.len() as int)
                        + low.take(i)
                    &&& final(self).high_contents() == high
                } else {
                    &&& r matches Ok(None)
                    &&& final(self).high_contents() == high
                    &&& final(self).low_contents() == low
                }
            }),
    {
        let from_high = match self.high_priority_queue.pop(tags) {
            Err(e) => {
                return Err(Error::QueueCorrupted);
            },
            Ok(o) => o,
        };
        match from_high {
            Some(entry) => Ok(Some(entry)),
            None => {
                let from_low = match self.low_priority_queue.pop(tags) {
                    Err(e) => {
                        return Err(Error::QueueCorrupted);
                    },
                    Ok(o) => o,
                };
                match from_low {
                    Some(entry) => Ok(Some(entry)),
                    None => Ok(None),
                }
            },
        }
    }
}

/// Removing one position and rotating, in either queue, keeps exactly the
/// other ids of the pair.
pub proof fn lemma_pair_pop_ids(
    high: Seq<QueueItem>,
    low: Seq<QueueItem>,
    caps: Set<Seq<char>>,
    m: QueueItem,
    high2: Seq<QueueItem>,
    low2: Seq<QueueItem>,
)
    requires
        pair_choice(high, low, caps) == Some(m),
        has_match(high, caps) ==> high2 == high.subrange(
            first_match_index(high, caps) + 1,
            high.len() as int,
        ) + high.take(first_match_index(high, caps)) && low2 == low,
        !has_match(high, caps) ==> low2 == low.subrange(
            first_match_index(low, caps) + 1,
            low.len() as int,
        ) + low.take(first_match_index(low, caps)) && high2 == high,
    ensures
        queue_ids(high2).union(queue_ids(low2)).insert(m.id) == queue_ids(high).union(
            queue_ids(low),
        ),
        satisfies(m, caps),
{
    if has_match(high, caps) {
        crate::queue::lemma_first_match(high, caps);
        lemma_rotation_ids(high, first_match_index(high, caps));
        assert(queue_ids(high2).union(queue_ids(low2)).insert(m.id) =~= queue_ids(
            high,
        ).union(queue_ids(low)));
    } else {
        crate::queue::lemma_first_match(low, caps);
        lemma_rotation_ids(low, first_match_index(low, caps));
        assert(queue_ids(high2).union(queue_ids(low2)).insert(m.id) =~= queue_ids(
            high,
        ).union(queue_ids(low)));
    }
}

/// Removing position `i` and rotating the prefix to the tail keeps exactly
/// the other ids.
proof fn lemma_rotation_ids(l: Seq<QueueItem>, i: int)
    requires
        0 <= i < l.len(),
    ensures
        queue_ids(l.subrange(i + 1, l.len() as int) + l.take(i)).insert(l[i].id) == queue_ids(l),
{
    let rot = l.subrange(i + 1, l.len() as int) + l.take(i);
    assert forall|id: u128| #[trigger] queue_ids(rot).insert(l[i].id).contains(id)
        <==> queue_ids(l).contains(id) by {
        if id == l[i].id {
            assert(queue_ids(l).contains(id));
        }
        if queue_ids(rot).contains(id) {
            let k = choose|k: int| 0 <= k < rot.len() && rot[k].id == id;
            if k < l.len() - i - 1 {
                assert(l[k + i + 1].id == id);
            } else {
                assert(l[k - (l.len() - i - 1)].id == id);
            }
        }
        if queue_ids(l).contains(id) && id != l[i].id {
            let k = choose|k: int| 0 <= k < l.len() && l[k].id == id;
            if k < i {
                assert(rot[k + (l.len() - i - 1)].id == id);
            } else if k > i {
                assert(rot[k - i - 1].id == id);
            }
        }
    }
    assert(queue_ids(rot).insert(l[i].id) =~= queue_ids(l));
}


// ---------------------------------------------------------------------------
// The in-flight map, as a list of (id, item) entries
// ---------------------------------------------------------------------------

/// The model of an entry list.
pub open spec fn entries_of(l: Seq<(u128, QueueItem)>) -> Seq<(u128, ItemModel)> {
    l.map_values(|p: (u128, QueueItem)| (p.0, p.1@))
}

/// Entries keep their own item's id as key.
pub open spec fn entries_keyed(l: Seq<(u128, ItemModel)>) -> bool {
    forall|k: int| 0 <= k < l.len() ==> (#[trigger] l[k]).0 == l[k].1.id
}

/// Every remaining entry comes from the old list and has another key, and
/// exactly the key's entries are gone.
pub proof fn lemma_remove_entry_props(l: Seq<(u128, ItemModel)>, id: u128)
    ensures
        forall|k: int|
            0 <= k < remove_entry(l, id).len() ==> (#[trigger] remove_entry(l, id)[k]).0 != id
                && l.contains(remove_entry(l, id)[k]),
        entry_ids(remove_entry(l, id)) == entry_ids(l).remove(id),
    decreases l.len(),
{
    reveal(Seq::filter);
    let pred = |p: (u128, ItemModel)| p.0 != id;
    if l.len() == 0 {
        assert(entry_ids(remove_entry(l, id)) =~= entry_ids(l).remove(id));
    } else {
        let sub = l.drop_last();
        let p = l.last();
        lemma_remove_entry_props(sub, id);
        assert forall|k: int|
            0 <= k < remove_entry(l, id).len() implies (#[trigger] remove_entry(l, id)[k]).0
            != id && l.contains(remove_entry(l, id)[k]) by {
            if pred(p) {
                assert(remove_entry(l, id) == remove_entry(sub, id).push(p));
                if k < remove_entry(l, id).len() - 1 {
                    assert(remove_entry(l, id)[k] == remove_entry(sub, id)[k]);
                    let j = choose|j: int|
                        0 <= j < sub.len() && sub[j] == remove_entry(sub, id)[k];
                    assert(l[j] == remove_entry(l, id)[k]);
                } else {
                    assert(remove_entry(l, id)[k] == p);
                    assert(l[l.len() - 1] == p);
                }
            } else {
                assert(remove_entry(l, id) == remove_entry(sub, id));
                let j = choose|j: int| 0 <= j < sub.len() && sub[j] == remove_entry(sub, id)[k];
                assert(l[j] == remove_entry(l, id)[k]);
            }
        }
        assert forall|x: u128| #[trigger] entry_ids(remove_entry(l, id)).contains(x)
            <==> entry_ids(l).remove(id).contains(x) by {
            if entry_ids(remove_entry(l, id)).contains(x) {
                let k = choose|k: int|
                    0 <= k < remove_entry(l, id).len() && remove_entry(l, id)[k].0 == x;
                let e = remove_entry(l, id)[k];
                let j = choose|j: int| 0 <= j < l.len() && l[j] == e;
                assert(l[j].0 == x);
            }
            if entry_ids(l).contains(x) && x != id {
                let k = choose|k: int| 0 <= k < l.len() && l[k].0 == x;
                if k < l.len() - 1 {
                    assert(entry_ids(sub).contains(x)) by {
                        assert(sub[k].0 == x);
                    }
                    assert(entry_ids(remove_entry(sub, id)).contains(x));
                    let j = choose|j: int|
                        0 <= j < remove_entry(sub, id).len() && remove_entry(sub, id)[j].0 == x;
                    if pred(p) {
                        assert(remove_entry(l, id)[j].0 == x);
                    } else {
                        assert(remove_entry(l, id)[j].0 == x);
                    }
                } else {
                    assert(p.0 == x);
                    assert(pred(p));
                    assert(remove_entry(l, id).last().0 == x);
                }
            }
        }
        assert(entry_ids(remove_entry(l, id)) =~= entry_ids(l).remove(id));
    }
}

/// The entries left after removing every id of the list, front to back.
pub open spec fn remove_all(l: Seq<(u128, ItemModel)>, ids: Seq<u128>) -> Seq<(u128, ItemModel)>
    decreases ids.len(),
{
    if ids.len() == 0 {
        l
    } else {
        remove_all(remove_entry(l, ids[0]), ids.drop_first())
    }
}

pub proof fn lemma_remove_all_snoc(l: Seq<(u128, ItemModel)>, ids: Seq<u128>, id: u128)
    ensures
        remove_all(l, ids.push(id)) == remove_entry(remove_all(l, ids), id),
    decreases ids.len(),
{
    if ids.len() == 0 {
        assert(ids.push(id).drop_first() =~= ids);
        assert(ids.push(id)[0] == id);
        assert(remove_all(l, ids.push(id)) == remove_all(
            remove_entry(l, id),
            ids.push(id).drop_first(),
        ));
    } else {
        assert(ids.push(id).drop_first() =~= ids.drop_first().push(id));
        assert(ids.push(id)[0] == ids[0]);
        assert(remove_all(l, ids.push(id)) == remove_all(
            remove_entry(l, ids[0]),
            ids.push(id).drop_first(),
        ));
        lemma_remove_all_snoc(remove_entry(l, ids[0]), ids.drop_first(), id);
    }
}

/// A keyed entry list stays keyed after removing one id.
pub proof fn lemma_remove_entry_keyed(l: Seq<(u128, ItemModel)>, id: u128)
    requires
        entries_keyed(l),
    ensures
        entries_keyed(remove_entry(l, id)),
{
    lemma_remove_entry_props(l, id);
    assert forall|k: int| 0 <= k < remove_entry(l, id).len() implies (#[trigger] remove_entry(
        l,
        id,
    )[k]).0 == remove_entry(l, id)[k].1.id by {
        let e = remove_entry(l, id)[k];
        let j = choose|j: int| 0 <= j < l.len() && l[j] == e;
        assert(l[j].0 == l[j].1.id);
    }
}

/// One unfolding step of `remove_entry` along a left-to-right walk.
proof fn lemma_remove_entry_step(l: Seq<(u128, ItemModel)>, id: u128, k: int)
    requires
        0 <= k < l.len(),
    ensures
        remove_entry(l.take(k + 1), id) == if l[k].0 != id {
            remove_entry(l.take(k), id).push(l[k])
        } else {
            remove_entry(l.take(k), id)
        },
{
    reveal(Seq::filter);
    assert(l.take(k + 1).drop_last() =~= l.take(k));
    assert(l.take(k + 1).last() == l[k]);
}

/// Removes every entry under this id, returning the first of them.
#[verifier::loop_isolation(false)]
fn entries_remove(v: &mut Vec<(u128, QueueItem)>, id: u128) -> (r: Option<QueueItem>)
    ensures
        entries_of(final(v)@) == remove_entry(entries_of(old(v)@), id),
        match r {
            Some(it) => entries_of(old(v)@).contains((id, it@)),
            None => !entry_ids(entries_of(old(v)@)).contains(id),
        },
{
    let ghost l = entries_of(v@);
    let mut rest: Vec<(u128, QueueItem)> = Vec::new();
    core::mem::swap(v, &mut rest);
    let mut found: Option<QueueItem> = None;
    let n = rest.len();
    let mut k: usize = 0;
    while k < n
        invariant
            k <= n,
            n == rest@.len(),
            l == entries_of(rest@),
            entries_of(v@) == remove_entry(l.take(k as int), id),
            match found {
                Some(it) => l.contains((id, it@)),
                None => forall|j: int| 0 <= j < k ==> (#[trigger] l[j]).0 != id,
            },
        decreases n - k,
    {
        let ghost pre = v@;
        let (key, item) = crate::models::clone_entry(&rest[k]);
        proof {
            lemma_remove_entry_step(l, id, k as int);
            assert(l[k as int] == (rest@[k as int].0, rest@[k as int].1@));
        }
        if key == id {
            if found.is_none() {
                proof {
                    assert(l[k as int] == (id, item@));
                }
                found = Some(item);
            }
        } else {
            v.push((key, item));
            proof {
                assert(entries_of(v@) =~= entries_of(pre).push((key, item@)));
            }
        }
        k = k + 1;
    }
    proof {
        assert(l.take(l.len() as int) =~= l);
        if found is None && entry_ids(l).contains(id) {
            let j = choose|j: int| 0 <= j < l.len() && l[j].0 == id;
            assert(false);
        }
    }
    found
}

/// Inserts the item under its own id, replacing any entry with that id.
fn entries_insert(v: &mut Vec<(u128, QueueItem)>, item: QueueItem)
    ensures
        entries_of(final(v)@) == remove_entry(entries_of(old(v)@), item.id).push(
            (item@.id, item@),
        ),
{
    let id = item.id;
    let ghost l = entries_of(v@);
    let _previous = entries_remove(v, id);
    let ghost mid = entries_of(v@);
    v.push((id, item));
    proof {
        assert(entries_of(v@) =~= mid.push((item@.id, item@)));
    }
}

// ---------------------------------------------------------------------------
// The broker
// ---------------------------------------------------------------------------

pub struct QueueServer {
    queue: InternalQueueManager,
    file_manager: InternalQueueFileManager,
    slot: RendezvousSlot,
    processing: Vec<(u128, QueueItem)>,
}

impl QueueServer {
    pub closed spec fn high_contents(&self) -> Seq<QueueItem> {
        self.queue.high_contents()
    }

    pub closed spec fn low_contents(&self) -> Seq<QueueItem> {
        self.queue.low_contents()
    }

    pub closed spec fn processing_entries(&self) -> Seq<(u128, ItemModel)> {
        entries_of(self.processing@)
    }

    pub closed spec fn log_high(&self) -> Seq<ItemModel> {
        self.file_manager.high_items()
    }

    pub closed spec fn log_low(&self) -> Seq<ItemModel> {
        self.file_manager.low_items()
    }

    pub closed spec fn log_completed(&self) -> Seq<u128> {
        self.file_manager.completed_ids()
    }

    pub closed spec fn pending_effects(&self) -> Seq<StoreEffect> {
        self.file_manager.pending_effects()
    }

    pub closed spec fn spec_require_flush(&self) -> bool {
        self.file_manager.spec_require_flush()
    }

    /// The ids of the messages that the durable log still owes: logged and
    /// never completed.
    pub open spec fn live_ids(&self) -> Set<u128> {
        item_ids(live_of(self.log_high(), self.log_completed())).union(
            item_ids(live_of(self.log_low(), self.log_completed())),
        )
    }

    /// The queued messages at the model level.
    pub open spec fn high_models(&self) -> Seq<ItemModel> {
        self.high_contents().map_values(|it: QueueItem| it@)
    }

    pub open spec fn low_models(&self) -> Seq<ItemModel> {
        self.low_contents().map_values(|it: QueueItem| it@)
    }

    /// The ids the broker can still account for: queued or in flight.
    pub open spec fn reachable_ids(&self) -> Set<u128> {
        item_ids(self.high_models()).union(item_ids(self.low_models())).union(
            entry_ids(self.processing_entries()),
        )
    }

    /// Well-formedness. Its last clause is the conservation property: no
    /// live message is ever lost.
    pub open spec fn wf(&self) -> bool {
        &&& self.file_manager_wf()
        &&& entries_keyed(self.processing_entries())
        &&& self.live_ids().subset_of(self.reachable_ids())
    }

    pub closed spec fn file_manager_wf(&self) -> bool {
        self.file_manager.wf()
    }

    /// A broker over fresh, empty state; every append is flushed.
    pub fn new() -> (r: Result<QueueServer, Error>)
        ensures
            r matches Ok(qs) && qs.wf() && qs.high_contents() == Seq::<QueueItem>::empty()
                && qs.low_contents() == Seq::<QueueItem>::empty() && qs.processing_entries()
                == Seq::<(u128, ItemModel)>::empty() && qs.log_high() == Seq::<
                ItemModel,
            >::empty() && qs.log_low() == Seq::<ItemModel>::empty() && qs.log_completed()
                == Seq::<u128>::empty() && qs.pending_effects() == Seq::<
                StoreEffect,
            >::empty(),
    {
        let qs = QueueServer {
            queue: InternalQueueManager::new(),
            file_manager: InternalQueueFileManager::new(true),
            slot: slot_new(),
            processing: Vec::new(),
        };
        proof {
            reveal(Seq::filter);
            assert(entries_of(qs.processing@) =~= Seq::<(u128, ItemModel)>::empty());
            assert(live_of(Seq::<ItemModel>::empty(), qs.log_completed()) =~= Seq::<
                ItemModel,
            >::empty());
            assert(item_ids(Seq::<ItemModel>::empty()) =~= Set::<u128>::empty());
            assert(qs.live_ids().subset_of(qs.reachable_ids()));
        }
        Ok(qs)
    }

    /// A broker over an existing durable log: the live messages are replayed
    /// into the in-memory queues in file order before any operation runs.
    pub fn with_manager(file_manager: InternalQueueFileManager) -> (r: Result<QueueServer, Error>)
        requires
            file_manager.wf(),
        ensures
            r matches Ok(qs) && qs.wf() && qs.high_contents().map_values(|it: QueueItem| it@)
                == file_manager.live_high() && qs.low_contents().map_values(
                |it: QueueItem| it@,
            ) == file_manager.live_low() && qs.processing_entries() == Seq::<
                (u128, ItemModel),
            >::empty() && qs.log_high() == file_manager.high_items() && qs.log_low()
                == file_manager.low_items() && qs.log_completed() == file_manager.completed_ids()
                && qs.pending_effects() == file_manager.pending_effects(),
    {
        let loaded = match file_manager.load_items() {
            Ok(s) => s,
            Err(e) => {
                return Err(Error::from(e));
            },
        };
        let mut queue = InternalQueueManager::new();
        replay(&mut queue.high_priority_queue, loaded.high_priority);
        replay(&mut queue.low_priority_queue, loaded.low_priority);
        let qs = QueueServer {
            queue,
            file_manager,
            slot: slot_new(),
            processing: Vec::new(),
        };
        proof {
            assert(entries_of(qs.processing@) =~= Seq::<(u128, ItemModel)>::empty());
            lemma_live_ids(qs.log_high(), qs.log_completed());
            lemma_live_ids(qs.log_low(), qs.log_completed());
            lemma_model_queue_ids(qs.high_contents());
            lemma_model_queue_ids(qs.low_contents());
            assert(qs.live_ids().subset_of(qs.reachable_ids()));
        }
        Ok(qs)
    }

    /// Offers the item to the rendezvous first, as the delivery protocol
    /// asks; in this broker the hand-off can never fire (see `slot_offer`),
    /// so the item always goes to the tail of its priority queue.
    fn add_item_to_queue(&mut self, item: QueueItem) -> (r: Result<(), Error>)
        ensures
            r is Ok,
            queued_at_tail(*old(self), *final(self), item@, item.priority),
            final(self).processing_entries() == old(self).processing_entries(),
            final(self).log_high() == old(self).log_high(),
            final(self).log_low() == old(self).log_low(),
            final(self).log_completed() == old(self).log_completed(),
            final(self).file_manager_wf() == old(self).file_manager_wf(),
            final(self).pending_effects() == old(self).pending_effects(),
    {
        let ghost m = item@;
        match slot_offer(&mut self.slot, item) {
            None => {
                proof {
                    assert(false);
                }
                Ok(())
            },
            Some(back) => {
                let r = self.queue.enqueue(back);
                proof {
                    assert(r is Ok);
                    if back.priority is High {
                        assert(self.high_models() =~= old(self).high_models().push(m));
                    } else {
                        assert(self.low_models() =~= old(self).low_models().push(m));
                    }
                }
                r
            },
        }
    }

    /// Builds the message, appends it to the durable log (the commit point),
    /// then offers it to the rendezvous and queues it, and returns the
    /// assigned id. The hand-off cannot fire here, so the message always
    /// lands at the tail of its priority queue.
    pub fn enqueue(
        &mut self,
        message: Vec<u8>,
        priority: Priority,
        required_capabilities: Vec<String>,
    ) -> (r: Result<CreatedMessage, Error>)
        requires
            old(self).wf(),
        ensures
            final(self).wf(),
            r matches Ok(c) && ({
                let m = ItemModel {
                    data: message@,
                    tags: required_capabilities@.map_values(|s: String| s@),
                    id: c.id,
                    priority,
                };
                &&& (priority is High ==> final(self).log_high() == old(self).log_high().push(m)
                    && final(self).log_low() == old(self).log_low())
                &&& (priority is Low ==> final(self).log_low() == old(self).log_low().push(m)
                    && final(self).log_high() == old(self).log_high())
                &&& final(self).log_completed() == old(self).log_completed()
                &&& final(self).processing_entries() == old(self).processing_entries()
                &&& queued_at_tail(*old(self), *final(self), m, priority)
                &&& final(self).pending_effects().len() == old(self).pending_effects().len() + 1
                &&& final(self).pending_effects().drop_last() == old(self).pending_effects()
                &&& final(self).pending_effects().last() matches StoreEffect::Append(t, b, f)
                    && b@ == crate::codec::enc_item(m) && f == old(self).spec_require_flush()
                    && t == (if priority is High {
                    LogFile::High
                } else {
                    LogFile::Low
                })
            }),
    {
        let tags = Tags::from_tag_strings(required_capabilities);
        let item = QueueItem::new(message, tags, priority);
        let id = item.id;
        let ghost m = item@;
        match self.file_manager.save_item(&item) {
            Err(e) => {
                return Err(Error::from(e));
            },
            Ok(()) => {},
        }
        let result = self.add_item_to_queue(item);
        match result {
            Err(e) => {
                return Err(e);
            },
            Ok(()) => {},
        }
        proof {
            self.lemma_wf_after_enqueue(*old(self), m, priority);
        }
        Ok(CreatedMessage { id })
    }

    /// Conservation survives an enqueue: the one new live id is queued or
    /// handed off.
    proof fn lemma_wf_after_enqueue(&self, pre: QueueServer, m: ItemModel, priority: Priority)
        requires
            pre.wf(),
            priority is High ==> self.log_high() == pre.log_high().push(m) && self.log_low()
                == pre.log_low(),
            priority is Low ==> self.log_low() == pre.log_low().push(m) && self.log_high()
                == pre.log_high(),
            self.log_completed() == pre.log_completed(),
            self.processing_entries() == pre.processing_entries(),
            self.file_manager_wf(),
            queued_at_tail(pre, *self, m, priority),
        ensures
            self.wf(),
    {
        lemma_live_ids(pre.log_high(), pre.log_completed());
        lemma_live_ids(pre.log_low(), pre.log_completed());
        lemma_live_ids(self.log_high(), self.log_completed());
        lemma_live_ids(self.log_low(), self.log_completed());
        if priority is High {
            lemma_item_ids_snoc(pre.log_high(), m);
        } else {
            lemma_item_ids_snoc(pre.log_low(), m);
        }
        if self.high_models() == pre.high_models().push(m) {
            lemma_item_ids_snoc(pre.high_models(), m);
        }
        if self.low_models() == pre.low_models().push(m) {
            lemma_item_ids_snoc(pre.low_models(), m);
        }
        assert forall|x: u128| self.live_ids().contains(x) implies self.reachable_ids().contains(
            x,
        ) by {
            if x != m.id {
                assert(pre.live_ids().contains(x));
                assert(pre.reachable_ids().contains(x));
            }
        }
    }
}

/// The retry bound of a blocking pop: one rescan per tick for longer than
/// any deployment lives.
pub const WAIT_ROUNDS: u64 = 0xffff_ffff_ffff_ffff;

impl QueueServer {
    /// The scan-or-wait part of pop: take from the queues, or park on the
    /// rendezvous tick and rescan until a deliverable message shows up. In
    /// this broker nothing arrives through the rendezvous (see
    /// `slot_wait_ms`) and the queues cannot change while the caller holds
    /// the broker, so the outcome is decided by the first scan.
    #[verifier::loop_isolation(false)]
    fn pop_item(&mut self, tags: &Tags, wait_for_message: bool) -> (r: Result<
        Option<QueueItem>,
        Error,
    >)
        requires
            old(self).wf(),
        ensures
            r is Ok,
            final(self).processing_entries() == old(self).processing_entries(),
            final(self).log_high() == old(self).log_high(),
            final(self).log_low() == old(self).log_low(),
            final(self).log_completed() == old(self).log_completed(),
            final(self).pending_effects() == old(self).pending_effects(),
            final(self).file_manager_wf(),
            entries_keyed(final(self).processing_entries()),
            ({
                let caps = tags@;
                match pair_choice(old(self).high_contents(), old(self).low_contents(), caps) {
                    Some(m) => r matches Ok(Some(it)) && it == m && satisfies(m, caps) && ((
                    final(self).high_contents(),
                    final(self).low_contents(),
                    ) == pair_after_pop(
                        old(self).high_contents(),
                        old(self).low_contents(),
                        caps,
                    )) && final(self).live_ids().subset_of(
                        final(self).reachable_ids().insert(m.id),
                    ),
                    None => r matches Ok(None) && final(self).high_contents() == old(self).high_contents() && final(self).low_contents() == old(self).low_contents()
                        && final(self).wf(),
                }
            }),
    {
        let ghost caps = tags@;
        let ghost pre_high = self.high_contents();
        let ghost pre_low = self.low_contents();
        let first = match self.queue.pop(tags) {
            Err(e) => {
                return Err(e);
            },
            Ok(o) => o,
        };
        match first {
            Some(entry) => {
                proof {
                    lemma_pair_pop_ids(
                        pre_high,
                        pre_low,
                        caps,
                        entry,
                        self.high_contents(),
                        self.low_contents(),
                    );
                    lemma_model_queue_ids(pre_high);
                    lemma_model_queue_ids(pre_low);
                    lemma_model_queue_ids(self.high_contents());
                    lemma_model_queue_ids(self.low_contents());
                    assert forall|x: u128| self.live_ids().contains(x) implies self
                        .reachable_ids().insert(entry.id).contains(x) by {
                        assert(old(self).live_ids().contains(x));
                        assert(old(self).reachable_ids().contains(x));
                    }
                }
                return Ok(Some(entry));
            },
            None => {},
        }
        if !wait_for_message {
            return Ok(None);
        }
        let mut rounds: u64 = 0;
        while rounds < WAIT_ROUNDS
            invariant
                self.wf(),
                self.processing_entries() == old(self).processing_entries(),
                self.log_high() == old(self).log_high(),
                self.log_low() == old(self).log_low(),
                self.log_completed() == old(self).log_completed(),
                self.pending_effects() == old(self).pending_effects(),
                self.high_contents() == old(self).high_contents(),
                self.low_contents() == old(self).low_contents(),
            decreases WAIT_ROUNDS - rounds,
        {
            match slot_wait_ms(&mut self.slot, RESCAN_INTERVAL_MS) {
                Some(m) => {
                    // Unreachable here, but the protocol's handling stands:
                    // a deliverable rendezvous message is returned, any
                    // other goes back to the queues, never dropped.
                    if m.can_be_handled_by(tags) {
                        return Ok(Some(m));
                    } else {
                        let ghost pre = *self;
                        let put_back = self.add_item_to_queue(m);
                        match put_back {
                            Err(e) => {
                                return Err(e);
                            },
                            Ok(()) => {},
                        }
                        proof {
                            lemma_wf_after_grow(pre, *self, m@, m.priority);
                        }
                    }
                },
                None => {
                    let again = match self.queue.pop(tags) {
                        Err(e) => {
                            return Err(e);
                        },
                        Ok(o) => o,
                    };
                    match again {
                        Some(entry) => {
                            proof {
                                assert(false);
                            }
                            return Ok(Some(entry));
                        },
                        None => {},
                    }
                },
            }
            rounds = rounds + 1;
        }
        Ok(None)
    }

    /// Takes the first deliverable message — High before Low, oldest first —
    /// and records it as in flight under the caller's ownership. Nothing can
    /// refill the queues while the caller holds the broker, so the outcome
    /// is the first scan's either way; a host that wants to block drives
    /// the retries itself at [`RESCAN_INTERVAL_MS`].
    pub fn pop(&mut self, capabilities: Vec<String>, wait_for_message: bool) -> (r: Result<
        Option<QueueItem>,
        Error,
    >)
        requires
            old(self).wf(),
        ensures
            final(self).wf(),
            r is Ok,
            final(self).log_high() == old(self).log_high(),
            final(self).log_low() == old(self).log_low(),
            final(self).log_completed() == old(self).log_completed(),
            final(self).pending_effects() == old(self).pending_effects(),
            ({
                let caps = crate::models::tag_set_of(
                    capabilities@.map_values(|s: String| s@),
                );
                match pair_choice(old(self).high_contents(), old(self).low_contents(), caps) {
                    Some(m) => r matches Ok(Some(it)) && it == m && satisfies(m, caps) && final(self).processing_entries() == remove_entry(
                        old(self).processing_entries(),
                        m.id,
                    ).push((m@.id, m@)) && ((
                    final(self).high_contents(),
                    final(self).low_contents(),
                    ) == pair_after_pop(
                        old(self).high_contents(),
                        old(self).low_contents(),
                        caps,
                    )),
                    None => r matches Ok(None) && final(self).processing_entries() == old(self).processing_entries() && final(self).high_contents() == old(self).high_contents() && final(self).low_contents() == old(self).low_contents(),
                }
            }),
    {
        let tags = Tags::from_tag_strings(capabilities);
        proof {
            tags.lemma_view_is_list_set();
        }
        let item = match self.pop_item(&tags, wait_for_message) {
            Err(e) => {
                return Err(e);
            },
            Ok(None) => {
                return Ok(None);
            },
            Ok(Some(item)) => item,
        };
        let ghost mid = *self;
        let copy = crate::models::clone_item(&item);
        let ghost copy_id = copy.id;
        entries_insert(&mut self.processing, copy);
        proof {
            assert(copy_id == item.id);
            lemma_remove_entry_props(mid.processing_entries(), item@.id);
            lemma_remove_entry_keyed(mid.processing_entries(), item@.id);
            assert(entries_keyed(self.processing_entries())) by {
                let l = self.processing_entries();
                let re = remove_entry(mid.processing_entries(), item@.id);
                assert forall|k: int| 0 <= k < l.len() implies (#[trigger] l[k]).0
                    == l[k].1.id by {
                    if k < l.len() - 1 {
                        assert(l[k] == re[k]);
                    } else {
                        assert(l[k] == (item@.id, item@));
                    }
                }
            }
            assert(entry_ids(self.processing_entries()) =~= entry_ids(
                mid.processing_entries(),
            ).insert(item.id)) by {
                let l2 = self.processing_entries();
                let l1 = remove_entry(mid.processing_entries(), item@.id);
                assert forall|x: u128| #[trigger] entry_ids(l2).contains(x) <==> entry_ids(
                    mid.processing_entries(),
                ).insert(item.id).contains(x) by {
                    if entry_ids(l2).contains(x) {
                        let k = choose|k: int| 0 <= k < l2.len() && l2[k].0 == x;
                        if k < l2.len() - 1 {
                            assert(l1[k].0 == x);
                            assert(entry_ids(l1).contains(x));
                        }
                    }
                    if entry_ids(mid.processing_entries()).contains(x) && x != item@.id {
                        assert(entry_ids(l1).contains(x));
                        let k = choose|k: int| 0 <= k < l1.len() && l1[k].0 == x;
                        assert(l2[k].0 == x);
                    }
                    if x == item@.id {
                        assert(l2[l2.len() - 1].0 == x);
                    }
                }
            }
            assert forall|x: u128| self.live_ids().contains(x) implies self
                .reachable_ids().contains(x) by {
                assert(mid.live_ids().contains(x));
                assert(mid.reachable_ids().insert(item.id).contains(x));
            }
        }
        Ok(Some(item))
    }

    /// Removes the id from the in-flight map — a repeat call changes nothing
    /// there — and appends it to the completion log, so restart will not
    /// deliver it again.
    pub fn acknowledge(&mut self, id: u128) -> (r: Result<(), Error>)
        requires
            old(self).wf(),
        ensures
            final(self).wf(),
            r is Ok,
            final(self).processing_entries() == remove_entry(old(self).processing_entries(), id),
            final(self).log_completed() == old(self).log_completed().push(id),
            final(self).log_high() == old(self).log_high(),
            final(self).log_low() == old(self).log_low(),
            final(self).high_contents() == old(self).high_contents(),
            final(self).low_contents() == old(self).low_contents(),
            final(self).pending_effects().len() == old(self).pending_effects().len() + 1,
            final(self).pending_effects().drop_last() == old(self).pending_effects(),
            final(self).pending_effects().last() matches StoreEffect::Append(t, b, f) && b@
                == crate::codec::enc_u128(id) && f && t == LogFile::Completed,
    {
        let _removed = entries_remove(&mut self.processing, id);
        match self.file_manager.mark_as_completed(id) {
            Err(e) => {
                return Err(Error::from(e));
            },
            Ok(()) => {},
        }
        proof {
            lemma_remove_entry_props(old(self).processing_entries(), id);
            lemma_remove_entry_keyed(old(self).processing_entries(), id);
            lemma_live_ids(self.log_high(), self.log_completed());
            lemma_live_ids(self.log_low(), self.log_completed());
            lemma_live_ids(old(self).log_high(), old(self).log_completed());
            lemma_live_ids(old(self).log_low(), old(self).log_completed());
            assert forall|x: u128| self.live_ids().contains(x) implies self
                .reachable_ids().contains(x) by {
                assert(id_set(self.log_completed()).contains(id)) by {
                    assert(self.log_completed()[self.log_completed().len() - 1] == id);
                }
                assert(x != id);
                assert forall|y: u128| id_set(old(self).log_completed()).contains(y) implies
                    id_set(self.log_completed()).contains(y) by {
                    let k = choose|k: int|
                        0 <= k < old(self).log_completed().len() && old(self).log_completed()[k]
                            == y;
                    assert(self.log_completed()[k] == y);
                }
                assert(old(self).live_ids().contains(x));
                assert(old(self).reachable_ids().contains(x));
            }
        }
        Ok(())
    }

    /// Removes the id from the in-flight map and, when it was there, puts
    /// the message back into circulation. Nothing is written to the
    /// completion log: the original record still owes the message.
    pub fn fail(&mut self, id: u128) -> (r: Result<(), Error>)
        requires
            old(self).wf(),
        ensures
            final(self).wf(),
            r is Ok,
            final(self).processing_entries() == remove_entry(old(self).processing_entries(), id),
            final(self).log_high() == old(self).log_high(),
            final(self).log_low() == old(self).log_low(),
            final(self).log_completed() == old(self).log_completed(),
            final(self).pending_effects() == old(self).pending_effects(),
            entry_ids(old(self).processing_entries()).contains(id) ==> (exists|m: ItemModel|
                old(self).processing_entries().contains((id, m)) && #[trigger] queued_at_tail(
                    *old(self),
                    *final(self),
                    m,
                    m.priority,
                )),
            !entry_ids(old(self).processing_entries()).contains(id) ==> final(self).high_contents() == old(self).high_contents() && final(self).low_contents() == old(self).low_contents(),
    {
        let item = entries_remove(&mut self.processing, id);
        proof {
            lemma_remove_entry_props(old(self).processing_entries(), id);
            lemma_remove_entry_keyed(old(self).processing_entries(), id);
        }
        match item {
            Some(item) => {
                let ghost mid = *self;
                let ghost m = item@;
                proof {
                    let j = choose|j: int|
                        0 <= j < old(self).processing_entries().len() && old(self).processing_entries()[j] == (id, m);
                    assert(m.id == id);
                    assert(m.priority == item.priority);
                }
                let r = self.add_item_to_queue(item);
                match r {
                    Err(e) => {
                        return Err(e);
                    },
                    Ok(()) => {},
                }
                proof {
                    assert(mid.high_models() == old(self).high_models());
                    assert(mid.low_models() == old(self).low_models());
                    assert(queued_at_tail(*old(self), *self, m, m.priority));
                    if self.high_models() == mid.high_models().push(m) {
                        lemma_item_ids_snoc(mid.high_models(), m);
                    }
                    if self.low_models() == mid.low_models().push(m) {
                        lemma_item_ids_snoc(mid.low_models(), m);
                    }
                    assert forall|x: u128| self.live_ids().contains(x) implies self
                        .reachable_ids().contains(x) by {
                        assert(old(self).live_ids().contains(x));
                        assert(old(self).reachable_ids().contains(x));
                        if entry_ids(old(self).processing_entries()).contains(x) && x != id {
                            assert(entry_ids(self.processing_entries()).contains(x));
                        }
                    }
                }
                Ok(())
            },
            None => {
                proof {
                    assert forall|x: u128| self.live_ids().contains(x) implies self
                        .reachable_ids().contains(x) by {
                        assert(old(self).reachable_ids().contains(x));
                        if entry_ids(old(self).processing_entries()).contains(x) {
                            assert(x != id);
                            assert(entry_ids(self.processing_entries()).contains(x));
                        }
                    }
                }
                Ok(())
            },
        }
    }

    /// Rewrites the durable log without completed records. The live set, and
    /// with it everything the broker owes, is unchanged.
    pub fn run_garbage_collection(&mut self) -> (r: Result<(), Error>)
        requires
            old(self).wf(),
        ensures
            final(self).wf(),
            r is Ok,
            final(self).log_high() == live_of(old(self).log_high(), old(self).log_completed()),
            final(self).log_low() == live_of(old(self).log_low(), old(self).log_completed()),
            final(self).log_completed() == Seq::<u128>::empty(),
            live_of(final(self).log_high(), final(self).log_completed()) == live_of(
                old(self).log_high(),
                old(self).log_completed(),
            ),
            live_of(final(self).log_low(), final(self).log_completed()) == live_of(
                old(self).log_low(),
                old(self).log_completed(),
            ),
            final(self).high_contents() == old(self).high_contents(),
            final(self).low_contents() == old(self).low_contents(),
            final(self).processing_entries() == old(self).processing_entries(),
            final(self).pending_effects().len() == old(self).pending_effects().len() + 1,
            final(self).pending_effects().drop_last() == old(self).pending_effects(),
            final(self).pending_effects().last() matches StoreEffect::Rewrite(h, l) && h@
                == crate::codec::enc_stream(
                live_of(old(self).log_high(), old(self).log_completed()),
            ) && l@ == crate::codec::enc_stream(
                live_of(old(self).log_low(), old(self).log_completed()),
            ),
    {
        match self.file_manager.run_garbage_collection() {
            Err(e) => {
                return Err(Error::from(e));
            },
            Ok(()) => {},
        }
        proof {
            assert forall|x: u128| self.live_ids().contains(x) implies self
                .reachable_ids().contains(x) by {
                assert(old(self).live_ids().contains(x));
                assert(old(self).reachable_ids().contains(x));
            }
        }
        Ok(())
    }

    /// Forces buffered writes on all three log files.
    pub fn flush_data(&mut self) -> (r: Result<(), Error>)
        requires
            old(self).wf(),
        ensures
            final(self).wf(),
            r is Ok,
            final(self).log_high() == old(self).log_high(),
            final(self).log_low() == old(self).log_low(),
            final(self).log_completed() == old(self).log_completed(),
            final(self).high_contents() == old(self).high_contents(),
            final(self).low_contents() == old(self).low_contents(),
            final(self).processing_entries() == old(self).processing_entries(),
            final(self).pending_effects() == old(self).pending_effects().push(
                StoreEffect::FlushAll,
            ),
    {
        match self.file_manager.flush_data() {
            Err(e) => Err(Error::from(e)),
            Ok(()) => Ok(()),
        }
    }

    /// Hands the queued storage effects to the host program.
    pub fn take_effects(&mut self) -> (r: Vec<StoreEffect>)
        requires
            old(self).wf(),
        ensures
            final(self).wf(),
            r@ == old(self).pending_effects(),
            final(self).pending_effects() == Seq::<StoreEffect>::empty(),
            final(self).log_high() == old(self).log_high(),
            final(self).log_low() == old(self).log_low(),
            final(self).log_completed() == old(self).log_completed(),
            final(self).high_contents() == old(self).high_contents(),
            final(self).low_contents() == old(self).low_contents(),
            final(self).processing_entries() == old(self).processing_entries(),
    {
        self.file_manager.take_effects()
    }

    /// Gives up the broker and hands back its durable state, as a shutdown
    /// with all writes flushed leaves it on disk.
    pub fn into_manager(self) -> (r: InternalQueueFileManager)
        ensures
            r.high_items() == self.log_high(),
            r.low_items() == self.log_low(),
            r.completed_ids() == self.log_completed(),
            r.wf() == self.file_manager_wf(),
            r.spec_require_flush() == self.spec_require_flush(),
    {
        self.file_manager
    }
}

/// Conservation survives a queue-only growth: the live set is unchanged and
/// the reachable set only gains ids.
proof fn lemma_wf_after_grow(pre: QueueServer, post: QueueServer, m: ItemModel, priority: Priority)
    requires
        pre.wf(),
        post.log_high() == pre.log_high(),
        post.log_low() == pre.log_low(),
        post.log_completed() == pre.log_completed(),
        post.processing_entries() == pre.processing_entries(),
        post.file_manager_wf(),
        queued_at_tail(pre, post, m, priority),
    ensures
        post.wf(),
{
    if post.high_models() == pre.high_models().push(m) {
        lemma_item_ids_snoc(pre.high_models(), m);
    }
    if post.low_models() == pre.low_models().push(m) {
        lemma_item_ids_snoc(pre.low_models(), m);
    }
    assert forall|x: u128| post.live_ids().contains(x) implies post.reachable_ids().contains(
        x,
    ) by {
        assert(pre.live_ids().contains(x));
        assert(pre.reachable_ids().contains(x));
    }
}

// ---------------------------------------------------------------------------
// Laws
// ---------------------------------------------------------------------------

/// The conservation property, spelled out: in a well-formed broker every
/// logged id that was never completed is in a queue or in the in-flight
/// map — never lost. Each public operation keeps the broker well formed,
/// so this holds after any sequence of them.
pub proof fn lemma_no_message_lost(qs: &QueueServer)
    requires
        qs.wf(),
    ensures
        qs.live_ids().subset_of(qs.reachable_ids()),
{
}

/// Capability monotonicity across the queue pair: when a pop with the
/// broader set `caps1` would deliver `m`, a pop with the narrower `caps2`
/// would deliver the same message exactly when it still covers `m`'s
/// required tags.
pub proof fn lemma_pair_choice_monotone(
    high: Seq<QueueItem>,
    low: Seq<QueueItem>,
    caps1: Set<Seq<char>>,
    caps2: Set<Seq<char>>,
    m: QueueItem,
)
    requires
        caps2.subset_of(caps1),
        pair_choice(high, low, caps1) == Some(m),
    ensures
        pair_choice(high, low, caps2) == Some(m) <==> satisfies(m, caps2),
{
    if has_match(high, caps1) {
        crate::queue::lemma_pop_capability_monotone(high, caps1, caps2);
        if satisfies(m, caps2) {
            assert(has_match(high, caps2));
        }
        if has_match(high, caps2) {
            crate::queue::lemma_first_match(high, caps2);
        } else if has_match(low, caps2) {
            crate::queue::lemma_first_match(low, caps2);
            if pair_choice(high, low, caps2) == Some(m) {
                assert(satisfies(m, caps2));
                assert(m.required_tags@.subset_of(caps1));
                assert(has_match(high, caps2));
            }
        }
    } else {
        assert(!has_match(high, caps2)) by {
            if has_match(high, caps2) {
                let k = choose|k: int|
                    0 <= k < high.len() && satisfies(#[trigger] high[k], caps2);
                assert(satisfies(high[k], caps1));
            }
        }
        crate::queue::lemma_pop_capability_monotone(low, caps1, caps2);
    }
}

/// Order within a capability class, across the queue pair: of two messages
/// in the same priority queue with identical required tags, a consumer that
/// can take either is never given the later one while the earlier is still
/// queued.
pub proof fn lemma_pair_same_class_order(
    high: Seq<QueueItem>,
    low: Seq<QueueItem>,
    caps: Set<Seq<char>>,
    in_high: bool,
    i: int,
    j: int,
)
    requires
        in_high ==> 0 <= i < j < high.len() && high[i].required_tags@ == high[j].required_tags@
            && satisfies(high[j], caps),
        !in_high ==> 0 <= i < j < low.len() && low[i].required_tags@ == low[j].required_tags@
            && satisfies(low[j], caps) && !has_match(high, caps),
    ensures
        in_high ==> pair_choice(high, low, caps) == Some(
            high[first_match_index(high, caps)],
        ) && first_match_index(high, caps) <= i,
        !in_high ==> pair_choice(high, low, caps) == Some(
            low[first_match_index(low, caps)],
        ) && first_match_index(low, caps) <= i,
{
    if in_high {
        crate::queue::lemma_same_class_order(high, caps, i, j);
    } else {
        crate::queue::lemma_same_class_order(low, caps, i, j);
    }
}

/// Acknowledgement is idempotent: a second acknowledgement of the same id
/// leaves the live set and the in-flight map exactly as the first left
/// them; the only trace is one more completion-log record, which loading
/// ignores.
pub proof fn lemma_acknowledge_idempotent(
    l: Seq<ItemModel>,
    c: Seq<u128>,
    entries: Seq<(u128, ItemModel)>,
    id: u128,
)
    ensures
        live_of(l, c.push(id).push(id)) == live_of(l, c.push(id)),
        remove_entry(remove_entry(entries, id), id) == remove_entry(entries, id),
{
    assert forall|x: u128| c.push(id).push(id).contains(x) <==> c.push(id).contains(x) by {
        if c.push(id).push(id).contains(x) {
            let k = choose|k: int|
                0 <= k < c.push(id).push(id).len() && c.push(id).push(id)[k] == x;
            if k < c.push(id).len() {
                assert(c.push(id)[k] == x);
            } else {
                assert(x == id);
                assert(c.push(id)[c.len() as int] == x);
            }
        }
        if c.push(id).contains(x) {
            let k = choose|k: int| 0 <= k < c.push(id).len() && c.push(id)[k] == x;
            assert(c.push(id).push(id)[k] == x);
        }
    }
    lemma_live_of_equiv(l, c.push(id).push(id), c.push(id));
    lemma_remove_entry_props(entries, id);
    lemma_filter_noop(remove_entry(entries, id), id);
}

/// Two completion lists with the same membership induce the same live set.
proof fn lemma_live_of_equiv(l: Seq<ItemModel>, c1: Seq<u128>, c2: Seq<u128>)
    requires
        forall|x: u128| c1.contains(x) <==> c2.contains(x),
    ensures
        live_of(l, c1) == live_of(l, c2),
    decreases l.len(),
{
    reveal(Seq::filter);
    if l.len() != 0 {
        lemma_live_of_equiv(l.drop_last(), c1, c2);
    }
}

/// Filtering a list that already has no entry under the id changes nothing.
proof fn lemma_filter_noop(entries: Seq<(u128, ItemModel)>, id: u128)
    requires
        forall|k: int| 0 <= k < entries.len() ==> (#[trigger] entries[k]).0 != id,
    ensures
        remove_entry(entries, id) == entries,
    decreases entries.len(),
{
    reveal(Seq::filter);
    if entries.len() != 0 {
        let sub = entries.drop_last();
        assert forall|k: int| 0 <= k < sub.len() implies (#[trigger] sub[k]).0 != id by {
            assert(sub[k] == entries[k]);
        }
        lemma_filter_noop(sub, id);
        assert(remove_entry(entries, id) =~= entries);
    } else {
        assert(remove_entry(entries, id) =~= entries);
    }
}

/// Restart round-trip: the ids a reconstruction yields are exactly the
/// enqueued ids minus the acknowledged ones.
pub proof fn lemma_restart_round_trip(
    high: Seq<ItemModel>,
    low: Seq<ItemModel>,
    completed: Seq<u128>,
)
    ensures
        item_ids(live_of(high, completed)).union(item_ids(live_of(low, completed)))
            == item_ids(high).union(item_ids(low)).difference(id_set(completed)),
{
    lemma_live_ids(high, completed);
    lemma_live_ids(low, completed);
    assert(item_ids(live_of(high, completed)).union(item_ids(live_of(low, completed)))
        =~= item_ids(high).union(item_ids(low)).difference(id_set(completed)));
}

/// The message sits at the tail of its priority queue and the other queue
/// is untouched.
pub open spec fn queued_at_tail(
    pre: QueueServer,
    post: QueueServer,
    m: ItemModel,
    priority: Priority,
) -> bool {
    if priority is High {
        post.high_models() == pre.high_models().push(m) && post.low_models()
            == pre.low_models()
    } else {
        post.low_models() == pre.low_models().push(m) && post.high_models()
            == pre.high_models()
    }
}

/// The queue after the message at position `i` left: the entries behind it,
/// then the skipped prefix, re-entered at the tail in its order.
pub open spec fn rotated(l: Seq<QueueItem>, i: int) -> Seq<QueueItem> {
    l.subrange(i + 1, l.len() as int) + l.take(i)
}

/// Both queues after a single pop attempt: the matched queue rotated around
/// the delivered message, the other untouched; with no match, both as they
/// were.
pub open spec fn pair_after_pop(
    high: Seq<QueueItem>,
    low: Seq<QueueItem>,
    caps: Set<Seq<char>>,
) -> (Seq<QueueItem>, Seq<QueueItem>) {
    if has_match(high, caps) {
        (rotated(high, first_match_index(high, caps)), low)
    } else if has_match(low, caps) {
        (high, rotated(low, first_match_index(low, caps)))
    } else {
        (high, low)
    }
}

/// The ids of a queue are the ids of its models.
proof fn lemma_model_queue_ids(l: Seq<QueueItem>)
    ensures
        queue_ids(l) == item_ids(l.map_values(|it: QueueItem| it@)),
{
    let models = l.map_values(|it: QueueItem| it@);
    assert forall|id: u128| #[trigger] queue_ids(l).contains(id) <==> item_ids(
        models,
    ).contains(id) by {
        if queue_ids(l).contains(id) {
            let k = choose|k: int| 0 <= k < l.len() && l[k].id == id;
            assert(models[k].id == id);
        }
        if item_ids(models).contains(id) {
            let k = choose|k: int| 0 <= k < models.len() && models[k].id == id;
            assert(l[k].id == id);
        }
    }
    assert(queue_ids(l) =~= item_ids(models));
}

/// Pushes each loaded item, in order, to the tail of the queue.
#[verifier::loop_isolation(false)]
fn replay(q: &mut Queue, items: Vec<QueueItem>)
    ensures
        final(q).contents() == old(q).contents() + items@,
{
    let ghost init = items@;
    let mut rest = items;
    while rest.len() > 0
        invariant
            q.contents() + rest@ == old(q).contents() + init,
        decreases rest@.len(),
    {
        let it = rest.remove(0);
        let r = q.enqueue(it);
        proof {
            assert(q.contents() + rest@ =~= old(q).contents() + init);
        }
    }
    proof {
        assert(q.contents() =~= q.contents() + rest@);
    }
}

} // verus!
