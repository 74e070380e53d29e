//! The durable log: an append-only record stream per priority plus a
//! completion stream, with garbage collection that rewrites the item streams
//! to drop completed records.
//!
//! The manager holds the byte contents of the three logs and proves how every
//! operation changes them. The actual files live with the host program, which
//! drains the queued [`StoreEffect`]s and applies each to disk.

use vstd::prelude::*;

use crate::codec::{
    enc_id_stream, enc_item, enc_stream, encode_item_vec, item_bounded, lemma_dec_enc_id_stream,
    lemma_dec_enc_stream, lemma_enc_id_stream_snoc, lemma_enc_stream_snoc, read_ids, read_items,
    stream_bounded,
};
use crate::models::{ItemModel, Priority, QueueItem};

verus! {

/// Which of the three log files an effect addresses.
#[derive(Clone, Copy, Debug, PartialEq, Eq, Structural)]
pub enum LogFile {
    High,
    Low,
    Completed,
}

/// One pending change to the on-disk logs. The host applies these in order.
pub enum StoreEffect {
    /// Append the bytes to the file; flush it afterwards when asked to.
    Append(LogFile, Vec<u8>, bool),
    /// Replace the two item files with the given contents and truncate the
    /// completion file, following the backup-rename-rewrite steps of
    /// garbage collection.
    Rewrite(Vec<u8>, Vec<u8>),
    /// Flush all three files.
    FlushAll,
}

/// Storage failures. The in-memory log model itself cannot fail; these
/// variants mirror what the host reports when applying effects to disk.
#[derive(Clone, Copy, Debug, PartialEq, Eq, Structural)]
pub enum Error {
    IOError,
    FailedToSerializeWorkItem,
    MutexCorrupted,
    GarbageCollectionFailed,
}

/// The live items read back from the logs, per priority.
pub struct StoredItems {
    pub high_priority: Vec<QueueItem>,
    pub low_priority: Vec<QueueItem>,
}

/// The items of `l` whose id is not in `completed`, in order.
pub open spec fn live_of(l: Seq<ItemModel>, completed: Seq<u128>) -> Seq<ItemModel> {
    l.filter(|m: ItemModel| !completed.contains(m.id))
}

/// One unfolding step of `live_of` along a left-to-right walk.
pub proof fn lemma_live_of_step(l: Seq<ItemModel>, completed: Seq<u128>, k: int)
    requires
        0 <= k < l.len(),
    ensures
        live_of(l.take(k + 1), completed) == if completed.contains(l[k].id) {
            live_of(l.take(k), completed)
        } else {
            live_of(l.take(k), completed).push(l[k])
        },
{
    reveal(Seq::filter);
    assert(l.take(k + 1).drop_last() =~= l.take(k));
    assert(l.take(k + 1).last() == l[k]);
}

pub struct InternalQueueFileManager {
    high: Vec<u8>,
    low: Vec<u8>,
    completed: Vec<u8>,
    require_flush: bool,
    pending: Vec<StoreEffect>,
    high_log: Ghost<Seq<ItemModel>>,
    low_log: Ghost<Seq<ItemModel>>,
    completed_log: Ghost<Seq<u128>>,
}

impl InternalQueueFileManager {
    /// The items ever appended to the high-priority log, in order.
    pub closed spec fn high_items(&self) -> Seq<ItemModel> {
        self.high_log@
    }

    /// The items ever appended to the low-priority log, in order.
    pub closed spec fn low_items(&self) -> Seq<ItemModel> {
        self.low_log@
    }

    /// The ids appended to the completion log, in order.
    pub closed spec fn completed_ids(&self) -> Seq<u128> {
        self.completed_log@
    }

    /// The byte contents of the three logs.
    pub closed spec fn high_bytes(&self) -> Seq<u8> {
        self.high@
    }

    pub closed spec fn low_bytes(&self) -> Seq<u8> {
        self.low@
    }

    pub closed spec fn completed_bytes(&self) -> Seq<u8> {
        self.completed@
    }

    pub closed spec fn spec_require_flush(&self) -> bool {
        self.require_flush
    }

    /// The queued effects, as pending values.
    pub closed spec fn pending_effects(&self) -> Seq<StoreEffect> {
        self.pending@
    }

    /// The log bytes are exactly the encodings of the logged records.
    pub closed spec fn wf(&self) -> bool {
        &&& self.high@ == enc_stream(self.high_log@)
        &&& self.low@ == enc_stream(self.low_log@)
        &&& self.completed@ == enc_id_stream(self.completed_log@)
        &&& stream_bounded(self.high_log@)
        &&& stream_bounded(self.low_log@)
    }

    /// The live set: every logged item whose id was never completed.
    pub open spec fn live_high(&self) -> Seq<ItemModel> {
        live_of(self.high_items(), self.completed_ids())
    }

    pub open spec fn live_low(&self) -> Seq<ItemModel> {
        live_of(self.low_items(), self.completed_ids())
    }

    /// A manager over three empty logs.
    pub fn new(require_flush: bool) -> (r: InternalQueueFileManager)
        ensures
            r.wf(),
            r.high_items() == Seq::<ItemModel>::empty(),
            r.low_items() == Seq::<ItemModel>::empty(),
            r.completed_ids() == Seq::<u128>::empty(),
            r.pending_effects() == Seq::<StoreEffect>::empty(),
            r.spec_require_flush() == require_flush,
    {
        let r = InternalQueueFileManager {
            high: Vec::new(),
            low: Vec::new(),
            completed: Vec::new(),
            require_flush,
            pending: Vec::new(),
            high_log: Ghost(Seq::empty()),
            low_log: Ghost(Seq::empty()),
            completed_log: Ghost(Seq::empty()),
        };
        r
    }

    /// Appends one item record to the log of its priority class. The record
    /// write is the commit point of an enqueue.
    pub fn save_item(&mut self, item: &QueueItem) -> (r: Result<(), Error>)
        requires
            old(self).wf(),
        ensures
            final(self).wf(),
            r is Ok,
            item.priority is High ==> final(self).high_items() == old(self).high_items().push(
                item@,
            ) && final(self).low_items() == old(self).low_items(),
            item.priority is Low ==> final(self).low_items() == old(self).low_items().push(item@)
                && final(self).high_items() == old(self).high_items(),
            final(self).completed_ids() == old(self).completed_ids(),
            final(self).spec_require_flush() == old(self).spec_require_flush(),
            final(self).pending_effects().len() == old(self).pending_effects().len() + 1,
            final(self).pending_effects().drop_last() == old(self).pending_effects(),
            final(self).pending_effects().last() matches StoreEffect::Append(t, b, f) && b@
                == enc_item(item@) && f == old(self).spec_require_flush() && t == (
            if item.priority is High {
                LogFile::High
            } else {
                LogFile::Low
            }),
    {
        let bytes = encode_item_vec(item);
        let target: LogFile = match item.priority {
            Priority::High => {
                self.high.extend_from_slice(bytes.as_slice());
                proof {
                    assert(self.high@ =~= old(self).high@ + enc_item(item@));
                    lemma_enc_stream_snoc(self.high_log@, item@);
                }
                self.high_log = Ghost(self.high_log@.push(item@));
                LogFile::High
            },
            Priority::Low => {
                self.low.extend_from_slice(bytes.as_slice());
                proof {
                    assert(self.low@ =~= old(self).low@ + enc_item(item@));
                    lemma_enc_stream_snoc(self.low_log@, item@);
                }
                self.low_log = Ghost(self.low_log@.push(item@));
                LogFile::Low
            },
        };
        self.pending.push(StoreEffect::Append(target, bytes, self.require_flush));
        proof {
            assert forall|k: int|
                0 <= k < self.high_log@.len() implies item_bounded(
                #[trigger] self.high_log@[k],
            ) by {
                if k < old(self).high_log@.len() {
                    assert(self.high_log@[k] == old(self).high_log@[k]);
                } else {
                    assert(self.high_log@[k] == item@);
                }
            }
            assert forall|k: int|
                0 <= k < self.low_log@.len() implies item_bounded(
                #[trigger] self.low_log@[k],
            ) by {
                if k < old(self).low_log@.len() {
                    assert(self.low_log@[k] == old(self).low_log@[k]);
                } else {
                    assert(self.low_log@[k] == item@);
                }
            }
        }
        Ok(())
    }

    /// Appends one id record to the completion log. The record is always
    /// flushed: once a completion is acknowledged it must survive restart.
    pub fn mark_as_completed(&mut self, id: u128) -> (r: Result<(), Error>)
        requires
            old(self).wf(),
        ensures
            final(self).wf(),
            r is Ok,
            final(self).completed_ids() == old(self).completed_ids().push(id),
            final(self).high_items() == old(self).high_items(),
            final(self).low_items() == old(self).low_items(),
            final(self).spec_require_flush() == old(self).spec_require_flush(),
            final(self).pending_effects().len() == old(self).pending_effects().len() + 1,
            final(self).pending_effects().drop_last() == old(self).pending_effects(),
            final(self).pending_effects().last() matches StoreEffect::Append(t, b, f) && b@
                == crate::codec::enc_u128(id) && f && t == LogFile::Completed,
    {
        let mut bytes: Vec<u8> = Vec::new();
        crate::codec::write_u128(&mut bytes, id);
        self.completed.extend_from_slice(bytes.as_slice());
        proof {
            lemma_enc_id_stream_snoc(self.completed_log@, id);
            assert(bytes@ =~= crate::codec::enc_u128(id));
            assert(self.completed@ =~= old(self).completed@ + crate::codec::enc_u128(id));
        }
        self.completed_log = Ghost(self.completed_log@.push(id));
        self.pending.push(StoreEffect::Append(LogFile::Completed, bytes, true));
        Ok(())
    }

    /// Reads the two item logs back and filters out completed records: the
    /// live set, as reconstruction after a restart would see it.
    pub fn load_items(&self) -> (r: Result<StoredItems, Error>)
        requires
            self.wf(),
        ensures
            r matches Ok(items) && items.high_priority@.map_values(|it: QueueItem| it@)
                == self.live_high() && items.low_priority@.map_values(|it: QueueItem| it@)
                == self.live_low(),
    {
        let ids = read_ids(&self.completed);
        proof {
            lemma_dec_enc_id_stream(self.completed_log@);
        }
        let all_high = read_items(&self.high);
        let all_low = read_items(&self.low);
        proof {
            lemma_dec_enc_stream(self.high_log@);
            lemma_dec_enc_stream(self.low_log@);
        }
        let high_priority = filter_live(all_high, &ids);
        let low_priority = filter_live(all_low, &ids);
        Ok(StoredItems { high_priority, low_priority })
    }

    /// Rewrites the item logs without their completed records and empties the
    /// completion log. The live set is unchanged.
    pub fn run_garbage_collection(&mut self) -> (r: Result<(), Error>)
        requires
            old(self).wf(),
        ensures
            final(self).wf(),
            r is Ok,
            final(self).high_items() == old(self).live_high(),
            final(self).low_items() == old(self).live_low(),
            final(self).completed_ids() == Seq::<u128>::empty(),
            final(self).live_high() == old(self).live_high(),
            final(self).live_low() == old(self).live_low(),
            final(self).spec_require_flush() == old(self).spec_require_flush(),
            final(self).pending_effects().len() == old(self).pending_effects().len() + 1,
            final(self).pending_effects().drop_last() == old(self).pending_effects(),
            final(self).pending_effects().last() matches StoreEffect::Rewrite(h, l) && h@
                == enc_stream(old(self).live_high()) && l@ == enc_stream(old(self).live_low()),
    {
        let ids = read_ids(&self.completed);
        proof {
            lemma_dec_enc_id_stream(self.completed_log@);
        }
        let all_high = read_items(&self.high);
        let all_low = read_items(&self.low);
        proof {
            lemma_dec_enc_stream(self.high_log@);
            lemma_dec_enc_stream(self.low_log@);
        }
        let live_high = filter_live(all_high, &ids);
        let live_low = filter_live(all_low, &ids);
        let new_high = encode_all(&live_high);
        let new_low = encode_all(&live_low);
        let high_copy = crate::models::copy_bytes(&new_high);
        let low_copy = crate::models::copy_bytes(&new_low);
        self.high = new_high;
        self.low = new_low;
        self.completed = Vec::new();
        self.high_log = Ghost(live_of(self.high_log@, self.completed_log@));
        self.low_log = Ghost(live_of(self.low_log@, self.completed_log@));
        self.completed_log = Ghost(Seq::empty());
        self.pending.push(StoreEffect::Rewrite(high_copy, low_copy));
        proof {
            lemma_live_of_empty(self.high_log@);
            lemma_live_of_empty(self.low_log@);
            lemma_filter_bounded(old(self).high_log@, old(self).completed_log@);
            lemma_filter_bounded(old(self).low_log@, old(self).completed_log@);
        }
        Ok(())
    }

    /// Asks the host to flush all three files.
    pub fn flush_data(&mut self) -> (r: Result<(), Error>)
        requires
            old(self).wf(),
        ensures
            final(self).wf(),
            r is Ok,
            final(self).high_items() == old(self).high_items(),
            final(self).low_items() == old(self).low_items(),
            final(self).completed_ids() == old(self).completed_ids(),
            final(self).spec_require_flush() == old(self).spec_require_flush(),
            final(self).pending_effects() == old(self).pending_effects().push(
                StoreEffect::FlushAll,
            ),
    {
        self.pending.push(StoreEffect::FlushAll);
        Ok(())
    }

    /// Hands the queued effects to the host and clears the queue.
    pub fn take_effects(&mut self) -> (r: Vec<StoreEffect>)
        ensures
            final(self).pending_effects() == Seq::<StoreEffect>::empty(),
            r@ == old(self).pending_effects(),
            final(self).wf() == old(self).wf(),
            final(self).high_items() == old(self).high_items(),
            final(self).low_items() == old(self).low_items(),
            final(self).completed_ids() == old(self).completed_ids(),
            final(self).spec_require_flush() == old(self).spec_require_flush(),
    {
        let mut out: Vec<StoreEffect> = Vec::new();
        core::mem::swap(&mut out, &mut self.pending);
        out
    }

    /// The current byte contents of the three logs, for persisting whole.
    pub fn contents(&self) -> (r: (Vec<u8>, Vec<u8>, Vec<u8>))
        ensures
            r.0@ == self.high_bytes(),
            r.1@ == self.low_bytes(),
            r.2@ == self.completed_bytes(),
    {
        (crate::models::copy_bytes(&self.high), crate::models::copy_bytes(&self.low), crate::models::copy_bytes(&self.completed))
    }

    /// Rebuilds a manager from bytes read off disk. Each log is decoded and
    /// re-encoded, so trailing bytes that do not form a record are dropped;
    /// the records that were fully written all survive.
    pub fn from_contents(
        high: Vec<u8>,
        low: Vec<u8>,
        completed: Vec<u8>,
        require_flush: bool,
    ) -> (r: InternalQueueFileManager)
        ensures
            r.wf(),
            r.high_items() == crate::codec::dec_stream(high@, 0),
            r.low_items() == crate::codec::dec_stream(low@, 0),
            r.completed_ids() == crate::codec::dec_id_stream(completed@, 0),
            r.pending_effects() == Seq::<StoreEffect>::empty(),
            r.spec_require_flush() == require_flush,
    {
        let high_items = read_items(&high);
        let low_items = read_items(&low);
        let ids = read_ids(&completed);
        let high_bytes = encode_all(&high_items);
        let low_bytes = encode_all(&low_items);
        let mut completed_bytes: Vec<u8> = Vec::new();
        let mut k: usize = 0;
        while k < ids.len()
            invariant
                k <= ids@.len(),
                completed_bytes@ == enc_id_stream(ids@.take(k as int)),
            decreases ids@.len() - k,
        {
            crate::codec::write_u128(&mut completed_bytes, ids[k]);
            proof {
                lemma_enc_id_stream_snoc(ids@.take(k as int), ids@[k as int]);
                assert(ids@.take(k as int).push(ids@[k as int]) =~= ids@.take(k + 1));
            }
            k = k + 1;
        }
        proof {
            assert(ids@.take(ids@.len() as int) =~= ids@);
        }
        InternalQueueFileManager {
            high: high_bytes,
            low: low_bytes,
            completed: completed_bytes,
            require_flush,
            pending: Vec::new(),
            high_log: Ghost(high_items@.map_values(|it: QueueItem| it@)),
            low_log: Ghost(low_items@.map_values(|it: QueueItem| it@)),
            completed_log: Ghost(ids@),
        }
    }

    /// The byte-level restart round trip: a well-formed manager's log bytes
    /// are exactly the encodings of its records, and decoding them — as
    /// `from_contents` does on restart — yields those records back.
    pub proof fn lemma_contents_round_trip(&self)
        requires
            self.wf(),
        ensures
            self.high_bytes() == enc_stream(self.high_items()),
            self.low_bytes() == enc_stream(self.low_items()),
            self.completed_bytes() == enc_id_stream(self.completed_ids()),
            crate::codec::dec_stream(self.high_bytes(), 0) == self.high_items(),
            crate::codec::dec_stream(self.low_bytes(), 0) == self.low_items(),
            crate::codec::dec_id_stream(self.completed_bytes(), 0) == self.completed_ids(),
    {
        lemma_dec_enc_stream(self.high_log@);
        lemma_dec_enc_stream(self.low_log@);
        lemma_dec_enc_id_stream(self.completed_log@);
    }
}

/// Filtering away completed ids leaves a stream with no completed ids at all,
/// so a second filtering changes nothing.
proof fn lemma_live_of_empty(l: Seq<ItemModel>)
    ensures
        live_of(l, Seq::<u128>::empty()) == l,
    decreases l.len(),
{
    reveal(Seq::filter);
    if l.len() != 0 {
        lemma_live_of_empty(l.drop_last());
    }
    assert(live_of(l, Seq::<u128>::empty()) =~= l);
}

/// A filtered stream of bounded records is bounded.
proof fn lemma_filter_bounded(l: Seq<ItemModel>, c: Seq<u128>)
    requires
        stream_bounded(l),
    ensures
        stream_bounded(live_of(l, c)),
    decreases l.len(),
{
    reveal(Seq::filter);
    if l.len() != 0 {
        let sub = l.drop_last();
        assert(stream_bounded(sub)) by {
            assert forall|k: int| 0 <= k < sub.len() implies item_bounded(
                #[trigger] sub[k],
            ) by {
                assert(sub[k] == l[k]);
            }
        }
        lemma_filter_bounded(sub, c);
        let pred = |m: ItemModel| !c.contains(m.id);
        let out = live_of(l, c);
        assert forall|k: int| 0 <= k < out.len() implies item_bounded(#[trigger] out[k]) by {
            if pred(l.last()) {
                assert(out == live_of(sub, c).push(l.last()));
                if k < out.len() - 1 {
                    assert(out[k] == live_of(sub, c)[k]);
                } else {
                    assert(out[k] == l.last());
                    assert(item_bounded(l[l.len() - 1]));
                }
            } else {
                assert(out == live_of(sub, c));
            }
        }
    }
}

/// Keeps the items whose id is not among `ids`, preserving order.
fn filter_live(items: Vec<QueueItem>, ids: &Vec<u128>) -> (r: Vec<QueueItem>)
    ensures
        r@.map_values(|it: QueueItem| it@) == live_of(
            items@.map_values(|it: QueueItem| it@),
            ids@,
        ),
{
    let ghost l = items@.map_values(|it: QueueItem| it@);
    let mut out: Vec<QueueItem> = Vec::new();
    let n = items.len();
    let mut k: usize = 0;
    let mut rest = items;
    // Walk forward by index; `rest` keeps ownership of the items.
    while k < n
        invariant
            k <= n,
            n == rest@.len(),
            l == rest@.map_values(|it: QueueItem| it@),
            out@.map_values(|it: QueueItem| it@) == live_of(l.take(k as int), ids@),
        decreases n - k,
    {
        let ghost pre = out@;
        let keep = !contains_id(ids, &rest[k]);
        proof {
            lemma_live_of_step(l, ids@, k as int);
            assert(l[k as int] == rest@[k as int]@);
        }
        if keep {
            let item = crate::models::clone_item(&rest[k]);
            out.push(item);
            proof {
                assert(out@.map_values(|it: QueueItem| it@) =~= pre.map_values(
                    |it: QueueItem| it@,
                ).push(rest@[k as int]@));
            }
        }
        k = k + 1;
    }
    proof {
        assert(l.take(l.len() as int) =~= l);
    }
    out
}

/// Whether the item's id occurs in `ids`.
fn contains_id(ids: &Vec<u128>, item: &QueueItem) -> (r: bool)
    ensures
        r == ids@.contains(item@.id),
{
    let mut k: usize = 0;
    while k < ids.len()
        invariant
            k <= ids@.len(),
            forall|j: int| 0 <= j < k ==> ids@[j] != item.id,
        decreases ids@.len() - k,
    {
        if ids[k] == item.id {
            proof {
                assert(ids@[k as int] == item@.id);
            }
            return true;
        }
        k = k + 1;
    }
    proof {
        if ids@.contains(item@.id) {
            let j = choose|j: int| 0 <= j < ids@.len() && ids@[j] == item@.id;
            assert(false);
        }
    }
    false
}

/// Encodes every item into one stream.
fn encode_all(items: &Vec<QueueItem>) -> (r: Vec<u8>)
    ensures
        r@ == enc_stream(items@.map_values(|it: QueueItem| it@)),
        stream_bounded(items@.map_values(|it: QueueItem| it@)),
{
    let ghost l = items@.map_values(|it: QueueItem| it@);
    let mut out: Vec<u8> = Vec::new();
    let mut k: usize = 0;
    while k < items.len()
        invariant
            k <= items@.len(),
            l == items@.map_values(|it: QueueItem| it@),
            out@ == enc_stream(l.take(k as int)),
            forall|j: int| 0 <= j < k ==> item_bounded(#[trigger] l[j]),
        decreases items@.len() - k,
    {
        crate::codec::encode_item(&items[k], &mut out);
        proof {
            lemma_enc_stream_snoc(l.take(k as int), l[k as int]);
            assert(l.take(k as int).push(l[k as int]) =~= l.take(k + 1));
        }
        k = k + 1;
    }
    proof {
        assert(l.take(l.len() as int) =~= l);
    }
    out
}

} // verus!
