//! A single-priority in-memory FIFO with capability-filtered pop, backed by
//! a crossbeam channel.
//!
//! The queue owns both ends of its channel and cannot be cloned, so no other
//! holder can send or receive on it: its contents are exactly the items sent
//! and not yet received, in send order. The trusted wrappers below state
//! crossbeam's behaviour under that single-owner discipline.

use vstd::prelude::*;

use crossbeam::channel::{unbounded, Receiver, Sender};

use crate::models::{QueueItem, Tags};

verus! {

/// A channel with both of its ends held by one owner.
#[verifier::external_body]
pub struct ChannelFifo {
    sender: Sender<QueueItem>,
    receiver: Receiver<QueueItem>,
}

/// What the fifo holds, oldest first.
pub uninterp spec fn fifo_contents(q: ChannelFifo) -> Seq<QueueItem>;

/// Relies on crossbeam_channel::unbounded: a fresh channel holds nothing.
#[verifier::external_body]
fn fifo_new() -> (r: ChannelFifo)
    ensures
        fifo_contents(r) == Seq::<QueueItem>::empty(),
{
    let (sender, receiver) = unbounded();
    ChannelFifo { sender, receiver }
}

/// Relies on crossbeam_channel::Receiver::len: the number of messages
/// currently in the channel.
#[verifier::external_body]
fn fifo_len(q: &ChannelFifo) -> (r: usize)
    ensures
        r == fifo_contents(*q).len(),
{
    q.receiver.len()
}

/// Relies on crossbeam_channel::Sender::send on an unbounded channel: it
/// appends the message without blocking, and fails only when the channel is
/// disconnected, which cannot happen while this struct owns the receiver.
#[verifier::external_body]
fn fifo_send(q: &mut ChannelFifo, item: QueueItem)
    ensures
        fifo_contents(*final(q)) == fifo_contents(*old(q)).push(item),
{
    q.sender.send(item).expect("the receiver is owned by this fifo");
}

/// Relies on crossbeam_channel::Receiver::try_recv: it returns the oldest
/// message, or nothing when the channel is empty; disconnection cannot happen
/// while this struct owns the sender.
#[verifier::external_body]
fn fifo_try_recv(q: &mut ChannelFifo) -> (r: Option<QueueItem>)
    ensures
        match r {
            Some(item) => fifo_contents(*old(q)).len() > 0 && item == fifo_contents(*old(q))[0]
                && fifo_contents(*final(q)) == fifo_contents(*old(q)).drop_first(),
            None => fifo_contents(*old(q)).len() == 0 && fifo_contents(*final(q))
                == fifo_contents(*old(q)),
        },
{
    q.receiver.try_recv().ok()
}

/// Whether a message with these required tags may go to a consumer offering
/// `caps`.
pub open spec fn satisfies(m: QueueItem, caps: Set<Seq<char>>) -> bool {
    m.required_tags@.subset_of(caps)
}

/// Whether some queued message may go to a consumer offering `caps`.
pub open spec fn has_match(l: Seq<QueueItem>, caps: Set<Seq<char>>) -> bool {
    exists|i: int| 0 <= i < l.len() && satisfies(#[trigger] l[i], caps)
}

/// The position of the first message a consumer offering `caps` may take.
pub open spec fn first_match_index(l: Seq<QueueItem>, caps: Set<Seq<char>>) -> int
    decreases l.len(),
{
    if l.len() == 0 {
        0
    } else if satisfies(l[0], caps) {
        0
    } else {
        1 + first_match_index(l.drop_first(), caps)
    }
}

/// The first match is a match, and nothing before it is one.
pub proof fn lemma_first_match(l: Seq<QueueItem>, caps: Set<Seq<char>>)
    requires
        has_match(l, caps),
    ensures
        0 <= first_match_index(l, caps) < l.len(),
        satisfies(l[first_match_index(l, caps)], caps),
        forall|k: int| 0 <= k < first_match_index(l, caps) ==> !satisfies(#[trigger] l[k], caps),
    decreases l.len(),
{
    if l.len() == 0 {
    } else if satisfies(l[0], caps) {
    } else {
        let rest = l.drop_first();
        assert(has_match(rest, caps)) by {
            let i = choose|i: int| 0 <= i < l.len() && satisfies(#[trigger] l[i], caps);
            assert(rest[i - 1] == l[i]);
        }
        lemma_first_match(rest, caps);
        let fi = first_match_index(l, caps);
        assert(l[fi] == rest[fi - 1]);
        assert forall|k: int| 0 <= k < fi implies !satisfies(#[trigger] l[k], caps) by {
            if k > 0 {
                assert(l[k] == rest[k - 1]);
            }
        }
    }
}

/// Capability monotonicity: when a pop with the broader capability set
/// `caps1` would deliver `m`, a pop with the narrower `caps2` would deliver
/// the same message exactly when `m`'s required tags are still covered.
pub proof fn lemma_pop_capability_monotone(
    l: Seq<QueueItem>,
    caps1: Set<Seq<char>>,
    caps2: Set<Seq<char>>,
)
    requires
        caps2.subset_of(caps1),
        has_match(l, caps1),
    ensures
        ({
            let m = l[first_match_index(l, caps1)];
            (has_match(l, caps2) && l[first_match_index(l, caps2)] == m) <==> satisfies(
                m,
                caps2,
            )
        }),
{
    lemma_first_match(l, caps1);
    let i = first_match_index(l, caps1);
    let m = l[i];
    if satisfies(m, caps2) {
        assert(has_match(l, caps2));
        lemma_first_match(l, caps2);
        let j = first_match_index(l, caps2);
        assert(satisfies(l[j], caps2));
        assert(satisfies(l[j], caps1)) by {
            assert(l[j].required_tags@.subset_of(caps2));
            assert(caps2.subset_of(caps1));
        }
        assert(j >= i);
        assert(j <= i) by {
            if j > i {
                assert(!satisfies(l[i], caps2));
            }
        }
    }
    if has_match(l, caps2) && l[first_match_index(l, caps2)] == m {
        lemma_first_match(l, caps2);
    }
}

/// Order within a capability class: of two queued messages with identical
/// required tags, a consumer that can take either is never given the later
/// one first.
pub proof fn lemma_same_class_order(l: Seq<QueueItem>, caps: Set<Seq<char>>, i: int, j: int)
    requires
        0 <= i < j < l.len(),
        l[i].required_tags@ == l[j].required_tags@,
        satisfies(l[j], caps),
    ensures
        has_match(l, caps),
        first_match_index(l, caps) <= i,
{
    assert(satisfies(l[i], caps));
    assert(has_match(l, caps));
    lemma_first_match(l, caps);
    if first_match_index(l, caps) > i {
        assert(!satisfies(l[i], caps));
    }
}

#[derive(Clone, Copy, Debug, PartialEq, Eq, Structural)]
pub enum Error {
    QueueCorrupted,
}

/// A single-priority FIFO. `try_pop` hands out the first message the caller
/// can handle; messages it skips keep their relative order but move behind
/// later arrivals.
pub struct Queue {
    fifo: ChannelFifo,
}

impl Queue {
    /// The queued messages, oldest first.
    pub closed spec fn contents(&self) -> Seq<QueueItem> {
        fifo_contents(self.fifo)
    }

    pub fn new() -> (r: Queue)
        ensures
            r.contents() == Seq::<QueueItem>::empty(),
    {
        Queue { fifo: fifo_new() }
    }

    /// Appends a message at the tail.
    pub fn enqueue(&mut self, item: QueueItem) -> (r: Result<(), Error>)
        ensures
            r is Ok,
            final(self).contents() == old(self).contents().push(item),
    {
        fifo_send(&mut self.fifo, item);
        Ok(())
    }

    /// Removes and returns the first message whose required tags are covered
    /// by `capabilities`. Skipped messages re-enter at the tail, keeping
    /// their relative order; with no match the queue is left as it was.
    #[verifier::loop_isolation(false)]
    pub fn pop(&mut self, capabilities: &Tags) -> (r: Result<Option<QueueItem>, Error>)
        ensures
            ({
                let l = old(self).contents();
                let caps = capabilities@;
                if has_match(l, caps) {
                    let i = first_match_index(l, caps);
                    &&& r matches Ok(Some(m)) && m == l[i]
                    &&& final(self).contents() == l.subrange(i + 1, l.len() as int) + l.take(i)
                } else {
                    &&& r matches Ok(None)
                    &&& final(self).contents() == l
                }
            }),
    {
        let ghost l = fifo_contents(self.fifo);
        let ghost caps = capabilities@;
        let n = fifo_len(&self.fifo);
        let mut failures: Vec<QueueItem> = Vec::new();
        let mut k: usize = 0;
        while k < n
            invariant
                k <= n,
                fifo_contents(self.fifo) == l.subrange(k as int, l.len() as int),
                failures@ == l.take(k as int),
                forall|j: int| 0 <= j < k ==> !satisfies(#[trigger] l[j], caps),
            decreases n - k,
        {
            let item = match fifo_try_recv(&mut self.fifo) {
                Some(it) => it,
                None => {
                    proof {
                        assert(l.subrange(k as int, l.len() as int).len() > 0);
                        assert(false);
                    }
                    return Err(Error::QueueCorrupted);
                },
            };
            proof {
                assert(l.subrange(k as int, l.len() as int)[0] == l[k as int]);
                assert(l.subrange(k as int, l.len() as int).drop_first() =~= l.subrange(
                    k + 1,
                    l.len() as int,
                ));
            }
            if item.can_be_handled_by(capabilities) {
                send_all(&mut self.fifo, failures);
                proof {
                    assert(satisfies(l[k as int], caps));
                    assert(has_match(l, caps));
                    lemma_first_match(l, caps);
                    assert(first_match_index(l, caps) == k as int);
                }
                return Ok(Some(item));
            } else {
                failures.push(item);
                proof {
                    assert(failures@ =~= l.take(k + 1));
                }
                k = k + 1;
            }
        }
        proof {
            assert(!has_match(l, caps)) by {
                if has_match(l, caps) {
                    let i = choose|i: int| 0 <= i < l.len() && satisfies(#[trigger] l[i], caps);
                    assert(!satisfies(l[i], caps));
                }
            }
            assert(l.take(l.len() as int) =~= l);
            assert(fifo_contents(self.fifo) =~= Seq::<QueueItem>::empty());
        }
        send_all(&mut self.fifo, failures);
        proof {
            assert(Seq::<QueueItem>::empty() + l =~= l);
        }
        Ok(None)
    }

    /// Reads every queued message without removing any: each is taken off
    /// the head and re-sent at the tail, so the contents are unchanged; the
    /// caller receives copies.
    #[verifier::loop_isolation(false)]
    pub fn get_content(&mut self) -> (r: Result<Vec<QueueItem>, Error>)
        ensures
            r matches Ok(v) && v@.map_values(|it: QueueItem| it@) == old(
                self,
            ).contents().map_values(|it: QueueItem| it@),
            final(self).contents() == old(self).contents(),
    {
        let ghost l = fifo_contents(self.fifo);
        let n = fifo_len(&self.fifo);
        let mut items: Vec<QueueItem> = Vec::new();
        let mut k: usize = 0;
        while k < n
            invariant
                k <= n,
                fifo_contents(self.fifo) == l.subrange(k as int, l.len() as int),
                items@ == l.take(k as int),
            decreases n - k,
        {
            let item = match fifo_try_recv(&mut self.fifo) {
                Some(it) => it,
                None => {
                    proof {
                        assert(l.subrange(k as int, l.len() as int).len() > 0);
                        assert(false);
                    }
                    return Err(Error::QueueCorrupted);
                },
            };
            proof {
                assert(l.subrange(k as int, l.len() as int)[0] == l[k as int]);
                assert(l.subrange(k as int, l.len() as int).drop_first() =~= l.subrange(
                    k + 1,
                    l.len() as int,
                ));
            }
            items.push(item);
            proof {
                assert(items@ =~= l.take(k + 1));
            }
            k = k + 1;
        }
        proof {
            assert(l.take(l.len() as int) =~= l);
            assert(fifo_contents(self.fifo) =~= Seq::<QueueItem>::empty());
        }
        let copies = copy_items(&items);
        send_all(&mut self.fifo, items);
        proof {
            assert(Seq::<QueueItem>::empty() + l =~= l);
        }
        Ok(copies)
    }
}

/// Sends every item, in order, to the tail of the fifo.
#[verifier::loop_isolation(false)]
fn send_all(q: &mut ChannelFifo, items: Vec<QueueItem>)
    ensures
        fifo_contents(*final(q)) == fifo_contents(*old(q)) + items@,
{
    let ghost init = items@;
    let mut rest = items;
    while rest.len() > 0
        invariant
            fifo_contents(*q) + rest@ == fifo_contents(*old(q)) + init,
        decreases rest@.len(),
    {
        let it = rest.remove(0);
        fifo_send(q, it);
        proof {
            assert(fifo_contents(*q) + rest@ =~= fifo_contents(*old(q)) + init);
        }
    }
    proof {
        assert(fifo_contents(*q) =~= fifo_contents(*q) + rest@);
    }
}

/// Field-for-field copies of the items, equal at the model level.
fn copy_items(items: &Vec<QueueItem>) -> (r: Vec<QueueItem>)
    ensures
        r@.map_values(|it: QueueItem| it@) == items@.map_values(|it: QueueItem| it@),
{
    let mut out: Vec<QueueItem> = Vec::new();
    let mut k: usize = 0;
    while k < items.len()
        invariant
            k <= items@.len(),
            out@.map_values(|it: QueueItem| it@) == items@.map_values(|it: QueueItem| it@).take(
                k as int,
            ),
        decreases items@.len() - k,
    {
        let ghost pre = out@;
        out.push(crate::models::clone_item(&items[k]));
        proof {
            assert(out@.map_values(|it: QueueItem| it@) =~= pre.map_values(
                |it: QueueItem| it@,
            ).push(items@[k as int]@));
            assert(items@.map_values(|it: QueueItem| it@).take(k + 1) =~= items@.map_values(
                |it: QueueItem| it@,
            ).take(k as int).push(items@[k as int]@));
        }
        k = k + 1;
    }
    proof {
        assert(items@.map_values(|it: QueueItem| it@).take(items@.len() as int) =~= items@
            .map_values(|it: QueueItem| it@));
    }
    out
}

} // verus!
