//! Bounded multi-producer single-consumer channel. Producers take turns at
//! the tail of one shared ring; the ring counts the producers still around
//! and remembers whether the consumer is.

use vstd::prelude::*;
use core::marker::PhantomData;
use crate::Attempt;
use crate::ring::{self, is_pow2, lemma_pow2_between, Slots};

verus! {

/// The shared ring with its element count and the bookkeeping of the ends.
pub struct RingBuffer<T: Send> {
    slots: Slots<T>,
    len: usize,
    px_count: usize,
    cx_count: bool,
    /// The tags of the producer handles still around.
    live: Ghost<Set<nat>>,
    /// The tag the next producer handle gets.
    next_tag: Ghost<nat>,
}

#[derive(Debug)]
pub struct SendError<T>(pub T);

#[derive(Debug)]
pub struct RecvError;

impl<T: Send> View for RingBuffer<T> {
    type V = Seq<T>;

    /// The queued elements, oldest first.
    closed spec fn view(&self) -> Seq<T> {
        self.slots@
    }
}

impl<T: Send> RingBuffer<T> {
    pub closed spec fn cap(&self) -> nat {
        self.slots.cap()
    }

    /// How many elements were taken out so far.
    pub closed spec fn head_pos(&self) -> nat {
        self.slots.head_pos()
    }

    /// How many elements were put in so far.
    pub closed spec fn tail_pos(&self) -> nat {
        self.slots.tail_pos()
    }

    /// Every element ever put in, in the order it was put in.
    pub closed spec fn sent(&self) -> Seq<T> {
        self.slots.sent()
    }

    /// How many producers are still around.
    pub closed spec fn producers(&self) -> nat {
        self.px_count as nat
    }

    /// Whether the consumer is still around.
    pub closed spec fn has_consumer(&self) -> bool {
        self.cx_count
    }

    /// The tags of the producer handles of this ring that were made and
    /// not closed yet.
    pub closed spec fn handles(&self) -> Set<nat> {
        self.live@
    }

    pub closed spec fn wf(&self) -> bool {
        &&& self.slots.wf()
        &&& self.len == self.slots@.len()
        &&& self.live@.finite()
        &&& self.px_count == self.live@.len()
        &&& forall|t: nat| #[trigger] self.live@.contains(t) ==> t < self.next_tag@
    }

    /// A ring with room for `cap` rounded up to a power of two, with one
    /// producer and the consumer.
    pub fn new(cap: usize) -> (r: Self)
        requires
            cap <= usize::MAX / 2 + 1,
        ensures
            r.wf(),
            r@ == Seq::<T>::empty(),
            r.sent() == Seq::<T>::empty(),
            r.head_pos() == 0,
            r.tail_pos() == 0,
            r.producers() == 1,
            r.handles() == set![0nat],
            r.has_consumer(),
            is_pow2(r.cap()),
            cap <= r.cap(),
            r.cap() == 1 || r.cap() / 2 < cap,
    {
        let slots = Slots::new(cap);
        proof {
            ring::lemma_fifo(&slots);
        }
        proof {
            assert(set![0nat].len() == 1) by {
                assert(set![0nat] == Set::<nat>::empty().insert(0));
            }
        }
        RingBuffer { slots, len: 0, px_count: 1, cx_count: true, live: Ghost(Set::empty().insert(0nat)), next_tag: Ghost(1) }
    }

    /// Appends `val`. When the ring is full this fails if the consumer is
    /// gone and otherwise hands `val` back to try later.
    pub fn push_back(&mut self, val: T) -> (r: Attempt<Result<(), SendError<T>>, T>)
        requires
            old(self).wf(),
            old(self).tail_pos() < usize::MAX,
        ensures
            final(self).wf(),
            moves_on(*old(self), *final(self)),
            final(self).cap() == old(self).cap(),
            final(self).producers() == old(self).producers(),
            final(self).has_consumer() == old(self).has_consumer(),
            final(self).head_pos() == old(self).head_pos(),
            push_answer(*old(self), r),
            match r {
                Attempt::Done(Ok(())) => {
                    &&& old(self)@.len() < old(self).cap()
                    &&& final(self)@ == old(self)@.push(val)
                    &&& final(self).sent() == old(self).sent().push(val)
                    &&& final(self).tail_pos() == old(self).tail_pos() + 1
                },
                Attempt::Done(Err(e)) => {
                    &&& old(self)@.len() == old(self).cap() && !old(self).has_consumer()
                    &&& e.0 == val
                    &&& *final(self) == *old(self)
                },
                Attempt::Retry(v) => {
                    &&& old(self)@.len() == old(self).cap() && old(self).has_consumer()
                    &&& v == val
                    &&& *final(self) == *old(self)
                },
            },
    {
        proof {
            ring::lemma_fifo(&self.slots);
        }
        if self.is_full() {
            if !self.cx_exists() {
                return Attempt::Done(Err(SendError(val)));
            }
            return Attempt::Retry(val);
        }
        self.slots.push(val);
        self.len = self.len + 1;
        Attempt::Done(Ok(()))
    }

    /// Takes the oldest element. When the ring is empty this fails if every
    /// producer is gone and otherwise asks to try later.
    pub fn pop_front(&mut self) -> (r: Attempt<Result<T, RecvError>, ()>)
        requires
            old(self).wf(),
        ensures
            final(self).wf(),
            moves_on(*old(self), *final(self)),
            final(self).cap() == old(self).cap(),
            final(self).producers() == old(self).producers(),
            final(self).has_consumer() == old(self).has_consumer(),
            final(self).tail_pos() == old(self).tail_pos(),
            final(self).sent() == old(self).sent(),
            match r {
                Attempt::Done(Ok(v)) => {
                    &&& old(self)@.len() > 0
                    &&& v == old(self)@[0]
                    &&& v == old(self).sent()[old(self).head_pos() as int]
                    &&& final(self)@ == old(self)@.drop_first()
                    &&& final(self).head_pos() == old(self).head_pos() + 1
                },
                Attempt::Done(Err(_)) => {
                    &&& old(self)@.len() == 0 && old(self).producers() == 0
                    &&& *final(self) == *old(self)
                },
                Attempt::Retry(_) => {
                    &&& old(self)@.len() == 0 && old(self).producers() > 0
                    &&& *final(self) == *old(self)
                },
            },
    {
        proof {
            ring::lemma_fifo(&self.slots);
        }
        if self.is_empty() {
            let px_exist = self.px_exist();
            if !px_exist {
                return Attempt::Done(Err(RecvError));
            }
            return Attempt::Retry(());
        }
        let res = self.slots.pop();
        self.len = self.len - 1;
        Attempt::Done(Ok(res))
    }

    pub fn head(&self) -> (r: usize)
        ensures
            r == self.head_pos(),
    {
        self.slots.head()
    }

    pub fn cx_exists(&self) -> (r: bool)
        ensures
            r == self.has_consumer(),
    {
        self.cx_count
    }

    pub fn px_exist(&self) -> (r: bool)
        ensures
            r == (self.producers() > 0),
    {
        self.px_count > 0
    }

    pub fn capacity(&self) -> (r: usize)
        ensures
            r == self.cap(),
    {
        self.slots.capacity()
    }

    pub fn len(&self) -> (r: usize)
        requires
            self.wf(),
        ensures
            r == self@.len(),
    {
        self.len
    }

    pub fn is_empty(&self) -> (r: bool)
        requires
            self.wf(),
        ensures
            r == (self@.len() == 0),
    {
        self.len() == 0
    }

    pub fn is_full(&self) -> (r: bool)
        requires
            self.wf(),
        ensures
            r == (self@.len() == self.cap()),
    {
        self.len() == self.capacity()
    }
}

/// What the consumer can still receive is exactly what was sent and not yet
/// received, in the order it was sent, whichever producers sent it.
pub proof fn lemma_fifo<T: Send>(buf: &RingBuffer<T>)
    requires
        buf.wf(),
    ensures
        buf@ == buf.sent().subrange(buf.head_pos() as int, buf.tail_pos() as int),
        buf.head_pos() <= buf.tail_pos() == buf.sent().len(),
        buf@.len() == buf.tail_pos() - buf.head_pos(),
        buf@.len() <= buf.cap(),
        buf.tail_pos() <= usize::MAX,
{
    ring::lemma_fifo(&buf.slots);
}

/// `b` follows `a` by the channel's operations: the capacity stays, neither
/// end moves back, what was sent stays sent, and a consumer once gone stays
/// gone, as do the producers once the last of them has left.
pub open spec fn moves_on<T: Send>(a: RingBuffer<T>, b: RingBuffer<T>) -> bool {
    &&& b.cap() == a.cap()
    &&& a.head_pos() <= b.head_pos()
    &&& a.tail_pos() <= b.tail_pos()
    &&& a.sent().is_prefix_of(b.sent())
    &&& !a.has_consumer() ==> !b.has_consumer()
    &&& a.producers() == 0 ==> b.producers() == 0
}

/// What appending to ring `a` can answer: it goes through only when the
/// ring has room, and it is told to try again only while the consumer is
/// there.
pub open spec fn push_answer<T: Send>(a: RingBuffer<T>, r: Attempt<Result<(), SendError<T>>, T>) -> bool {
    &&& r matches Attempt::Done(Ok(())) ==> a@.len() < a.cap()
    &&& r is Retry ==> a.has_consumer()
}

/// A consumer once gone stays gone: along any run of the channel's
/// operations, in every state after the consumer left, appending to the
/// full ring fails instead of waiting.
pub proof fn lemma_consumer_gone<T: Send>(run: Seq<RingBuffer<T>>, i: int, j: int)
    requires
        forall|k: int| 0 <= k < run.len() ==> (#[trigger] run[k]).wf(),
        forall|k: int| 0 <= k < run.len() - 1 ==> moves_on(#[trigger] run[k], run[k + 1]),
        0 <= i <= j < run.len(),
        !run[i].has_consumer(),
    ensures
        !run[j].has_consumer(),
        forall|r: Attempt<Result<(), SendError<T>>, T>|
            #[trigger] push_answer(run[j], r) && run[j]@.len() == run[j].cap() ==> r matches Attempt::Done(Err(_)),
{
    lemma_run(run);
    assert(moves_on(run[i], run[j]));
}

/// Over any run of the channel's operations, each state a well-formed ring:
/// no state moves back from an earlier one, and in every state the ring
/// holds as many elements as were sent minus those received, at most its
/// capacity.
pub proof fn lemma_run<T: Send>(run: Seq<RingBuffer<T>>)
    requires
        forall|i: int| 0 <= i < run.len() ==> (#[trigger] run[i]).wf(),
        forall|i: int| 0 <= i < run.len() - 1 ==> moves_on(#[trigger] run[i], run[i + 1]),
    ensures
        forall|i: int, j: int| 0 <= i <= j < run.len() ==> moves_on(#[trigger] run[i], #[trigger] run[j]),
        forall|i: int|
            0 <= i < run.len() ==> (#[trigger] run[i])@.len() == run[i].sent().len() - run[i].head_pos()
                <= run[i].cap(),
    decreases run.len(),
{
    if run.len() > 0 {
        let pre = run.drop_last();
        assert forall|i: int| 0 <= i < pre.len() implies (#[trigger] pre[i]).wf() by {
            assert(pre[i] == run[i]);
        }
        assert forall|i: int| 0 <= i < pre.len() - 1 implies moves_on(#[trigger] pre[i], pre[i + 1]) by {
            assert(pre[i] == run[i] && pre[i + 1] == run[i + 1]);
        }
        lemma_run(pre);
        let n = run.len() - 1;
        assert forall|i: int, j: int| 0 <= i <= j < run.len() implies moves_on(#[trigger] run[i], #[trigger] run[j]) by {
            if j < n {
                assert(pre[i] == run[i] && pre[j] == run[j]);
            } else if i < n {
                assert(pre[i] == run[i] && pre[n - 1] == run[n - 1]);
                if i < n - 1 {
                    assert(moves_on(pre[i], pre[n - 1]));
                }
                assert(moves_on(run[n - 1], run[n]));
                let a = run[i].sent();
                let b = run[n - 1].sent();
                let c = run[n].sent();
                assert(a.is_prefix_of(c)) by {
                    assert forall|k: int| 0 <= k < a.len() implies a[k] == c[k] by {
                        assert(a[k] == b[k]);
                    }
                }
            } else {
                assert(run[i].sent().is_prefix_of(run[j].sent())) by {
                    assert(run[i].sent() =~= run[j].sent().subrange(0, run[i].sent().len() as int));
                }
            }
        }
        assert forall|i: int|
            0 <= i < run.len() implies (#[trigger] run[i])@.len() == run[i].sent().len()
                - run[i].head_pos() <= run[i].cap() by {
            lemma_fifo(&run[i]);
        }
    }
}

/// A sending end; every producer of a channel sends into the same ring.
pub struct Producer<T: Send> {
    marker: PhantomData<T>,
    tag: Ghost<nat>,
}

/// The receiving end.
pub struct Consumer<T: Send> {
    marker: PhantomData<T>,
}

/// The ring counts exactly the producer handles made for it and not closed
/// yet: there are producers left if and only if such a handle is.
pub proof fn lemma_counts_handles<T: Send>(buf: &RingBuffer<T>)
    requires
        buf.wf(),
    ensures
        buf.producers() == buf.handles().len(),
        buf.handles().finite(),
        buf.producers() > 0 <==> exists|t: nat| buf.handles().contains(t),
{
    if buf.producers() > 0 {
        let t = buf.handles().choose();
        assert(buf.handles().contains(t));
    }
}

impl<T: Send> Producer<T> {
    /// The tag of this handle among the handles of its ring.
    pub closed spec fn tag(&self) -> nat {
        self.tag@
    }

    /// The first producer of a ring, the one the ring counts from the start.
    pub fn new(buf: &RingBuffer<T>) -> (r: Self)
        ensures
            r.tag() == 0,
    {
        Producer { marker: PhantomData, tag: Ghost(0) }
    }

    /// Sends `val` through `buf`, as `RingBuffer::push_back`.
    pub fn send(&self, buf: &mut RingBuffer<T>, val: T) -> (r: Attempt<
        Result<(), SendError<T>>,
        T,
    >)
        requires
            old(buf).wf(),
            old(buf).tail_pos() < usize::MAX,
        ensures
            final(buf).wf(),
            moves_on(*old(buf), *final(buf)),
            final(buf).cap() == old(buf).cap(),
            final(buf).producers() == old(buf).producers(),
            final(buf).has_consumer() == old(buf).has_consumer(),
            final(buf).head_pos() == old(buf).head_pos(),
            push_answer(*old(buf), r),
            match r {
                Attempt::Done(Ok(())) => {
                    &&& old(buf)@.len() < old(buf).cap()
                    &&& final(buf)@ == old(buf)@.push(val)
                    &&& final(buf).sent() == old(buf).sent().push(val)
                    &&& final(buf).tail_pos() == old(buf).tail_pos() + 1
                },
                Attempt::Done(Err(e)) => {
                    &&& old(buf)@.len() == old(buf).cap() && !old(buf).has_consumer()
                    &&& e.0 == val
                    &&& *final(buf) == *old(buf)
                },
                Attempt::Retry(v) => {
                    &&& old(buf)@.len() == old(buf).cap() && old(buf).has_consumer()
                    &&& v == val
                    &&& *final(buf) == *old(buf)
                },
            },
    {
        buf.push_back(val)
    }

    /// Another producer of the same channel; the ring counts it.
    pub fn clone_in(&self, buf: &mut RingBuffer<T>) -> (r: Producer<T>)
        requires
            old(buf).wf(),
            old(buf).handles().contains(self.tag()),
            old(buf).producers() < usize::MAX,
        ensures
            final(buf).wf(),
            moves_on(*old(buf), *final(buf)),
            final(buf).producers() == old(buf).producers() + 1,
            !old(buf).handles().contains(r.tag()),
            final(buf).handles() == old(buf).handles().insert(r.tag()),
            final(buf)@ == old(buf)@,
            final(buf).sent() == old(buf).sent(),
            final(buf).head_pos() == old(buf).head_pos(),
            final(buf).tail_pos() == old(buf).tail_pos(),
            final(buf).cap() == old(buf).cap(),
            final(buf).has_consumer() == old(buf).has_consumer(),
    {
        let ghost t = buf.next_tag@;
        proof {
            assert(buf.live@.remove(self.tag()).len() == buf.live@.len() - 1);
        }
        buf.px_count = buf.px_count + 1;
        buf.live = Ghost(buf.live@.insert(t));
        buf.next_tag = Ghost(t + 1);
        Producer { marker: PhantomData, tag: Ghost(t) }
    }

    /// Leaves the channel; the ring counts one producer fewer.
    pub fn close(self, buf: &mut RingBuffer<T>)
        requires
            old(buf).wf(),
            old(buf).handles().contains(self.tag()),
        ensures
            final(buf).wf(),
            moves_on(*old(buf), *final(buf)),
            final(buf).producers() == old(buf).producers() - 1,
            final(buf).handles() == old(buf).handles().remove(self.tag()),
            final(buf)@ == old(buf)@,
            final(buf).sent() == old(buf).sent(),
            final(buf).head_pos() == old(buf).head_pos(),
            final(buf).tail_pos() == old(buf).tail_pos(),
            final(buf).cap() == old(buf).cap(),
            final(buf).has_consumer() == old(buf).has_consumer(),
    {
        proof {
            assert(buf.live@.remove(self.tag()).len() == buf.live@.len() - 1);
        }
        buf.px_count = buf.px_count - 1;
        buf.live = Ghost(buf.live@.remove(self.tag()));
    }
}

impl<T: Send> Consumer<T> {
    pub fn new(buf: &RingBuffer<T>) -> Self {
        Consumer { marker: PhantomData }
    }

    /// Receives from `buf`, as `RingBuffer::pop_front`.
    pub fn recv(&self, buf: &mut RingBuffer<T>) -> (r: Attempt<Result<T, RecvError>, ()>)
        requires
            old(buf).wf(),
        ensures
            final(buf).wf(),
            moves_on(*old(buf), *final(buf)),
            final(buf).cap() == old(buf).cap(),
            final(buf).producers() == old(buf).producers(),
            final(buf).has_consumer() == old(buf).has_consumer(),
            final(buf).tail_pos() == old(buf).tail_pos(),
            final(buf).sent() == old(buf).sent(),
            match r {
                Attempt::Done(Ok(v)) => {
                    &&& old(buf)@.len() > 0
                    &&& v == old(buf)@[0]
                    &&& v == old(buf).sent()[old(buf).head_pos() as int]
                    &&& final(buf)@ == old(buf)@.drop_first()
                    &&& final(buf).head_pos() == old(buf).head_pos() + 1
                },
                Attempt::Done(Err(_)) => {
                    &&& old(buf)@.len() == 0 && old(buf).producers() == 0
                    &&& *final(buf) == *old(buf)
                },
                Attempt::Retry(_) => {
                    &&& old(buf)@.len() == 0 && old(buf).producers() > 0
                    &&& *final(buf) == *old(buf)
                },
            },
    {
        buf.pop_front()
    }

    /// Receives like `recv`, giving `None` where `recv` fails.
    pub fn next(&self, buf: &mut RingBuffer<T>) -> (r: Attempt<Option<T>, ()>)
        requires
            old(buf).wf(),
        ensures
            final(buf).wf(),
            moves_on(*old(buf), *final(buf)),
            final(buf).cap() == old(buf).cap(),
            final(buf).producers() == old(buf).producers(),
            final(buf).has_consumer() == old(buf).has_consumer(),
            final(buf).tail_pos() == old(buf).tail_pos(),
            final(buf).sent() == old(buf).sent(),
            match r {
                Attempt::Done(Some(v)) => {
                    &&& old(buf)@.len() > 0
                    &&& v == old(buf)@[0]
                    &&& final(buf)@ == old(buf)@.drop_first()
                    &&& final(buf).head_pos() == old(buf).head_pos() + 1
                },
                Attempt::Done(None) => {
                    &&& old(buf)@.len() == 0 && old(buf).producers() == 0
                    &&& *final(buf) == *old(buf)
                },
                Attempt::Retry(_) => {
                    &&& old(buf)@.len() == 0 && old(buf).producers() > 0
                    &&& *final(buf) == *old(buf)
                },
            },
    {
        match buf.pop_front() {
            Attempt::Done(Ok(v)) => Attempt::Done(Some(v)),
            Attempt::Done(Err(_)) => Attempt::Done(None),
            Attempt::Retry(u) => Attempt::Retry(u),
        }
    }

    /// Leaves the channel: producers see the consumer gone.
    pub fn close(self, buf: &mut RingBuffer<T>)
        requires
            old(buf).wf(),
        ensures
            final(buf).wf(),
            moves_on(*old(buf), *final(buf)),
            !final(buf).has_consumer(),
            final(buf)@ == old(buf)@,
            final(buf).sent() == old(buf).sent(),
            final(buf).head_pos() == old(buf).head_pos(),
            final(buf).tail_pos() == old(buf).tail_pos(),
            final(buf).cap() == old(buf).cap(),
            final(buf).producers() == old(buf).producers(),
    {
        buf.cx_count = false;
    }
}

/// A channel over a ring of 256 slots with one producer and the consumer.
pub fn channel<T: Send>() -> (r: (Producer<T>, Consumer<T>, RingBuffer<T>))
    ensures
        r.2.wf(),
        r.2.cap() == 256,
        r.2@ == Seq::<T>::empty(),
        r.2.sent() == Seq::<T>::empty(),
        r.2.head_pos() == 0,
        r.2.producers() == 1,
        r.2.handles() == set![r.0.tag()],
        r.2.has_consumer(),
{
    let buf = RingBuffer::new(256);
    proof {
        lemma_pow2_between(256, buf.cap());
    }
    (Producer::new(&buf), Consumer::new(&buf), buf)
}

} // verus!
