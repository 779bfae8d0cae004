//! Bounded single-producer single-consumer channel. The producer caches the
//! free space it last saw and the consumer caches the number of filled slots,
//! so each side only looks at the other side's position when its cache runs
//! dry.

use vstd::prelude::*;
use core::marker::PhantomData;
use crate::Attempt;
use crate::ring::{self, is_pow2, lemma_pow2_between, Slots};

verus! {

/// The shared ring and whether both ends of the channel are still there.
pub struct RingBuffer<T: Send> {
    slots: Slots<T>,
    available: bool,
}

#[derive(Debug)]
pub struct SendError<T>(pub T);

#[derive(Debug)]
pub struct RecvError;

impl<T: Send> View for RingBuffer<T> {
    type V = Seq<T>;

    /// The queued elements, oldest first.
    closed spec fn view(&self) -> Seq<T> {
        self.slots@
    }
}

impl<T: Send> RingBuffer<T> {
    pub closed spec fn cap(&self) -> nat {
        self.slots.cap()
    }

    /// How many elements were taken out so far.
    pub closed spec fn head_pos(&self) -> nat {
        self.slots.head_pos()
    }

    /// How many elements were put in so far.
    pub closed spec fn tail_pos(&self) -> nat {
        self.slots.tail_pos()
    }

    /// Both ends of the channel are still there.
    pub closed spec fn is_open(&self) -> bool {
        self.available
    }

    /// Every element ever put in, in the order it was put in.
    pub closed spec fn sent(&self) -> Seq<T> {
        self.slots.sent()
    }

    pub closed spec fn wf(&self) -> bool {
        self.slots.wf()
    }

    /// A ring with room for `cap` rounded up to a power of two.
    pub fn new(cap: usize) -> (r: Self)
        requires
            cap <= usize::MAX / 2 + 1,
        ensures
            r.wf(),
            r@ == Seq::<T>::empty(),
            r.sent() == Seq::<T>::empty(),
            r.head_pos() == 0,
            r.tail_pos() == 0,
            r.is_open(),
            is_pow2(r.cap()),
            cap <= r.cap(),
            r.cap() == 1 || r.cap() / 2 < cap,
    {
        RingBuffer { slots: Slots::new(cap), available: true }
    }

    pub fn head(&self) -> (r: usize)
        ensures
            r == self.head_pos(),
    {
        self.slots.head()
    }

    pub fn tail(&self) -> (r: usize)
        ensures
            r == self.tail_pos(),
    {
        self.slots.tail()
    }

    pub fn available(&self) -> (r: bool)
        ensures
            r == self.is_open(),
    {
        self.available
    }

    pub fn capacity(&self) -> (r: usize)
        ensures
            r == self.cap(),
    {
        self.slots.capacity()
    }

    /// `head - tail`: the positions are subtracted in this order, so the
    /// difference exists only while the two are equal.
    pub fn len(&self) -> (r: usize)
        requires
            self.head_pos() >= self.tail_pos(),
        ensures
            r == self.head_pos() - self.tail_pos(),
    {
        self.slots.head() - self.slots.tail()
    }
}

/// What the consumer can still receive is exactly what was sent and not yet
/// received, in the order it was sent.
pub proof fn lemma_fifo<T: Send>(buf: &RingBuffer<T>)
    requires
        buf.wf(),
    ensures
        buf@ == buf.sent().subrange(buf.head_pos() as int, buf.tail_pos() as int),
        buf.head_pos() <= buf.tail_pos() == buf.sent().len(),
        buf@.len() == buf.tail_pos() - buf.head_pos(),
        buf@.len() <= buf.cap(),
{
    ring::lemma_fifo(&buf.slots);
}

/// `b` follows `a` by the channel's operations: the capacity stays, neither
/// end moves back, what was sent stays sent, and a closed channel stays
/// closed.
pub open spec fn moves_on<T: Send>(a: RingBuffer<T>, b: RingBuffer<T>) -> bool {
    &&& b.cap() == a.cap()
    &&& a.head_pos() <= b.head_pos()
    &&& a.tail_pos() <= b.tail_pos()
    &&& a.sent().is_prefix_of(b.sent())
    &&& !a.is_open() ==> !b.is_open()
}

/// Over any run of the channel's operations, each state a well-formed ring:
/// no state moves back from an earlier one, and in every state the head is
/// at most the tail, which is at most the head plus the capacity.
pub proof fn lemma_run<T: Send>(run: Seq<RingBuffer<T>>)
    requires
        forall|i: int| 0 <= i < run.len() ==> (#[trigger] run[i]).wf(),
        forall|i: int| 0 <= i < run.len() - 1 ==> moves_on(#[trigger] run[i], run[i + 1]),
    ensures
        forall|i: int, j: int| 0 <= i <= j < run.len() ==> moves_on(#[trigger] run[i], #[trigger] run[j]),
        forall|i: int|
            0 <= i < run.len() ==> (#[trigger] run[i]).head_pos() <= run[i].tail_pos()
                <= run[i].head_pos() + run[i].cap(),
    decreases run.len(),
{
    if run.len() > 0 {
        let pre = run.drop_last();
        assert forall|i: int| 0 <= i < pre.len() implies (#[trigger] pre[i]).wf() by {
            assert(pre[i] == run[i]);
        }
        assert forall|i: int| 0 <= i < pre.len() - 1 implies moves_on(#[trigger] pre[i], pre[i + 1]) by {
            assert(pre[i] == run[i] && pre[i + 1] == run[i + 1]);
        }
        lemma_run(pre);
        let n = run.len() - 1;
        assert forall|i: int, j: int| 0 <= i <= j < run.len() implies moves_on(#[trigger] run[i], #[trigger] run[j]) by {
            if j < n {
                assert(pre[i] == run[i] && pre[j] == run[j]);
            } else if i < n {
                assert(pre[i] == run[i] && pre[n - 1] == run[n - 1]);
                if i < n - 1 {
                    assert(moves_on(pre[i], pre[n - 1]));
                }
                assert(moves_on(run[n - 1], run[n]));
                let a = run[i].sent();
                let b = run[n - 1].sent();
                let c = run[n].sent();
                assert(a.is_prefix_of(c)) by {
                    assert forall|k: int| 0 <= k < a.len() implies a[k] == c[k] by {
                        assert(a[k] == b[k]);
                    }
                }
            } else {
                assert(run[i].sent().is_prefix_of(run[j].sent())) by {
                    assert(run[i].sent() =~= run[j].sent().subrange(0, run[i].sent().len() as int));
                }
            }
        }
        assert forall|i: int|
            0 <= i < run.len() implies (#[trigger] run[i]).head_pos() <= run[i].tail_pos()
                <= run[i].head_pos() + run[i].cap() by {
            lemma_fifo(&run[i]);
        }
    }
}

/// One send took producer `p` and ring `a` to `q` and `b`, answering `r`:
/// the head stays, and while the producer still counts on free space the
/// send goes through at once, using up one slot of it.
pub open spec fn send_step<T: Send>(
    p: Producer<T>,
    a: RingBuffer<T>,
    q: Producer<T>,
    b: RingBuffer<T>,
    r: Attempt<Result<(), SendError<T>>, T>,
) -> bool {
    &&& b.head_pos() == a.head_pos()
    &&& p.free_cache() > 0 ==> {
        &&& r matches Attempt::Done(Ok(()))
        &&& q.free_cache() == p.free_cache() - 1
        &&& b.tail_pos() == a.tail_pos() + 1
    }
}

/// What a send by `p` on ring `a` can answer: it goes through only while `p`
/// counts on free space or the open ring has room, and it is told to try
/// again only while the ring is open.
pub open spec fn send_answer<T: Send>(p: Producer<T>, a: RingBuffer<T>, r: Attempt<Result<(), SendError<T>>, T>) -> bool {
    &&& r matches Attempt::Done(Ok(())) ==> p.free_cache() > 0 || (a.is_open() && a@.len() < a.cap())
    &&& r is Retry ==> a.is_open()
}

/// What a receive on ring `a` can answer: a value only when the ring holds
/// one, and a request to try again only while the ring is open.
pub open spec fn recv_answer<T: Send>(a: RingBuffer<T>, r: Attempt<Result<T, RecvError>, ()>) -> bool {
    &&& r matches Attempt::Done(Ok(_)) ==> a@.len() > 0
    &&& r is Retry ==> a.is_open()
}

/// A closed ring stays closed: along any run of the channel's operations,
/// once one end has left the ring is closed in every later state, and in
/// each such state a receive on the empty ring fails, as does a send on the
/// full ring.
pub proof fn lemma_closed_ring<T: Send>(run: Seq<RingBuffer<T>>, i: int, j: int)
    requires
        forall|k: int| 0 <= k < run.len() ==> (#[trigger] run[k]).wf(),
        forall|k: int| 0 <= k < run.len() - 1 ==> moves_on(#[trigger] run[k], run[k + 1]),
        0 <= i <= j < run.len(),
        !run[i].is_open(),
    ensures
        !run[j].is_open(),
        forall|r: Attempt<Result<T, RecvError>, ()>|
            #[trigger] recv_answer(run[j], r) && run[j]@.len() == 0 ==> r matches Attempt::Done(Err(_)),
        forall|p: Producer<T>, r: Attempt<Result<(), SendError<T>>, T>|
            #[trigger] send_answer(p, run[j], r) && p.attached(&run[j]) && run[j]@.len() == run[j].cap()
                ==> r matches Attempt::Done(Err(_)),
{
    lemma_run(run);
    assert(moves_on(run[i], run[j]));
}

/// A producer that counts on `n` free slots gets its next `n` sends through
/// at once, whatever the consumer does meanwhile: along any run of sends no
/// longer than that, every send succeeds, the tail moves on by one per send
/// and the head stays. A fresh producer counts on the whole capacity.
pub proof fn lemma_first_sends<T: Send>(
    ps: Seq<Producer<T>>,
    bufs: Seq<RingBuffer<T>>,
    rs: Seq<Attempt<Result<(), SendError<T>>, T>>,
)
    requires
        ps.len() == rs.len() + 1,
        bufs.len() == rs.len() + 1,
        forall|k: int|
            0 <= k < rs.len() ==> #[trigger] send_step(ps[k], bufs[k], ps[k + 1], bufs[k + 1], rs[k]),
        rs.len() <= ps[0].free_cache(),
    ensures
        forall|k: int| 0 <= k < rs.len() ==> #[trigger] rs[k] matches Attempt::Done(Ok(())),
        ps.last().free_cache() == ps[0].free_cache() - rs.len(),
        bufs.last().tail_pos() == bufs[0].tail_pos() + rs.len(),
        bufs.last().head_pos() == bufs[0].head_pos(),
    decreases rs.len(),
{
    if rs.len() > 0 {
        let n = rs.len() - 1;
        lemma_first_sends(ps.drop_last(), bufs.drop_last(), rs.drop_last());
        assert(ps.drop_last().last() == ps[n]);
        assert(bufs.drop_last().last() == bufs[n]);
        assert(send_step(ps[n], bufs[n], ps[n + 1], bufs[n + 1], rs[n]));
        assert forall|k: int| 0 <= k < rs.len() implies #[trigger] rs[k] matches Attempt::Done(Ok(())) by {
            if k < n {
                assert(rs.drop_last()[k] == rs[k]);
            }
        }
    }
}

/// The sending side, with its own copy of the tail position and the free
/// space it last saw.
pub struct Producer<T: Send> {
    tail: usize,
    free: usize,
    marker: PhantomData<T>,
}

/// The receiving side, with its own copy of the head position and the number
/// of filled slots it last saw.
pub struct Consumer<T: Send> {
    head: usize,
    full: usize,
    marker: PhantomData<T>,
}

impl<T: Send> Producer<T> {
    pub closed spec fn tail_cache(&self) -> nat {
        self.tail as nat
    }

    pub closed spec fn free_cache(&self) -> nat {
        self.free as nat
    }

    /// The producer's copies agree with `buf`: its tail is the ring's tail
    /// and the free space it counts on is really there.
    pub closed spec fn attached(&self, buf: &RingBuffer<T>) -> bool {
        &&& self.tail == buf.tail_pos()
        &&& self.free + buf@.len() <= buf.cap()
    }

    /// A producer that starts at position 0 and counts on the whole capacity.
    pub fn new(buf: &RingBuffer<T>) -> (r: Self)
        ensures
            r.tail_cache() == 0,
            r.free_cache() == buf.cap(),
            buf.wf() && buf.tail_pos() == 0 ==> r.attached(buf),
    {
        proof {
            if buf.wf() {
                ring::lemma_fifo(&buf.slots);
            }
        }
        Producer { tail: 0, free: buf.capacity(), marker: PhantomData }
    }

    /// Sends `val`. With no free space left in the cache the producer gives
    /// up when the consumer is gone, and otherwise looks at the consumer's
    /// position again; if the ring is full it hands `val` back to try later.
    pub fn send(&mut self, buf: &mut RingBuffer<T>, val: T) -> (r: Attempt<
        Result<(), SendError<T>>,
        T,
    >)
        requires
            old(buf).wf(),
            old(self).attached(old(buf)),
            old(buf).tail_pos() < usize::MAX,
        ensures
            final(buf).wf(),
            moves_on(*old(buf), *final(buf)),
            final(self).attached(final(buf)),
            final(buf).cap() == old(buf).cap(),
            final(buf).is_open() == old(buf).is_open(),
            final(buf).head_pos() == old(buf).head_pos(),
            send_step(*old(self), *old(buf), *final(self), *final(buf), r),
            send_answer(*old(self), *old(buf), r),
            match r {
                Attempt::Done(Ok(())) => {
                    &&& old(self).free_cache() > 0 || (old(buf).is_open() && old(buf)@.len()
                        < old(buf).cap())
                    &&& final(buf)@ == old(buf)@.push(val)
                    &&& final(buf).sent() == old(buf).sent().push(val)
                    &&& final(buf).tail_pos() == old(buf).tail_pos() + 1
                },
                Attempt::Done(Err(e)) => {
                    &&& old(self).free_cache() == 0 && !old(buf).is_open()
                    &&& e.0 == val
                    &&& *final(buf) == *old(buf)
                },
                Attempt::Retry(v) => {
                    &&& old(self).free_cache() == 0 && old(buf).is_open() && old(buf)@.len()
                        == old(buf).cap()
                    &&& v == val
                    &&& *final(buf) == *old(buf)
                },
            },
    {
        proof {
            ring::lemma_fifo(&buf.slots);
        }
        if self.free == 0 {
            if !buf.available() {
                return Attempt::Done(Err(SendError(val)));
            }
            let cnt = self.tail - buf.head();
            self.free = buf.capacity() - cnt;
            if self.free == 0 {
                return Attempt::Retry(val);
            }
        }
        buf.slots.push(val);
        self.tail = self.tail + 1;
        self.free = self.free - 1;
        Attempt::Done(Ok(()))
    }

    /// Leaves the channel: the consumer sees it closed.
    pub fn close(self, buf: &mut RingBuffer<T>)
        requires
            old(buf).wf(),
        ensures
            final(buf).wf(),
            moves_on(*old(buf), *final(buf)),
            !final(buf).is_open(),
            final(buf)@ == old(buf)@,
            final(buf).sent() == old(buf).sent(),
            final(buf).head_pos() == old(buf).head_pos(),
            final(buf).tail_pos() == old(buf).tail_pos(),
            final(buf).cap() == old(buf).cap(),
    {
        buf.available = false;
    }
}

impl<T: Send> Consumer<T> {
    pub closed spec fn head_cache(&self) -> nat {
        self.head as nat
    }

    pub closed spec fn full_cache(&self) -> nat {
        self.full as nat
    }

    /// The consumer's copies agree with `buf`: its head is the ring's head
    /// and the elements it counts on are really there.
    pub closed spec fn attached(&self, buf: &RingBuffer<T>) -> bool {
        &&& self.head == buf.head_pos()
        &&& self.full <= buf@.len()
    }

    /// A consumer that starts at position 0 and counts on nothing.
    pub fn new(buf: &RingBuffer<T>) -> (r: Self)
        ensures
            r.head_cache() == 0,
            r.full_cache() == 0,
            buf.wf() && buf.head_pos() == 0 ==> r.attached(buf),
    {
        Consumer { head: 0, full: 0, marker: PhantomData }
    }

    /// Receives the oldest element. With nothing left in the cache the
    /// consumer looks at the producer's position again; if the ring is empty
    /// it fails once the producer is gone and otherwise asks to try later.
    pub fn recv(&mut self, buf: &mut RingBuffer<T>) -> (r: Attempt<Result<T, RecvError>, ()>)
        requires
            old(buf).wf(),
            old(self).attached(old(buf)),
        ensures
            final(buf).wf(),
            moves_on(*old(buf), *final(buf)),
            final(self).attached(final(buf)),
            final(buf).cap() == old(buf).cap(),
            final(buf).is_open() == old(buf).is_open(),
            final(buf).sent() == old(buf).sent(),
            final(buf).tail_pos() == old(buf).tail_pos(),
            recv_answer(*old(buf), r),
            match r {
                Attempt::Done(Ok(v)) => {
                    &&& old(buf)@.len() > 0
                    &&& v == old(buf)@[0]
                    &&& v == old(buf).sent()[old(buf).head_pos() as int]
                    &&& final(buf)@ == old(buf)@.drop_first()
                    &&& final(buf).head_pos() == old(buf).head_pos() + 1
                },
                Attempt::Done(Err(_)) => {
                    &&& old(buf)@.len() == 0 && !old(buf).is_open()
                    &&& *final(buf) == *old(buf)
                },
                Attempt::Retry(_) => {
                    &&& old(buf)@.len() == 0 && old(buf).is_open()
                    &&& *final(buf) == *old(buf)
                },
            },
    {
        proof {
            ring::lemma_fifo(&buf.slots);
        }
        if self.full == 0 {
            let available = buf.available();
            let cnt = buf.tail() - self.head;
            self.full = cnt;
            if self.full == 0 {
                if !available {
                    return Attempt::Done(Err(RecvError));
                }
                return Attempt::Retry(());
            }
        }
        let res = buf.slots.pop();
        self.head = self.head + 1;
        self.full = self.full - 1;
        Attempt::Done(Ok(res))
    }

    /// Receives like `recv`, giving `None` where `recv` fails.
    pub fn next(&mut self, buf: &mut RingBuffer<T>) -> (r: Attempt<Option<T>, ()>)
        requires
            old(buf).wf(),
            old(self).attached(old(buf)),
        ensures
            final(buf).wf(),
            moves_on(*old(buf), *final(buf)),
            final(self).attached(final(buf)),
            final(buf).cap() == old(buf).cap(),
            final(buf).is_open() == old(buf).is_open(),
            final(buf).sent() == old(buf).sent(),
            final(buf).tail_pos() == old(buf).tail_pos(),
            match r {
                Attempt::Done(Some(v)) => {
                    &&& old(buf)@.len() > 0
                    &&& v == old(buf)@[0]
                    &&& final(buf)@ == old(buf)@.drop_first()
                    &&& final(buf).head_pos() == old(buf).head_pos() + 1
                },
                Attempt::Done(None) => {
                    &&& old(buf)@.len() == 0 && !old(buf).is_open()
                    &&& *final(buf) == *old(buf)
                },
                Attempt::Retry(_) => {
                    &&& old(buf)@.len() == 0 && old(buf).is_open()
                    &&& *final(buf) == *old(buf)
                },
            },
    {
        match self.recv(buf) {
            Attempt::Done(Ok(v)) => Attempt::Done(Some(v)),
            Attempt::Done(Err(_)) => Attempt::Done(None),
            Attempt::Retry(u) => Attempt::Retry(u),
        }
    }

    /// Leaves the channel: the producer sees it closed.
    pub fn close(self, buf: &mut RingBuffer<T>)
        requires
            old(buf).wf(),
        ensures
            final(buf).wf(),
            moves_on(*old(buf), *final(buf)),
            !final(buf).is_open(),
            final(buf)@ == old(buf)@,
            final(buf).sent() == old(buf).sent(),
            final(buf).head_pos() == old(buf).head_pos(),
            final(buf).tail_pos() == old(buf).tail_pos(),
            final(buf).cap() == old(buf).cap(),
    {
        buf.available = false;
    }
}

/// A channel over a ring of 256 slots, with both ends attached to it.
pub fn channel<T: Send>() -> (r: (Producer<T>, Consumer<T>, RingBuffer<T>))
    ensures
        r.2.wf(),
        r.2.cap() == 256,
        r.2@ == Seq::<T>::empty(),
        r.2.sent() == Seq::<T>::empty(),
        r.2.is_open(),
        r.0.attached(&r.2),
        r.1.attached(&r.2),
        r.0.free_cache() == 256,
        r.1.full_cache() == 0,
{
    let buf = RingBuffer::new(256);
    proof {
        lemma_pow2_between(256, buf.cap());
    }
    let px = Producer::new(&buf);
    let cx = Consumer::new(&buf);
    (px, cx, buf)
}

} // verus!
