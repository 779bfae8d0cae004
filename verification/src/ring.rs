//! Arithmetic shared by the ring buffers: capacities that are powers of two
//! and the mapping of an ever-growing logical position onto a slot.

use vstd::prelude::*;
use vstd::arithmetic::power2::{pow2, lemma2_to64, lemma_pow2_unfold, lemma_pow2_pos, lemma_pow2_adds, lemma_pow2_strictly_increases};
use vstd::bits::{low_bits_mask, lemma_usize_low_bits_mask_is_mod};
use vstd::arithmetic::div_mod::{lemma_mod_equivalence, lemma_small_mod};

verus! {

/// `n` is a power of two whose exponent is below the width of `usize`.
pub open spec fn is_pow2(n: nat) -> bool {
    exists|k: nat| k < usize::BITS && #[trigger] pow2(k) == n
}

proof fn lemma_pow2_word() ensures pow2(usize::BITS as nat) == usize::MAX + 1,
{
    lemma2_to64();
}

/// The smallest power of two that is not below `n` (`1` for `0`).
pub fn next_power_of_two(n: usize) -> (r: usize)
    requires
        n <= usize::MAX / 2 + 1,
    ensures
        is_pow2(r as nat),
        n <= r,
        r == 1 || r / 2 < n,
{
    let mut p: usize = 1;
    let ghost mut k: nat = 0;
    proof {
        lemma2_to64();
    }
    while p < n
        invariant
            p == pow2(k),
            1 <= p,
            k < usize::BITS,
            n <= usize::MAX / 2 + 1,
            p == 1 || p / 2 < n,
        decreases usize::MAX - p,
    {
        proof {
            lemma_pow2_unfold(k + 1);
            lemma_pow2_word();
            if k + 1 == usize::BITS {
                assert(false);
            }
        }
        p = p * 2;
        proof {
            k = k + 1;
        }
    }
    p
}

/// The slot of logical position `pos` in a buffer of capacity `cap`.
pub fn slot_of(pos: usize, cap: usize) -> (r: usize)
    requires
        is_pow2(cap as nat),
    ensures
        r == pos % cap,
        r < cap,
{
    proof {
        let k = choose|k: nat| k < usize::BITS && #[trigger] pow2(k) == cap as nat;
        lemma_pow2_pos(k);
        lemma_usize_low_bits_mask_is_mod(pos, k);
        assert(low_bits_mask(k) == cap - 1);
    }
    pos & (cap - 1)
}

/// Positions closer together than the capacity land in different slots.
pub proof fn lemma_slots_distinct(i: int, j: int, m: int)
    requires
        0 < m,
        i < j,
        j - i < m,
    ensures
        i % m != j % m,
{
    lemma_mod_equivalence(j, i, m);
    lemma_small_mod((j - i) as nat, m as nat);
}

/// A power of two at least `n` and below `2 * n`, where `n` is itself a power
/// of two (256 is), is `n`.
pub proof fn lemma_pow2_between(n: nat, r: nat)
    requires
        n == 256 || is_pow2(n),
        is_pow2(r),
        n <= r,
        r < 2 * n,
    ensures
        r == n,
{
    lemma2_to64();
    let k = if n == 256 { 8 } else { choose|k: nat| k < usize::BITS && #[trigger] pow2(k) == n };
    assert(pow2(k) == n);
    let j = choose|j: nat| j < usize::BITS && #[trigger] pow2(j) == r;
    lemma_pow2_adds(k, 1);
    if j > k {
        if j > k + 1 {
            lemma_pow2_strictly_increases(k + 1, j);
        }
    } else if j < k {
        lemma_pow2_strictly_increases(j, k);
    }
}

/// Storage of a ring buffer: `head` counts the elements taken out so far,
/// `tail` the elements put in; slot `pos % capacity` holds logical position
/// `pos`.
pub struct Slots<T> {
    inner: Vec<Option<T>>,
    head: usize,
    tail: usize,
    sent: Ghost<Seq<T>>,
}

impl<T> View for Slots<T> {
    type V = Seq<T>;

    /// The queued elements, oldest first.
    closed spec fn view(&self) -> Seq<T> {
        Seq::new((self.tail - self.head) as nat, |j: int| self.at(j)->Some_0)
    }
}

impl<T> Slots<T> {
    spec fn at(&self, j: int) -> Option<T> {
        self.inner@[(self.head + j) % (self.inner@.len() as int)]
    }

    pub closed spec fn cap(&self) -> nat {
        self.inner@.len()
    }

    pub closed spec fn head_pos(&self) -> nat {
        self.head as nat
    }

    pub closed spec fn tail_pos(&self) -> nat {
        self.tail as nat
    }

    /// Every element ever put in, in the order it was put in.
    pub closed spec fn sent(&self) -> Seq<T> {
        self.sent@
    }

    pub closed spec fn wf(&self) -> bool {
        &&& is_pow2(self.inner@.len())
        &&& self.head <= self.tail
        &&& self.tail - self.head <= self.inner@.len()
        &&& self.sent@.len() == self.tail
        &&& forall|j: int|
            0 <= j < self.tail - self.head ==> (#[trigger] self.at(j)) == Some(
                self.sent@[self.head + j],
            )
    }

    /// A ring with room for `cap` rounded up to a power of two.
    pub fn new(cap: usize) -> (r: Self)
        requires
            cap <= usize::MAX / 2 + 1,
        ensures
            r.wf(),
            r@ == Seq::<T>::empty(),
            r.sent() == Seq::<T>::empty(),
            r.head_pos() == 0,
            r.tail_pos() == 0,
            is_pow2(r.cap()),
            cap <= r.cap(),
            r.cap() == 1 || r.cap() / 2 < cap,
    {
        let cap = next_power_of_two(cap);
        let mut inner: Vec<Option<T>> = Vec::new();
        while inner.len() < cap
            invariant
                inner.len() <= cap,
            decreases cap - inner.len(),
        {
            inner.push(None);
        }
        let r = Slots { inner, head: 0, tail: 0, sent: Ghost(Seq::empty()) };
        proof {
            assert(r@ =~= Seq::<T>::empty());
        }
        r
    }

    pub fn head(&self) -> (r: usize)
        ensures
            r == self.head_pos(),
    {
        self.head
    }

    pub fn tail(&self) -> (r: usize)
        ensures
            r == self.tail_pos(),
    {
        self.tail
    }

    pub fn capacity(&self) -> (r: usize)
        ensures
            r == self.cap(),
    {
        self.inner.len()
    }

    /// Puts `val` into the slot of the tail position.
    pub fn push(&mut self, val: T)
        requires
            old(self).wf(),
            old(self)@.len() < old(self).cap(),
            old(self).tail_pos() < usize::MAX,
        ensures
            final(self).wf(),
            final(self)@ == old(self)@.push(val),
            final(self).sent() == old(self).sent().push(val),
            final(self).head_pos() == old(self).head_pos(),
            final(self).tail_pos() == old(self).tail_pos() + 1,
            final(self).cap() == old(self).cap(),
    {
        let cap = self.inner.len();
        let s = slot_of(self.tail, cap);
        self.inner.set(s, Some(val));
        self.tail = self.tail + 1;
        self.sent = Ghost(self.sent@.push(val));
        proof {
            let o = old(self);
            assert forall|j: int| 0 <= j < self.tail - self.head implies (#[trigger] self.at(j))
                == Some(self.sent@[self.head + j]) by {
                if j < o.tail - o.head {
                    lemma_slots_distinct(self.head + j, o.tail as int, cap as int);
                    assert(o.at(j) == Some(o.sent@[o.head + j]));
                }
            }
            assert(self@ =~= o@.push(val)) by {
                assert forall|j: int| 0 <= j < o.tail - o.head implies self.at(j) == o.at(j) by {
                    lemma_slots_distinct(self.head + j, o.tail as int, cap as int);
                }
            }
        }
    }

    /// Takes the element at the head position out of its slot.
    pub fn pop(&mut self) -> (r: T)
        requires
            old(self).wf(),
            old(self)@.len() > 0,
        ensures
            final(self).wf(),
            r == old(self)@[0],
            r == old(self).sent()[old(self).head_pos() as int],
            final(self)@ == old(self)@.drop_first(),
            final(self).sent() == old(self).sent(),
            final(self).head_pos() == old(self).head_pos() + 1,
            final(self).tail_pos() == old(self).tail_pos(),
            final(self).cap() == old(self).cap(),
    {
        let cap = self.inner.len();
        let s = slot_of(self.head, cap);
        proof {
            assert(self.at(0) == Some(self.sent@[self.head as int]));
        }
        let r = self.inner[s].take();
        self.head = self.head + 1;
        proof {
            let o = old(self);
            assert forall|j: int| 0 <= j < self.tail - self.head implies (#[trigger] self.at(j))
                == o.at(j + 1) by {
                lemma_slots_distinct(o.head as int, o.head + j + 1, cap as int);
                assert(o.head + (j + 1) == self.head + j);
            }
            assert forall|j: int| 0 <= j < self.tail - self.head implies (#[trigger] self.at(j))
                == Some(self.sent@[self.head + j]) by {
                assert(self.at(j) == o.at(j + 1));
                assert(o.at(j + 1) == Some(o.sent@[o.head + (j + 1)]));
            }
            assert(self@ =~= o@.drop_first()) by {
                assert forall|j: int| 0 <= j < self.tail - self.head implies self.at(j) == o.at(j + 1) by {
                    lemma_slots_distinct(o.head as int, o.head + j + 1, cap as int);
                    assert(o.head + (j + 1) == self.head + j);
                }
            }
        }
        r.unwrap()
    }
}


/// What the consumer can still receive is exactly what was sent and not yet
/// received, in the order it was sent.
pub proof fn lemma_fifo<T>(buf: &Slots<T>)
    requires
        buf.wf(),
    ensures
        buf@ == buf.sent().subrange(buf.head_pos() as int, buf.tail_pos() as int),
        buf.head_pos() <= buf.tail_pos() == buf.sent().len(),
        buf@.len() == buf.tail_pos() - buf.head_pos(),
        buf@.len() <= buf.cap(),
        is_pow2(buf.cap()),
        buf.tail_pos() <= usize::MAX,
{
    assert(buf@ =~= buf.sent().subrange(buf.head_pos() as int, buf.tail_pos() as int)) by {
        assert forall|j: int| 0 <= j < buf@.len() implies buf@[j] == buf.sent()[buf.head + j] by {
            assert(buf.at(j) == Some(buf.sent@[buf.head + j]));
        }
    }
}

} // verus!
