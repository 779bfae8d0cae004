//! Bounded multi-producer single-consumer channel with per-producer batches.
//! A producer applies for a slice of the ring, fills a local buffer, and
//! writes the whole slice at once (padding it with `None` when it flushes
//! early). Filled slices become readable in position order: a slice is
//! merged only once it starts right where the readable part ends.

use vstd::prelude::*;
use core::marker::PhantomData;
use std::collections::BTreeSet;
use vstd::std_specs::btree::increasing_seq;
use vstd::std_specs::iter::IteratorSpec;
use vstd::std_specs::cmp::OrdSpec;
use crate::Attempt;
use crate::ring::{is_pow2, lemma_pow2_between, lemma_slots_distinct, next_power_of_two, slot_of};

verus! {

broadcast use {vstd::std_specs::btree::group_btree_axioms, vstd::laws_cmp::group_laws_cmp};

/// The slice size that a producer applies for.
pub const APPLY_SIZE: usize = 32;

/// Two slices `(start, len)` share no position.
pub open spec fn disjoint(a: (usize, usize), b: (usize, usize)) -> bool {
    a.0 + a.1 <= b.0 || b.0 + b.1 <= a.0
}

/// `fs` (ordered by start) with `s` put in its place by start.
pub open spec fn insert_sorted(fs: Seq<(usize, usize)>, s: (usize, usize)) -> Seq<(usize, usize)>
    decreases fs.len(),
{
    if fs.len() == 0 {
        seq![s]
    } else if fs[0].0 < s.0 {
        seq![fs[0]] + insert_sorted(fs.drop_first(), s)
    } else {
        seq![s] + fs
    }
}

/// Where the run of slices of `fs` that continues seamlessly from `at` ends.
pub open spec fn run_end(fs: Seq<(usize, usize)>, at: int) -> int
    decreases fs.len(),
{
    if fs.len() > 0 && fs[0].0 == at {
        run_end(fs.drop_first(), at + fs[0].1)
    } else {
        at
    }
}

/// The slices of `fs` left after the run that continues from `at`.
pub open spec fn run_rest(fs: Seq<(usize, usize)>, at: int) -> Seq<(usize, usize)>
    decreases fs.len(),
{
    if fs.len() > 0 && fs[0].0 == at {
        run_rest(fs.drop_first(), at + fs[0].1)
    } else {
        fs
    }
}

/// Inserting by start puts `s` after exactly the slices that start before it.
proof fn lemma_insert_sorted(fs: Seq<(usize, usize)>, s: (usize, usize), i: int)
    requires
        0 <= i <= fs.len(),
        forall|k: int| 0 <= k < i ==> (#[trigger] fs[k]).0 < s.0,
        i < fs.len() ==> fs[i].0 >= s.0,
    ensures
        insert_sorted(fs, s) == fs.insert(i, s),
    decreases i,
{
    if i == 0 {
        if fs.len() == 0 {
            assert(seq![s] =~= fs.insert(0, s));
        } else {
            assert(seq![s] + fs =~= fs.insert(0, s));
        }
    } else {
        assert(fs[0].0 < s.0);
        lemma_insert_sorted(fs.drop_first(), s, i - 1);
        assert(fs.insert(i, s) =~= seq![fs[0]] + fs.drop_first().insert(i - 1, s));
    }
}

/// Where `s` goes among `fs`: after the slices that start before it.
proof fn insert_index(fs: Seq<(usize, usize)>, s: (usize, usize)) -> (i: int)
    ensures
        0 <= i <= fs.len(),
        forall|k: int| 0 <= k < i ==> (#[trigger] fs[k]).0 < s.0,
        i < fs.len() ==> fs[i].0 >= s.0,
    decreases fs.len(),
{
    if fs.len() == 0 || fs[0].0 >= s.0 {
        0
    } else {
        let j = insert_index(fs.drop_first(), s);
        assert forall|k: int| 0 <= k < j + 1 implies (#[trigger] fs[k]).0 < s.0 by {
            if k > 0 {
                assert(fs[k] == fs.drop_first()[k - 1]);
            }
        }
        j + 1
    }
}

/// The next item of `it`: the first of those it has left.
fn next_item<I: Iterator>(it: &mut I) -> (r: Option<I::Item>)
    ensures
        (*old(it)).obeys_prophetic_iter_laws() ==> ({
            if (*old(it)).remaining().len() > 0 {
                r == Some((*old(it)).remaining()[0])
            } else {
                r === None
            }
        }),
{
    it.next()
}

/// The starts of `fs` increase strictly.
pub open spec fn starts_increase(fs: Seq<(usize, usize)>) -> bool {
    forall|a: int, b: int| 0 <= a < b < fs.len() ==> #[trigger] fs[a].0 < #[trigger] fs[b].0
}

/// Listed in increasing order, the slices of `fs` (whose starts increase)
/// begin with the first of `fs`.
proof fn lemma_least_first(fs: Seq<(usize, usize)>, rem: Seq<&(usize, usize)>)
    requires
        starts_increase(fs),
        increasing_seq(rem),
        rem.unref().to_set() == fs.to_set(),
        rem.len() > 0,
    ensures
        fs.len() > 0,
        *rem[0] == fs[0],
{
    let first = *rem[0];
    assert(rem.unref()[0] == first);
    assert(rem.unref().to_set().contains(first));
    let k = choose|k: int| 0 <= k < fs.len() && fs[k] == first;
    assert(fs.to_set().contains(fs[0]));
    let m = choose|m: int| 0 <= m < rem.unref().len() && rem.unref()[m] == fs[0];
    if k != 0 {
        assert(fs[0].0 < fs[k].0);
        assert(m != 0);
        assert(*rem[m] == fs[0]);
        assert(vstd::laws_cmp::obeys_cmp::<usize>());
        assert(vstd::laws_cmp::obeys_cmp::<(usize, usize)>());
        assert(vstd::laws_cmp::obeys_cmp::<&(usize, usize)>());
        assert(OrdSpec::cmp_spec(&rem[0], &rem[m]) is Less);
    }
}

/// `local` filled up with `None` to `n` elements.
pub open spec fn padded<T>(local: Seq<Option<T>>, n: nat) -> Seq<Option<T>> {
    local + Seq::new((n - local.len()) as nat, |i: int| None::<T>)
}

/// The shared ring. Positions `head..readable_till` can be read;
/// `readable_till..tail` is reserved by producers, partly already filled
/// (`filled_slices`, ordered by start); the rest of the ring is free.
pub struct RingBuffer<T: Send> {
    inner: Vec<Option<T>>,
    head: usize,
    tail: usize,
    readable_till: usize,
    len: usize,
    reserved: usize,
    free: usize,
    filled_slices: BTreeSet<(usize, usize)>,
    /// The filled slices in the order of their starts.
    filled_order: Ghost<Seq<(usize, usize)>>,
    px_count: usize,
    cx_count: bool,
    /// The slices handed to producers and not yet filled.
    outstanding: Ghost<Set<(usize, usize)>>,
}

#[derive(Debug)]
pub struct SendError<T>(pub T);

#[derive(Debug)]
pub struct RecvError;

impl<T: Send> RingBuffer<T> {
    pub closed spec fn cap(&self) -> nat {
        self.inner@.len()
    }

    pub closed spec fn head_pos(&self) -> int {
        self.head as int
    }

    pub closed spec fn tail_pos(&self) -> int {
        self.tail as int
    }

    /// The end of the readable part.
    pub closed spec fn readable_pos(&self) -> int {
        self.readable_till as int
    }

    /// The filled slices not yet merged, ordered by start.
    pub closed spec fn filled(&self) -> Seq<(usize, usize)> {
        self.filled_order@
    }

    /// The slices handed to producers and not yet filled.
    pub closed spec fn applied(&self) -> Set<(usize, usize)> {
        self.outstanding@
    }

    pub closed spec fn producers(&self) -> nat {
        self.px_count as nat
    }

    pub closed spec fn has_consumer(&self) -> bool {
        self.cx_count
    }

    /// What the slot of position `pos` holds.
    pub closed spec fn value_at(&self, pos: int) -> Option<T> {
        self.inner@[pos % (self.inner@.len() as int)]
    }

    /// The readable elements, oldest first (`None` is padding).
    pub open spec fn readable(&self) -> Seq<Option<T>> {
        Seq::new(
            (self.readable_pos() - self.head_pos()) as nat,
            |j: int| self.value_at(self.head_pos() + j),
        )
    }

    /// A slice lies in the reserved part.
    pub open spec fn in_reserved(&self, s: (usize, usize)) -> bool {
        &&& self.readable_pos() <= s.0
        &&& s.1 > 0
        &&& s.0 + s.1 <= self.tail_pos()
    }

    pub closed spec fn wf(&self) -> bool {
        &&& is_pow2(self.inner@.len())
        &&& self.head <= self.readable_till <= self.tail
        &&& self.tail - self.head <= self.inner@.len()
        &&& self.len == self.readable_till - self.head
        &&& self.reserved == self.tail - self.readable_till
        &&& self.free == self.inner@.len() - (self.tail - self.head)
        &&& self.slices_wf()
    }

    spec fn slices_wf(&self) -> bool {
        let fs = self.filled_order@;
        &&& self.filled_slices@ == fs.to_set()
        &&& forall|i: int| 0 <= i < fs.len() ==> self.in_reserved(#[trigger] fs[i])
        &&& forall|i: int, j: int| 0 <= i < j < fs.len() ==> #[trigger] fs[i].0 + fs[i].1 <= #[trigger] fs[j].0
        &&& forall|o: (usize, usize)| #[trigger] self.outstanding@.contains(o) ==> self.in_reserved(o)
        &&& forall|o: (usize, usize), i: int|
            #[trigger] self.outstanding@.contains(o) && 0 <= i < fs.len() ==> disjoint(o, #[trigger] fs[i])
        &&& forall|o1: (usize, usize), o2: (usize, usize)|
            #[trigger] self.outstanding@.contains(o1) && #[trigger] self.outstanding@.contains(o2)
                && o1 != o2 ==> disjoint(o1, o2)
    }

    /// A ring with room for `cap` rounded up to a power of two, with one
    /// producer and the consumer.
    pub fn new(cap: usize) -> (r: Self)
        requires
            cap <= usize::MAX / 2 + 1,
        ensures
            r.wf(),
            r.head_pos() == 0,
            r.readable_pos() == 0,
            r.tail_pos() == 0,
            r.filled() == Seq::<(usize, usize)>::empty(),
            r.applied() == Set::<(usize, usize)>::empty(),
            r.producers() == 1,
            r.has_consumer(),
            is_pow2(r.cap()),
            cap <= r.cap(),
            r.cap() == 1 || r.cap() / 2 < cap,
    {
        let cap = next_power_of_two(cap);
        let mut inner: Vec<Option<T>> = Vec::new();
        while inner.len() < cap
            invariant
                inner.len() <= cap,
            decreases cap - inner.len(),
        {
            inner.push(None);
        }
        proof {
            assert(Seq::<(usize, usize)>::empty().to_set() =~= Set::empty());
        }
        RingBuffer {
            inner,
            head: 0,
            tail: 0,
            readable_till: 0,
            len: 0,
            reserved: 0,
            free: cap,
            filled_slices: BTreeSet::new(),
            filled_order: Ghost(Seq::empty()),
            px_count: 1,
            cx_count: true,
            outstanding: Ghost(Set::empty()),
        }
    }

    pub fn head(&self) -> (r: usize)
        ensures
            r == self.head_pos(),
    {
        self.head
    }

    pub fn cx_exists(&self) -> (r: bool)
        ensures
            r == self.has_consumer(),
    {
        self.cx_count
    }

    pub fn px_exist(&self) -> (r: bool)
        ensures
            r == (self.producers() > 0),
    {
        self.px_count > 0
    }

    pub fn capacity(&self) -> (r: usize)
        ensures
            r == self.cap(),
    {
        self.inner.len()
    }

    pub fn len(&self) -> (r: usize)
        requires
            self.wf(),
        ensures
            r == self.readable_pos() - self.head_pos(),
    {
        self.len
    }

    pub fn reserved(&self) -> (r: usize)
        requires
            self.wf(),
        ensures
            r == self.tail_pos() - self.readable_pos(),
    {
        self.reserved
    }

    pub fn free(&self) -> (r: usize)
        requires
            self.wf(),
        ensures
            r == self.cap() - (self.tail_pos() - self.head_pos()),
    {
        self.free
    }

    pub fn is_empty(&self) -> (r: bool)
        requires
            self.wf(),
        ensures
            r == (self.readable_pos() == self.head_pos()),
    {
        self.len() == 0
    }

    pub fn is_full(&self) -> (r: bool)
        requires
            self.wf(),
        ensures
            r == (self.tail_pos() - self.head_pos() == self.cap()),
    {
        self.free() == 0
    }

    /// `self` is `prev` after `vals` were written to the applied slice `s`
    /// and `s` was merged into the filled slices.
    pub open spec fn stored(&self, prev: &Self, s: (usize, usize), vals: Seq<Option<T>>) -> bool {
        &&& vals.len() == s.1
        &&& forall|p: int|
            self.head_pos() <= p < self.tail_pos() ==> #[trigger] self.value_at(p) == if s.0 <= p < s.0
                + s.1 {
                vals[p - s.0]
            } else {
                prev.value_at(p)
            }
        &&& self.readable_pos() == run_end(insert_sorted(prev.filled(), s), prev.readable_pos())
        &&& self.filled() == run_rest(insert_sorted(prev.filled(), s), prev.readable_pos())
        &&& self.head_pos() == prev.head_pos()
        &&& self.cap() == prev.cap()
        &&& self.producers() == prev.producers()
        &&& self.has_consumer() == prev.has_consumer()
    }

    /// Basic facts of a well-formed ring.
    pub proof fn lemma_wf(&self)
        requires
            self.wf(),
        ensures
            0 <= self.head_pos() <= self.readable_pos() <= self.tail_pos() <= usize::MAX,
            self.tail_pos() - self.head_pos() <= self.cap(),
            is_pow2(self.cap()),
            forall|i: int| 0 <= i < self.filled().len() ==> self.in_reserved(#[trigger] self.filled()[i]),
            forall|i: int, j: int|
                0 <= i < j < self.filled().len() ==> #[trigger] self.filled()[i].0 + self.filled()[i].1
                    <= #[trigger] self.filled()[j].0,
            forall|o: (usize, usize)| #[trigger] self.applied().contains(o) ==> self.in_reserved(o),
    {
    }

    /// Moves the applied slice `s` into the filled slices, at its place by
    /// start.
    fn insert_filled(&mut self, s: (usize, usize))
        requires
            old(self).wf(),
            old(self).applied().contains(s),
        ensures
            final(self).wf(),
            final(self).filled() == insert_sorted(old(self).filled(), s),
            final(self).applied() == old(self).applied().remove(s),
            final(self).inner == old(self).inner,
            final(self).head == old(self).head,
            final(self).tail == old(self).tail,
            final(self).readable_till == old(self).readable_till,
            final(self).px_count == old(self).px_count,
            final(self).cx_count == old(self).cx_count,
    {
        let ghost i = insert_index(self.filled_order@, s);
        proof {
            lemma_insert_sorted(self.filled_order@, s, i);
        }
        self.filled_slices.insert(s);
        self.filled_order = Ghost(self.filled_order@.insert(i, s));
        self.outstanding = Ghost(self.outstanding@.remove(s));
        proof {
            let o = old(self);
            let ofs = o.filled_order@;
            let fs = self.filled_order@;
            assert(fs.to_set() =~= ofs.to_set().insert(s)) by {
                assert forall|x: (usize, usize)| #[trigger] fs.contains(x) implies ofs.to_set().insert(s).contains(x) by {
                    let k = choose|k: int| 0 <= k < fs.len() && fs[k] == x;
                    if k < i {
                        assert(ofs[k] == x);
                    } else if k > i {
                        assert(ofs[k - 1] == x);
                    }
                }
                assert forall|x: (usize, usize)| #[trigger] ofs.contains(x) implies fs.contains(x) by {
                    let k = choose|k: int| 0 <= k < ofs.len() && ofs[k] == x;
                    if k < i {
                        assert(fs[k] == x);
                    } else {
                        assert(fs[k + 1] == x);
                    }
                }
                assert(fs[i] == s);
            }
            assert(o.in_reserved(s));
            assert forall|k: int| 0 <= k < ofs.len() implies disjoint(s, #[trigger] ofs[k]) by {
                assert(o.outstanding@.contains(s));
            }
            assert forall|k: int| 0 <= k < fs.len() implies self.in_reserved(#[trigger] fs[k]) by {
                if k < i {
                    assert(fs[k] == ofs[k]);
                } else if k > i {
                    assert(fs[k] == ofs[k - 1]);
                }
            }
            assert forall|a: int, b: int| 0 <= a < b < fs.len() implies #[trigger] fs[a].0 + fs[a].1
                <= #[trigger] fs[b].0 by {
                if b < i {
                    assert(fs[a] == ofs[a] && fs[b] == ofs[b]);
                } else if b == i {
                    assert(fs[a] == ofs[a]);
                    assert(disjoint(s, ofs[a]));
                } else if a == i {
                    assert(fs[b] == ofs[b - 1]);
                    assert(disjoint(s, ofs[b - 1]));
                    assert(ofs[i as int].0 >= s.0);
                    if b - 1 > i {
                        assert(ofs[i as int].0 + ofs[i as int].1 <= ofs[b - 1].0);
                    }
                } else if a < i {
                    assert(fs[a] == ofs[a] && fs[b] == ofs[b - 1]);
                } else {
                    assert(fs[a] == ofs[a - 1] && fs[b] == ofs[b - 1]);
                }
            }
            assert forall|o1: (usize, usize), k: int|
                #[trigger] self.outstanding@.contains(o1) && 0 <= k < fs.len() implies disjoint(o1, #[trigger] fs[k]) by {
                assert(o.outstanding@.contains(o1));
                if k < i {
                    assert(fs[k] == ofs[k]);
                } else if k > i {
                    assert(fs[k] == ofs[k - 1]);
                }
            }
            assert forall|o1: (usize, usize), o2: (usize, usize)|
                #[trigger] self.outstanding@.contains(o1) && #[trigger] self.outstanding@.contains(o2) && o1 != o2
                implies disjoint(o1, o2) by {
                assert(o.outstanding@.contains(o1));
                assert(o.outstanding@.contains(o2));
            }
            assert forall|o1: (usize, usize)| #[trigger] self.outstanding@.contains(o1) implies self.in_reserved(o1) by {
                assert(o.outstanding@.contains(o1));
            }
        }
    }

    /// Records `filled_slice` (when given) as filled, then makes readable
    /// every filled slice that continues the readable part, as long as
    /// there is one.
    pub fn merge_with_filled_slices(&mut self, filled_slice: Option<(usize, usize)>)
        requires
            old(self).wf(),
            filled_slice matches Some(s) ==> old(self).applied().contains(s),
        ensures
            final(self).wf(),
            ({
                let fs = match filled_slice {
                    Some(s) => insert_sorted(old(self).filled(), s),
                    None => old(self).filled(),
                };
                &&& final(self).readable_pos() == run_end(fs, old(self).readable_pos())
                &&& final(self).filled() == run_rest(fs, old(self).readable_pos())
            }),
            final(self).applied() == match filled_slice {
                Some(s) => old(self).applied().remove(s),
                None => old(self).applied(),
            },
            final(self).head_pos() == old(self).head_pos(),
            final(self).tail_pos() == old(self).tail_pos(),
            final(self).cap() == old(self).cap(),
            final(self).producers() == old(self).producers(),
            final(self).has_consumer() == old(self).has_consumer(),
            forall|p: int| #[trigger] final(self).value_at(p) == old(self).value_at(p),
            filled_slice is None && final(self).readable_pos() == old(self).readable_pos() ==> *final(self)
                == *old(self),
    {
        if let Some(s) = filled_slice {
            self.insert_filled(s);
        }
        let ghost fs0 = self.filled_order@;
        let ghost rt0 = self.readable_till as int;
        let ghost pre_loop = *self;
        let mut first = self.first_filled();
        while first.is_some() && first.unwrap().0 == self.readable_till
            invariant
                self.wf(),
                first == if self.filled().len() > 0 {
                    Some(self.filled()[0])
                } else {
                    None
                },
                run_end(self.filled_order@, self.readable_till as int) == run_end(fs0, rt0),
                run_rest(self.filled_order@, self.readable_till as int) == run_rest(fs0, rt0),
                self.inner == old(self).inner,
                self.head == old(self).head,
                self.tail == old(self).tail,
                self.px_count == old(self).px_count,
                self.cx_count == old(self).cx_count,
                self.outstanding == (match filled_slice {
                    Some(s) => Ghost(old(self).applied().remove(s)),
                    None => Ghost(old(self).applied()),
                }),
                rt0 <= self.readable_till,
                self.readable_till == rt0 ==> *self == pre_loop,
            decreases self.filled_order@.len(),
        {
            let ghost pre = *self;
            let (start, len) = first.unwrap();
            self.filled_slices.remove(&(start, len));
            self.filled_order = Ghost(self.filled_order@.drop_first());
            proof {
                assert(pre.in_reserved(pre.filled_order@[0]));
            }
            self.readable_till = start + len;
            self.len = self.len + len;
            self.reserved = self.reserved - len;
            proof {
                let ofs = pre.filled_order@;
                let fs = self.filled_order@;
                assert(fs.to_set() =~= ofs.to_set().remove(ofs[0])) by {
                    assert forall|x: (usize, usize)| #[trigger] fs.contains(x) implies ofs.to_set().remove(ofs[0]).contains(x) by {
                        let k = choose|k: int| 0 <= k < fs.len() && fs[k] == x;
                        assert(ofs[k + 1] == x);
                        assert(ofs[0].0 < ofs[k + 1].0);
                    }
                    assert forall|x: (usize, usize)| #[trigger] ofs.contains(x) && x != ofs[0] implies fs.contains(x) by {
                        let k = choose|k: int| 0 <= k < ofs.len() && ofs[k] == x;
                        assert(fs[k - 1] == x);
                    }
                }
                assert(fs =~= ofs.drop_first());
                assert forall|k: int| 0 <= k < fs.len() implies self.in_reserved(#[trigger] fs[k]) by {
                    assert(fs[k] == ofs[k + 1]);
                    assert(pre.in_reserved(ofs[k + 1]));
                    assert(ofs[0].0 + ofs[0].1 <= ofs[k + 1].0);
                }
                assert forall|a: int, b: int| 0 <= a < b < fs.len() implies #[trigger] fs[a].0 + fs[a].1
                    <= #[trigger] fs[b].0 by {
                    assert(fs[a] == ofs[a + 1] && fs[b] == ofs[b + 1]);
                }
                assert forall|o1: (usize, usize), k: int|
                    #[trigger] self.outstanding@.contains(o1) && 0 <= k < fs.len() implies disjoint(o1, #[trigger] fs[k]) by {
                    assert(fs[k] == ofs[k + 1]);
                }
                assert forall|o1: (usize, usize)| #[trigger] self.outstanding@.contains(o1) implies self.in_reserved(o1) by {
                    assert(pre.in_reserved(o1));
                    assert(disjoint(o1, ofs[0]));
                }
            }
            first = self.first_filled();
        }
        proof {
            assert forall|p: int| #[trigger] self.value_at(p) == old(self).value_at(p) by {}
        }
    }

    /// The filled slice that starts first, if there is one.
    fn first_filled(&self) -> (r: Option<(usize, usize)>)
        requires
            self.wf(),
        ensures
            r == if self.filled().len() > 0 {
                Some(self.filled()[0])
            } else {
                None
            },
    {
        let mut it = self.filled_slices.iter();
        let ghost rem = it.remaining();
        let fs = Ghost(self.filled_order@);
        proof {
            assert(starts_increase(fs@)) by {
                assert forall|a: int, b: int| 0 <= a < b < fs@.len() implies #[trigger] fs@[a].0
                    < #[trigger] fs@[b].0 by {
                    assert(self.in_reserved(fs@[a]));
                }
            }
        }
        match next_item(&mut it) {
            Some(p) => {
                proof {
                    lemma_least_first(fs@, rem);
                }
                Some(*p)
            },
            None => {
                proof {
                    if fs@.len() > 0 {
                        assert(fs@.to_set().contains(fs@[0]));
                    }
                }
                None
            },
        }
    }

    /// Distinct positions of the occupied window sit in distinct slots.
    proof fn lemma_window_slots(&self, p: int, q: int)
        requires
            self.wf(),
            self.head <= p < self.tail,
            self.head <= q < self.tail,
            p != q,
        ensures
            p % (self.inner@.len() as int) != q % (self.inner@.len() as int),
    {
        if p < q {
            lemma_slots_distinct(p, q, self.inner@.len() as int);
        } else {
            lemma_slots_distinct(q, p, self.inner@.len() as int);
        }
    }

    /// Writes `vals` to the positions of the applied slice that starts at
    /// `pos`, the `i`-th value at `pos + i`.
    fn store_vals(&mut self, pos: usize, vals: Vec<Option<T>>)
        requires
            old(self).wf(),
            old(self).applied().contains((pos, vals@.len() as usize)),
        ensures
            final(self).wf(),
            forall|p: int|
                final(self).head_pos() <= p < final(self).tail_pos() ==> #[trigger] final(self).value_at(p)
                    == if pos <= p < pos + vals@.len() {
                    vals@[p - pos]
                } else {
                    old(self).value_at(p)
                },
            final(self).head == old(self).head,
            final(self).tail == old(self).tail,
            final(self).readable_till == old(self).readable_till,
            final(self).len == old(self).len,
            final(self).reserved == old(self).reserved,
            final(self).free == old(self).free,
            final(self).filled_slices == old(self).filled_slices,
            final(self).filled_order == old(self).filled_order,
            final(self).outstanding == old(self).outstanding,
            final(self).px_count == old(self).px_count,
            final(self).cx_count == old(self).cx_count,
    {
        let ghost vals0 = vals@;
        proof {
            assert(self.in_reserved((pos, vals@.len() as usize)));
        }
        let cap = self.inner.len();
        let n = vals.len();
        let mut vals = vals;
        let mut i = n;
        while i > 0
            invariant
                i <= n == vals0.len(),
                vals@ == vals0.take(i as int),
                cap == self.inner@.len(),
                self.wf(),
                old(self).readable_till <= pos,
                pos + n <= old(self).tail,
                self.head == old(self).head,
                self.tail == old(self).tail,
                self.readable_till == old(self).readable_till,
                self.len == old(self).len,
                self.reserved == old(self).reserved,
                self.free == old(self).free,
                self.filled_slices == old(self).filled_slices,
                self.filled_order == old(self).filled_order,
                self.outstanding == old(self).outstanding,
                self.px_count == old(self).px_count,
                self.cx_count == old(self).cx_count,
                forall|p: int|
                    self.head <= p < self.tail ==> #[trigger] self.value_at(p) == if pos + i <= p < pos + n {
                        vals0[p - pos]
                    } else {
                        old(self).value_at(p)
                    },
            decreases i,
        {
            i = i - 1;
            let v = vals.pop().unwrap();
            let slot = slot_of(pos + i, cap);
            let ghost pre = *self;
            self.inner.set(slot, v);
            proof {
                assert forall|p: int| self.head <= p < self.tail implies #[trigger] self.value_at(p) == if pos
                    + i <= p < pos + n {
                    vals0[p - pos]
                } else {
                    old(self).value_at(p)
                } by {
                    if p != pos + i {
                        pre.lemma_window_slots(p, pos + i);
                        assert(self.value_at(p) == pre.value_at(p));
                    }
                }
            }
        }
    }

    /// Takes the element at the head. When nothing is readable and no
    /// producer is left, the filled slices are merged first. Fails when
    /// nothing is readable, no producer is left and nothing is reserved;
    /// asks to try later when nothing is readable and either a producer is
    /// left or the reserved part does not continue with a filled slice.
    pub fn pop_front(&mut self) -> (r: Attempt<Result<Option<T>, RecvError>, ()>)
        requires
            old(self).wf(),
        ensures
            final(self).wf(),
            final(self).tail_pos() == old(self).tail_pos(),
            final(self).cap() == old(self).cap(),
            final(self).producers() == old(self).producers(),
            final(self).has_consumer() == old(self).has_consumer(),
            final(self).applied() == old(self).applied(),
            ({
                let o = *old(self);
                let empty = o.readable_pos() == o.head_pos();
                let re = run_end(o.filled(), o.readable_pos());
                match r {
                    Attempt::Done(Ok(v)) => {
                        &&& v == o.value_at(o.head_pos())
                        &&& final(self).head_pos() == o.head_pos() + 1
                        &&& final(self).head_pos() <= final(self).readable_pos()
                        &&& (forall|p: int|
                            final(self).head_pos() <= p < final(self).tail_pos()
                                ==> #[trigger] final(self).value_at(p) == o.value_at(p))
                        &&& !empty ==> final(self).readable_pos() == o.readable_pos()
                            && final(self).filled() == o.filled()
                        &&& empty ==> o.producers() == 0 && re > o.readable_pos()
                            && final(self).readable_pos() == re && final(self).filled() == run_rest(
                            o.filled(),
                            o.readable_pos(),
                        )
                    },
                    Attempt::Done(Err(_)) => {
                        &&& empty && o.producers() == 0 && o.readable_pos() == o.tail_pos()
                        &&& *final(self) == o
                    },
                    Attempt::Retry(_) => {
                        &&& empty
                        &&& o.producers() > 0 || (o.readable_pos() < o.tail_pos() && re
                            == o.readable_pos())
                        &&& *final(self) == o
                    },
                }
            }),
    {
        if self.is_empty() {
            let px_exist = self.px_exist();
            if !px_exist {
                if self.reserved() > 0 {
                    self.merge_with_filled_slices(None);
                    if self.is_empty() {
                        return Attempt::Retry(());
                    }
                } else {
                    return Attempt::Done(Err(RecvError));
                }
            } else {
                return Attempt::Retry(());
            }
        }
        let ghost pre = *self;
        let cap = self.inner.len();
        let slot = slot_of(self.head, cap);
        let res = self.inner[slot].take();
        proof {
            assert(res == pre.value_at(pre.head as int));
            assert(pre.value_at(pre.head as int) == old(self).value_at(old(self).head as int));
        }
        self.head = self.head + 1;
        self.len = self.len - 1;
        self.free = self.free + 1;
        proof {
            assert forall|p: int| self.head <= p < self.tail implies #[trigger] self.value_at(p) == pre.value_at(p) by {
                pre.lemma_window_slots(p, pre.head as int);
            }
            let fs = self.filled_order@;
            assert forall|k: int| 0 <= k < fs.len() implies self.in_reserved(#[trigger] fs[k]) by {
                assert(pre.in_reserved(fs[k]));
            }
            assert forall|o1: (usize, usize)| #[trigger] self.outstanding@.contains(o1) implies self.in_reserved(o1) by {
                assert(pre.in_reserved(o1));
            }
        }
        Attempt::Done(Ok(res))
    }

    /// Applies for a slice of `size` positions at the tail, or of all the
    /// free positions when fewer are free. `None` when the ring is full.
    pub fn apply(&mut self, size: usize) -> (r: Option<(usize, usize)>)
        requires
            old(self).wf(),
            old(self).tail_pos() + size <= usize::MAX,
        ensures
            final(self).wf(),
            final(self).head_pos() == old(self).head_pos(),
            final(self).readable_pos() == old(self).readable_pos(),
            final(self).filled() == old(self).filled(),
            final(self).cap() == old(self).cap(),
            final(self).producers() == old(self).producers(),
            final(self).has_consumer() == old(self).has_consumer(),
            forall|p: int|
                final(self).head_pos() <= p < old(self).tail_pos() ==> final(self).value_at(p)
                    == old(self).value_at(p),
            ({
                let free = old(self).cap() - (old(self).tail_pos() - old(self).head_pos());
                match r {
                    Some(s) => {
                        &&& free >= size ==> s.0 == old(self).tail_pos() && s.1 == size
                        &&& free < size ==> free > 0 && s.0 == old(self).tail_pos() && s.1 == free
                        &&& final(self).tail_pos() == old(self).tail_pos() + s.1
                        &&& final(self).applied() == if s.1 > 0 {
                            old(self).applied().insert(s)
                        } else {
                            old(self).applied()
                        }
                    },
                    None => {
                        &&& free == 0 && size > 0
                        &&& *final(self) == *old(self)
                    },
                }
            }),
    {
        let free = self.free();
        let n = if free >= size {
            size
        } else if free > 0 {
            free
        } else {
            return None;
        };
        let start = self.tail;
        self.tail = self.tail + n;
        self.reserved = self.reserved + n;
        self.free = self.free - n;
        if n > 0 {
            self.outstanding = Ghost(self.outstanding@.insert((start, n)));
        }
        proof {
            let o = old(self);
            let fs = self.filled_order@;
            assert forall|o1: (usize, usize), i: int|
                #[trigger] self.outstanding@.contains(o1) && 0 <= i < fs.len() implies disjoint(o1, #[trigger] fs[i]) by {
                if o1 != (start, n) {
                    assert(o.outstanding@.contains(o1));
                }
            }
            assert forall|o1: (usize, usize), o2: (usize, usize)|
                #[trigger] self.outstanding@.contains(o1) && #[trigger] self.outstanding@.contains(o2) && o1 != o2
                implies disjoint(o1, o2) by {
                if o1 != (start, n) && o2 != (start, n) {
                    assert(o.outstanding@.contains(o1));
                    assert(o.outstanding@.contains(o2));
                } else if o1 == (start, n) {
                    assert(o.outstanding@.contains(o2));
                } else {
                    assert(o.outstanding@.contains(o1));
                }
            }
            assert forall|o1: (usize, usize)| #[trigger] self.outstanding@.contains(o1) implies self.in_reserved(o1) by {
                if o1 != (start, n) {
                    assert(o.outstanding@.contains(o1));
                }
            }
        }
        Some((start, n))
    }
}

/// A sending end: the slice it applied for and the elements it collected
/// for that slice so far.
pub struct Producer<T: Send> {
    buf_local: Vec<Option<T>>,
    allocated_slice: Option<(usize, usize)>,
}

/// The receiving end.
pub struct Consumer<T: Send> {
    marker: PhantomData<T>,
}

impl<T: Send> Producer<T> {
    pub closed spec fn local(&self) -> Seq<Option<T>> {
        self.buf_local@
    }

    pub closed spec fn slice(&self) -> Option<(usize, usize)> {
        self.allocated_slice
    }

    /// The producer's slice is one that `buf` handed out and has not got
    /// back yet, and the collected elements still fit into it.
    pub open spec fn attached(&self, buf: &RingBuffer<T>) -> bool {
        match self.slice() {
            None => self.local().len() == 0,
            Some(s) => buf.applied().contains(s) && self.local().len() < s.1,
        }
    }

    /// Like `attached`, but the collected elements may fill the slice.
    pub open spec fn may_flush(&self, buf: &RingBuffer<T>) -> bool {
        match self.slice() {
            None => self.local().len() == 0,
            Some(s) => buf.applied().contains(s) && self.local().len() <= s.1,
        }
    }

    pub fn new(buf: &RingBuffer<T>) -> (r: Self)
        ensures
            r.slice() is None,
            r.local().len() == 0,
    {
        Producer { buf_local: Vec::new(), allocated_slice: None }
    }

    /// Writes the collected elements, padded with `None` to the size of the
    /// slice, into the slice and hands the slice back as filled.
    pub fn flush(&mut self, buf: &mut RingBuffer<T>)
        requires
            old(buf).wf(),
            old(self).may_flush(old(buf)),
        ensures
            final(buf).wf(),
            final(self).slice() is None,
            final(self).local().len() == 0,
            match old(self).slice() {
                None => *final(buf) == *old(buf),
                Some(s) => {
                    &&& final(buf).stored(old(buf), s, padded(old(self).local(), s.1 as nat))
                    &&& final(buf).tail_pos() == old(buf).tail_pos()
                    &&& final(buf).applied() == old(buf).applied().remove(s)
                },
            },
    {
        match self.allocated_slice {
            None => {},
            Some((start, len)) => {
                let ghost local0 = self.buf_local@;
                while self.buf_local.len() < len
                    invariant
                        local0.len() <= self.buf_local@.len() <= len,
                        self.buf_local@ == padded(local0, self.buf_local@.len() as nat),
                    decreases len - self.buf_local@.len(),
                {
                    self.buf_local.push(None);
                    proof {
                        assert(self.buf_local@ =~= padded(local0, self.buf_local@.len() as nat));
                    }
                }
                let mut v: Vec<Option<T>> = Vec::new();
                std::mem::swap(&mut v, &mut self.buf_local);
                let ghost pre = *buf;
                buf.store_vals(start, v);
                self.allocated_slice = None;
                let ghost mid = *buf;
                buf.merge_with_filled_slices(Some((start, len)));
                proof {
                    assert forall|p: int| buf.head_pos() <= p < buf.tail_pos() implies #[trigger] buf.value_at(p)
                        == if start <= p < start + len {
                        v@[p - start]
                    } else {
                        pre.value_at(p)
                    } by {
                        assert(buf.value_at(p) == mid.value_at(p));
                    }
                }
            },
        }
    }

    /// Sends `val`. Without a slice the producer first applies for one of
    /// `APPLY_SIZE` positions; when the ring is full that fails if the
    /// consumer is gone and otherwise hands `val` back to try later. The
    /// element is collected, and a full slice is flushed.
    pub fn send(&mut self, buf: &mut RingBuffer<T>, val: T) -> (r: Attempt<
        Result<(), SendError<T>>,
        T,
    >)
        requires
            old(buf).wf(),
            old(self).attached(old(buf)),
            old(buf).tail_pos() + APPLY_SIZE <= usize::MAX,
        ensures
            final(buf).wf(),
            final(self).attached(final(buf)),
            ({
                let o = *old(buf);
                let free = o.cap() - (o.tail_pos() - o.head_pos());
                match r {
                    Attempt::Done(Ok(())) => {
                        let fresh = old(self).slice() is None;
                        let s: (usize, usize) = match old(self).slice() {
                            Some(s) => s,
                            None => (o.tail_pos() as usize, if free >= APPLY_SIZE {
                                APPLY_SIZE
                            } else {
                                free as usize
                            }),
                        };
                        let local = old(self).local().push(Some(val));
                        &&& fresh ==> free > 0
                        &&& final(buf).tail_pos() == if fresh {
                            o.tail_pos() + s.1
                        } else {
                            o.tail_pos()
                        }
                        &&& if local.len() < s.1 {
                            &&& final(self).slice() == Some(s)
                            &&& final(self).local() == local
                            &&& final(buf).applied() == if fresh {
                                o.applied().insert(s)
                            } else {
                                o.applied()
                            }
                            &&& final(buf).readable_pos() == o.readable_pos()
                            &&& final(buf).filled() == o.filled()
                            &&& final(buf).head_pos() == o.head_pos()
                            &&& final(buf).cap() == o.cap()
                            &&& final(buf).producers() == o.producers()
                            &&& final(buf).has_consumer() == o.has_consumer()
                            &&& forall|p: int|
                                o.head_pos() <= p < o.tail_pos() ==> #[trigger] final(buf).value_at(p)
                                    == o.value_at(p)
                        } else {
                            &&& final(self).slice() is None
                            &&& final(self).local().len() == 0
                            &&& final(buf).stored(&o, s, local)
                            &&& final(buf).applied() == if fresh {
                                o.applied()
                            } else {
                                o.applied().remove(s)
                            }
                        }
                    },
                    Attempt::Done(Err(e)) => {
                        &&& old(self).slice() is None && free == 0 && !o.has_consumer()
                        &&& e.0 == val
                        &&& *final(buf) == o
                        &&& *final(self) == *old(self)
                    },
                    Attempt::Retry(v) => {
                        &&& old(self).slice() is None && free == 0 && o.has_consumer()
                        &&& v == val
                        &&& *final(buf) == o
                        &&& *final(self) == *old(self)
                    },
                }
            }),
    {
        let ghost o = *buf;
        let fresh = self.allocated_slice.is_none();
        if fresh {
            match buf.apply(APPLY_SIZE) {
                Some(applied) => {
                    self.allocated_slice = Some(applied);
                },
                None => {
                    if !buf.cx_exists() {
                        return Attempt::Done(Err(SendError(val)));
                    }
                    return Attempt::Retry(val);
                },
            }
        }
        let ghost mid = *buf;
        let (start, len) = self.allocated_slice.unwrap();
        self.buf_local.push(Some(val));
        if self.buf_local.len() == len {
            let ghost local = self.buf_local@;
            self.flush(buf);
            proof {
                assert(padded(local, len as nat) =~= local);
                if fresh {
                    o.lemma_wf();
                    assert(!o.applied().contains((start, len)));
                    assert(mid.applied().remove((start, len)) =~= o.applied());
                    assert forall|p: int| buf.head_pos() <= p < buf.tail_pos() implies #[trigger] buf.value_at(p)
                        == if start <= p < start + len {
                        local[p - start]
                    } else {
                        o.value_at(p)
                    } by {
                        if !(start <= p < start + len) {
                            assert(mid.value_at(p) == o.value_at(p));
                        }
                    }
                }
            }
        }
        Attempt::Done(Ok(()))
    }

    /// Another producer of the same channel; the ring counts it.
    pub fn clone_in(&self, buf: &mut RingBuffer<T>) -> (r: Producer<T>)
        requires
            old(buf).wf(),
            old(buf).producers() < usize::MAX,
        ensures
            final(buf).wf(),
            final(buf).producers() == old(buf).producers() + 1,
            r.slice() is None,
            r.local().len() == 0,
            final(buf).head_pos() == old(buf).head_pos(),
            final(buf).tail_pos() == old(buf).tail_pos(),
            final(buf).readable_pos() == old(buf).readable_pos(),
            final(buf).filled() == old(buf).filled(),
            final(buf).applied() == old(buf).applied(),
            final(buf).cap() == old(buf).cap(),
            final(buf).has_consumer() == old(buf).has_consumer(),
            forall|p: int| #[trigger] final(buf).value_at(p) == old(buf).value_at(p),
    {
        buf.px_count = buf.px_count + 1;
        Producer { buf_local: Vec::new(), allocated_slice: None }
    }

    /// Leaves the channel: flushes, and the ring counts one producer fewer.
    pub fn close(self, buf: &mut RingBuffer<T>)
        requires
            old(buf).wf(),
            self.attached(old(buf)),
            old(buf).producers() > 0,
        ensures
            final(buf).wf(),
            final(buf).producers() == old(buf).producers() - 1,
            final(buf).has_consumer() == old(buf).has_consumer(),
            final(buf).tail_pos() == old(buf).tail_pos(),
            match self.slice() {
                None => {
                    &&& final(buf).readable_pos() == old(buf).readable_pos()
                    &&& final(buf).filled() == old(buf).filled()
                    &&& final(buf).applied() == old(buf).applied()
                    &&& final(buf).head_pos() == old(buf).head_pos()
                    &&& forall|p: int| #[trigger] final(buf).value_at(p) == old(buf).value_at(p)
                },
                Some(s) => {
                    let vals = padded(self.local(), s.1 as nat);
                    &&& final(buf).head_pos() == old(buf).head_pos()
                    &&& final(buf).applied() == old(buf).applied().remove(s)
                    &&& final(buf).readable_pos() == run_end(insert_sorted(old(buf).filled(), s), old(buf).readable_pos())
                    &&& final(buf).filled() == run_rest(insert_sorted(old(buf).filled(), s), old(buf).readable_pos())
                    &&& forall|p: int|
                        final(buf).head_pos() <= p < final(buf).tail_pos() ==> #[trigger] final(buf).value_at(p)
                            == if s.0 <= p < s.0 + s.1 {
                            vals[p - s.0]
                        } else {
                            old(buf).value_at(p)
                        }
                },
            },
    {
        let mut px = self;
        px.flush(buf);
        let ghost mid = *buf;
        buf.px_count = buf.px_count - 1;
        proof {
            assert forall|p: int| #[trigger] buf.value_at(p) == mid.value_at(p) by {}
        }
    }
}

impl<T: Send> Consumer<T> {
    pub fn new(buf: &RingBuffer<T>) -> Self {
        Consumer { marker: PhantomData }
    }

    /// Receives the oldest element, passing over the padding in front of it.
    /// Stops where `pop_front` fails or asks to try later.
    pub fn recv(&self, buf: &mut RingBuffer<T>) -> (r: Attempt<Result<T, RecvError>, ()>)
        requires
            old(buf).wf(),
        ensures
            final(buf).wf(),
            final(buf).tail_pos() == old(buf).tail_pos(),
            final(buf).cap() == old(buf).cap(),
            final(buf).producers() == old(buf).producers(),
            final(buf).has_consumer() == old(buf).has_consumer(),
            final(buf).applied() == old(buf).applied(),
            old(buf).head_pos() <= final(buf).head_pos(),
            old(buf).readable_pos() <= final(buf).readable_pos(),
            forall|p: int|
                final(buf).head_pos() <= p < final(buf).tail_pos() ==> #[trigger] final(buf).value_at(p)
                    == old(buf).value_at(p),
            match r {
                Attempt::Done(Ok(v)) => {
                    &&& old(buf).head_pos() < final(buf).head_pos() <= final(buf).readable_pos()
                    &&& old(buf).value_at(final(buf).head_pos() - 1) == Some(v)
                    &&& forall|p: int|
                        old(buf).head_pos() <= p < final(buf).head_pos() - 1 ==> #[trigger] old(
                            buf,
                        ).value_at(p) is None
                },
                Attempt::Done(Err(_)) => {
                    &&& final(buf).head_pos() == final(buf).readable_pos() == final(buf).tail_pos()
                    &&& final(buf).producers() == 0
                    &&& forall|p: int|
                        old(buf).head_pos() <= p < final(buf).head_pos() ==> #[trigger] old(
                            buf,
                        ).value_at(p) is None
                },
                Attempt::Retry(_) => {
                    &&& final(buf).head_pos() == final(buf).readable_pos()
                    &&& forall|p: int|
                        old(buf).head_pos() <= p < old(buf).readable_pos() ==> #[trigger] old(
                            buf,
                        ).value_at(p) is None
                    &&& final(buf).producers() > 0 || run_end(final(buf).filled(), final(buf).readable_pos())
                        == final(buf).readable_pos()
                    &&& forall|p: int|
                        old(buf).head_pos() <= p < final(buf).head_pos() ==> #[trigger] old(
                            buf,
                        ).value_at(p) is None
                },
            },
    {
        loop
            invariant
                buf.wf(),
                buf.tail_pos() == old(buf).tail_pos(),
                buf.cap() == old(buf).cap(),
                buf.producers() == old(buf).producers(),
                buf.has_consumer() == old(buf).has_consumer(),
                buf.applied() == old(buf).applied(),
                old(buf).head_pos() <= buf.head_pos(),
                old(buf).readable_pos() <= buf.readable_pos(),
                forall|p: int|
                    old(buf).head_pos() <= p < buf.head_pos() ==> #[trigger] old(buf).value_at(p) is None,
                forall|p: int|
                    buf.head_pos() <= p < buf.tail_pos() ==> #[trigger] buf.value_at(p) == old(buf).value_at(p),
            decreases buf.tail_pos() - buf.head_pos(),
        {
            let ghost pre = *buf;
            proof {
                pre.lemma_wf();
            }
            match buf.pop_front() {
                Attempt::Done(Ok(Some(v))) => {
                    proof {
                        assert(pre.value_at(pre.head_pos()) == old(buf).value_at(pre.head_pos()));
                    }
                    return Attempt::Done(Ok(v));
                },
                Attempt::Done(Ok(None)) => {
                    proof {
                        assert(pre.value_at(pre.head_pos()) == old(buf).value_at(pre.head_pos()));
                        buf.lemma_wf();
                    }
                },
                Attempt::Done(Err(e)) => {
                    return Attempt::Done(Err(e));
                },
                Attempt::Retry(u) => {
                    return Attempt::Retry(u);
                },
            }
        }
    }

    /// Receives like `recv`, giving `None` where `recv` fails.
    pub fn next(&self, buf: &mut RingBuffer<T>) -> (r: Attempt<Option<T>, ()>)
        requires
            old(buf).wf(),
        ensures
            final(buf).wf(),
            final(buf).tail_pos() == old(buf).tail_pos(),
            final(buf).producers() == old(buf).producers(),
            final(buf).applied() == old(buf).applied(),
            old(buf).head_pos() <= final(buf).head_pos(),
            old(buf).readable_pos() <= final(buf).readable_pos(),
            match r {
                Attempt::Done(Some(v)) => {
                    &&& old(buf).head_pos() < final(buf).head_pos() <= final(buf).readable_pos()
                    &&& old(buf).value_at(final(buf).head_pos() - 1) == Some(v)
                    &&& forall|p: int|
                        old(buf).head_pos() <= p < final(buf).head_pos() - 1 ==> #[trigger] old(
                            buf,
                        ).value_at(p) is None
                },
                Attempt::Done(None) => {
                    &&& final(buf).head_pos() == final(buf).readable_pos() == final(buf).tail_pos()
                    &&& final(buf).producers() == 0
                },
                Attempt::Retry(_) => {
                    &&& final(buf).head_pos() == final(buf).readable_pos()
                    &&& forall|p: int|
                        old(buf).head_pos() <= p < old(buf).readable_pos() ==> #[trigger] old(
                            buf,
                        ).value_at(p) is None
                },
            },
    {
        match self.recv(buf) {
            Attempt::Done(Ok(v)) => Attempt::Done(Some(v)),
            Attempt::Done(Err(_)) => Attempt::Done(None),
            Attempt::Retry(u) => Attempt::Retry(u),
        }
    }

    /// Leaves the channel: producers see the consumer gone.
    pub fn close(self, buf: &mut RingBuffer<T>)
        requires
            old(buf).wf(),
        ensures
            final(buf).wf(),
            !final(buf).has_consumer(),
            final(buf).head_pos() == old(buf).head_pos(),
            final(buf).tail_pos() == old(buf).tail_pos(),
            final(buf).readable_pos() == old(buf).readable_pos(),
            final(buf).filled() == old(buf).filled(),
            final(buf).applied() == old(buf).applied(),
            final(buf).producers() == old(buf).producers(),
            final(buf).cap() == old(buf).cap(),
            forall|p: int| #[trigger] final(buf).value_at(p) == old(buf).value_at(p),
    {
        buf.cx_count = false;
    }
}

/// A channel over a ring of 256 slots with one producer and the consumer.
pub fn channel<T: Send>() -> (r: (Producer<T>, Consumer<T>, RingBuffer<T>))
    ensures
        r.2.wf(),
        r.2.cap() == 256,
        r.2.head_pos() == 0,
        r.2.tail_pos() == 0,
        r.2.readable_pos() == 0,
        r.2.filled() == Seq::<(usize, usize)>::empty(),
        r.2.applied() == Set::<(usize, usize)>::empty(),
        r.2.producers() == 1,
        r.2.has_consumer(),
        r.0.attached(&r.2),
{
    let buf = RingBuffer::new(256);
    proof {
        lemma_pow2_between(256, buf.cap());
    }
    (Producer::new(&buf), Consumer::new(&buf), buf)
}

} // verus!
