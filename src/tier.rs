//! A tier: a fixed-capacity ring buffer holding a contiguous run of the
//! sequence.
use crate::pow2::{
    is_power_of_two, lemma_slot_injective, lemma_slot_offset, lemma_slot_surjective,
    lemma_wrap_add, lemma_wrap_shift, lemma_wrap_small, wrap,
};
use crate::ring_offsets::ImplicitTierRingOffsets;
use vstd::prelude::*;

verus! {

/// A ring buffer of power-of-two capacity.
///
/// Each slot is either empty (`None`) or holds a live element. The live
/// elements are those at logical positions `head .. tail`; the element at
/// rank `r` sits in slot `(head + r) mod capacity`.
pub struct Tier<T> {
    elements: Vec<Option<T>>,
    ring: ImplicitTierRingOffsets,
}

impl<T> View for Tier<T> {
    type V = Seq<T>;

    /// The live elements, in rank order.
    open spec fn view(&self) -> Seq<T> {
        Seq::new(self.spec_len() as nat, |r: int| self.slots()[self.slot_of(r)]->Some_0)
    }
}

impl<T> Tier<T> {
    /// The slots of the buffer, by physical index.
    pub closed spec fn slots(&self) -> Seq<Option<T>> {
        self.elements@
    }

    pub closed spec fn spec_head(&self) -> int {
        self.ring.spec_head() as int
    }

    pub closed spec fn spec_tail(&self) -> int {
        self.ring.spec_tail() as int
    }

    pub open spec fn spec_capacity(&self) -> int {
        self.slots().len() as int
    }

    pub open spec fn spec_len(&self) -> int {
        wrap(self.spec_tail() - self.spec_head())
    }

    /// The slot that holds rank `rank`.
    pub open spec fn slot_of(&self, rank: int) -> int {
        (self.spec_head() + rank) % self.spec_capacity()
    }

    /// The rank that slot `slot` stands for, whether live or not.
    pub open spec fn rank_of(&self, slot: int) -> int {
        (slot - self.spec_head()) % self.spec_capacity()
    }

    /// Slot `slot` lies inside the live window.
    pub open spec fn is_live_slot(&self, slot: int) -> bool {
        0 <= slot < self.spec_capacity() && self.rank_of(slot) < self.spec_len()
    }

    /// The tier is well formed: a power-of-two capacity, at most `capacity`
    /// live elements, and every live slot filled.
    pub open spec fn wf(&self) -> bool {
        &&& is_power_of_two(self.spec_capacity())
        &&& self.spec_len() <= self.spec_capacity()
        &&& forall|r: int| 0 <= r < self.spec_len() ==> (#[trigger] self.slots()[self.slot_of(r)]).is_some()
    }

    /// Facts about the slot arithmetic of a well-formed tier.
    pub(crate) proof fn lemma_slots(&self)
        requires
            is_power_of_two(self.spec_capacity()),
        ensures
            self.spec_capacity() > 0,
            self.spec_capacity() <= usize::MAX,
            forall|r: int| 0 <= r < self.spec_capacity() ==> 0 <= #[trigger] self.slot_of(r) < self.spec_capacity(),
            forall|r: int| 0 <= r < self.spec_capacity() ==> #[trigger] self.rank_of(self.slot_of(r)) == r,
            forall|s: int| 0 <= s < self.spec_capacity() ==> 0 <= #[trigger] self.rank_of(s) < self.spec_capacity()
                && self.slot_of(self.rank_of(s)) == s,
            forall|a: int, b: int| 0 <= a < self.spec_capacity() && 0 <= b < self.spec_capacity() && a != b
                ==> #[trigger] self.slot_of(a) != #[trigger] self.slot_of(b),
            (self.spec_head() + self.spec_len()) % self.spec_capacity() == self.spec_tail() % self.spec_capacity(),
            0 <= self.spec_len() < crate::pow2::usize_modulus(),
    {
        let cap = self.spec_capacity();
        let h = self.spec_head();
        assert(self.elements.len() as int == self.elements@.len());
        assert forall|r: int| 0 <= r < cap implies 0 <= #[trigger] self.slot_of(r) < cap
            && self.rank_of(self.slot_of(r)) == r by {
            lemma_slot_offset(h, r, cap);
        }
        assert forall|r: int| 0 <= r < cap implies #[trigger] self.rank_of(self.slot_of(r)) == r by {
            lemma_slot_offset(h, r, cap);
        }
        assert forall|s: int| 0 <= s < cap implies 0 <= #[trigger] self.rank_of(s) < cap
            && self.slot_of(self.rank_of(s)) == s by {
            lemma_slot_surjective(h, s, cap);
        }
        assert forall|a: int, b: int| 0 <= a < cap && 0 <= b < cap && a != b
            implies #[trigger] self.slot_of(a) != #[trigger] self.slot_of(b) by {
            lemma_slot_injective(h, a, b, cap);
        }
        lemma_wrap_small(self.spec_tail() - h);
        lemma_wrap_shift(self.spec_tail() - h, h, cap);
    }

    /// The view has one element per live position.
    pub proof fn lemma_view_len(&self)
        requires
            self.wf(),
        ensures
            self@.len() == self.spec_len(),
            0 <= self.spec_len() <= self.spec_capacity(),
            self.spec_capacity() >= 1,
    {
        self.lemma_slots();
    }

    /// The tier made of the slots `elements` and the cursors `ring`.
    pub closed spec fn assemble(elements: Vec<Option<T>>, ring: ImplicitTierRingOffsets) -> Tier<T> {
        Tier { elements, ring }
    }

    /// What a tier made of given slots and cursors consists of.
    pub proof fn lemma_assemble(elements: Vec<Option<T>>, ring: ImplicitTierRingOffsets)
        ensures
            Self::assemble(elements, ring).slots() == elements@,
            Self::assemble(elements, ring).spec_head() == ring.spec_head(),
            Self::assemble(elements, ring).spec_tail() == ring.spec_tail(),
    {
    }

    /// Builds a tier from its slots and cursors.
    pub fn from_parts(elements: Vec<Option<T>>, ring: ImplicitTierRingOffsets) -> (r: Self)
        ensures
            r == Self::assemble(elements, ring),
    {
        Tier { elements, ring }
    }

    /// Takes a tier apart into its slots and cursors.
    pub fn into_parts(self) -> (r: (Vec<Option<T>>, ImplicitTierRingOffsets))
        ensures
            Self::assemble(r.0, r.1) == self,
    {
        (self.elements, self.ring)
    }

    /// Creates an empty tier with `capacity` slots.
    pub fn new(capacity: usize) -> (r: Self)
        requires
            is_power_of_two(capacity as int),
        ensures
            r.wf(),
            r.spec_capacity() == capacity,
            r.spec_head() == 0,
            r.spec_tail() == 0,
            r@ == Seq::<T>::empty(),
            forall|s: int| 0 <= s < capacity ==> #[trigger] r.slots()[s].is_none(),
    {
        let mut elements: Vec<Option<T>> = Vec::with_capacity(capacity);
        let mut i: usize = 0;
        while i < capacity
            invariant
                i <= capacity,
                elements@.len() == i,
                forall|s: int| 0 <= s < i ==> #[trigger] elements@[s].is_none(),
            decreases capacity - i,
        {
            elements.push(None);
            i = i + 1;
        }
        let r = Self { elements, ring: ImplicitTierRingOffsets::default() };
        proof {
            lemma_wrap_small(0);
            assert(r@ =~= Seq::<T>::empty());
        }
        r
    }

    pub fn capacity(&self) -> (r: usize)
        ensures
            r == self.spec_capacity(),
    {
        self.elements.len()
    }

    pub fn len(&self) -> (r: usize)
        ensures
            r == self.spec_len(),
    {
        self.ring.len()
    }

    pub fn is_empty(&self) -> (r: bool)
        ensures
            r == (self.spec_len() == 0),
    {
        self.ring.is_empty()
    }

    pub fn is_full(&self) -> (r: bool)
        ensures
            r == (self.spec_len() == self.spec_capacity()),
    {
        self.ring.is_full(self.elements.len())
    }

    /// The slot of the first live element (or of the next push at the front).
    pub fn masked_head(&self) -> (r: usize)
        requires
            self.spec_capacity() > 0,
        ensures
            r == self.spec_head() % self.spec_capacity(),
            r == self.slot_of(0),
    {
        self.ring.masked_head(self.elements.len())
    }

    /// The slot one past the last live element.
    pub fn masked_tail(&self) -> (r: usize)
        requires
            self.spec_capacity() > 0,
        ensures
            r == self.spec_tail() % self.spec_capacity(),
    {
        self.ring.masked_tail(self.elements.len())
    }

    /// The slot that holds rank `rank`.
    pub fn masked_rank(&self, rank: usize) -> (r: usize)
        requires
            is_power_of_two(self.spec_capacity()),
        ensures
            r == self.slot_of(rank as int),
    {
        proof {
            self.lemma_slots();
            lemma_wrap_shift(self.spec_head() + rank, 0, self.spec_capacity());
        }
        self.ring.masked_rank(rank, self.elements.len())
    }

    /// The rank, counted from the cursor `ring`'s head, of slot `slot` in a
    /// buffer of `cap` slots.
    pub(crate) fn rank_in_ring(ring: &ImplicitTierRingOffsets, cap: usize, slot: usize) -> (r: usize)
        requires
            is_power_of_two(cap as int),
            slot < cap,
        ensures
            r == (slot - ring.spec_head()) % (cap as int),
            r < cap,
    {
        let masked_head = ring.masked_head(cap);
        let rank = if slot >= masked_head {
            slot - masked_head
        } else {
            slot + (cap - masked_head)
        };
        proof {
            let h = ring.spec_head() as int;
            let c = cap as int;
            vstd::arithmetic::div_mod::lemma_sub_mod_noop(slot as int, h, c);
            vstd::arithmetic::div_mod::lemma_small_mod(slot as nat, cap as nat);
            if slot >= masked_head {
                vstd::arithmetic::div_mod::lemma_small_mod(rank as nat, cap as nat);
            } else {
                vstd::arithmetic::div_mod::lemma_mod_add_multiples_vanish(slot - masked_head, c);
                vstd::arithmetic::div_mod::lemma_small_mod(rank as nat, cap as nat);
            }
        }
        rank
    }

    /// The rank that slot `slot` stands for, counted from the head.
    fn rank_of_slot(&self, slot: usize) -> (r: usize)
        requires
            is_power_of_two(self.spec_capacity()),
            slot < self.spec_capacity(),
        ensures
            r == self.rank_of(slot as int),
            r < self.spec_capacity(),
    {
        proof {
            self.lemma_slots();
        }
        Self::rank_in_ring(&self.ring, self.elements.len(), slot)
    }

    /// Whether slot `masked_rank` lies inside the live window.
    pub fn contains_masked_rank(&self, masked_rank: usize) -> (r: bool)
        requires
            is_power_of_two(self.spec_capacity()),
        ensures
            r == self.is_live_slot(masked_rank as int),
    {
        if masked_rank >= self.elements.len() {
            return false;
        }
        self.rank_of_slot(masked_rank) < self.len()
    }

    /// Whether `rank` names a live element.
    pub fn contains_rank(&self, rank: usize) -> (r: bool)
        ensures
            r == (rank < self.spec_len()),
    {
        rank < self.len()
    }

    /// After the head moved by `d`, rank `r` sits where rank `r + d` sat.
    proof fn lemma_head_moved(pre: &Self, post: &Self, d: int)
        requires
            is_power_of_two(pre.spec_capacity()),
            post.spec_capacity() == pre.spec_capacity(),
            post.spec_head() == wrap(pre.spec_head() + d),
        ensures
            forall|r: int| #[trigger] post.slot_of(r) == pre.slot_of(r + d),
    {
        pre.lemma_slots();
        assert forall|r: int| #[trigger] post.slot_of(r) == pre.slot_of(r + d) by {
            lemma_wrap_shift(pre.spec_head() + d, r, pre.spec_capacity());
        }
    }

    /// The element in slot `idx`, if that slot is inside the live window.
    pub fn get(&self, idx: usize) -> (r: Option<&T>)
        requires
            is_power_of_two(self.spec_capacity()),
        ensures
            r == (if self.is_live_slot(idx as int) && self.slots()[idx as int].is_some() {
                Some(&self.slots()[idx as int]->Some_0)
            } else {
                None
            }),
    {
        if !self.contains_masked_rank(idx) {
            return None;
        }
        self.elements[idx].as_ref()
    }

    /// The element at `rank`, if there is one.
    pub fn get_by_rank(&self, rank: usize) -> (r: Option<&T>)
        requires
            self.wf(),
        ensures
            r == (if rank < self@.len() {
                Some(&self@[rank as int])
            } else {
                None
            }),
    {
        proof {
            self.lemma_slots();
        }
        if rank >= self.len() {
            return None;
        }
        let idx = self.masked_rank(rank);
        self.get(idx)
    }

    /// `post` is `pre` with the element at `rank` replaced by `v`, slot for
    /// slot.
    pub open spec fn written(pre: Self, post: Self, rank: int, v: T) -> bool {
        &&& post.slots() == pre.slots().update(pre.slot_of(rank), Some(v))
        &&& post.spec_head() == pre.spec_head()
        &&& post.spec_tail() == pre.spec_tail()
    }

    /// Writing one element in place keeps the tier well formed and changes
    /// only that element.
    pub proof fn lemma_written(pre: Self, post: Self, rank: int, v: T)
        requires
            pre.wf(),
            0 <= rank < pre@.len(),
            Self::written(pre, post, rank, v),
        ensures
            post.wf(),
            post@ == pre@.update(rank, v),
            post.spec_capacity() == pre.spec_capacity(),
    {
        pre.lemma_slots();
        pre.lemma_view_len();
        assert forall|j: int| 0 <= j < pre.spec_len() implies (#[trigger] post.slots()[post.slot_of(j)]).is_some()
            && post.slots()[post.slot_of(j)]->Some_0 == pre@.update(rank, v)[j] by {
            if j != rank {
                assert(pre.slot_of(j) != pre.slot_of(rank));
            }
        }
        assert(post@ =~= pre@.update(rank, v));
    }

    /// A mutable reference to the element at `rank`, if there is one.
    pub fn get_by_rank_mut(&mut self, rank: usize) -> (r: Option<&mut T>)
        requires
            old(self).wf(),
        ensures
            rank >= old(self)@.len() ==> r.is_none() && *final(self) == *old(self),
            rank < old(self)@.len() ==> r.is_some() && *r.unwrap() == old(self)@[rank as int]
                && Self::written(*old(self), *final(self), rank as int, *final(r.unwrap())),
    {
        proof {
            self.lemma_slots();
            self.lemma_view_len();
        }
        if rank >= self.len() {
            return None;
        }
        let idx = self.masked_rank(rank);
        self.elements[idx].as_mut()
    }

    fn set_element(&mut self, idx: usize, elem: T)
        requires
            idx < old(self).spec_capacity(),
        ensures
            final(self).slots() == old(self).slots().update(idx as int, Some(elem)),
            final(self).ring == old(self).ring,
    {
        self.elements.set(idx, Some(elem));
    }

    fn take_element(&mut self, idx: usize) -> (r: T)
        requires
            idx < old(self).spec_capacity(),
            old(self).slots()[idx as int].is_some(),
        ensures
            r == old(self).slots()[idx as int]->Some_0,
            final(self).slots() == old(self).slots().update(idx as int, None),
            final(self).ring == old(self).ring,
    {
        let mut slot: Option<T> = None;
        self.elements.set_and_swap(idx, &mut slot);
        slot.unwrap()
    }

    fn replace_element(&mut self, idx: usize, elem: T) -> (r: T)
        requires
            idx < old(self).spec_capacity(),
            old(self).slots()[idx as int].is_some(),
        ensures
            r == old(self).slots()[idx as int]->Some_0,
            final(self).slots() == old(self).slots().update(idx as int, Some(elem)),
            final(self).ring == old(self).ring,
    {
        let mut slot: Option<T> = Some(elem);
        self.elements.set_and_swap(idx, &mut slot);
        slot.unwrap()
    }

    /// Puts `elem` in front of the first element.
    pub fn push_front(&mut self, elem: T)
        requires
            old(self).wf(),
            old(self).spec_len() < old(self).spec_capacity(),
        ensures
            final(self).wf(),
            final(self)@ == seq![elem] + old(self)@,
            final(self).spec_capacity() == old(self).spec_capacity(),
            final(self).spec_head() == wrap(old(self).spec_head() - 1),
            final(self).spec_tail() == old(self).spec_tail(),
    {
        proof {
            self.lemma_slots();
        }
        self.ring.head_backward();
        let idx = self.masked_head();
        self.set_element(idx, elem);
        proof {
            let pre = old(self);
            Self::lemma_head_moved(pre, self, -1);
            self.lemma_slots();
            lemma_wrap_small(pre.spec_len() + 1);
            assert forall|r: int| 0 <= r < self.spec_len() implies (#[trigger] self.slots()[self.slot_of(r)]).is_some() by {
                if r > 0 {
                    assert(self.slot_of(r) != self.slot_of(0));
                    assert(self.slot_of(r) == pre.slot_of(r - 1));
                }
            }
            assert forall|r: int| 0 <= r < self.spec_len() implies #[trigger] self@[r] == (seq![elem] + pre@)[r] by {
                if r > 0 {
                    assert(self.slot_of(r) != self.slot_of(0));
                    assert(self.slot_of(r) == pre.slot_of(r - 1));
                }
            }
            assert(self@ =~= seq![elem] + pre@);
        }
    }

    /// Puts `elem` after the last element.
    pub fn push_back(&mut self, elem: T)
        requires
            old(self).wf(),
            old(self).spec_len() < old(self).spec_capacity(),
        ensures
            final(self).wf(),
            final(self)@ == old(self)@.push(elem),
            final(self).spec_capacity() == old(self).spec_capacity(),
            final(self).spec_head() == old(self).spec_head(),
            final(self).spec_tail() == wrap(old(self).spec_tail() + 1),
    {
        proof {
            self.lemma_slots();
        }
        let idx = self.masked_tail();
        self.ring.tail_forward();
        self.set_element(idx, elem);
        proof {
            let pre = old(self);
            self.lemma_slots();
            lemma_wrap_small(pre.spec_len() + 1);
            assert(self.slot_of(pre.spec_len()) == idx);
            assert forall|r: int| 0 <= r < self.spec_len() implies (#[trigger] self.slots()[self.slot_of(r)]).is_some() by {
                if r < pre.spec_len() {
                    assert(self.slot_of(r) != self.slot_of(pre.spec_len()));
                    assert(self.slot_of(r) == pre.slot_of(r));
                    assert(pre.slots()[pre.slot_of(r)].is_some());
                }
            }
            assert forall|r: int| 0 <= r < self.spec_len() implies #[trigger] self@[r] == pre@.push(elem)[r] by {
                if r < pre.spec_len() {
                    assert(self.slot_of(r) != self.slot_of(pre.spec_len()));
                }
            }
            assert(self@ =~= pre@.push(elem));
        }
    }

    /// Removes and returns the first element.
    pub fn pop_front(&mut self) -> (r: T)
        requires
            old(self).wf(),
            old(self).spec_len() > 0,
        ensures
            final(self).wf(),
            r == old(self)@[0],
            final(self)@ == old(self)@.subrange(1, old(self)@.len() as int),
            final(self).spec_capacity() == old(self).spec_capacity(),
            final(self).spec_head() == wrap(old(self).spec_head() + 1),
            final(self).spec_tail() == old(self).spec_tail(),
    {
        proof {
            self.lemma_slots();
        }
        let idx = self.masked_head();
        self.ring.head_forward();
        let r = self.take_element(idx);
        proof {
            let pre = old(self);
            Self::lemma_head_moved(pre, self, 1);
            self.lemma_slots();
            lemma_wrap_small(pre.spec_len() - 1);
            assert forall|k: int| 0 <= k < self.spec_len() implies (#[trigger] self.slots()[self.slot_of(k)]).is_some() by {
                assert(pre.slot_of(k + 1) != pre.slot_of(0));
            }
            assert forall|k: int| 0 <= k < self.spec_len() implies #[trigger] self@[k] == pre@.subrange(1, pre@.len() as int)[k] by {
                assert(pre.slot_of(k + 1) != pre.slot_of(0));
            }
            assert(self@ =~= pre@.subrange(1, pre@.len() as int));
        }
        r
    }

    /// Removes and returns the last element.
    pub fn pop_back(&mut self) -> (r: T)
        requires
            old(self).wf(),
            old(self).spec_len() > 0,
        ensures
            final(self).wf(),
            r == old(self)@.last(),
            final(self)@ == old(self)@.drop_last(),
            final(self).spec_capacity() == old(self).spec_capacity(),
            final(self).spec_head() == old(self).spec_head(),
            final(self).spec_tail() == wrap(old(self).spec_tail() - 1),
    {
        proof {
            self.lemma_slots();
        }
        self.ring.tail_backward();
        let idx = self.masked_tail();
        proof {
            let pre = old(self);
            lemma_wrap_small(pre.spec_len() - 1);
            self.lemma_slots();
            assert(idx == pre.slot_of(pre.spec_len() - 1));
        }
        let r = self.take_element(idx);
        proof {
            let pre = old(self);
            let last = pre.spec_len() - 1;
            self.lemma_slots();
            assert forall|k: int| 0 <= k < self.spec_len() implies (#[trigger] self.slots()[self.slot_of(k)]).is_some() by {
                assert(pre.slot_of(k) != pre.slot_of(last));
            }
            assert forall|k: int| 0 <= k < self.spec_len() implies #[trigger] self@[k] == pre@.drop_last()[k] by {
                assert(pre.slot_of(k) != pre.slot_of(last));
            }
            assert(self@ =~= pre@.drop_last());
        }
        r
    }

    /// Replaces the last element by `elem` in front of the first one; the
    /// tier must be full. Returns the element that left.
    pub fn pop_push_front(&mut self, elem: T) -> (r: T)
        requires
            old(self).wf(),
            old(self).spec_len() == old(self).spec_capacity(),
        ensures
            final(self).wf(),
            r == old(self)@.last(),
            final(self)@ == seq![elem] + old(self)@.drop_last(),
            final(self).spec_capacity() == old(self).spec_capacity(),
    {
        proof {
            self.lemma_slots();
        }
        self.ring.head_backward();
        self.ring.tail_backward();
        let idx = self.masked_head();
        proof {
            let pre = old(self);
            let cap = pre.spec_capacity();
            Self::lemma_head_moved(pre, self, -1);
            vstd::arithmetic::div_mod::lemma_mod_add_multiples_vanish(pre.spec_head() - 1, cap);
            assert(pre.slot_of(-1) == pre.slot_of(cap - 1));
            lemma_wrap_add(pre.spec_len() + 1, -1);
            lemma_wrap_small(pre.spec_len() + 1);
            lemma_wrap_small(pre.spec_len());
        }
        let r = self.replace_element(idx, elem);
        proof {
            let pre = old(self);
            let cap = pre.spec_capacity();
            Self::lemma_head_moved(pre, self, -1);
            self.lemma_slots();
            assert forall|k: int| 0 <= k < self.spec_len() implies (#[trigger] self.slots()[self.slot_of(k)]).is_some() by {
                if k > 0 {
                    assert(self.slot_of(k) != self.slot_of(0));
                    assert(self.slot_of(k) == pre.slot_of(k - 1));
                }
            }
            assert forall|k: int| 0 <= k < self.spec_len() implies #[trigger] self@[k] == (seq![elem] + pre@.drop_last())[k] by {
                if k > 0 {
                    assert(self.slot_of(k) != self.slot_of(0));
                    assert(self.slot_of(k) == pre.slot_of(k - 1));
                }
            }
            assert(self@ =~= seq![elem] + pre@.drop_last());
        }
        r
    }

    /// Replaces the first element by `elem` after the last one; the tier
    /// must be full. Returns the element that left.
    pub fn pop_push_back(&mut self, elem: T) -> (r: T)
        requires
            old(self).wf(),
            old(self).spec_len() == old(self).spec_capacity(),
        ensures
            final(self).wf(),
            r == old(self)@[0],
            final(self)@ == old(self)@.subrange(1, old(self)@.len() as int).push(elem),
            final(self).spec_capacity() == old(self).spec_capacity(),
    {
        proof {
            self.lemma_slots();
        }
        let idx = self.masked_tail();
        self.ring.head_forward();
        self.ring.tail_forward();
        proof {
            let pre = old(self);
            let cap = pre.spec_capacity();
            Self::lemma_head_moved(pre, self, 1);
            vstd::arithmetic::div_mod::lemma_mod_add_multiples_vanish(pre.spec_head(), cap);
            assert(pre.slot_of(cap) == pre.slot_of(0));
            lemma_wrap_add(pre.spec_len() - 1, 1);
            lemma_wrap_small(pre.spec_len() - 1);
            lemma_wrap_small(pre.spec_len());
            assert(idx == pre.slot_of(0));
        }
        let r = self.replace_element(idx, elem);
        proof {
            let pre = old(self);
            let cap = pre.spec_capacity();
            Self::lemma_head_moved(pre, self, 1);
            self.lemma_slots();
            assert(self.slot_of(cap - 1) == idx);
            assert forall|k: int| 0 <= k < self.spec_len() implies (#[trigger] self.slots()[self.slot_of(k)]).is_some() by {
                if k < cap - 1 {
                    assert(self.slot_of(k) != self.slot_of(cap - 1));
                    assert(self.slot_of(k) == pre.slot_of(k + 1));
                }
            }
            assert forall|k: int| 0 <= k < self.spec_len() implies #[trigger] self@[k] == pre@.subrange(1, pre@.len() as int).push(elem)[k] by {
                if k < cap - 1 {
                    assert(self.slot_of(k) != self.slot_of(cap - 1));
                    assert(self.slot_of(k) == pre.slot_of(k + 1));
                }
            }
            assert(self@ =~= pre@.subrange(1, pre@.len() as int).push(elem));
        }
        r
    }

    /// Moves the elements from the head up to slot `from` (inclusive) one
    /// slot towards the head, growing the window by one at the head and
    /// leaving slot `from` empty.
    pub fn shift_to_head(&mut self, from: usize)
        requires
            old(self).wf(),
            old(self).spec_len() < old(self).spec_capacity(),
            old(self).is_live_slot(from as int),
        ensures
            final(self).spec_capacity() == old(self).spec_capacity(),
            final(self).spec_head() == wrap(old(self).spec_head() - 1),
            final(self).spec_tail() == old(self).spec_tail(),
            final(self).spec_len() == old(self).spec_len() + 1,
            final(self).slot_of(old(self).rank_of(from as int) + 1) == from,
            forall|r: int| #[trigger] final(self).slot_of(r) == old(self).slot_of(r - 1),
            forall|j: int| 0 <= j <= old(self).rank_of(from as int)
                ==> #[trigger] final(self).slots()[final(self).slot_of(j)] == old(self).slots()[old(self).slot_of(j)],
            final(self).slots()[from as int].is_none(),
            forall|j: int| old(self).rank_of(from as int) + 2 <= j < old(self).spec_capacity()
                ==> #[trigger] final(self).slots()[final(self).slot_of(j)] == old(self).slots()[final(self).slot_of(j)],
    {
        proof {
            self.lemma_slots();
        }
        let k = self.rank_of_slot(from);
        self.ring.head_backward();
        proof {
            Self::lemma_head_moved(old(self), self, -1);
            self.lemma_slots();
            lemma_wrap_small(old(self).spec_len() + 1);
        }
        let mut i: usize = 0;
        while i <= k
            invariant
                old(self).wf(),
                k == old(self).rank_of(from as int),
                k < old(self).spec_len() < old(self).spec_capacity(),
                i <= k + 1,
                self.spec_capacity() == old(self).spec_capacity(),
                self.spec_head() == wrap(old(self).spec_head() - 1),
                self.spec_tail() == old(self).spec_tail(),
                forall|r: int| #[trigger] self.slot_of(r) == old(self).slot_of(r - 1),
                forall|j: int| 0 <= j < i ==> #[trigger] self.slots()[self.slot_of(j)] == old(self).slots()[old(self).slot_of(j)],
                forall|j: int| i + 1 <= j < self.spec_capacity() ==> #[trigger] self.slots()[self.slot_of(j)] == old(self).slots()[self.slot_of(j)],
                i > 0 ==> self.slots()[self.slot_of(i as int)].is_none(),
            decreases k + 1 - i,
        {
            proof {
                self.lemma_slots();
            }
            let ghost start = *self;
            let src = self.masked_rank(i + 1);
            let dst = self.masked_rank(i);
            proof {
                assert(self.slots()[self.slot_of(i + 1)] == old(self).slots()[old(self).slot_of(i as int)]);
            }
            let x = self.take_element(src);
            self.set_element(dst, x);
            proof {
                Self::lemma_head_moved(old(self), self, -1);
                self.lemma_slots();
                let ii = i as int;
                assert forall|j: int| 0 <= j < ii + 1 implies #[trigger] self.slots()[self.slot_of(j)] == old(self).slots()[old(self).slot_of(j)] by {
                    assert(self.slot_of(j) == start.slot_of(j));
                    if j < ii {
                        assert(start.slots()[start.slot_of(j)] == old(self).slots()[old(self).slot_of(j)]);
                        assert(self.slot_of(j) != self.slot_of(ii));
                        assert(self.slot_of(j) != self.slot_of(ii + 1));
                    }
                }
                assert forall|j: int| ii + 2 <= j < self.spec_capacity() implies #[trigger] self.slots()[self.slot_of(j)] == old(self).slots()[self.slot_of(j)] by {
                    assert(self.slot_of(j) == start.slot_of(j));
                    assert(start.slots()[start.slot_of(j)] == old(self).slots()[start.slot_of(j)]);
                    assert(self.slot_of(j) != self.slot_of(ii));
                    assert(self.slot_of(j) != self.slot_of(ii + 1));
                }
                assert(self.slot_of(ii + 1) != self.slot_of(ii));
            }
            i = i + 1;
        }
        proof {
            old(self).lemma_slots();
            assert(old(self).slot_of(k as int) == from);
        }
    }

    /// Moves the elements from slot `from` to the tail one slot towards the
    /// tail, growing the window by one at the tail and leaving slot `from`
    /// empty.
    pub fn shift_to_tail(&mut self, from: usize)
        requires
            old(self).wf(),
            old(self).spec_len() < old(self).spec_capacity(),
            old(self).is_live_slot(from as int),
        ensures
            final(self).spec_capacity() == old(self).spec_capacity(),
            final(self).spec_head() == old(self).spec_head(),
            final(self).spec_tail() == wrap(old(self).spec_tail() + 1),
            final(self).spec_len() == old(self).spec_len() + 1,
            forall|j: int| 0 <= j < old(self).rank_of(from as int)
                ==> #[trigger] final(self).slots()[final(self).slot_of(j)] == old(self).slots()[old(self).slot_of(j)],
            final(self).slots()[from as int].is_none(),
            forall|j: int| old(self).rank_of(from as int) < j <= old(self).spec_len()
                ==> #[trigger] final(self).slots()[final(self).slot_of(j)] == old(self).slots()[old(self).slot_of(j - 1)],
            forall|j: int| old(self).spec_len() < j < old(self).spec_capacity()
                ==> #[trigger] final(self).slots()[final(self).slot_of(j)] == old(self).slots()[old(self).slot_of(j)],
    {
        proof {
            self.lemma_slots();
        }
        let k = self.rank_of_slot(from);
        let len = self.len();
        self.ring.tail_forward();
        proof {
            lemma_wrap_small(old(self).spec_len() + 1);
        }
        let mut i: usize = len;
        while i > k
            invariant
                old(self).wf(),
                k == old(self).rank_of(from as int),
                k < len == old(self).spec_len() < old(self).spec_capacity(),
                k <= i <= len,
                self.spec_capacity() == old(self).spec_capacity(),
                self.spec_head() == old(self).spec_head(),
                self.spec_tail() == wrap(old(self).spec_tail() + 1),
                forall|j: int| 0 <= j < i ==> #[trigger] self.slots()[self.slot_of(j)] == old(self).slots()[old(self).slot_of(j)],
                forall|j: int| i < j <= len ==> #[trigger] self.slots()[self.slot_of(j)] == old(self).slots()[old(self).slot_of(j - 1)],
                forall|j: int| len < j < self.spec_capacity() ==> #[trigger] self.slots()[self.slot_of(j)] == old(self).slots()[old(self).slot_of(j)],
                i < len ==> self.slots()[self.slot_of(i as int)].is_none(),
            decreases i,
        {
            proof {
                self.lemma_slots();
            }
            let ghost start = *self;
            let src = self.masked_rank(i - 1);
            let dst = self.masked_rank(i);
            let x = self.take_element(src);
            self.set_element(dst, x);
            proof {
                self.lemma_slots();
                let ii = i as int;
                assert forall|j: int| 0 <= j < ii - 1 implies #[trigger] self.slots()[self.slot_of(j)] == old(self).slots()[old(self).slot_of(j)] by {
                    assert(self.slot_of(j) == start.slot_of(j));
                    assert(start.slots()[start.slot_of(j)] == old(self).slots()[old(self).slot_of(j)]);
                    assert(self.slot_of(j) != self.slot_of(ii));
                    assert(self.slot_of(j) != self.slot_of(ii - 1));
                }
                assert forall|j: int| ii - 1 < j <= len implies #[trigger] self.slots()[self.slot_of(j)] == old(self).slots()[old(self).slot_of(j - 1)] by {
                    assert(self.slot_of(j) == start.slot_of(j));
                    if j > ii {
                        assert(start.slots()[start.slot_of(j)] == old(self).slots()[old(self).slot_of(j - 1)]);
                        assert(self.slot_of(j) != self.slot_of(ii));
                        assert(self.slot_of(j) != self.slot_of(ii - 1));
                    } else {
                        assert(start.slots()[start.slot_of(j - 1)] == old(self).slots()[old(self).slot_of(j - 1)]);
                    }
                }
                assert forall|j: int| len < j < self.spec_capacity() implies #[trigger] self.slots()[self.slot_of(j)] == old(self).slots()[old(self).slot_of(j)] by {
                    assert(self.slot_of(j) == start.slot_of(j));
                    assert(start.slots()[start.slot_of(j)] == old(self).slots()[old(self).slot_of(j)]);
                    assert(self.slot_of(j) != self.slot_of(ii));
                    assert(self.slot_of(j) != self.slot_of(ii - 1));
                }
                assert(self.slot_of(ii - 1) != self.slot_of(ii));
            }
            i = i - 1;
        }
        proof {
            old(self).lemma_slots();
            lemma_wrap_small(old(self).spec_len() + 1);
            assert(old(self).slot_of(k as int) == from);
        }
    }

    /// Closes the empty slot at rank `gap` by moving every later element one
    /// slot towards the head, then retracts the tail.
    fn close_gap(&mut self, gap: usize)
        requires
            is_power_of_two(old(self).spec_capacity()),
            old(self).spec_len() <= old(self).spec_capacity(),
            gap < old(self).spec_len(),
            forall|j: int| 0 <= j < old(self).spec_len() && j != gap
                ==> (#[trigger] old(self).slots()[old(self).slot_of(j)]).is_some(),
        ensures
            final(self).spec_capacity() == old(self).spec_capacity(),
            final(self).spec_head() == old(self).spec_head(),
            final(self).spec_len() == old(self).spec_len() - 1,
            forall|j: int| 0 <= j < gap
                ==> #[trigger] final(self).slots()[final(self).slot_of(j)] == old(self).slots()[old(self).slot_of(j)],
            forall|j: int| gap <= j < old(self).spec_len() - 1
                ==> #[trigger] final(self).slots()[final(self).slot_of(j)] == old(self).slots()[old(self).slot_of(j + 1)],
    {
        proof {
            self.lemma_slots();
        }
        let last = self.len() - 1;
        self.ring.tail_backward();
        proof {
            lemma_wrap_small(old(self).spec_len() - 1);
        }
        let mut i: usize = gap;
        while i < last
            invariant
                is_power_of_two(old(self).spec_capacity()),
                forall|j: int| 0 <= j < old(self).spec_len() && j != gap
                    ==> (#[trigger] old(self).slots()[old(self).slot_of(j)]).is_some(),
                last == old(self).spec_len() - 1,
                gap <= i <= last,
                old(self).spec_len() <= old(self).spec_capacity(),
                self.spec_capacity() == old(self).spec_capacity(),
                self.spec_head() == old(self).spec_head(),
                self.spec_len() == old(self).spec_len() - 1,
                forall|j: int| 0 <= j < gap ==> #[trigger] self.slots()[self.slot_of(j)] == old(self).slots()[old(self).slot_of(j)],
                forall|j: int| gap <= j < i ==> #[trigger] self.slots()[self.slot_of(j)] == old(self).slots()[old(self).slot_of(j + 1)],
                forall|j: int| i < j < self.spec_capacity() ==> #[trigger] self.slots()[self.slot_of(j)] == old(self).slots()[old(self).slot_of(j)],
            decreases last - i,
        {
            proof {
                self.lemma_slots();
            }
            let ghost start = *self;
            let src = self.masked_rank(i + 1);
            let dst = self.masked_rank(i);
            proof {
                assert(self.slots()[self.slot_of(i + 1)] == old(self).slots()[old(self).slot_of(i + 1)]);
            }
            let x = self.take_element(src);
            self.set_element(dst, x);
            proof {
                self.lemma_slots();
                let ii = i as int;
                assert forall|j: int| 0 <= j < gap implies #[trigger] self.slots()[self.slot_of(j)] == old(self).slots()[old(self).slot_of(j)] by {
                    assert(self.slot_of(j) == start.slot_of(j));
                    assert(start.slots()[start.slot_of(j)] == old(self).slots()[old(self).slot_of(j)]);
                    assert(self.slot_of(j) != self.slot_of(ii));
                    assert(self.slot_of(j) != self.slot_of(ii + 1));
                }
                assert forall|j: int| gap <= j < ii + 1 implies #[trigger] self.slots()[self.slot_of(j)] == old(self).slots()[old(self).slot_of(j + 1)] by {
                    assert(self.slot_of(j) == start.slot_of(j));
                    if j < ii {
                        assert(start.slots()[start.slot_of(j)] == old(self).slots()[old(self).slot_of(j + 1)]);
                        assert(self.slot_of(j) != self.slot_of(ii));
                        assert(self.slot_of(j) != self.slot_of(ii + 1));
                    }
                }
                assert forall|j: int| ii + 1 < j < self.spec_capacity() implies #[trigger] self.slots()[self.slot_of(j)] == old(self).slots()[old(self).slot_of(j)] by {
                    assert(self.slot_of(j) == start.slot_of(j));
                    assert(start.slots()[start.slot_of(j)] == old(self).slots()[old(self).slot_of(j)]);
                    assert(self.slot_of(j) != self.slot_of(ii));
                    assert(self.slot_of(j) != self.slot_of(ii + 1));
                }
            }
            i = i + 1;
        }
    }

    /// Inserts `elem` so that it gets rank `rank`, shifting the elements on
    /// the side of `rank` that is nearer to a boundary.
    pub fn insert(&mut self, rank: usize, elem: T)
        requires
            old(self).wf(),
            old(self).spec_len() < old(self).spec_capacity(),
            rank <= old(self).spec_len(),
        ensures
            final(self).wf(),
            final(self)@ == old(self)@.insert(rank as int, elem),
            final(self).spec_capacity() == old(self).spec_capacity(),
            final(self).spec_head() == if rank < old(self).spec_len() && 2 * rank <= old(self).spec_len() {
                wrap(old(self).spec_head() - 1)
            } else {
                old(self).spec_head()
            },
    {
        proof {
            self.lemma_slots();
        }
        let len = self.len();
        if rank == len {
            self.push_back(elem);
            proof {
                assert(old(self)@.push(elem) =~= old(self)@.insert(rank as int, elem));
            }
        } else if rank == 0 {
            self.push_front(elem);
            proof {
                assert(seq![elem] + old(self)@ =~= old(self)@.insert(rank as int, elem));
            }
        } else if rank <= len - rank {
            let from = self.masked_rank(rank - 1);
            proof {
                assert(self.rank_of(from as int) == rank - 1);
            }
            self.shift_to_head(from);
            let ghost mid = *self;
            self.set_element(from, elem);
            proof {
                let pre = old(self);
                let k = rank as int;
                self.lemma_slots();
                Self::lemma_head_moved(pre, self, -1);
                assert(self.slot_of(k) == from);
                assert forall|j: int| 0 <= j < self.spec_len() implies (#[trigger] self.slots()[self.slot_of(j)]).is_some()
                    && self.slots()[self.slot_of(j)]->Some_0 == pre@.insert(k, elem)[j] by {
                    assert(self.slot_of(j) == mid.slot_of(j));
                    if j < k {
                        assert(self.slot_of(j) != self.slot_of(k));
                        assert(mid.slots()[mid.slot_of(j)] == pre.slots()[pre.slot_of(j)]);
                        assert(pre.slots()[pre.slot_of(j)].is_some());
                    } else if j > k {
                        assert(self.slot_of(j) != self.slot_of(k));
                        assert(mid.slots()[mid.slot_of(j)] == pre.slots()[mid.slot_of(j)]);
                        assert(self.slot_of(j) == pre.slot_of(j - 1));
                        assert(pre.slots()[pre.slot_of(j - 1)].is_some());
                    }
                }
                assert(self@ =~= pre@.insert(k, elem));
            }
        } else {
            let from = self.masked_rank(rank);
            proof {
                assert(self.rank_of(from as int) == rank);
            }
            self.shift_to_tail(from);
            let ghost mid = *self;
            self.set_element(from, elem);
            proof {
                let pre = old(self);
                let k = rank as int;
                self.lemma_slots();
                assert(self.slot_of(k) == from);
                assert forall|j: int| 0 <= j < self.spec_len() implies (#[trigger] self.slots()[self.slot_of(j)]).is_some()
                    && self.slots()[self.slot_of(j)]->Some_0 == pre@.insert(k, elem)[j] by {
                    assert(self.slot_of(j) == mid.slot_of(j));
                    if j < k {
                        assert(self.slot_of(j) != self.slot_of(k));
                        assert(mid.slots()[mid.slot_of(j)] == pre.slots()[pre.slot_of(j)]);
                        assert(pre.slots()[pre.slot_of(j)].is_some());
                    } else if j > k {
                        assert(self.slot_of(j) != self.slot_of(k));
                        assert(mid.slots()[mid.slot_of(j)] == pre.slots()[pre.slot_of(j - 1)]);
                        assert(pre.slots()[pre.slot_of(j - 1)].is_some());
                    }
                }
                assert(self@ =~= pre@.insert(k, elem));
            }
        }
    }

    /// Removes and returns the element at `rank`, closing the gap from the
    /// tail side.
    pub fn remove(&mut self, rank: usize) -> (r: T)
        requires
            old(self).wf(),
            rank < old(self).spec_len(),
        ensures
            final(self).wf(),
            r == old(self)@[rank as int],
            final(self)@ == old(self)@.remove(rank as int),
            final(self).spec_capacity() == old(self).spec_capacity(),
            final(self).spec_head() == if rank == 0 {
                wrap(old(self).spec_head() + 1)
            } else {
                old(self).spec_head()
            },
    {
        proof {
            self.lemma_slots();
        }
        let len = self.len();
        if rank == 0 {
            proof {
                assert(old(self)@.subrange(1, len as int) =~= old(self)@.remove(0));
            }
            return self.pop_front();
        }
        if rank == len - 1 {
            proof {
                assert(old(self)@.drop_last() =~= old(self)@.remove(rank as int));
            }
            return self.pop_back();
        }
        let idx = self.masked_rank(rank);
        let elem = self.take_element(idx);
        proof {
            let pre = old(self);
            self.lemma_slots();
            assert forall|j: int| 0 <= j < pre.spec_len() && j != rank implies (#[trigger] self.slots()[self.slot_of(j)]).is_some()
                && self.slots()[self.slot_of(j)] == pre.slots()[pre.slot_of(j)] by {
                assert(self.slot_of(j) == pre.slot_of(j));
                assert(self.slot_of(j) != self.slot_of(rank as int));
                assert(pre.slots()[pre.slot_of(j)].is_some());
            }
        }
        let ghost taken = *self;
        self.close_gap(rank);
        proof {
            let pre = old(self);
            let k = rank as int;
            self.lemma_slots();
            assert forall|j: int| 0 <= j < self.spec_len() implies (#[trigger] self.slots()[self.slot_of(j)]).is_some()
                && self.slots()[self.slot_of(j)]->Some_0 == pre@.remove(k)[j] by {
                if j < k {
                    assert(taken.slots()[taken.slot_of(j)] == pre.slots()[pre.slot_of(j)]);
                } else {
                    assert(taken.slots()[taken.slot_of(j + 1)] == pre.slots()[pre.slot_of(j + 1)]);
                }
                assert(self.slot_of(j) == taken.slot_of(j));
            }
            assert(self@ =~= pre@.remove(k));
        }
        elem
    }

    /// Rotates the buffer so that the head is at slot 0 and the live
    /// elements occupy slots `0 .. len` in rank order.
    pub fn rotate_reset(&mut self)
        requires
            old(self).wf(),
        ensures
            final(self).wf(),
            final(self)@ == old(self)@,
            final(self).spec_capacity() == old(self).spec_capacity(),
            final(self).spec_head() == 0,
            final(self).spec_tail() == old(self).spec_len(),
            final(self).spec_len() == old(self).spec_len(),
            forall|j: int| 0 <= j < final(self).spec_len() ==> #[trigger] final(self).slots()[j] == Some(old(self)@[j]),
            forall|j: int| final(self).spec_len() <= j < final(self).spec_capacity() ==> #[trigger] final(self).slots()[j].is_none(),
    {
        proof {
            self.lemma_slots();
        }
        let cap = self.elements.len();
        let len = self.len();
        let mut fresh: Vec<Option<T>> = Vec::with_capacity(cap);
        let mut i: usize = 0;
        while i < len
            invariant
                old(self).wf(),
                len == old(self).spec_len() <= cap == old(self).spec_capacity(),
                i <= len,
                self.spec_capacity() == old(self).spec_capacity(),
                self.ring == old(self).ring,
                fresh@.len() == i,
                forall|j: int| 0 <= j < i ==> #[trigger] fresh@[j] == Some(old(self)@[j]),
                forall|j: int| i <= j < len ==> #[trigger] self.slots()[self.slot_of(j)] == old(self).slots()[old(self).slot_of(j)],
            decreases len - i,
        {
            proof {
                self.lemma_slots();
                assert(old(self).slots()[old(self).slot_of(i as int)].is_some());
            }
            let ghost start = *self;
            let idx = self.masked_rank(i);
            let x = self.take_element(idx);
            fresh.push(Some(x));
            proof {
                self.lemma_slots();
                assert forall|j: int| i + 1 <= j < len implies #[trigger] self.slots()[self.slot_of(j)] == old(self).slots()[old(self).slot_of(j)] by {
                    assert(self.slot_of(j) == start.slot_of(j));
                    assert(start.slots()[start.slot_of(j)] == old(self).slots()[old(self).slot_of(j)]);
                    assert(self.slot_of(j) != self.slot_of(i as int));
                }
            }
            i = i + 1;
        }
        while i < cap
            invariant
                len <= i <= cap,
                fresh@.len() == i,
                forall|j: int| 0 <= j < len ==> #[trigger] fresh@[j] == Some(old(self)@[j]),
                forall|j: int| len <= j < i ==> #[trigger] fresh@[j].is_none(),
            decreases cap - i,
        {
            fresh.push(None);
            i = i + 1;
        }
        self.elements = fresh;
        self.ring.set_head(0);
        self.ring.set_tail(len);
        proof {
            lemma_wrap_small(len as int);
            self.lemma_slots();
            assert forall|j: int| 0 <= j < len implies #[trigger] self.slot_of(j) == j by {
                vstd::arithmetic::div_mod::lemma_small_mod(j as nat, cap as nat);
            }
            assert(self@ =~= old(self)@);
        }
    }

    /// Appends the elements of `other` after those of this tier, in a buffer
    /// of the two capacities combined.
    pub fn merge(&mut self, other: Tier<T>)
        requires
            old(self).wf(),
            other.wf(),
            other.spec_capacity() == old(self).spec_capacity(),
            2 * old(self).spec_capacity() <= usize::MAX,
        ensures
            final(self).wf(),
            final(self)@ == old(self)@ + other@,
            final(self).spec_capacity() == 2 * old(self).spec_capacity(),
    {
        let mut other = other;
        self.rotate_reset();
        let cap = self.elements.len();
        let mut i: usize = 0;
        while i < cap
            invariant
                cap == old(self).spec_capacity(),
                is_power_of_two(cap as int),
                i <= cap,
                self.elements@.len() == cap + i,
                self.spec_head() == 0,
                self.spec_tail() == old(self).spec_len(),
                self.spec_len() == old(self).spec_len(),
                0 <= old(self).spec_len() <= cap,
                forall|j: int| 0 <= j < old(self).spec_len() ==> #[trigger] self.slots()[j] == Some(old(self)@[j]),
            decreases cap - i,
        {
            let ghost start = *self;
            self.elements.push(None);
            proof {
                assert forall|j: int| 0 <= j < old(self).spec_len() implies #[trigger] self.slots()[j] == Some(old(self)@[j]) by {
                    assert(start.slots()[j] == Some(old(self)@[j]));
                    assert(self.slots()[j] == start.slots()[j]);
                }
            }
            i = i + 1;
        }
        proof {
            crate::pow2::lemma_power_of_two_double(cap as int);
            lemma_wrap_small(old(self).spec_len());
            assert forall|j: int| 0 <= j < 2 * cap implies #[trigger] self.slot_of(j) == j by {
                vstd::arithmetic::div_mod::lemma_small_mod(j as nat, (2 * cap) as nat);
            }
            assert(self@ =~= old(self)@);
        }
        let n = other.len();
        let ghost orig = other@;
        let mut moved: usize = 0;
        while moved < n
            invariant
                self.wf(),
                other.wf(),
                n == other.spec_len() + moved,
                moved <= n,
                self.spec_capacity() == 2 * cap,
                n <= cap,
                self@.len() == old(self)@.len() + moved,
                old(self)@.len() <= cap,
                other.spec_capacity() == cap,
                orig.len() == n,
                self@ == old(self)@ + orig.subrange(0, moved as int),
                other@ == orig.subrange(moved as int, n as int),
            decreases n - moved,
        {
            let x = other.pop_front();
            self.push_back(x);
            proof {
                assert(orig.subrange(0, moved + 1) =~= orig.subrange(0, moved as int).push(x));
                assert(orig.subrange(moved + 1, n as int) =~= orig.subrange(moved as int, n as int).subrange(1, n - moved));
            }
            moved = moved + 1;
        }
        proof {
            assert(orig.subrange(0, n as int) =~= orig);
        }
    }

    /// The number of elements that stay in this tier when it is split.
    pub open spec fn split_point(&self) -> int {
        if self.spec_len() < self.spec_capacity() / 2 {
            self.spec_len()
        } else {
            self.spec_capacity() / 2
        }
    }

    /// Halves the capacity of this tier; the elements that no longer fit
    /// move, in order, into the returned tier of the same halved capacity.
    pub fn split_half(&mut self) -> (r: Tier<T>)
        requires
            old(self).wf(),
            old(self).spec_capacity() >= 2,
        ensures
            final(self).wf(),
            r.wf(),
            final(self).spec_capacity() == old(self).spec_capacity() / 2,
            r.spec_capacity() == old(self).spec_capacity() / 2,
            final(self)@ == old(self)@.subrange(0, old(self).split_point()),
            r@ == old(self)@.subrange(old(self).split_point(), old(self)@.len() as int),
    {
        self.rotate_reset();
        let count = self.len();
        let half = self.elements.len() / 2;
        let ghost rotated = *self;
        let upper = self.elements.split_off(half);
        let remaining = if count > half {
            count - half
        } else {
            0
        };
        self.ring.set_tail(count - remaining);
        let r = Tier { elements: upper, ring: ImplicitTierRingOffsets::new(0, remaining) };
        proof {
            let pre = old(self);
            crate::pow2::lemma_power_of_two_even(pre.spec_capacity());
            lemma_wrap_small(count - remaining);
            lemma_wrap_small(remaining as int);
            assert forall|j: int| 0 <= j < half implies #[trigger] self.slot_of(j) == j && r.slot_of(j) == j by {
                vstd::arithmetic::div_mod::lemma_small_mod(j as nat, half as nat);
            }
            assert forall|j: int| 0 <= j < self.spec_len() implies (#[trigger] self.slots()[self.slot_of(j)]).is_some()
                && self.slots()[self.slot_of(j)]->Some_0 == pre@.subrange(0, pre.split_point())[j] by {
                assert(rotated.slots()[j] == Some(pre@[j]));
            }
            assert forall|j: int| 0 <= j < r.spec_len() implies (#[trigger] r.slots()[r.slot_of(j)]).is_some()
                && r.slots()[r.slot_of(j)]->Some_0 == pre@.subrange(pre.split_point(), pre@.len() as int)[j] by {
                assert(count > half);
                assert(pre.split_point() == half);
                assert(pre.spec_capacity() == 2 * half);
                assert(j < half);
                assert(r.spec_capacity() == half);
                assert(r.spec_head() == 0);
                vstd::arithmetic::div_mod::lemma_small_mod(j as nat, half as nat);
                assert(r.slot_of(j) == j);
                assert(r.slots()[j] == rotated.slots()[half + j]);
                assert(rotated.slots()[half + j] == Some(pre@[half + j]));
            }
            assert(self@ =~= pre@.subrange(0, pre.split_point()));
            assert(r@ =~= pre@.subrange(pre.split_point(), pre@.len() as int));
        }
        r
    }
}

impl<T: Clone> Clone for Tier<T> {
    /// A tier with the same slots, cursors and a clone of every element.
    fn clone(&self) -> (r: Self)
        ensures
            r.spec_capacity() == self.spec_capacity(),
            r.spec_head() == self.spec_head(),
            r.spec_tail() == self.spec_tail(),
            self.wf() ==> r.wf(),
            self.wf() ==> forall|i: int| 0 <= i < self@.len() ==> cloned(#[trigger] self@[i], r@[i]),
    {
        let r = Tier { elements: self.elements.clone(), ring: self.ring };
        proof {
            if self.wf() {
                assert forall|k: int| 0 <= k < self.spec_len() implies (#[trigger] r.slots()[r.slot_of(k)]).is_some()
                    && cloned(self.slots()[self.slot_of(k)]->Some_0, r.slots()[r.slot_of(k)]->Some_0) by {
                    self.lemma_slots();
                    let s = self.slot_of(k);
                    assert(self.slots()[s].is_some());
                    assert(cloned(self.elements@[s], r.elements@[s]));
                }
            }
        }
        r
    }
}

} // verus!
