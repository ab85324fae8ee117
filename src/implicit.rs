//! Tier operations on storage that the caller owns: the slots of a tier and
//! its cursors are held apart and lent to each operation.
use crate::pow2::is_power_of_two;
use crate::ring_offsets::ImplicitTierRingOffsets;
use crate::tier::Tier;
use core::marker::PhantomData;
use vstd::prelude::*;

verus! {

/// Ring-buffer operations on a slot buffer and a pair of cursors kept
/// apart, for layouts that store the cursors of all tiers together.
pub struct ImplicitTier<T> {
    marker: PhantomData<T>,
}

impl<T> ImplicitTier<T> {
    /// The tier that the slots `tier` and the cursors `ring_offsets` form.
    pub open spec fn tier_of(tier: Vec<Option<T>>, ring_offsets: ImplicitTierRingOffsets) -> Tier<T> {
        Tier::assemble(tier, ring_offsets)
    }

    /// Moves the slots out of `tier` and joins them to the cursors.
    fn take_tier(tier: &mut Vec<Option<T>>, ring_offsets: &ImplicitTierRingOffsets) -> (r: Tier<T>)
        ensures
            r == Self::tier_of(*old(tier), *ring_offsets),
    {
        let mut slots: Vec<Option<T>> = Vec::new();
        core::mem::swap(&mut slots, tier);
        Tier::from_parts(slots, *ring_offsets)
    }

    /// Hands the slots and cursors of `t` back to the caller's storage.
    fn put_tier(t: Tier<T>, tier: &mut Vec<Option<T>>, ring_offsets: &mut ImplicitTierRingOffsets)
        ensures
            Self::tier_of(*final(tier), *final(ring_offsets)) == t,
    {
        let (slots, ring) = t.into_parts();
        *tier = slots;
        *ring_offsets = ring;
    }

    /// The number of slots.
    pub fn capacity(tier: &Vec<Option<T>>) -> (r: usize)
        ensures
            r == tier@.len(),
    {
        tier.len()
    }

    /// Whether `rank` names a live element.
    pub fn contains_rank(tier: &Vec<Option<T>>, ring_offsets: &ImplicitTierRingOffsets, rank: usize) -> (r: bool)
        requires
            Self::tier_of(*tier, *ring_offsets).wf(),
        ensures
            r == (rank < Self::tier_of(*tier, *ring_offsets)@.len()),
    {
        proof {
            Tier::lemma_assemble(*tier, *ring_offsets);
            Self::tier_of(*tier, *ring_offsets).lemma_view_len();
        }
        rank < ring_offsets.len()
    }

    /// Whether slot `masked_rank` lies inside the live window.
    pub fn contains_masked_rank(tier: &Vec<Option<T>>, ring_offsets: &ImplicitTierRingOffsets, masked_rank: usize) -> (r: bool)
        requires
            is_power_of_two(tier@.len() as int),
        ensures
            r == Self::tier_of(*tier, *ring_offsets).is_live_slot(masked_rank as int),
    {
        proof {
            Tier::lemma_assemble(*tier, *ring_offsets);
        }
        let cap = tier.len();
        if masked_rank >= cap {
            return false;
        }
        Tier::<T>::rank_in_ring(ring_offsets, cap, masked_rank) < ring_offsets.len()
    }

    /// The element in slot `idx`, if that slot is inside the live window.
    pub fn get<'a>(tier: &'a Vec<Option<T>>, ring_offsets: &ImplicitTierRingOffsets, idx: usize) -> (r: Option<&'a T>)
        requires
            Self::tier_of(*tier, *ring_offsets).wf(),
        ensures
            r == (if Self::tier_of(*tier, *ring_offsets).is_live_slot(idx as int) {
                Some(&Self::tier_of(*tier, *ring_offsets)@[Self::tier_of(*tier, *ring_offsets).rank_of(idx as int)])
            } else {
                None
            }),
    {
        let ghost t = Self::tier_of(*tier, *ring_offsets);
        proof {
            Tier::lemma_assemble(*tier, *ring_offsets);
            t.lemma_slots();
        }
        if !Self::contains_masked_rank(tier, ring_offsets, idx) {
            return None;
        }
        proof {
            assert(t.slots()[t.slot_of(t.rank_of(idx as int))].is_some());
        }
        tier[idx].as_ref()
    }

    /// The element at `rank`, if there is one.
    pub fn get_by_rank<'a>(tier: &'a Vec<Option<T>>, ring_offsets: &ImplicitTierRingOffsets, rank: usize) -> (r: Option<&'a T>)
        requires
            Self::tier_of(*tier, *ring_offsets).wf(),
        ensures
            r == (if rank < Self::tier_of(*tier, *ring_offsets)@.len() {
                Some(&Self::tier_of(*tier, *ring_offsets)@[rank as int])
            } else {
                None
            }),
    {
        let ghost t = Self::tier_of(*tier, *ring_offsets);
        proof {
            Tier::lemma_assemble(*tier, *ring_offsets);
            t.lemma_slots();
            t.lemma_view_len();
        }
        if rank >= ring_offsets.len() {
            return None;
        }
        let idx = ring_offsets.masked_rank(rank, tier.len());
        proof {
            crate::pow2::lemma_wrap_shift(t.spec_head() + rank, 0, t.spec_capacity());
            assert(idx == t.slot_of(rank as int));
        }
        Self::get(tier, ring_offsets, idx)
    }

    /// A mutable reference to the element at `rank`, if there is one; the
    /// slot that holds it is the only one a write through it changes.
    pub fn get_mut_by_rank<'a>(tier: &'a mut Vec<Option<T>>, ring_offsets: &ImplicitTierRingOffsets, rank: usize) -> (r: Option<&'a mut T>)
        requires
            Self::tier_of(*old(tier), *ring_offsets).wf(),
        ensures
            rank >= Self::tier_of(*old(tier), *ring_offsets)@.len() ==> r.is_none() && *final(tier) == *old(tier),
            rank < Self::tier_of(*old(tier), *ring_offsets)@.len() ==> r.is_some()
                && *r.unwrap() == Self::tier_of(*old(tier), *ring_offsets)@[rank as int]
                && final(tier)@ == old(tier)@.update(
                    Self::tier_of(*old(tier), *ring_offsets).slot_of(rank as int),
                    Some(*final(r.unwrap())),
                ),
    {
        let ghost t = Self::tier_of(*tier, *ring_offsets);
        proof {
            Tier::lemma_assemble(*tier, *ring_offsets);
            t.lemma_slots();
            t.lemma_view_len();
        }
        if rank >= ring_offsets.len() {
            return None;
        }
        let idx = ring_offsets.masked_rank(rank, tier.len());
        proof {
            crate::pow2::lemma_wrap_shift(t.spec_head() + rank, 0, t.spec_capacity());
            assert(idx == t.slot_of(rank as int));
            assert(t.slots()[idx as int].is_some());
        }
        tier[idx].as_mut()
    }

    /// After a write of `v` through the reference that `get_mut_by_rank`
    /// hands out, the tier is well formed and only that element changed.
    pub proof fn lemma_written(
        old_tier: Vec<Option<T>>,
        new_tier: Vec<Option<T>>,
        ring_offsets: ImplicitTierRingOffsets,
        rank: int,
        v: T,
    )
        requires
            Self::tier_of(old_tier, ring_offsets).wf(),
            0 <= rank < Self::tier_of(old_tier, ring_offsets)@.len(),
            new_tier@ == old_tier@.update(Self::tier_of(old_tier, ring_offsets).slot_of(rank), Some(v)),
        ensures
            Self::tier_of(new_tier, ring_offsets).wf(),
            Self::tier_of(new_tier, ring_offsets)@ == Self::tier_of(old_tier, ring_offsets)@.update(rank, v),
    {
        Tier::lemma_assemble(old_tier, ring_offsets);
        Tier::lemma_assemble(new_tier, ring_offsets);
        Tier::lemma_written(Self::tier_of(old_tier, ring_offsets), Self::tier_of(new_tier, ring_offsets), rank, v);
    }

    /// Puts `elem` in front of the first element.
    pub fn push_front(tier: &mut Vec<Option<T>>, ring_offsets: &mut ImplicitTierRingOffsets, elem: T)
        requires
            Self::tier_of(*old(tier), *old(ring_offsets)).wf(),
            Self::tier_of(*old(tier), *old(ring_offsets)).spec_len() < Self::tier_of(*old(tier), *old(ring_offsets)).spec_capacity(),
        ensures
            Self::tier_of(*final(tier), *final(ring_offsets)).wf(),
            Self::tier_of(*final(tier), *final(ring_offsets))@ == seq![elem] + Self::tier_of(*old(tier), *old(ring_offsets))@,
            Self::tier_of(*final(tier), *final(ring_offsets)).spec_capacity() == Self::tier_of(*old(tier), *old(ring_offsets)).spec_capacity(),
    {
        let mut t = Self::take_tier(tier, ring_offsets);
        t.push_front(elem);
        Self::put_tier(t, tier, ring_offsets);
    }

    /// Puts `elem` after the last element.
    pub fn push_back(tier: &mut Vec<Option<T>>, ring_offsets: &mut ImplicitTierRingOffsets, elem: T)
        requires
            Self::tier_of(*old(tier), *old(ring_offsets)).wf(),
            Self::tier_of(*old(tier), *old(ring_offsets)).spec_len() < Self::tier_of(*old(tier), *old(ring_offsets)).spec_capacity(),
        ensures
            Self::tier_of(*final(tier), *final(ring_offsets)).wf(),
            Self::tier_of(*final(tier), *final(ring_offsets))@ == Self::tier_of(*old(tier), *old(ring_offsets))@.push(elem),
            Self::tier_of(*final(tier), *final(ring_offsets)).spec_capacity() == Self::tier_of(*old(tier), *old(ring_offsets)).spec_capacity(),
    {
        let mut t = Self::take_tier(tier, ring_offsets);
        t.push_back(elem);
        Self::put_tier(t, tier, ring_offsets);
    }

    /// Removes and returns the first element.
    pub fn pop_front(tier: &mut Vec<Option<T>>, ring_offsets: &mut ImplicitTierRingOffsets) -> (r: T)
        requires
            Self::tier_of(*old(tier), *old(ring_offsets)).wf(),
            Self::tier_of(*old(tier), *old(ring_offsets)).spec_len() > 0,
        ensures
            Self::tier_of(*final(tier), *final(ring_offsets)).wf(),
            r == Self::tier_of(*old(tier), *old(ring_offsets))@[0],
            Self::tier_of(*final(tier), *final(ring_offsets))@ == Self::tier_of(*old(tier), *old(ring_offsets))@.subrange(
                1,
                Self::tier_of(*old(tier), *old(ring_offsets))@.len() as int,
            ),
    {
        let mut t = Self::take_tier(tier, ring_offsets);
        let r = t.pop_front();
        Self::put_tier(t, tier, ring_offsets);
        r
    }

    /// Removes and returns the last element.
    pub fn pop_back(tier: &mut Vec<Option<T>>, ring_offsets: &mut ImplicitTierRingOffsets) -> (r: T)
        requires
            Self::tier_of(*old(tier), *old(ring_offsets)).wf(),
            Self::tier_of(*old(tier), *old(ring_offsets)).spec_len() > 0,
        ensures
            Self::tier_of(*final(tier), *final(ring_offsets)).wf(),
            r == Self::tier_of(*old(tier), *old(ring_offsets))@.last(),
            Self::tier_of(*final(tier), *final(ring_offsets))@ == Self::tier_of(*old(tier), *old(ring_offsets))@.drop_last(),
    {
        let mut t = Self::take_tier(tier, ring_offsets);
        let r = t.pop_back();
        Self::put_tier(t, tier, ring_offsets);
        r
    }

    /// Replaces the last element of a full tier by `elem` in front of the
    /// first one, and returns the element that left.
    pub fn pop_push_front(tier: &mut Vec<Option<T>>, ring_offsets: &mut ImplicitTierRingOffsets, elem: T) -> (r: T)
        requires
            Self::tier_of(*old(tier), *old(ring_offsets)).wf(),
            Self::tier_of(*old(tier), *old(ring_offsets)).spec_len() == Self::tier_of(*old(tier), *old(ring_offsets)).spec_capacity(),
        ensures
            Self::tier_of(*final(tier), *final(ring_offsets)).wf(),
            r == Self::tier_of(*old(tier), *old(ring_offsets))@.last(),
            Self::tier_of(*final(tier), *final(ring_offsets))@ == seq![elem] + Self::tier_of(*old(tier), *old(ring_offsets))@.drop_last(),
    {
        let mut t = Self::take_tier(tier, ring_offsets);
        let r = t.pop_push_front(elem);
        Self::put_tier(t, tier, ring_offsets);
        r
    }

    /// Inserts `elem` so that it gets rank `rank`.
    pub fn insert(tier: &mut Vec<Option<T>>, ring_offsets: &mut ImplicitTierRingOffsets, rank: usize, elem: T)
        requires
            Self::tier_of(*old(tier), *old(ring_offsets)).wf(),
            Self::tier_of(*old(tier), *old(ring_offsets)).spec_len() < Self::tier_of(*old(tier), *old(ring_offsets)).spec_capacity(),
            rank <= Self::tier_of(*old(tier), *old(ring_offsets)).spec_len(),
        ensures
            Self::tier_of(*final(tier), *final(ring_offsets)).wf(),
            Self::tier_of(*final(tier), *final(ring_offsets))@ == Self::tier_of(*old(tier), *old(ring_offsets))@.insert(rank as int, elem),
    {
        let mut t = Self::take_tier(tier, ring_offsets);
        t.insert(rank, elem);
        Self::put_tier(t, tier, ring_offsets);
    }

    /// Removes and returns the element at `rank`.
    pub fn remove(tier: &mut Vec<Option<T>>, ring_offsets: &mut ImplicitTierRingOffsets, rank: usize) -> (r: T)
        requires
            Self::tier_of(*old(tier), *old(ring_offsets)).wf(),
            rank < Self::tier_of(*old(tier), *old(ring_offsets)).spec_len(),
        ensures
            Self::tier_of(*final(tier), *final(ring_offsets)).wf(),
            r == Self::tier_of(*old(tier), *old(ring_offsets))@[rank as int],
            Self::tier_of(*final(tier), *final(ring_offsets))@ == Self::tier_of(*old(tier), *old(ring_offsets))@.remove(rank as int),
    {
        let mut t = Self::take_tier(tier, ring_offsets);
        let r = t.remove(rank);
        Self::put_tier(t, tier, ring_offsets);
        r
    }

    /// Rotates the slots so that the first element sits in slot 0.
    pub fn rotate_reset(tier: &mut Vec<Option<T>>, ring_offsets: &mut ImplicitTierRingOffsets)
        requires
            Self::tier_of(*old(tier), *old(ring_offsets)).wf(),
        ensures
            Self::tier_of(*final(tier), *final(ring_offsets)).wf(),
            Self::tier_of(*final(tier), *final(ring_offsets))@ == Self::tier_of(*old(tier), *old(ring_offsets))@,
            final(ring_offsets).spec_head() == 0,
    {
        let mut t = Self::take_tier(tier, ring_offsets);
        t.rotate_reset();
        Self::put_tier(t, tier, ring_offsets);
        proof {
            Tier::lemma_assemble(*final(tier), *final(ring_offsets));
        }
    }

    /// Halves the capacity of the tier; the slots and cursors of the tier
    /// holding the elements that no longer fit are returned.
    pub fn split_half(tier: &mut Vec<Option<T>>, ring_offsets: &mut ImplicitTierRingOffsets) -> (r: (
        Vec<Option<T>>,
        ImplicitTierRingOffsets,
    ))
        requires
            Self::tier_of(*old(tier), *old(ring_offsets)).wf(),
            Self::tier_of(*old(tier), *old(ring_offsets)).spec_capacity() >= 2,
        ensures
            Self::tier_of(*final(tier), *final(ring_offsets)).wf(),
            Self::tier_of(r.0, r.1).wf(),
            Self::tier_of(*final(tier), *final(ring_offsets))@ + Self::tier_of(r.0, r.1)@
                == Self::tier_of(*old(tier), *old(ring_offsets))@,
            Self::tier_of(*final(tier), *final(ring_offsets))@ == Self::tier_of(*old(tier), *old(ring_offsets))@.subrange(
                0,
                Self::tier_of(*old(tier), *old(ring_offsets)).split_point(),
            ),
    {
        let mut t = Self::take_tier(tier, ring_offsets);
        let upper = t.split_half();
        Self::put_tier(t, tier, ring_offsets);
        let r = upper.into_parts();
        proof {
            let pre = Self::tier_of(*old(tier), *old(ring_offsets));
            assert(pre@.subrange(0, pre.split_point()) + pre@.subrange(pre.split_point(), pre@.len() as int) =~= pre@);
        }
        r
    }

    /// Appends the elements of the second tier to the first, whose slot
    /// buffer grows to hold both.
    pub fn merge_neighbors(
        first_tier: &mut Vec<Option<T>>,
        first_ring_offsets: &mut ImplicitTierRingOffsets,
        second_tier: Vec<Option<T>>,
        second_ring_offsets: ImplicitTierRingOffsets,
    )
        requires
            Self::tier_of(*old(first_tier), *old(first_ring_offsets)).wf(),
            Self::tier_of(second_tier, second_ring_offsets).wf(),
            second_tier@.len() == old(first_tier)@.len(),
            2 * old(first_tier)@.len() <= usize::MAX,
        ensures
            Self::tier_of(*final(first_tier), *final(first_ring_offsets)).wf(),
            Self::tier_of(*final(first_tier), *final(first_ring_offsets))@ == Self::tier_of(
                *old(first_tier),
                *old(first_ring_offsets),
            )@ + Self::tier_of(second_tier, second_ring_offsets)@,
            final(first_tier)@.len() == 2 * old(first_tier)@.len(),
    {
        proof {
            Tier::lemma_assemble(*first_tier, *first_ring_offsets);
            Tier::lemma_assemble(second_tier, second_ring_offsets);
        }
        let mut t = Self::take_tier(first_tier, first_ring_offsets);
        let other = Tier::from_parts(second_tier, second_ring_offsets);
        t.merge(other);
        Self::put_tier(t, first_tier, first_ring_offsets);
        proof {
            Tier::lemma_assemble(*final(first_tier), *final(first_ring_offsets));
        }
    }

    /// Moves the elements from the head up to slot `from` (inclusive) one
    /// slot towards the head, leaving slot `from` empty.
    pub fn shift_to_head(tier: &mut Vec<Option<T>>, ring_offsets: &mut ImplicitTierRingOffsets, from: usize)
        requires
            Self::tier_of(*old(tier), *old(ring_offsets)).wf(),
            Self::tier_of(*old(tier), *old(ring_offsets)).spec_len() < Self::tier_of(*old(tier), *old(ring_offsets)).spec_capacity(),
            Self::tier_of(*old(tier), *old(ring_offsets)).is_live_slot(from as int),
        ensures
            final(tier)@.len() == old(tier)@.len(),
            final(ring_offsets).spec_head() == crate::pow2::wrap(old(ring_offsets).spec_head() - 1),
            final(ring_offsets).spec_tail() == old(ring_offsets).spec_tail(),
            final(tier)@[from as int].is_none(),
            forall|j: int| 0 <= j <= Self::tier_of(*old(tier), *old(ring_offsets)).rank_of(from as int)
                ==> #[trigger] final(tier)@[Self::tier_of(*final(tier), *final(ring_offsets)).slot_of(j)]
                == old(tier)@[Self::tier_of(*old(tier), *old(ring_offsets)).slot_of(j)],
    {
        proof {
            Tier::lemma_assemble(*tier, *ring_offsets);
        }
        let mut t = Self::take_tier(tier, ring_offsets);
        t.shift_to_head(from);
        Self::put_tier(t, tier, ring_offsets);
        proof {
            Tier::lemma_assemble(*final(tier), *final(ring_offsets));
        }
    }

    /// Moves the elements from slot `from` to the tail one slot towards the
    /// tail, leaving slot `from` empty.
    pub fn shift_to_tail(tier: &mut Vec<Option<T>>, ring_offsets: &mut ImplicitTierRingOffsets, from: usize)
        requires
            Self::tier_of(*old(tier), *old(ring_offsets)).wf(),
            Self::tier_of(*old(tier), *old(ring_offsets)).spec_len() < Self::tier_of(*old(tier), *old(ring_offsets)).spec_capacity(),
            Self::tier_of(*old(tier), *old(ring_offsets)).is_live_slot(from as int),
        ensures
            final(tier)@.len() == old(tier)@.len(),
            final(ring_offsets).spec_head() == old(ring_offsets).spec_head(),
            final(ring_offsets).spec_tail() == crate::pow2::wrap(old(ring_offsets).spec_tail() + 1),
            final(tier)@[from as int].is_none(),
            forall|j: int| Self::tier_of(*old(tier), *old(ring_offsets)).rank_of(from as int) < j
                <= Self::tier_of(*old(tier), *old(ring_offsets)).spec_len()
                ==> #[trigger] final(tier)@[Self::tier_of(*final(tier), *final(ring_offsets)).slot_of(j)]
                == old(tier)@[Self::tier_of(*old(tier), *old(ring_offsets)).slot_of(j - 1)],
    {
        proof {
            Tier::lemma_assemble(*tier, *ring_offsets);
        }
        let mut t = Self::take_tier(tier, ring_offsets);
        t.shift_to_tail(from);
        Self::put_tier(t, tier, ring_offsets);
        proof {
            Tier::lemma_assemble(*final(tier), *final(ring_offsets));
        }
    }
}

} // verus!
