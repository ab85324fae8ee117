//! A tier whose operations check their own preconditions and report
//! violations as errors.
use crate::pow2::is_power_of_two;
use crate::filled_tier::FilledTier;
use vstd::prelude::*;

verus! {

/// Why a tier operation was refused.
#[derive(Clone, Debug)]
pub enum TierError<T> {
    /// The tier is full; the element is handed back.
    TierFullInsertionError(T),
    /// The rank is past the end, so the element would not join the others;
    /// the rank and the element are handed back.
    TierDisconnectedEntryInsertionError(usize, T),
    /// The tier holds no element.
    TierEmptyError,
    /// No element has this rank.
    TierRankOutOfBoundsError(usize),
}

/// A ring-buffer tier with checked operations, over slots that always hold
/// a value (a vacated slot holds `T::default()`).
pub struct RawTier<T> {
    inner: FilledTier<T>,
}

impl<T> View for RawTier<T> {
    type V = Seq<T>;

    closed spec fn view(&self) -> Seq<T> {
        self.inner@
    }
}

impl<T: Default> RawTier<T> {
    pub closed spec fn wf(&self) -> bool {
        self.inner.wf()
    }

    pub closed spec fn spec_capacity(&self) -> int {
        self.inner.spec_capacity()
    }

    /// The slot that holds rank `rank`.
    pub closed spec fn slot_of(&self, rank: int) -> int {
        self.inner.slot_of(rank)
    }

    /// The slots of the buffer, by physical index.
    pub closed spec fn slots(&self) -> Seq<T> {
        self.inner.slots()
    }

    /// The rank that slot `slot` stands for, whether live or not.
    pub closed spec fn rank_of(&self, slot: int) -> int {
        self.inner.rank_of(slot)
    }

    /// Rank `k` sits `k` slots after the first element, wrapping around the
    /// capacity.
    pub proof fn lemma_slot_of(&self)
        requires
            self.wf(),
        ensures
            0 <= self.slot_of(0) < self.spec_capacity(),
            forall|k: int| #[trigger] self.slot_of(k) == (self.slot_of(0) + k) % self.spec_capacity(),
            forall|s: int| #[trigger] self.rank_of(s) == (s - self.slot_of(0)) % self.spec_capacity(),
    {
        self.inner.lemma_slots();
        let c = self.inner.spec_capacity();
        let h = self.inner.spec_head();
        assert forall|k: int| #[trigger] self.slot_of(k) == (self.slot_of(0) + k) % c by {
            vstd::arithmetic::div_mod::lemma_add_mod_noop_right(k, h, c);
        }
        assert forall|s: int| #[trigger] self.rank_of(s) == (s - self.slot_of(0)) % c by {
            vstd::arithmetic::div_mod::lemma_sub_mod_noop_right(s, h, c);
        }
    }

    /// Facts that follow from well-formedness.
    pub proof fn lemma_wf(&self)
        requires
            self.wf(),
        ensures
            self@.len() <= self.spec_capacity(),
            is_power_of_two(self.spec_capacity()),
            forall|r: int| 0 <= r < self.spec_capacity() ==> 0 <= #[trigger] self.slot_of(r) < self.spec_capacity(),
    {
        self.inner.lemma_view_len();
        self.inner.lemma_slots();
    }

    /// Creates an empty tier with `capacity` slots.
    pub fn new(capacity: usize) -> (r: Self)
        requires
            is_power_of_two(capacity as int),
        ensures
            r.wf(),
            r@ == Seq::<T>::empty(),
            r.spec_capacity() == capacity,
            r.slot_of(0) == 0,
    {
        let r = RawTier { inner: FilledTier::new(capacity) };
        proof {
            r.inner.lemma_slots();
            vstd::arithmetic::div_mod::lemma_small_mod(0, capacity as nat);
        }
        r
    }

    pub fn capacity(&self) -> (r: usize)
        ensures
            r == self.spec_capacity(),
    {
        self.inner.capacity()
    }

    pub fn len(&self) -> (r: usize)
        requires
            self.wf(),
        ensures
            r == self@.len(),
    {
        proof {
            self.inner.lemma_view_len();
        }
        self.inner.len()
    }

    pub fn is_empty(&self) -> (r: bool)
        requires
            self.wf(),
        ensures
            r == (self@.len() == 0),
    {
        proof {
            self.inner.lemma_view_len();
        }
        self.inner.is_empty()
    }

    pub fn is_full(&self) -> (r: bool)
        requires
            self.wf(),
        ensures
            r == (self@.len() == self.spec_capacity()),
    {
        proof {
            self.inner.lemma_view_len();
        }
        self.inner.is_full()
    }

    /// The rank of the last element.
    pub fn max_rank(&self) -> (r: usize)
        requires
            self.wf(),
            self@.len() > 0,
        ensures
            r == self@.len() - 1,
    {
        self.len() - 1
    }

    /// The slot of the first element.
    pub fn masked_head(&self) -> (r: usize)
        requires
            self.wf(),
        ensures
            r == self.slot_of(0),
    {
        proof {
            self.inner.lemma_view_len();
        }
        self.inner.masked_head()
    }

    /// The slot one past the last element.
    pub fn masked_tail(&self) -> (r: usize)
        requires
            self.wf(),
        ensures
            r == self.slot_of(self@.len() as int),
    {
        proof {
            self.inner.lemma_view_len();
            self.inner.lemma_slots();
        }
        self.inner.masked_tail()
    }

    /// Whether slot `masked_rank` holds a live element.
    pub fn contains_masked_rank(&self, masked_rank: usize) -> (r: bool)
        requires
            self.wf(),
        ensures
            r == (masked_rank < self.spec_capacity() && self.rank_of(masked_rank as int) < self@.len()),
    {
        proof {
            self.inner.lemma_view_len();
        }
        self.inner.contains_masked_rank(masked_rank)
    }

    /// Whether `rank` names an element.
    pub fn contains_rank(&self, rank: usize) -> (r: bool)
        requires
            self.wf(),
        ensures
            r == (rank < self@.len()),
    {
        proof {
            self.inner.lemma_view_len();
        }
        self.inner.contains_rank(rank)
    }

    /// The element in slot `idx`, if that slot holds a live element.
    pub fn get(&self, idx: usize) -> (r: Option<&T>)
        requires
            self.wf(),
        ensures
            r == (if idx < self.spec_capacity() && self.rank_of(idx as int) < self@.len() {
                Some(&self@[self.rank_of(idx as int)])
            } else {
                None
            }),
    {
        proof {
            self.inner.lemma_view_len();
            self.inner.lemma_slots();
        }
        self.inner.get(idx)
    }

    /// The element at rank `rank`, if there is one.
    pub fn get_by_rank(&self, rank: usize) -> (r: Option<&T>)
        requires
            self.wf(),
        ensures
            r == (if rank < self@.len() {
                Some(&self@[rank as int])
            } else {
                None
            }),
    {
        self.inner.get_by_rank(rank)
    }

    /// `post` is `pre` with the element at `rank` replaced by `v`.
    pub closed spec fn written(pre: Self, post: Self, rank: int, v: T) -> bool {
        FilledTier::written(pre.inner, post.inner, rank, v)
    }

    /// After a write through the reference that `get_mut_by_rank` hands
    /// out, the tier is well formed and only that element has changed.
    pub proof fn lemma_written(pre: Self, post: Self, rank: int, v: T)
        requires
            pre.wf(),
            0 <= rank < pre@.len(),
            Self::written(pre, post, rank, v),
        ensures
            post.wf(),
            post@ == pre@.update(rank, v),
            post.spec_capacity() == pre.spec_capacity(),
    {
        FilledTier::lemma_written(pre.inner, post.inner, rank, v);
    }

    /// A mutable reference to the element at rank `rank`, if there is one.
    pub fn get_mut_by_rank(&mut self, rank: usize) -> (r: Option<&mut T>)
        requires
            old(self).wf(),
        ensures
            rank >= old(self)@.len() ==> r.is_none() && *final(self) == *old(self),
            rank < old(self)@.len() ==> r.is_some() && *r.unwrap() == old(self)@[rank as int]
                && Self::written(*old(self), *final(self), rank as int, *final(r.unwrap())),
    {
        self.inner.get_by_rank_mut(rank)
    }

    /// Puts `elem` in front of the first element and returns the slot it
    /// went to, or hands it back if the tier is full.
    pub fn push_front(&mut self, elem: T) -> (r: Result<usize, TierError<T>>)
        requires
            old(self).wf(),
        ensures
            final(self).wf(),
            final(self).spec_capacity() == old(self).spec_capacity(),
            old(self)@.len() < old(self).spec_capacity() ==> final(self)@ == seq![elem] + old(self)@
                && final(self).slot_of(0) == (old(self).slot_of(0) + old(self).spec_capacity() - 1) % old(self).spec_capacity()
                && r == Ok::<usize, TierError<T>>(final(self).slot_of(0) as usize),
            old(self)@.len() == old(self).spec_capacity() ==> *final(self) == *old(self)
                && r == Err::<usize, TierError<T>>(TierError::TierFullInsertionError(elem)),
    {
        proof {
            self.inner.lemma_view_len();
        }
        if self.inner.is_full() {
            return Err(TierError::TierFullInsertionError(elem));
        }
        self.inner.push_front(elem);
        proof {
            self.inner.lemma_view_len();
            old(self).inner.lemma_slots();
            crate::pow2::lemma_slot_step(old(self).inner.spec_head(), -1, old(self).inner.spec_capacity());
        }
        Ok(self.inner.masked_head())
    }

    /// Puts `elem` after the last element and returns the slot it went to,
    /// or hands it back if the tier is full.
    pub fn push_back(&mut self, elem: T) -> (r: Result<usize, TierError<T>>)
        requires
            old(self).wf(),
        ensures
            final(self).wf(),
            final(self).spec_capacity() == old(self).spec_capacity(),
            old(self)@.len() < old(self).spec_capacity() ==> final(self)@ == old(self)@.push(elem)
                && final(self).slot_of(0) == old(self).slot_of(0)
                && r == Ok::<usize, TierError<T>>(final(self).slot_of(old(self)@.len() as int) as usize),
            old(self)@.len() == old(self).spec_capacity() ==> *final(self) == *old(self)
                && r == Err::<usize, TierError<T>>(TierError::TierFullInsertionError(elem)),
    {
        proof {
            self.inner.lemma_view_len();
        }
        if self.inner.is_full() {
            return Err(TierError::TierFullInsertionError(elem));
        }
        let rank = self.inner.len();
        self.inner.push_back(elem);
        proof {
            self.inner.lemma_view_len();
        }
        Ok(self.inner.masked_rank(rank))
    }

    /// Removes and returns the first element, if there is one.
    pub fn pop_front(&mut self) -> (r: Result<T, TierError<T>>)
        requires
            old(self).wf(),
        ensures
            final(self).wf(),
            final(self).spec_capacity() == old(self).spec_capacity(),
            old(self)@.len() > 0 ==> r == Ok::<T, TierError<T>>(old(self)@[0])
                && final(self)@ == old(self)@.subrange(1, old(self)@.len() as int)
                && final(self).slot_of(0) == (old(self).slot_of(0) + 1) % old(self).spec_capacity(),
            old(self)@.len() == 0 ==> r == Err::<T, TierError<T>>(TierError::TierEmptyError)
                && *final(self) == *old(self),
    {
        proof {
            self.inner.lemma_view_len();
        }
        if self.inner.is_empty() {
            return Err(TierError::TierEmptyError);
        }
        let r = self.inner.pop_front();
        proof {
            old(self).inner.lemma_slots();
            crate::pow2::lemma_slot_step(old(self).inner.spec_head(), 1, old(self).inner.spec_capacity());
            vstd::arithmetic::div_mod::lemma_mod_add_multiples_vanish(
                old(self).inner.spec_head() % old(self).inner.spec_capacity() + 1,
                old(self).inner.spec_capacity(),
            );
        }
        Ok(r)
    }

    /// Removes and returns the last element, if there is one.
    pub fn pop_back(&mut self) -> (r: Result<T, TierError<T>>)
        requires
            old(self).wf(),
        ensures
            final(self).wf(),
            final(self).spec_capacity() == old(self).spec_capacity(),
            old(self)@.len() > 0 ==> r == Ok::<T, TierError<T>>(old(self)@.last())
                && final(self)@ == old(self)@.drop_last()
                && final(self).slot_of(0) == old(self).slot_of(0),
            old(self)@.len() == 0 ==> r == Err::<T, TierError<T>>(TierError::TierEmptyError)
                && *final(self) == *old(self),
    {
        proof {
            self.inner.lemma_view_len();
        }
        if self.inner.is_empty() {
            return Err(TierError::TierEmptyError);
        }
        Ok(self.inner.pop_back())
    }

    /// Inserts `elem` at rank `rank` and returns the slot it went to; a full
    /// tier, or a rank past the end, hands the element back.
    pub fn insert(&mut self, rank: usize, elem: T) -> (r: Result<usize, TierError<T>>)
        requires
            old(self).wf(),
        ensures
            final(self).wf(),
            final(self).spec_capacity() == old(self).spec_capacity(),
            old(self)@.len() == old(self).spec_capacity() ==> *final(self) == *old(self)
                && r == Err::<usize, TierError<T>>(TierError::TierFullInsertionError(elem)),
            old(self)@.len() < old(self).spec_capacity() && rank > old(self)@.len() ==> *final(self) == *old(self)
                && r == Err::<usize, TierError<T>>(TierError::TierDisconnectedEntryInsertionError(rank, elem)),
            old(self)@.len() < old(self).spec_capacity() && rank <= old(self)@.len()
                ==> final(self)@ == old(self)@.insert(rank as int, elem)
                && final(self).slot_of(0) == (if rank < old(self)@.len() && 2 * rank <= old(self)@.len() {
                    (old(self).slot_of(0) + old(self).spec_capacity() - 1) % old(self).spec_capacity()
                } else {
                    old(self).slot_of(0)
                })
                && r == Ok::<usize, TierError<T>>(final(self).slot_of(rank as int) as usize),
    {
        proof {
            self.inner.lemma_view_len();
        }
        if self.inner.is_full() {
            return Err(TierError::TierFullInsertionError(elem));
        }
        if rank > self.inner.len() {
            return Err(TierError::TierDisconnectedEntryInsertionError(rank, elem));
        }
        self.inner.insert(rank, elem);
        proof {
            old(self).inner.lemma_slots();
            crate::pow2::lemma_slot_step(old(self).inner.spec_head(), -1, old(self).inner.spec_capacity());
        }
        Ok(self.inner.masked_rank(rank))
    }

    /// Removes and returns the element at rank `rank`, if there is one.
    pub fn remove(&mut self, rank: usize) -> (r: Result<T, TierError<T>>)
        requires
            old(self).wf(),
        ensures
            final(self).wf(),
            final(self).spec_capacity() == old(self).spec_capacity(),
            old(self)@.len() == 0 ==> *final(self) == *old(self)
                && r == Err::<T, TierError<T>>(TierError::TierEmptyError),
            0 < old(self)@.len() <= rank ==> *final(self) == *old(self)
                && r == Err::<T, TierError<T>>(TierError::TierRankOutOfBoundsError(rank)),
            rank < old(self)@.len() ==> final(self)@ == old(self)@.remove(rank as int)
                && final(self).slot_of(0) == (if rank == 0 {
                    (old(self).slot_of(0) + 1) % old(self).spec_capacity()
                } else {
                    old(self).slot_of(0)
                })
                && r == Ok::<T, TierError<T>>(old(self)@[rank as int]),
    {
        proof {
            self.inner.lemma_view_len();
        }
        if self.inner.is_empty() {
            return Err(TierError::TierEmptyError);
        }
        if rank >= self.inner.len() {
            return Err(TierError::TierRankOutOfBoundsError(rank));
        }
        let r = self.inner.remove(rank);
        proof {
            old(self).inner.lemma_slots();
            crate::pow2::lemma_slot_step(old(self).inner.spec_head(), 1, old(self).inner.spec_capacity());
            vstd::arithmetic::div_mod::lemma_mod_add_multiples_vanish(
                old(self).inner.spec_head() % old(self).inner.spec_capacity() + 1,
                old(self).inner.spec_capacity(),
            );
        }
        Ok(r)
    }

    /// Moves the elements from the first one up to slot `from` (inclusive)
    /// one slot towards the head, leaving slot `from` empty.
    pub fn shift_to_head(&mut self, from: usize)
        requires
            old(self).wf(),
            old(self)@.len() < old(self).spec_capacity(),
            from < old(self).spec_capacity(),
            old(self).rank_of(from as int) < old(self)@.len(),
        ensures
            final(self).spec_capacity() == old(self).spec_capacity(),
            final(self).slot_of(old(self).rank_of(from as int) + 1) == from,
            forall|j: int| 0 <= j <= old(self).rank_of(from as int)
                ==> #[trigger] final(self).slots()[final(self).slot_of(j)] == old(self)@[j],
            forall|j: int| old(self).rank_of(from as int) + 2 <= j < old(self).spec_capacity()
                ==> #[trigger] final(self).slots()[final(self).slot_of(j)] == old(self).slots()[final(self).slot_of(j)],
    {
        proof {
            self.inner.lemma_view_len();
            self.inner.lemma_slots();
            assert forall|j: int| 0 <= j <= self.inner.rank_of(from as int) implies (#[trigger] self.inner.slots()[self.inner.slot_of(j)])
                == self.inner@[j] by {
            }
        }
        self.inner.shift_to_head(from);
    }

    /// Moves the elements from slot `from` to the last one one slot towards
    /// the tail, leaving slot `from` empty.
    pub fn shift_to_tail(&mut self, from: usize)
        requires
            old(self).wf(),
            old(self)@.len() < old(self).spec_capacity(),
            from < old(self).spec_capacity(),
            old(self).rank_of(from as int) < old(self)@.len(),
        ensures
            final(self).spec_capacity() == old(self).spec_capacity(),
            forall|j: int| 0 <= j < old(self).rank_of(from as int)
                ==> #[trigger] final(self).slots()[final(self).slot_of(j)] == old(self)@[j],
            forall|j: int| old(self).rank_of(from as int) < j <= old(self)@.len()
                ==> #[trigger] final(self).slots()[final(self).slot_of(j)] == old(self)@[j - 1],
    {
        proof {
            self.inner.lemma_view_len();
            self.inner.lemma_slots();
            assert forall|j: int| 0 <= j < self.inner.spec_len() implies (#[trigger] self.inner.slots()[self.inner.slot_of(j)])
                == self.inner@[j] by {
            }
        }
        self.inner.shift_to_tail(from);
        proof {
            assert forall|j: int| 0 <= j < old(self).rank_of(from as int) implies #[trigger] self.slots()[self.slot_of(j)]
                == old(self)@[j] by {
                assert(self.inner.slot_of(j) == old(self).inner.slot_of(j));
            }
        }
    }

    /// Rotates the buffer so that the first element sits in slot 0.
    pub fn rotate_reset(&mut self)
        requires
            old(self).wf(),
        ensures
            final(self).wf(),
            final(self)@ == old(self)@,
            final(self).spec_capacity() == old(self).spec_capacity(),
            final(self).slot_of(0) == 0,
            forall|j: int| 0 <= j < old(self)@.len() ==> #[trigger] final(self).slots()[j] == old(self)@[j],
    {
        proof {
            self.inner.lemma_view_len();
        }
        self.inner.rotate_reset();
        proof {
            self.inner.lemma_slots();
            vstd::arithmetic::div_mod::lemma_small_mod(0, self.inner.spec_capacity() as nat);
        }
    }

    /// Appends the elements of `other`, doubling the capacity.
    pub fn merge(&mut self, other: RawTier<T>)
        requires
            old(self).wf(),
            other.wf(),
            other.spec_capacity() == old(self).spec_capacity(),
            2 * old(self).spec_capacity() <= usize::MAX,
        ensures
            final(self).wf(),
            final(self)@ == old(self)@ + other@,
            final(self).spec_capacity() == 2 * old(self).spec_capacity(),
    {
        self.inner.merge(other.inner);
    }

    /// Halves the capacity; the elements that no longer fit move, in
    /// order, into the returned tier.
    pub fn split_half(&mut self) -> (r: RawTier<T>)
        requires
            old(self).wf(),
            old(self).spec_capacity() >= 2,
        ensures
            final(self).wf(),
            r.wf(),
            final(self).spec_capacity() == old(self).spec_capacity() / 2,
            r.spec_capacity() == old(self).spec_capacity() / 2,
            final(self)@ + r@ == old(self)@,
            final(self)@.len() == if old(self)@.len() < old(self).spec_capacity() / 2 {
                old(self)@.len() as int
            } else {
                old(self).spec_capacity() / 2
            },
    {
        proof {
            self.inner.lemma_view_len();
        }
        let r = RawTier { inner: self.inner.split_half() };
        proof {
            assert(self@ + r@ =~= old(self)@);
        }
        r
    }
}

impl<T: Clone + Default> Clone for RawTier<T> {
    /// A tier with the same layout and a clone of every element.
    fn clone(&self) -> (r: Self)
        ensures
            r.spec_capacity() == self.spec_capacity(),
            self.wf() ==> r.wf() && r@.len() == self@.len(),
            self.wf() ==> forall|i: int| 0 <= i < self@.len() ==> cloned(#[trigger] self@[i], r@[i]),
    {
        proof {
            if self.inner.wf() {
                self.inner.lemma_view_len();
            }
        }
        let r = RawTier { inner: self.inner.clone() };
        proof {
            if self.inner.wf() {
                r.inner.lemma_view_len();
            }
        }
        r
    }
}

} // verus!
