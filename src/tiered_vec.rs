//! The tiered vector with checked operations that report misuse as errors.
use crate::linked::{is_tier_capacity_for, packed_tier_len, LinkedTieredVec};
use crate::pow2::is_power_of_two;
use vstd::prelude::*;

verus! {

/// Why an operation on a tiered vector was refused.
#[derive(Clone, Debug)]
pub enum TieredVectorError<T> {
    /// The rank is past the end; the rank and the element are handed back.
    TieredVectorOutofBoundsInsertionError(usize, T),
    /// The vector holds no element.
    TieredVectorEmptyError,
    /// No element has this rank.
    TieredVectorRankOutOfBoundsError(usize),
}

/// An indexable sequence with O(1) access by rank and amortised O(sqrt n)
/// insertion and removal at any rank.
pub struct TieredVec<T> {
    inner: LinkedTieredVec<T>,
}

impl<T> View for TieredVec<T> {
    type V = Seq<T>;

    closed spec fn view(&self) -> Seq<T> {
        self.inner@
    }
}

impl<T> TieredVec<T> {
    pub closed spec fn wf(&self) -> bool {
        self.inner.wf()
    }

    pub closed spec fn spec_tier_capacity(&self) -> int {
        self.inner.spec_tier_capacity()
    }

    pub open spec fn spec_capacity(&self) -> int {
        self.spec_tier_capacity() * self.spec_tier_capacity()
    }

    /// The number of elements that tier `i` holds.
    pub closed spec fn spec_tier_len(&self, i: int) -> int {
        self.inner.spec_tier_len(i)
    }

    /// The number of slots of tier `i`.
    pub closed spec fn spec_tier_slots(&self, i: int) -> int {
        self.inner.spec_tier_slots(i)
    }

    /// Whether removing from this vector first halves its tier capacity.
    pub open spec fn should_contract(&self) -> bool {
        self.spec_tier_capacity() >= 4 && self@.len() <= self.spec_capacity() / 8
    }

    /// Creates an empty vector of `initial_tier_size` tiers of
    /// `initial_tier_size` slots each.
    pub fn new(initial_tier_size: usize) -> (r: Self)
        requires
            is_power_of_two(initial_tier_size as int),
            initial_tier_size >= 2,
            initial_tier_size * initial_tier_size <= usize::MAX,
        ensures
            r.wf(),
            r@ == Seq::<T>::empty(),
            r.spec_tier_capacity() == initial_tier_size,
    {
        TieredVec { inner: LinkedTieredVec::new(initial_tier_size) }
    }

    /// Creates an empty vector whose capacity is the smallest square of a
    /// power of two that holds `minimum_capacity` elements.
    pub fn with_minimum_capacity(minimum_capacity: usize) -> (r: Self)
        requires
            minimum_capacity >= 4,
            minimum_capacity <= usize::MAX / 4,
        ensures
            r.wf(),
            r@ == Seq::<T>::empty(),
            is_tier_capacity_for(r.spec_tier_capacity(), minimum_capacity as int),
    {
        TieredVec { inner: LinkedTieredVec::with_capacity(minimum_capacity) }
    }

    pub fn tier_capacity(&self) -> (r: usize)
        ensures
            r == self.spec_tier_capacity(),
    {
        self.inner.tier_capacity()
    }

    pub fn capacity(&self) -> (r: usize)
        requires
            self.wf(),
        ensures
            r == self.spec_capacity(),
    {
        self.inner.capacity()
    }

    pub fn len(&self) -> (r: usize)
        requires
            self.wf(),
        ensures
            r == self@.len(),
    {
        self.inner.len()
    }

    pub fn is_empty(&self) -> (r: bool)
        requires
            self.wf(),
        ensures
            r == (self@.len() == 0),
    {
        self.inner.is_empty()
    }

    pub fn is_full(&self) -> (r: bool)
        requires
            self.wf(),
        ensures
            r == (self@.len() == self.spec_capacity()),
    {
        self.inner.is_full()
    }

    /// The element at rank `rank`, if there is one.
    pub fn get_by_rank(&self, rank: usize) -> (r: Option<&T>)
        requires
            self.wf(),
        ensures
            r == (if rank < self@.len() {
                Some(&self@[rank as int])
            } else {
                None
            }),
    {
        self.inner.get(rank)
    }

    /// `post` is `pre` with the element at `rank` replaced by `v`.
    pub closed spec fn written(pre: Self, post: Self, rank: int, v: T) -> bool {
        LinkedTieredVec::written(pre.inner, post.inner, rank, v)
    }

    /// After a write through the reference that `get_mut_by_rank` hands
    /// out, the vector is well formed and only that element has changed.
    pub proof fn lemma_written(pre: Self, post: Self, rank: int, v: T)
        requires
            pre.wf(),
            0 <= rank < pre@.len(),
            Self::written(pre, post, rank, v),
        ensures
            post.wf(),
            post@ == pre@.update(rank, v),
            post.spec_tier_capacity() == pre.spec_tier_capacity(),
    {
        LinkedTieredVec::lemma_written(pre.inner, post.inner, rank, v);
    }

    /// A mutable reference to the element at rank `rank`, if there is one.
    pub fn get_mut_by_rank(&mut self, rank: usize) -> (r: Option<&mut T>)
        requires
            old(self).wf(),
        ensures
            rank >= old(self)@.len() ==> r.is_none() && *final(self) == *old(self),
            rank < old(self)@.len() ==> r.is_some() && *r.unwrap() == old(self)@[rank as int]
                && Self::written(*old(self), *final(self), rank as int, *final(r.unwrap())),
    {
        self.inner.get_mut(rank)
    }

    /// Inserts `elem` at rank `rank` (growing the capacity first when the
    /// vector is full) and returns the rank; a rank past the end hands the
    /// element back.
    pub fn insert(&mut self, rank: usize, elem: T) -> (r: Result<usize, TieredVectorError<T>>)
        requires
            old(self).wf(),
            old(self)@.len() < old(self).spec_capacity() || 4 * old(self).spec_capacity() <= usize::MAX,
        ensures
            final(self).wf(),
            rank > old(self)@.len() ==> r == Err::<usize, TieredVectorError<T>>(
                TieredVectorError::TieredVectorOutofBoundsInsertionError(rank, elem),
            ) && final(self)@ == old(self)@ && final(self).spec_tier_capacity() == old(self).spec_tier_capacity(),
            final(self)@ == apply_edit(old(self)@, Edit::Insert(rank, elem)),
            rank <= old(self)@.len() ==> r == Ok::<usize, TieredVectorError<T>>(rank)
                && final(self)@ == old(self)@.insert(rank as int, elem)
                && final(self).spec_tier_capacity() == if old(self)@.len() == old(self).spec_capacity() {
                    2 * old(self).spec_tier_capacity()
                } else {
                    old(self).spec_tier_capacity()
                },
    {
        if rank > self.inner.len() {
            return Err(TieredVectorError::TieredVectorOutofBoundsInsertionError(rank, elem));
        }
        self.inner.insert(rank, elem);
        Ok(rank)
    }

    /// Removes and returns the element at rank `rank` (shrinking the
    /// capacity first when the vector holds at most an eighth of it).
    pub fn remove(&mut self, rank: usize) -> (r: Result<T, TieredVectorError<T>>)
        requires
            old(self).wf(),
        ensures
            final(self).wf(),
            old(self)@.len() == 0 ==> r == Err::<T, TieredVectorError<T>>(TieredVectorError::TieredVectorEmptyError)
                && final(self)@ == old(self)@ && final(self).spec_tier_capacity() == old(self).spec_tier_capacity(),
            0 < old(self)@.len() <= rank ==> r == Err::<T, TieredVectorError<T>>(
                TieredVectorError::TieredVectorRankOutOfBoundsError(rank),
            ) && final(self)@ == old(self)@ && final(self).spec_tier_capacity() == old(self).spec_tier_capacity(),
            final(self)@ == apply_edit(old(self)@, Edit::Remove(rank)),
            rank < old(self)@.len() ==> r == Ok::<T, TieredVectorError<T>>(old(self)@[rank as int])
                && final(self)@ == old(self)@.remove(rank as int)
                && final(self).spec_tier_capacity() == if old(self).should_contract() {
                    old(self).spec_tier_capacity() / 2
                } else {
                    old(self).spec_tier_capacity()
                },
    {
        let len = self.inner.len();
        if len == 0 {
            return Err(TieredVectorError::TieredVectorEmptyError);
        }
        if rank >= len {
            return Err(TieredVectorError::TieredVectorRankOutOfBoundsError(rank));
        }
        Ok(self.inner.remove(rank))
    }
}

/// In every well-formed state the capacity is the square of the tier
/// capacity, the tier capacity is a power of two no smaller than 2, and
/// there are that many tiers of that many slots each.
pub proof fn lemma_capacity_is_square<T>(v: &TieredVec<T>)
    requires
        v.wf(),
    ensures
        v.spec_capacity() == v.spec_tier_capacity() * v.spec_tier_capacity(),
        is_power_of_two(v.spec_tier_capacity()),
        v.spec_tier_capacity() >= 2,
        v@.len() <= v.spec_capacity(),
        forall|i: int| 0 <= i < v.spec_tier_capacity() ==> #[trigger] v.spec_tier_slots(i) == v.spec_tier_capacity(),
{
    v.inner.lemma_wf();
    v.inner.lemma_packed();
}

/// In every well-formed state the tiers are packed front to back: the tiers
/// before the one holding the last element are full, those after it empty.
pub proof fn lemma_tiers_packed<T>(v: &TieredVec<T>)
    requires
        v.wf(),
    ensures
        forall|i: int| 0 <= i < v.spec_tier_capacity() ==> #[trigger] v.spec_tier_len(i) == packed_tier_len(
            v@.len() as int,
            v.spec_tier_capacity(),
            i,
        ),
        forall|i: int| 0 <= i < v.spec_tier_capacity() && (i + 1) * v.spec_tier_capacity() <= v@.len()
            ==> #[trigger] v.spec_tier_len(i) == v.spec_tier_capacity(),
        forall|i: int| 0 <= i < v.spec_tier_capacity() && i * v.spec_tier_capacity() >= v@.len()
            ==> #[trigger] v.spec_tier_len(i) == 0,
{
    v.inner.lemma_packed();
    assert forall|i: int| 0 <= i < v.spec_tier_capacity() && (i + 1) * v.spec_tier_capacity() <= v@.len()
        implies #[trigger] v.spec_tier_len(i) == v.spec_tier_capacity() by {
        let tc = v.spec_tier_capacity();
        assert((i + 1) * tc == i * tc + tc) by (nonlinear_arith);
    }
}

impl<T: Clone> Clone for TieredVec<T> {
    /// A vector with the same tier layout and a clone of every element.
    fn clone(&self) -> (r: Self)
        ensures
            self.wf() ==> r.wf(),
            self.wf() ==> r@.len() == self@.len() && r.spec_tier_capacity() == self.spec_tier_capacity(),
            self.wf() ==> forall|i: int| 0 <= i < self@.len() ==> cloned(#[trigger] self@[i], r@[i]),
    {
        TieredVec { inner: self.inner.clone() }
    }
}

/// One call of `insert` or `remove` on a tiered vector.
pub enum Edit<T> {
    Insert(usize, T),
    Remove(usize),
}

/// The list that `edit` leaves when applied to `s`, as `insert` and `remove`
/// state it: a refused edit (a rank past the end) leaves `s` as it is.
pub open spec fn apply_edit<T>(s: Seq<T>, edit: Edit<T>) -> Seq<T> {
    match edit {
        Edit::Insert(rank, elem) => if rank <= s.len() {
            s.insert(rank as int, elem)
        } else {
            s
        },
        Edit::Remove(rank) => if rank < s.len() {
            s.remove(rank as int)
        } else {
            s
        },
    }
}

/// The list that a run of edits leaves, applied in order from `s`.
pub open spec fn apply_edits<T>(s: Seq<T>, edits: Seq<Edit<T>>) -> Seq<T>
    decreases edits.len(),
{
    if edits.len() == 0 {
        s
    } else {
        apply_edits(apply_edit(s, edits[0]), edits.subrange(1, edits.len() as int))
    }
}

/// The successful insertions less the successful removals of a run of edits.
pub open spec fn net_growth<T>(s: Seq<T>, edits: Seq<Edit<T>>) -> int
    decreases edits.len(),
{
    if edits.len() == 0 {
        0
    } else {
        let step = match edits[0] {
            Edit::Insert(rank, _) => if rank <= s.len() {
                1int
            } else {
                0int
            },
            Edit::Remove(rank) => if rank < s.len() {
                -1int
            } else {
                0int
            },
        };
        step + net_growth(apply_edit(s, edits[0]), edits.subrange(1, edits.len() as int))
    }
}

/// After any run of edits, the length is the starting length plus the
/// number of successful insertions minus the number of successful removals.
pub proof fn lemma_len_counts_edits<T>(s: Seq<T>, edits: Seq<Edit<T>>)
    ensures
        apply_edits(s, edits).len() == s.len() + net_growth(s, edits),
    decreases edits.len(),
{
    if edits.len() > 0 {
        lemma_len_counts_edits(apply_edit(s, edits[0]), edits.subrange(1, edits.len() as int));
    }
}

/// Applying one more edit to the result of a run of edits is applying the
/// run extended by that edit: a vector that has followed the reference list
/// so far, and follows it for one more call, follows it for the whole run.
pub proof fn lemma_apply_edits_step<T>(s: Seq<T>, edits: Seq<Edit<T>>, edit: Edit<T>)
    ensures
        apply_edits(s, edits.push(edit)) == apply_edit(apply_edits(s, edits), edit),
    decreases edits.len(),
{
    let pushed = edits.push(edit);
    if edits.len() == 0 {
        assert(pushed.subrange(1, 1) =~= Seq::<Edit<T>>::empty());
        assert(pushed[0] == edit);
        assert(apply_edits(apply_edit(s, edit), Seq::<Edit<T>>::empty()) == apply_edit(s, edit));
    } else {
        let rest = edits.subrange(1, edits.len() as int);
        assert(pushed.subrange(1, edits.len() + 1 as int) =~= rest.push(edit));
        assert(pushed[0] == edits[0]);
        lemma_apply_edits_step(apply_edit(s, edits[0]), rest, edit);
    }
}

} // verus!
