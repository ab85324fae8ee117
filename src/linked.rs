//! The tiered vector engine: `tier_capacity` tiers of `tier_capacity` slots,
//! packed front to back.
use crate::pow2::{is_power_of_two, lemma_power_of_two_double, lemma_power_of_two_even};
use crate::tier::Tier;
use vstd::arithmetic::div_mod::{lemma_fundamental_div_mod, lemma_fundamental_div_mod_converse};
use vstd::prelude::*;

verus! {

/// The number of elements that tier `i` holds when `len` elements are packed
/// front to back into tiers of `tc` slots.
pub open spec fn packed_tier_len(len: int, tc: int, i: int) -> int {
    if len <= i * tc {
        0
    } else if len >= i * tc + tc {
        tc
    } else {
        len - i * tc
    }
}

/// `j` splits into its tier index and offset.
proof fn lemma_split_rank(j: int, tc: int)
    requires
        0 <= j,
        0 < tc,
    ensures
        j == (j / tc) * tc + j % tc,
        0 <= j % tc < tc,
        0 <= j / tc,
{
    lemma_fundamental_div_mod(j, tc);
    assert((j / tc) * tc == tc * (j / tc)) by (nonlinear_arith);
    vstd::arithmetic::div_mod::lemma_div_pos_is_pos(j, tc);
}

/// Tier index and offset determine the rank.
proof fn lemma_join_rank(i: int, m: int, tc: int)
    requires
        0 <= m < tc,
        0 < tc,
    ensures
        (i * tc + m) / tc == i,
        (i * tc + m) % tc == m,
{
    assert(i * tc + m == i * tc + m);
    lemma_fundamental_div_mod_converse(i * tc + m, tc, i, m);
}

/// Multiplying by a positive tier capacity keeps the order of tier indices.
proof fn lemma_mul_mono(a: int, b: int, tc: int)
    requires
        a <= b,
        tc > 0,
    ensures
        a * tc <= b * tc,
{
    assert(a * tc <= b * tc) by (nonlinear_arith)
        requires
            a <= b,
            tc > 0,
    ;
}

/// Splitting each tier of `tc` slots into two of `h = tc / 2` slots keeps
/// the packing: the first half takes what fits, the second the rest.
proof fn lemma_packed_split(n: int, tc: int, h: int, kk: int)
    requires
        tc == 2 * h,
        h >= 1,
        kk >= 0,
    ensures
        packed_tier_len(n, h, 2 * kk) == if packed_tier_len(n, tc, kk) < h {
            packed_tier_len(n, tc, kk)
        } else {
            h
        },
        packed_tier_len(n, h, 2 * kk + 1) == packed_tier_len(n, tc, kk) - (if packed_tier_len(n, tc, kk) < h {
            packed_tier_len(n, tc, kk)
        } else {
            h
        }),
{
    assert((2 * kk) * h == kk * tc) by (nonlinear_arith)
        requires
            tc == 2 * h,
    ;
    assert((2 * kk + 1) * h == kk * tc + h) by (nonlinear_arith)
        requires
            tc == 2 * h,
    ;
}

/// A later tier starts at or after the end of an earlier one.
proof fn lemma_tier_order(a: int, b: int, tc: int)
    requires
        a < b,
        tc > 0,
    ensures
        a * tc + tc <= b * tc,
{
    assert(a * tc + tc <= b * tc) by (nonlinear_arith)
        requires
            a < b,
            tc > 0,
    ;
}

/// The tier that holds rank `len` is the one whose range contains it.
proof fn lemma_rank_range(len: int, tc: int)
    requires
        0 <= len,
        0 < tc,
    ensures
        (len / tc) * tc <= len < (len / tc) * tc + tc,
        forall|i: int| i < len / tc ==> #[trigger] (i * tc) + tc <= len,
        forall|i: int| i > len / tc ==> #[trigger] (i * tc) > len,
{
    lemma_split_rank(len, tc);
    let q = len / tc;
    assert forall|i: int| i < q implies #[trigger] (i * tc) + tc <= len by {
        assert(i * tc + tc <= q * tc) by (nonlinear_arith)
            requires
                i < q,
                tc > 0,
        ;
    }
    assert forall|i: int| i > q implies #[trigger] (i * tc) > len by {
        assert(i * tc >= q * tc + tc) by (nonlinear_arith)
            requires
                i > q,
                tc > 0,
        ;
    }
}

/// The tier capacity chosen for a requested minimum capacity: the smallest
/// power of two, at least 2, whose square holds `minimum_capacity`.
pub open spec fn is_tier_capacity_for(tc: int, minimum_capacity: int) -> bool {
    &&& is_power_of_two(tc)
    &&& tc >= 2
    &&& tc * tc >= minimum_capacity
    &&& (tc == 2 || (tc / 2) * (tc / 2) < minimum_capacity)
}

/// Computes the tier capacity for a requested minimum capacity.
fn tier_capacity_for(minimum_capacity: usize) -> (r: usize)
    requires
        minimum_capacity <= usize::MAX / 4,
    ensures
        is_tier_capacity_for(r as int, minimum_capacity as int),
        r * r <= usize::MAX,
{
    let mut tc: usize = 2;
    proof {
        lemma_power_of_two_double(1);
    }
    while tc * tc < minimum_capacity
        invariant
            minimum_capacity <= usize::MAX / 4,
            is_power_of_two(tc as int),
            tc >= 2,
            tc == 2 || (tc / 2) * (tc / 2) < minimum_capacity,
            tc * tc <= 4 * minimum_capacity || tc == 2,
            tc * tc <= usize::MAX,
        decreases usize::MAX - tc,
    {
        proof {
            let t = tc as int;
            let m = minimum_capacity as int;
            assert(t * t < m);
            assert(2 * t <= t * t) by (nonlinear_arith)
                requires
                    t >= 2,
            ;
            assert((2 * t) * (2 * t) == 4 * (t * t)) by (nonlinear_arith);
            assert(4 * m <= usize::MAX);
            assert((2 * t) / 2 == t);
            lemma_power_of_two_double(t);
        }
        tc = tc * 2;
    }
    proof {
        let t = tc as int;
        if t != 2 {
            lemma_power_of_two_even(t);
            assert(t * t == 4 * ((t / 2) * (t / 2))) by (nonlinear_arith)
                requires
                    t % 2 == 0,
            ;
        }
    }
    tc
}

/// A ranked sequence stored in a square of ring-buffer tiers.
///
/// All tiers have `tier_capacity` slots and there are `tier_capacity` of
/// them, so the capacity is `tier_capacity²` and the element at rank `r`
/// lives in tier `r / tier_capacity`. Tiers are packed: every tier before
/// the one holding the last element is full, every tier after it is empty.
pub struct LinkedTieredVec<T> {
    tiers: Vec<Tier<T>>,
    len: usize,
}

impl<T> View for LinkedTieredVec<T> {
    type V = Seq<T>;

    /// The elements, in rank order.
    closed spec fn view(&self) -> Seq<T> {
        Seq::new(
            self.len as nat,
            |r: int| self.tiers@[r / self.spec_tier_capacity()]@[r % self.spec_tier_capacity()],
        )
    }
}

impl<T> LinkedTieredVec<T> {
    pub closed spec fn spec_tier_capacity(&self) -> int {
        self.tiers@.len() as int
    }

    pub open spec fn spec_capacity(&self) -> int {
        self.spec_tier_capacity() * self.spec_tier_capacity()
    }

    /// The structure is well formed: a power-of-two tier capacity of at
    /// least 2, a capacity that fits in `usize`, and tiers that are packed.
    pub closed spec fn wf(&self) -> bool {
        let tc = self.spec_tier_capacity();
        &&& tc >= 2
        &&& is_power_of_two(tc)
        &&& tc * tc <= usize::MAX
        &&& self.len <= tc * tc
        &&& forall|i: int| 0 <= i < tc ==> {
            &&& (#[trigger] self.tiers@[i]).wf()
            &&& self.tiers@[i].spec_capacity() == tc
            &&& self.tiers@[i]@.len() == packed_tier_len(self.len as int, tc, i)
        }
    }

    /// The number of elements that tier `i` holds.
    pub closed spec fn spec_tier_len(&self, i: int) -> int {
        self.tiers@[i]@.len() as int
    }

    /// The number of slots of tier `i`.
    pub closed spec fn spec_tier_slots(&self, i: int) -> int {
        self.tiers@[i].spec_capacity()
    }

    /// Every tier has `tier_capacity` slots and holds exactly its share of
    /// the packed elements.
    pub proof fn lemma_packed(&self)
        requires
            self.wf(),
        ensures
            forall|i: int| 0 <= i < self.spec_tier_capacity() ==> #[trigger] self.spec_tier_slots(i)
                == self.spec_tier_capacity(),
            forall|i: int| 0 <= i < self.spec_tier_capacity() ==> #[trigger] self.spec_tier_len(i)
                == packed_tier_len(self@.len() as int, self.spec_tier_capacity(), i),
    {
        assert forall|i: int| 0 <= i < self.spec_tier_capacity() implies #[trigger] self.spec_tier_len(i)
            == packed_tier_len(self@.len() as int, self.spec_tier_capacity(), i) by {
            assert(self.tiers@[i]@.len() == packed_tier_len(self.len as int, self.spec_tier_capacity(), i));
        }
    }

    /// Facts that follow from well-formedness.
    pub proof fn lemma_wf(&self)
        requires
            self.wf(),
        ensures
            self@.len() <= self.spec_capacity() <= usize::MAX,
            self.spec_tier_capacity() >= 2,
            is_power_of_two(self.spec_tier_capacity()),
    {
    }

    /// The tier holding rank `r` holds it at offset `r mod tier_capacity`.
    proof fn lemma_view_index(&self, r: int)
        requires
            self.wf(),
            0 <= r < self.len,
        ensures
            0 <= r / self.spec_tier_capacity() < self.spec_tier_capacity(),
            0 <= r % self.spec_tier_capacity() < self.tiers@[r / self.spec_tier_capacity()]@.len(),
            self@[r] == self.tiers@[r / self.spec_tier_capacity()]@[r % self.spec_tier_capacity()],
    {
        let tc = self.spec_tier_capacity();
        lemma_split_rank(r, tc);
        let i = r / tc;
        let m = r % tc;
        if i >= tc {
            assert(i * tc >= tc * tc) by (nonlinear_arith)
                requires
                    i >= tc,
                    tc > 0,
            ;
        }
        assert(self.tiers@[i]@.len() == packed_tier_len(self.len as int, tc, i));
    }

    /// Creates an empty vector of `tier_capacity` tiers with
    /// `tier_capacity` slots each.
    pub fn new(tier_capacity: usize) -> (r: Self)
        requires
            is_power_of_two(tier_capacity as int),
            tier_capacity >= 2,
            tier_capacity * tier_capacity <= usize::MAX,
        ensures
            r.wf(),
            r@ == Seq::<T>::empty(),
            r.spec_tier_capacity() == tier_capacity,
    {
        let mut tiers: Vec<Tier<T>> = Vec::with_capacity(tier_capacity);
        let mut i: usize = 0;
        while i < tier_capacity
            invariant
                i <= tier_capacity,
                is_power_of_two(tier_capacity as int),
                tiers@.len() == i,
                forall|k: int| 0 <= k < i ==> {
                    &&& (#[trigger] tiers@[k]).wf()
                    &&& tiers@[k].spec_capacity() == tier_capacity
                    &&& tiers@[k]@.len() == 0
                },
            decreases tier_capacity - i,
        {
            tiers.push(Tier::new(tier_capacity));
            i = i + 1;
        }
        let r = Self { tiers, len: 0 };
        proof {
            assert(r@ =~= Seq::<T>::empty());
        }
        r
    }

    /// Creates an empty vector whose capacity is the smallest square of a
    /// power of two that holds `minimum_capacity` elements.
    pub fn with_capacity(minimum_capacity: usize) -> (r: Self)
        requires
            minimum_capacity >= 4,
            minimum_capacity <= usize::MAX / 4,
        ensures
            r.wf(),
            r@ == Seq::<T>::empty(),
            is_tier_capacity_for(r.spec_tier_capacity(), minimum_capacity as int),
    {
        Self::new(tier_capacity_for(minimum_capacity))
    }

    /// The number of slots in each tier, which is also the number of tiers.
    pub fn tier_capacity(&self) -> (r: usize)
        ensures
            r == self.spec_tier_capacity(),
    {
        self.tiers.len()
    }

    pub fn capacity(&self) -> (r: usize)
        requires
            self.wf(),
        ensures
            r == self.spec_capacity(),
    {
        self.tiers.len() * self.tiers.len()
    }

    pub fn len(&self) -> (r: usize)
        requires
            self.wf(),
        ensures
            r == self@.len(),
    {
        self.len
    }

    pub fn is_empty(&self) -> (r: bool)
        requires
            self.wf(),
        ensures
            r == (self@.len() == 0),
    {
        self.len == 0
    }

    pub fn is_full(&self) -> (r: bool)
        requires
            self.wf(),
        ensures
            r == (self@.len() == self.spec_capacity()),
    {
        self.len == self.capacity()
    }

    /// The tier that holds rank `rank`.
    fn tier_index(&self, rank: usize) -> (r: usize)
        requires
            self.wf(),
        ensures
            r == rank as int / self.spec_tier_capacity(),
    {
        rank / self.tiers.len()
    }

    /// The element at rank `rank`, if there is one.
    pub fn get(&self, rank: usize) -> (r: Option<&T>)
        requires
            self.wf(),
        ensures
            r == (if rank < self@.len() {
                Some(&self@[rank as int])
            } else {
                None
            }),
    {
        if rank >= self.len {
            return None;
        }
        proof {
            self.lemma_view_index(rank as int);
        }
        let tier_index = self.tier_index(rank);
        self.tiers[tier_index].get_by_rank(rank % self.tiers.len())
    }

    /// `post` is `pre` with the element at `rank` replaced by `v`, written
    /// in place in its tier.
    pub closed spec fn written(pre: Self, post: Self, rank: int, v: T) -> bool {
        let tc = pre.spec_tier_capacity();
        &&& post.len == pre.len
        &&& post.tiers@.len() == pre.tiers@.len()
        &&& forall|i: int| 0 <= i < tc && i != rank / tc ==> #[trigger] post.tiers@[i] == pre.tiers@[i]
        &&& Tier::written(pre.tiers@[rank / tc], post.tiers@[rank / tc], rank % tc, v)
    }

    /// Writing one element in place keeps the vector well formed and
    /// changes only that element.
    pub proof fn lemma_written(pre: Self, post: Self, rank: int, v: T)
        requires
            pre.wf(),
            0 <= rank < pre@.len(),
            Self::written(pre, post, rank, v),
        ensures
            post.wf(),
            post@ == pre@.update(rank, v),
            post.spec_tier_capacity() == pre.spec_tier_capacity(),
    {
        let tc = pre.spec_tier_capacity();
        pre.lemma_view_index(rank);
        let ti = rank / tc;
        Tier::lemma_written(pre.tiers@[ti], post.tiers@[ti], rank % tc, v);
        assert forall|i: int| 0 <= i < tc implies {
            &&& (#[trigger] post.tiers@[i]).wf()
            &&& post.tiers@[i].spec_capacity() == tc
            &&& post.tiers@[i]@.len() == packed_tier_len(post.len as int, tc, i)
        } by {
            if i != ti {
                assert(post.tiers@[i] == pre.tiers@[i]);
            }
        }
        assert(post.wf());
        assert forall|j: int| 0 <= j < post.len implies #[trigger] post@[j] == pre@.update(rank, v)[j] by {
            pre.lemma_view_index(j);
            post.lemma_view_index(j);
            if j / tc != ti {
                assert(post.tiers@[j / tc] == pre.tiers@[j / tc]);
            } else if j != rank {
                lemma_split_rank(j, tc);
                lemma_split_rank(rank, tc);
            }
        }
        assert(post@ =~= pre@.update(rank, v));
    }

    /// A mutable reference to the element at `rank`, if there is one; the
    /// vector after a write through it is described by `written`.
    pub fn get_mut(&mut self, rank: usize) -> (r: Option<&mut T>)
        requires
            old(self).wf(),
        ensures
            rank >= old(self)@.len() ==> r.is_none() && *final(self) == *old(self),
            rank < old(self)@.len() ==> r.is_some() && *r.unwrap() == old(self)@[rank as int]
                && Self::written(*old(self), *final(self), rank as int, *final(r.unwrap())),
    {
        if rank >= self.len {
            return None;
        }
        proof {
            self.lemma_view_index(rank as int);
        }
        let tc = self.tiers.len();
        let tier_index = rank / tc;
        self.tiers[tier_index].get_by_rank_mut(rank % tc)
    }

    /// Appends `elem` after the last element when there is room.
    fn push_with_room(&mut self, elem: T)
        requires
            old(self).wf(),
            old(self)@.len() < old(self).spec_capacity(),
        ensures
            final(self).wf(),
            final(self)@ == old(self)@.push(elem),
            final(self).spec_tier_capacity() == old(self).spec_tier_capacity(),
    {
        let tc = self.tiers.len();
        let ti = self.len / tc;
        proof {
            lemma_rank_range(self.len as int, tc as int);
            if ti >= tc {
                lemma_mul_mono(tc as int, ti as int, tc as int);
            }
            assert(ti < tc);
            assert(ti as int == self.len as int / tc as int);
            assert(self.tiers@[ti as int]@.len() == packed_tier_len(self.len as int, tc as int, ti as int));
            assert(packed_tier_len(self.len as int, tc as int, ti as int) < tc);
            self.tiers@[ti as int].lemma_view_len();
            assert(self.tiers@[ti as int].spec_len() < tc);
            assert(self.tiers@[ti as int].spec_capacity() == tc);
        }
        self.tiers[ti].push_back(elem);
        self.len = self.len + 1;
        proof {
            let pre = old(self);
            let n = pre.len as int;
            let tcc = tc as int;
            assert forall|i: int| 0 <= i < tcc implies {
                &&& (#[trigger] self.tiers@[i]).wf()
                &&& self.tiers@[i].spec_capacity() == tcc
                &&& self.tiers@[i]@.len() == packed_tier_len(self.len as int, tcc, i)
            } by {
                assert(pre.tiers@[i]@.len() == packed_tier_len(n, tcc, i));
                if i != ti {
                    assert(self.tiers@[i] == pre.tiers@[i]);
                }
                if i < ti {
                    assert(i * tcc + tcc <= n);
                } else if i > ti {
                    assert(i * tcc > n);
                }
            }
            assert forall|j: int| 0 <= j < self.len implies #[trigger] self@[j] == pre@.push(elem)[j] by {
                self.lemma_view_index(j);
                lemma_split_rank(j, tcc);
                if j < n {
                    pre.lemma_view_index(j);
                } else {
                    lemma_join_rank(ti as int, j - ti * tcc, tcc);
                }
            }
            assert(self@ =~= pre@.push(elem));
        }
    }

    /// Removes and returns the last element.
    pub fn pop(&mut self) -> (r: T)
        requires
            old(self).wf(),
            old(self)@.len() > 0,
        ensures
            final(self).wf(),
            r == old(self)@.last(),
            final(self)@ == old(self)@.drop_last(),
            final(self).spec_tier_capacity() == old(self).spec_tier_capacity(),
    {
        let tc = self.tiers.len();
        let ti = (self.len - 1) / tc;
        proof {
            self.lemma_view_index(self.len - 1);
            lemma_rank_range(self.len - 1, tc as int);
            lemma_split_rank(self.len - 1, tc as int);
            assert(self.tiers@[ti as int]@.len() == packed_tier_len(self.len as int, tc as int, ti as int));
            self.tiers@[ti as int].lemma_view_len();
        }
        let r = self.tiers[ti].pop_back();
        self.len = self.len - 1;
        proof {
            let pre = old(self);
            let n = pre.len as int;
            let tcc = tc as int;
            assert forall|i: int| 0 <= i < tcc implies {
                &&& (#[trigger] self.tiers@[i]).wf()
                &&& self.tiers@[i].spec_capacity() == tcc
                &&& self.tiers@[i]@.len() == packed_tier_len(self.len as int, tcc, i)
            } by {
                assert(pre.tiers@[i]@.len() == packed_tier_len(n, tcc, i));
                if i != ti {
                    assert(self.tiers@[i] == pre.tiers@[i]);
                }
                if i < ti {
                    assert(i * tcc + tcc <= n - 1);
                } else if i > ti {
                    assert(i * tcc > n - 1);
                }
            }
            assert forall|j: int| 0 <= j < self.len implies #[trigger] self@[j] == pre@.drop_last()[j] by {
                self.lemma_view_index(j);
                pre.lemma_view_index(j);
            }
            assert(self@ =~= pre@.drop_last());
        }
        r
    }

    /// `self@[j]` read through the tier layout of `old`, for a rank just below
    /// a tier boundary or inside a tier.
    proof fn lemma_prev_rank(&self, j: int)
        requires
            self.wf(),
            0 < j <= self.len,
        ensures
            j % self.spec_tier_capacity() > 0 ==> self@[j - 1]
                == self.tiers@[j / self.spec_tier_capacity()]@[j % self.spec_tier_capacity() - 1],
            j % self.spec_tier_capacity() == 0 ==> self@[j - 1]
                == self.tiers@[j / self.spec_tier_capacity() - 1]@[self.spec_tier_capacity() - 1],
    {
        let tc = self.spec_tier_capacity();
        lemma_split_rank(j, tc);
        let i = j / tc;
        let m = j % tc;
        self.lemma_view_index(j - 1);
        if m > 0 {
            lemma_join_rank(i, m - 1, tc);
        } else {
            assert(j - 1 == (i - 1) * tc + (tc - 1)) by (nonlinear_arith)
                requires
                    j == i * tc + m,
                    m == 0,
            ;
            lemma_join_rank(i - 1, tc - 1, tc);
        }
    }

    /// Inserts `elem` at rank `index` when there is a free slot somewhere.
    fn insert_with_room(&mut self, index: usize, elem: T)
        requires
            old(self).wf(),
            index <= old(self)@.len(),
            old(self)@.len() < old(self).spec_capacity(),
        ensures
            final(self).wf(),
            final(self)@ == old(self)@.insert(index as int, elem),
            final(self).spec_tier_capacity() == old(self).spec_tier_capacity(),
    {
        let tc = self.tiers.len();
        let ti = index / tc;
        let local = index % tc;
        let ghost n = self.len as int;
        let ghost tcc = tc as int;
        proof {
            lemma_rank_range(index as int, tcc);
            lemma_split_rank(index as int, tcc);
            lemma_rank_range(n, tcc);
            if ti >= tc {
                lemma_mul_mono(tcc, ti as int, tcc);
            }
            assert(self.tiers@[ti as int]@.len() == packed_tier_len(n, tcc, ti as int));
            self.tiers@[ti as int].lemma_view_len();
        }
        if !self.tiers[ti].is_full() {
            self.tiers[ti].insert(local, elem);
            self.len = self.len + 1;
            proof {
                let pre = old(self);
                // the tier that received the element is the last non-empty one
                assert(n < ti * tcc + tcc);
                assert forall|k: int| 0 <= k < tcc implies {
                    &&& (#[trigger] self.tiers@[k]).wf()
                    &&& self.tiers@[k].spec_capacity() == tcc
                    &&& self.tiers@[k]@.len() == packed_tier_len(self.len as int, tcc, k)
                } by {
                    assert(pre.tiers@[k]@.len() == packed_tier_len(n, tcc, k));
                    if k != ti {
                        assert(self.tiers@[k] == pre.tiers@[k]);
                    }
                    if k < ti {
                        assert(k * tcc + tcc <= index);
                    } else if k > ti {
                        assert(k * tcc >= ti * tcc + tcc) by (nonlinear_arith)
                            requires
                                k > ti,
                                tcc > 0,
                        ;
                    }
                }
                assert forall|j: int| 0 <= j < self.len implies #[trigger] self@[j] == pre@.insert(index as int, elem)[j] by {
                    self.lemma_view_index(j);
                    lemma_split_rank(j, tcc);
                    let q = j / tcc;
                    if j < index {
                        pre.lemma_view_index(j);
                        if q > ti {
                            lemma_mul_mono(ti as int + 1, q, tcc);
                        }
                    } else if j > index {
                        pre.lemma_prev_rank(j);
                        if q < ti {
                            lemma_mul_mono(q + 1, ti as int, tcc);
                        }
                        if q > ti {
                            lemma_mul_mono(ti as int + 1, q, tcc);
                        }
                        assert(q == ti);
                    } else {
                        lemma_join_rank(ti as int, local as int, tcc);
                    }
                }
                assert(self@ =~= pre@.insert(index as int, elem));
            }
        } else {
            self.insert_cascade(index, elem);
        }
    }

    /// Inserts `elem` at rank `index` when the tier of `index` is full: each
    /// full tier from there on hands its last element to the front of the
    /// next one, and the last non-empty tier takes the final one.
    #[verifier::rlimit(60)]
    fn insert_cascade(&mut self, index: usize, elem: T)
        requires
            old(self).wf(),
            index <= old(self)@.len(),
            old(self)@.len() < old(self).spec_capacity(),
            old(self).tiers@[index as int / old(self).spec_tier_capacity()]@.len() == old(self).spec_tier_capacity(),
        ensures
            final(self).wf(),
            final(self)@ == old(self)@.insert(index as int, elem),
            final(self).spec_tier_capacity() == old(self).spec_tier_capacity(),
    {
        let tc = self.tiers.len();
        let ti = index / tc;
        let local = index % tc;
        let ghost n = self.len as int;
        let ghost tcc = tc as int;
        proof {
            lemma_rank_range(index as int, tcc);
            lemma_split_rank(index as int, tcc);
            if ti >= tc {
                lemma_mul_mono(tcc, ti as int, tcc);
            }
            assert(self.tiers@[ti as int]@.len() == packed_tier_len(n, tcc, ti as int));
            self.tiers@[ti as int].lemma_view_len();
        }
        let last = self.len / tc;
        proof {
            lemma_rank_range(n, tcc);
            assert(n >= ti * tcc + tcc);
            assert(last > ti) by {
                if last <= ti {
                    lemma_mul_mono(last as int, ti as int, tcc);
                }
            }
            if last >= tc {
                lemma_mul_mono(tcc, last as int, tcc);
            }
        }
        let mut carry = self.tiers[ti].pop_back();
        proof {
            self.tiers@[ti as int].lemma_view_len();
        }
        self.tiers[ti].insert(local, elem);
        let mut i: usize = ti + 1;
        while i < last
            invariant
                old(self).wf(),
                tc == old(self).spec_tier_capacity(),
                tcc == tc,
                n == old(self).len,
                self.len == old(self).len,
                self.tiers@.len() == tc,
                ti < i <= last < tc,
                last as int == n / tcc,
                n >= ti * tcc + tcc,
                local < tc,
                carry == old(self).tiers@[i - 1]@.last(),
                forall|k: int| 0 <= k < tc && (k < ti || k >= i) ==> #[trigger] self.tiers@[k] == old(self).tiers@[k],
                self.tiers@[ti as int].wf(),
                self.tiers@[ti as int].spec_capacity() == tc,
                self.tiers@[ti as int]@ == old(self).tiers@[ti as int]@.drop_last().insert(local as int, elem),
                forall|k: int| ti < k < i ==> {
                    &&& (#[trigger] self.tiers@[k]).wf()
                    &&& self.tiers@[k].spec_capacity() == tc
                    &&& self.tiers@[k]@ == seq![old(self).tiers@[k - 1]@.last()] + old(self).tiers@[k]@.drop_last()
                },
            decreases last - i,
        {
            proof {
                lemma_rank_range(n, tcc);
                assert(old(self).tiers@[i as int]@.len() == packed_tier_len(n, tcc, i as int));
                old(self).tiers@[i as int].lemma_view_len();
            }
            let ghost before = self.tiers@;
            carry = self.tiers[i].pop_push_front(carry);
            proof {
                assert forall|k: int| 0 <= k < tc && k != i implies #[trigger] self.tiers@[k] == before[k] by {}
            }
            i = i + 1;
        }
        proof {
            lemma_rank_range(n, tcc);
            assert(old(self).tiers@[last as int]@.len() == packed_tier_len(n, tcc, last as int));
            old(self).tiers@[last as int].lemma_view_len();
        }
        let ghost before = self.tiers@;
        self.tiers[last].push_front(carry);
        self.len = self.len + 1;
        proof {
            let pre = old(self);
            assert forall|k: int| 0 <= k < tc && k != last implies #[trigger] self.tiers@[k] == before[k] by {}
            assert(pre.tiers@[ti as int]@.len() == tcc);
            old(self).tiers@[ti as int].lemma_view_len();
            assert forall|k: int| 0 <= k < tcc implies {
                &&& (#[trigger] self.tiers@[k]).wf()
                &&& self.tiers@[k].spec_capacity() == tcc
                &&& self.tiers@[k]@.len() == packed_tier_len(self.len as int, tcc, k)
            } by {
                assert(pre.tiers@[k]@.len() == packed_tier_len(n, tcc, k));
                if k < last {
                    assert(k * tcc + tcc <= n);
                } else if k > last {
                    assert(k * tcc > n);
                }
                if ti < k <= last {
                    assert(pre.tiers@[k - 1]@.len() == packed_tier_len(n, tcc, k - 1));
                    assert((k - 1) * tcc + tcc <= n) by {
                        assert((k - 1) * tcc + tcc == k * tcc) by (nonlinear_arith);
                    }
                }
            }
            assert forall|j: int| 0 <= j < self.len implies #[trigger] self@[j] == pre@.insert(index as int, elem)[j] by {
                self.lemma_view_index(j);
                lemma_split_rank(j, tcc);
                let q = j / tcc;
                if j < index {
                    pre.lemma_view_index(j);
                    if q > ti {
                        lemma_mul_mono(ti as int + 1, q, tcc);
                    }
                } else if j > index {
                    pre.lemma_prev_rank(j);
                    if q < ti {
                        lemma_mul_mono(q + 1, ti as int, tcc);
                    }
                    if q > ti {
                        assert(pre.tiers@[q - 1]@.len() == packed_tier_len(n, tcc, q - 1));
                        assert((q - 1) * tcc + tcc <= n) by {
                            assert((q - 1) * tcc + tcc == q * tcc) by (nonlinear_arith);
                            if q - 1 >= last {
                                lemma_mul_mono(last as int + 1, q, tcc);
                            }
                        }
                    }
                } else {
                    lemma_join_rank(ti as int, local as int, tcc);
                }
            }
            assert(self@ =~= pre@.insert(index as int, elem));
        }
    }

    /// Doubles the tier capacity of a full vector: tiers `2i` and `2i + 1`
    /// merge into tier `i`, and empty tiers fill the count back up.
    fn expand(&mut self)
        requires
            old(self).wf(),
            old(self)@.len() == old(self).spec_capacity(),
            4 * old(self).spec_capacity() <= usize::MAX,
        ensures
            final(self).wf(),
            final(self)@ == old(self)@,
            final(self).spec_tier_capacity() == 2 * old(self).spec_tier_capacity(),
    {
        let tc = self.tiers.len();
        let ghost tcc = tc as int;
        proof {
            assert(2 * tcc <= tcc * tcc) by (nonlinear_arith)
                requires
                    tcc >= 2,
            ;
        }
        let new_tc = tc * 2;
        proof {
            lemma_power_of_two_even(tcc);
            lemma_power_of_two_double(tcc);
            assert(forall|k: int| 0 <= k < tcc ==> #[trigger] packed_tier_len(tcc * tcc, tcc, k) == tcc) by {
                assert forall|k: int| 0 <= k < tcc implies #[trigger] packed_tier_len(tcc * tcc, tcc, k) == tcc by {
                    lemma_mul_mono(k + 1, tcc, tcc);
                    assert((k + 1) * tcc == k * tcc + tcc) by (nonlinear_arith);
                }
            }
        }
        let mut i: usize = 0;
        while i < tc / 2
            invariant
                old(self).wf(),
                tc == old(self).spec_tier_capacity(),
                tcc == tc,
                tc % 2 == 0,
                2 * tcc <= usize::MAX,
                old(self).len == tcc * tcc,
                forall|k: int| 0 <= k < tcc ==> #[trigger] packed_tier_len(tcc * tcc, tcc, k) == tcc,
                self.len == old(self).len,
                i <= tc / 2,
                self.tiers@.len() == tc - i,
                forall|k: int| 0 <= k < i ==> {
                    &&& (#[trigger] self.tiers@[k]).wf()
                    &&& self.tiers@[k].spec_capacity() == 2 * tc
                    &&& self.tiers@[k]@ == old(self).tiers@[2 * k]@ + old(self).tiers@[2 * k + 1]@
                },
                forall|k: int| i <= k < tc - i ==> #[trigger] self.tiers@[k] == old(self).tiers@[k + i],
            decreases tc / 2 - i,
        {
            let ghost before = self.tiers@;
            let second = self.tiers.remove(i + 1);
            proof {
                assert(self.tiers@[i as int] == old(self).tiers@[2 * i]);
                assert(second == old(self).tiers@[2 * i + 1]);
                assert(old(self).tiers@[2 * i]@.len() == packed_tier_len(tcc * tcc, tcc, 2 * i));
            }
            self.tiers[i].merge(second);
            proof {
                assert forall|k: int| i + 1 <= k < tc - (i + 1) implies #[trigger] self.tiers@[k] == old(self).tiers@[k + i + 1] by {
                    assert(self.tiers@[k] == before[k + 1]);
                }
                assert forall|k: int| 0 <= k < i implies #[trigger] self.tiers@[k] == before[k] by {}
            }
            i = i + 1;
        }
        let mut count: usize = tc / 2;
        while count < new_tc
            invariant
                old(self).wf(),
                tc == old(self).spec_tier_capacity(),
                tcc == tc,
                new_tc == 2 * tc,
                is_power_of_two(new_tc as int),
                tc / 2 <= count <= new_tc,
                self.len == old(self).len,
                self.tiers@.len() == count,
                forall|k: int| 0 <= k < tc / 2 ==> {
                    &&& (#[trigger] self.tiers@[k]).wf()
                    &&& self.tiers@[k].spec_capacity() == 2 * tc
                    &&& self.tiers@[k]@ == old(self).tiers@[2 * k]@ + old(self).tiers@[2 * k + 1]@
                },
                forall|k: int| tc / 2 <= k < count ==> {
                    &&& (#[trigger] self.tiers@[k]).wf()
                    &&& self.tiers@[k].spec_capacity() == 2 * tc
                    &&& self.tiers@[k]@.len() == 0
                },
            decreases new_tc - count,
        {
            self.tiers.push(Tier::new(new_tc));
            count = count + 1;
        }
        proof {
            let pre = old(self);
            let nt = 2 * tcc;
            let n = tcc * tcc;
            assert(nt * nt == 4 * (tcc * tcc)) by (nonlinear_arith)
                requires
                    nt == 2 * tcc,
            ;
            assert forall|k: int| 0 <= k < nt implies {
                &&& (#[trigger] self.tiers@[k]).wf()
                &&& self.tiers@[k].spec_capacity() == nt
                &&& self.tiers@[k]@.len() == packed_tier_len(self.len as int, nt, k)
            } by {
                if k < tcc / 2 {
                    assert(pre.tiers@[2 * k]@.len() == packed_tier_len(n, tcc, 2 * k));
                    assert(pre.tiers@[2 * k + 1]@.len() == packed_tier_len(n, tcc, 2 * k + 1));
                    lemma_mul_mono(2 * k + 2, tcc, tcc);
                    assert(k * nt + nt == (2 * k + 2) * tcc) by (nonlinear_arith)
                        requires
                            nt == 2 * tcc,
                    ;
                } else {
                    assert(k * nt >= n) by (nonlinear_arith)
                        requires
                            nt == 2 * tcc,
                            n == tcc * tcc,
                            2 * k >= tcc,
                            tcc > 0,
                    ;
                }
            }
            assert forall|j: int| 0 <= j < self.len implies #[trigger] self@[j] == pre@[j] by {
                self.lemma_view_index(j);
                pre.lemma_view_index(j);
                lemma_split_rank(j, nt);
                let q = j / nt;
                let m = j % nt;
                assert(pre.tiers@[2 * q]@.len() == packed_tier_len(n, tcc, 2 * q));
                assert(j == (2 * q) * tcc + m) by (nonlinear_arith)
                    requires
                        j == q * nt + m,
                        nt == 2 * tcc,
                ;
                if m < tcc {
                    lemma_join_rank(2 * q, m, tcc);
                } else {
                    assert(j == (2 * q + 1) * tcc + (m - tcc)) by (nonlinear_arith)
                        requires
                            j == (2 * q) * tcc + m,
                    ;
                    lemma_join_rank(2 * q + 1, m - tcc, tcc);
                }
            }
            assert(self@ =~= pre@);
        }
    }

    /// Whether a removal from this vector first halves its tier capacity:
    /// only well below the expansion threshold, and never below 2.
    pub open spec fn should_contract(&self) -> bool {
        self.spec_tier_capacity() >= 4 && self@.len() <= self.spec_capacity() / 8
    }

    /// Halves the tier capacity when the vector holds at most an eighth of
    /// its capacity: the empty upper tiers go, and each remaining tier
    /// splits into two of half the capacity.
    #[verifier::rlimit(60)]
    fn try_contract(&mut self)
        requires
            old(self).wf(),
        ensures
            final(self).wf(),
            final(self)@ == old(self)@,
            final(self).spec_tier_capacity() == if old(self).should_contract() {
                old(self).spec_tier_capacity() / 2
            } else {
                old(self).spec_tier_capacity()
            },
    {
        let tc = self.tiers.len();
        if tc < 4 || self.len > tc * tc / 8 {
            return;
        }
        let quarter = tc / 4;
        let ghost tcc = tc as int;
        let ghost n = self.len as int;
        let ghost h = tcc / 2;
        proof {
            lemma_power_of_two_even(tcc);
            lemma_power_of_two_even(h);
            assert(tcc == 4 * quarter);
            assert(forall|k: int| quarter <= k < tcc ==> #[trigger] packed_tier_len(n, tcc, k) == 0) by {
                assert forall|k: int| quarter <= k < tcc implies #[trigger] packed_tier_len(n, tcc, k) == 0 by {
                    assert(n <= k * tcc) by (nonlinear_arith)
                        requires
                            n <= tcc * tcc / 8,
                            tcc == 4 * quarter,
                            k >= quarter,
                            quarter >= 1,
                    ;
                }
            }
        }
        let _dropped = self.tiers.split_off(quarter);
        let mut i: usize = 0;
        while i < quarter
            invariant
                old(self).wf(),
                tc == old(self).spec_tier_capacity(),
                tcc == tc,
                tcc == 4 * quarter,
                h == tcc / 2,
                is_power_of_two(h),
                h >= 2,
                n == old(self).len,
                self.len == old(self).len,
                i <= quarter,
                self.tiers@.len() == quarter + i,
                forall|k: int| 0 <= k < i ==> {
                    &&& (#[trigger] self.tiers@[2 * k]).wf()
                    &&& self.tiers@[2 * k].spec_capacity() == h
                    &&& self.tiers@[2 * k]@ == old(self).tiers@[k]@.subrange(0, old(self).tiers@[k].split_point())
                    &&& self.tiers@[2 * k + 1].wf()
                    &&& self.tiers@[2 * k + 1].spec_capacity() == h
                    &&& self.tiers@[2 * k + 1]@ == old(self).tiers@[k]@.subrange(
                        old(self).tiers@[k].split_point(),
                        old(self).tiers@[k]@.len() as int,
                    )
                },
                forall|k: int| i <= k < quarter ==> #[trigger] self.tiers@[i + k] == old(self).tiers@[k],
            decreases quarter - i,
        {
            let ghost before = self.tiers@;
            proof {
                assert(self.tiers@[i + i] == old(self).tiers@[i as int]);
                assert(i + i == 2 * i);
            }
            let upper = self.tiers[2 * i].split_half();
            self.tiers.insert(2 * i + 1, upper);
            proof {
                assert forall|k: int| 0 <= k < i implies #[trigger] self.tiers@[2 * k] == before[2 * k]
                    && self.tiers@[2 * k + 1] == before[2 * k + 1] by {}
                assert forall|k: int| i + 1 <= k < quarter implies #[trigger] self.tiers@[i + 1 + k] == old(self).tiers@[k] by {
                    assert(self.tiers@[i + 1 + k] == before[i + k]);
                }
            }
            i = i + 1;
        }
        proof {
            let pre = old(self);
            assert forall|k: int| 0 <= k < h implies {
                &&& (#[trigger] self.tiers@[k]).wf()
                &&& self.tiers@[k].spec_capacity() == h
                &&& self.tiers@[k]@.len() == packed_tier_len(n, h, k)
            } by {
                let kk = k / 2;
                lemma_split_rank(k, 2);
                assert(pre.tiers@[kk]@.len() == packed_tier_len(n, tcc, kk));
                pre.tiers@[kk].lemma_view_len();
                lemma_packed_split(n, tcc, h, kk);
                assert(kk < quarter);
                let old_tier = pre.tiers@[kk];
                assert(old_tier.spec_capacity() == tcc);
                assert(old_tier.split_point() == if packed_tier_len(n, tcc, kk) < h {
                    packed_tier_len(n, tcc, kk)
                } else {
                    h
                });
                assert(self.tiers@[2 * kk].wf());
                assert(self.tiers@[2 * kk]@ == old_tier@.subrange(0, old_tier.split_point()));
                assert(self.tiers@[2 * kk + 1]@ == old_tier@.subrange(old_tier.split_point(), old_tier@.len() as int));
                if k % 2 == 0 {
                    assert(k == 2 * kk);
                    assert(self.tiers@[2 * kk] == self.tiers@[k]);
                } else {
                    assert(k == 2 * kk + 1);
                    assert(self.tiers@[2 * kk + 1] == self.tiers@[k]);
                }
            }
            assert(n <= h * h) by (nonlinear_arith)
                requires
                    n <= tcc * tcc / 8,
                    tcc == 2 * h,
                    h >= 0,
            ;
            assert(h * h <= tcc * tcc) by (nonlinear_arith)
                requires
                    tcc == 2 * h,
                    h >= 0,
            ;
            assert(self.wf());
            assert forall|j: int| 0 <= j < self.len implies #[trigger] self@[j] == pre@[j] by {
                self.lemma_view_index(j);
                pre.lemma_view_index(j);
                lemma_split_rank(j, tcc);
                let kk = j / tcc;
                let r = j % tcc;
                assert(pre.tiers@[kk]@.len() == packed_tier_len(n, tcc, kk));
                pre.tiers@[kk].lemma_view_len();
                assert(kk < quarter) by {
                    if kk >= quarter {
                        assert(kk * tcc >= n) by (nonlinear_arith)
                            requires
                                kk >= quarter,
                                n <= tcc * tcc / 8,
                                tcc == 4 * quarter,
                                quarter >= 1,
                        ;
                    }
                }
                assert(self.tiers@[2 * kk]@ == pre.tiers@[kk]@.subrange(0, pre.tiers@[kk].split_point()));
                assert(self.tiers@[2 * kk + 1]@ == pre.tiers@[kk]@.subrange(pre.tiers@[kk].split_point(), pre.tiers@[kk]@.len() as int));
                if r < h {
                    assert(j == (2 * kk) * h + r) by (nonlinear_arith)
                        requires
                            j == kk * tcc + r,
                            tcc == 2 * h,
                    ;
                    lemma_join_rank(2 * kk, r, h);
                } else {
                    assert(j == (2 * kk + 1) * h + (r - h)) by (nonlinear_arith)
                        requires
                            j == kk * tcc + r,
                            tcc == 2 * h,
                    ;
                    lemma_join_rank(2 * kk + 1, r - h, h);
                }
            }
            assert(self@ =~= pre@);
        }
    }

    /// `self@[j + 1]` read through the tier layout.
    proof fn lemma_next_rank(&self, j: int)
        requires
            self.wf(),
            0 <= j,
            j + 1 < self.len,
        ensures
            j % self.spec_tier_capacity() < self.spec_tier_capacity() - 1 ==> self@[j + 1]
                == self.tiers@[j / self.spec_tier_capacity()]@[j % self.spec_tier_capacity() + 1],
            j % self.spec_tier_capacity() == self.spec_tier_capacity() - 1 ==> self@[j + 1]
                == self.tiers@[j / self.spec_tier_capacity() + 1]@[0],
    {
        let tc = self.spec_tier_capacity();
        lemma_split_rank(j, tc);
        let i = j / tc;
        let m = j % tc;
        self.lemma_view_index(j + 1);
        if m < tc - 1 {
            lemma_join_rank(i, m + 1, tc);
        } else {
            assert(j + 1 == (i + 1) * tc + 0) by (nonlinear_arith)
                requires
                    j == i * tc + m,
                    m == tc - 1,
            ;
            lemma_join_rank(i + 1, 0, tc);
        }
    }

    /// Removes the element at rank `index` when it lies in the last
    /// non-empty tier.
    fn remove_in_last_tier(&mut self, index: usize) -> (r: T)
        requires
            old(self).wf(),
            index < old(self)@.len(),
            index as int / old(self).spec_tier_capacity() == (old(self)@.len() - 1) / old(self).spec_tier_capacity(),
        ensures
            final(self).wf(),
            r == old(self)@[index as int],
            final(self)@ == old(self)@.remove(index as int),
            final(self).spec_tier_capacity() == old(self).spec_tier_capacity(),
    {
        let tc = self.tiers.len();
        let ti = index / tc;
        let local = index % tc;
        let ghost n = self.len as int;
        let ghost tcc = tc as int;
        proof {
            self.lemma_view_index(index as int);
            self.lemma_view_index(n - 1);
            lemma_rank_range(n - 1, tcc);
            lemma_split_rank(index as int, tcc);
            lemma_split_rank(n - 1, tcc);
            assert(self.tiers@[ti as int]@.len() == packed_tier_len(n, tcc, ti as int));
            self.tiers@[ti as int].lemma_view_len();
        }
        let r = self.tiers[ti].remove(local);
        self.len = self.len - 1;
        proof {
            let pre = old(self);
            assert forall|k: int| 0 <= k < tcc implies {
                &&& (#[trigger] self.tiers@[k]).wf()
                &&& self.tiers@[k].spec_capacity() == tcc
                &&& self.tiers@[k]@.len() == packed_tier_len(self.len as int, tcc, k)
            } by {
                assert(pre.tiers@[k]@.len() == packed_tier_len(n, tcc, k));
                if k != ti {
                    assert(self.tiers@[k] == pre.tiers@[k]);
                }
                if k < ti {
                    assert(k * tcc + tcc <= n - 1);
                } else if k > ti {
                    assert(k * tcc > n - 1);
                }
            }
            assert forall|j: int| 0 <= j < self.len implies #[trigger] self@[j] == pre@.remove(index as int)[j] by {
                self.lemma_view_index(j);
                lemma_split_rank(j, tcc);
                let q = j / tcc;
                if j < index {
                    pre.lemma_view_index(j);
                    if q > ti {
                        lemma_mul_mono(ti as int + 1, q, tcc);
                    }
                } else {
                    pre.lemma_next_rank(j);
                    if q < ti {
                        lemma_tier_order(q, ti as int, tcc);
                    }
                    if q > ti {
                        lemma_tier_order(ti as int, q, tcc);
                    }
                    assert(q == ti);
                }
            }
            assert(self@ =~= pre@.remove(index as int));
        }
        r
    }

    /// Removes the element at rank `index` from a tier before the last
    /// non-empty one: each later tier hands its first element to the back
    /// of the tier before it.
    #[verifier::rlimit(60)]
    fn remove_cascade(&mut self, index: usize) -> (r: T)
        requires
            old(self).wf(),
            index < old(self)@.len(),
            index as int / old(self).spec_tier_capacity() < (old(self)@.len() - 1) / old(self).spec_tier_capacity(),
        ensures
            final(self).wf(),
            r == old(self)@[index as int],
            final(self)@ == old(self)@.remove(index as int),
            final(self).spec_tier_capacity() == old(self).spec_tier_capacity(),
    {
        let tc = self.tiers.len();
        let ti = index / tc;
        let local = index % tc;
        let last = (self.len - 1) / tc;
        let ghost n = self.len as int;
        let ghost tcc = tc as int;
        proof {
            self.lemma_view_index(index as int);
            self.lemma_view_index(n - 1);
            lemma_rank_range(n - 1, tcc);
            lemma_split_rank(index as int, tcc);
            lemma_split_rank(n - 1, tcc);
            assert(self.tiers@[ti as int]@.len() == packed_tier_len(n, tcc, ti as int));
            self.tiers@[ti as int].lemma_view_len();
            assert(self.tiers@[last as int]@.len() == packed_tier_len(n, tcc, last as int));
            self.tiers@[last as int].lemma_view_len();
            assert(ti * tcc + tcc <= n - 1);
        }
        let r = self.tiers[ti].remove(local);
        let mut carry = self.tiers[last].pop_front();
        let mut i: usize = last - 1;
        while i > ti
            invariant
                old(self).wf(),
                tc == old(self).spec_tier_capacity(),
                tcc == tc,
                n == old(self).len,
                self.len == old(self).len,
                self.tiers@.len() == tc,
                ti <= i < last < tc,
                last as int == (n - 1) / tcc,
                ti * tcc + tcc <= n - 1,
                last * tcc <= n - 1,
                local < tc,
                carry == old(self).tiers@[i + 1]@[0],
                forall|k: int| 0 <= k < tc && (k < ti || (ti < k && k <= i) || k > last)
                    ==> #[trigger] self.tiers@[k] == old(self).tiers@[k],
                self.tiers@[ti as int].wf(),
                self.tiers@[ti as int].spec_capacity() == tc,
                self.tiers@[ti as int]@ == old(self).tiers@[ti as int]@.remove(local as int),
                forall|k: int| i < k < last ==> {
                    &&& (#[trigger] self.tiers@[k]).wf()
                    &&& self.tiers@[k].spec_capacity() == tc
                    &&& self.tiers@[k]@ == old(self).tiers@[k]@.subrange(1, tcc).push(old(self).tiers@[k + 1]@[0])
                },
                self.tiers@[last as int].wf(),
                self.tiers@[last as int].spec_capacity() == tc,
                self.tiers@[last as int]@ == old(self).tiers@[last as int]@.subrange(1, old(self).tiers@[last as int]@.len() as int),
            decreases i,
        {
            proof {
                lemma_rank_range(n - 1, tcc);
                assert(old(self).tiers@[i as int]@.len() == packed_tier_len(n, tcc, i as int));
                assert(i * tcc + tcc <= n - 1) by {
                    lemma_mul_mono(i as int + 1, last as int, tcc);
                }
                old(self).tiers@[i as int].lemma_view_len();
            }
            let ghost before = self.tiers@;
            carry = self.tiers[i].pop_push_back(carry);
            proof {
                assert forall|k: int| 0 <= k < tc && k != i implies #[trigger] self.tiers@[k] == before[k] by {}
            }
            i = i - 1;
        }
        proof {
            assert(self.tiers@[ti as int]@.len() == tcc - 1);
            self.tiers@[ti as int].lemma_view_len();
        }
        let ghost before = self.tiers@;
        self.tiers[ti].push_back(carry);
        self.len = self.len - 1;
        proof {
            let pre = old(self);
            assert forall|k: int| 0 <= k < tc && k != ti implies #[trigger] self.tiers@[k] == before[k] by {}
            assert forall|k: int| 0 <= k < tcc implies {
                &&& (#[trigger] self.tiers@[k]).wf()
                &&& self.tiers@[k].spec_capacity() == tcc
                &&& self.tiers@[k]@.len() == packed_tier_len(self.len as int, tcc, k)
            } by {
                assert(pre.tiers@[k]@.len() == packed_tier_len(n, tcc, k));
                if k < last {
                    lemma_mul_mono(k + 1, last as int, tcc);
                    assert(k * tcc + tcc <= n - 1);
                } else if k > last {
                    lemma_mul_mono(last as int + 1, k, tcc);
                    assert(k * tcc > n - 1);
                }
                if ti <= k < last {
                    assert(pre.tiers@[k + 1]@.len() == packed_tier_len(n, tcc, k + 1));
                    assert(pre.tiers@[k + 1]@.len() > 0) by {
                        assert((k + 1) * tcc == k * tcc + tcc) by (nonlinear_arith);
                    }
                }
            }
            assert forall|j: int| 0 <= j < self.len implies #[trigger] self@[j] == pre@.remove(index as int)[j] by {
                self.lemma_view_index(j);
                lemma_split_rank(j, tcc);
                let q = j / tcc;
                let m = j % tcc;
                if j < index {
                    pre.lemma_view_index(j);
                    if q > ti {
                        lemma_tier_order(ti as int, q, tcc);
                    }
                    if q < ti {
                        assert(self.tiers@[q] == pre.tiers@[q]);
                    } else {
                        assert(m < local);
                        assert(self.tiers@[q]@ == pre.tiers@[q]@.remove(local as int).push(pre.tiers@[q + 1]@[0]));
                        assert(self.tiers@[q]@[m] == pre.tiers@[q]@[m]);
                    }
                } else {
                    pre.lemma_next_rank(j);
                    if q < ti {
                        lemma_tier_order(q, ti as int, tcc);
                    }
                    if q > last {
                        lemma_tier_order(last as int, q, tcc);
                    }
                    assert(pre.tiers@[q]@.len() == packed_tier_len(n, tcc, q));
                    if q < last {
                        lemma_tier_order(q, last as int, tcc);
                        assert(pre.tiers@[q]@.len() == tcc);
                        assert(pre.tiers@[q + 1]@.len() == packed_tier_len(n, tcc, q + 1));
                        assert(q * tcc + tcc == (q + 1) * tcc) by (nonlinear_arith);
                        assert(pre.tiers@[q + 1]@.len() > 0);
                    }
                    if q == ti {
                        assert(m >= local);
                        assert(self.tiers@[q]@ == pre.tiers@[q]@.remove(local as int).push(pre.tiers@[q + 1]@[0]));
                        if m < tcc - 1 {
                            assert(self.tiers@[q]@[m] == pre.tiers@[q]@[m + 1]);
                        } else {
                            assert(self.tiers@[q]@[m] == pre.tiers@[q + 1]@[0]);
                        }
                    } else if q < last {
                        assert(self.tiers@[q]@ == pre.tiers@[q]@.subrange(1, tcc).push(pre.tiers@[q + 1]@[0]));
                    } else {
                        assert(self.tiers@[q]@ == pre.tiers@[q]@.subrange(1, pre.tiers@[q]@.len() as int));
                    }
                }
            }
            assert(self@ =~= pre@.remove(index as int));
        }
        r
    }

    /// Inserts `elem` at rank `index`, first doubling the tier capacity if
    /// the vector is full.
    pub fn insert(&mut self, index: usize, elem: T)
        requires
            old(self).wf(),
            index <= old(self)@.len(),
            old(self)@.len() < old(self).spec_capacity() || 4 * old(self).spec_capacity() <= usize::MAX,
        ensures
            final(self).wf(),
            final(self)@ == old(self)@.insert(index as int, elem),
            final(self).spec_tier_capacity() == if old(self)@.len() == old(self).spec_capacity() {
                2 * old(self).spec_tier_capacity()
            } else {
                old(self).spec_tier_capacity()
            },
    {
        if self.is_full() {
            self.expand();
            proof {
                let t = self.spec_tier_capacity();
                let o = old(self).spec_tier_capacity();
                assert(o * o < t * t) by (nonlinear_arith)
                    requires
                        t == 2 * o,
                        o >= 2,
                ;
            }
        }
        self.insert_with_room(index, elem);
    }

    /// Appends `elem`, first doubling the tier capacity if the vector is
    /// full.
    pub fn push(&mut self, elem: T)
        requires
            old(self).wf(),
            old(self)@.len() < old(self).spec_capacity() || 4 * old(self).spec_capacity() <= usize::MAX,
        ensures
            final(self).wf(),
            final(self)@ == old(self)@.push(elem),
            final(self).spec_tier_capacity() == if old(self)@.len() == old(self).spec_capacity() {
                2 * old(self).spec_tier_capacity()
            } else {
                old(self).spec_tier_capacity()
            },
    {
        if self.is_full() {
            self.expand();
            proof {
                let t = self.spec_tier_capacity();
                let o = old(self).spec_tier_capacity();
                assert(o * o < t * t) by (nonlinear_arith)
                    requires
                        t == 2 * o,
                        o >= 2,
                ;
            }
        }
        self.push_with_room(elem);
    }

    /// Removes and returns the element at rank `index`, first halving the
    /// tier capacity if the vector holds at most an eighth of its capacity.
    pub fn remove(&mut self, index: usize) -> (r: T)
        requires
            old(self).wf(),
            index < old(self)@.len(),
        ensures
            final(self).wf(),
            r == old(self)@[index as int],
            final(self)@ == old(self)@.remove(index as int),
            final(self).spec_tier_capacity() == if old(self).should_contract() {
                old(self).spec_tier_capacity() / 2
            } else {
                old(self).spec_tier_capacity()
            },
    {
        self.try_contract();
        let tc = self.tiers.len();
        if index / tc == (self.len - 1) / tc {
            self.remove_in_last_tier(index)
        } else {
            proof {
                lemma_rank_range(self.len - 1, tc as int);
                vstd::arithmetic::div_mod::lemma_div_is_ordered(index as int, self.len - 1, tc as int);
            }
            self.remove_cascade(index)
        }
    }
}

impl<T: Clone> Clone for LinkedTieredVec<T> {
    /// A vector with the same tier layout and a clone of every element.
    fn clone(&self) -> (r: Self)
        ensures
            self.wf() ==> r.wf(),
            self.wf() ==> r@.len() == self@.len() && r.spec_tier_capacity() == self.spec_tier_capacity(),
            self.wf() ==> forall|i: int| 0 <= i < self@.len() ==> cloned(#[trigger] self@[i], r@[i]),
    {
        let n = self.tiers.len();
        let mut tiers: Vec<Tier<T>> = Vec::with_capacity(n);
        let mut i: usize = 0;
        while i < n
            invariant
                n == self.tiers@.len(),
                i <= n,
                tiers@.len() == i,
                forall|k: int| 0 <= k < i ==> {
                    &&& (#[trigger] tiers@[k]).spec_capacity() == self.tiers@[k].spec_capacity()
                    &&& tiers@[k].spec_head() == self.tiers@[k].spec_head()
                    &&& tiers@[k].spec_tail() == self.tiers@[k].spec_tail()
                    &&& self.tiers@[k].wf() ==> tiers@[k].wf()
                    &&& self.tiers@[k].wf() ==> forall|m: int| 0 <= m < self.tiers@[k]@.len()
                        ==> cloned(#[trigger] self.tiers@[k]@[m], tiers@[k]@[m])
                },
            decreases n - i,
        {
            tiers.push(self.tiers[i].clone());
            i = i + 1;
        }
        let r = LinkedTieredVec { tiers, len: self.len };
        proof {
            if self.wf() {
                assert forall|k: int| 0 <= k < n implies {
                    &&& (#[trigger] r.tiers@[k]).wf()
                    &&& r.tiers@[k].spec_capacity() == n
                    &&& r.tiers@[k]@.len() == packed_tier_len(r.len as int, n as int, k)
                } by {
                    self.tiers@[k].lemma_view_len();
                    r.tiers@[k].lemma_view_len();
                }
                assert forall|j: int| 0 <= j < self@.len() implies cloned(#[trigger] self@[j], r@[j]) by {
                    self.lemma_view_index(j);
                    r.lemma_view_index(j);
                }
            }
        }
        r
    }
}

} // verus!
