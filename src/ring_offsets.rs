//! The head and tail cursors of a ring-buffer tier.
use crate::pow2::{lemma_wrap_add, lemma_wrap_congruent, lemma_wrap_small, usize_modulus, wrap};
use vstd::prelude::*;

verus! {

/// The logical head and tail cursors of one tier.
///
/// Both cursors only ever move by one (wrapping around `usize`); the number
/// of live elements is `tail - head` in wrapping arithmetic, and the slot of
/// a logical position `p` in a tier of capacity `c` is `p mod c`.
#[derive(Clone, Copy, Debug)]
pub struct ImplicitTierRingOffsets {
    head: usize,
    tail: usize,
}

impl ImplicitTierRingOffsets {
    pub closed spec fn spec_head(&self) -> usize {
        self.head
    }

    pub closed spec fn spec_tail(&self) -> usize {
        self.tail
    }

    /// The number of live positions between the cursors.
    pub open spec fn spec_len(&self) -> int {
        wrap(self.spec_tail() - self.spec_head())
    }

    pub fn new(head: usize, tail: usize) -> (r: Self)
        ensures
            r.spec_head() == head,
            r.spec_tail() == tail,
    {
        Self { head, tail }
    }

    pub fn len(&self) -> (r: usize)
        ensures
            r == self.spec_len(),
    {
        proof {
            lemma_wrap_small(self.tail - self.head);
        }
        self.tail.wrapping_sub(self.head)
    }

    pub fn is_empty(&self) -> (r: bool)
        ensures
            r == (self.spec_len() == 0),
    {
        proof {
            lemma_wrap_small(self.tail - self.head);
        }
        self.head == self.tail
    }

    pub fn is_full(&self, capacity: usize) -> (r: bool)
        ensures
            r == (self.spec_len() == capacity),
    {
        self.len() == capacity
    }

    pub fn head(&self) -> (r: usize)
        ensures
            r == self.spec_head(),
    {
        self.head
    }

    pub fn set_head(&mut self, new_head: usize)
        ensures
            final(self).spec_head() == new_head,
            final(self).spec_tail() == old(self).spec_tail(),
    {
        self.head = new_head;
    }

    pub fn tail(&self) -> (r: usize)
        ensures
            r == self.spec_tail(),
    {
        self.tail
    }

    pub fn set_tail(&mut self, new_tail: usize)
        ensures
            final(self).spec_tail() == new_tail,
            final(self).spec_head() == old(self).spec_head(),
    {
        self.tail = new_tail;
    }

    pub fn head_forward(&mut self)
        ensures
            final(self).spec_len() == wrap(old(self).spec_len() - 1),
            final(self).spec_head() == wrap(old(self).spec_head() + 1),
            final(self).spec_tail() == old(self).spec_tail(),
    {
        proof {
            lemma_wrap_small(self.head + 1);
            let k: int = if self.head + 1 < usize_modulus() { 0 } else { 1 };
            lemma_wrap_congruent(self.tail - wrap(self.head + 1), self.tail - self.head - 1, k);
            lemma_wrap_add(self.tail - self.head, -1);
        }
        self.head = self.head.wrapping_add(1);
    }

    pub fn head_backward(&mut self)
        ensures
            final(self).spec_len() == wrap(old(self).spec_len() + 1),
            final(self).spec_head() == wrap(old(self).spec_head() - 1),
            final(self).spec_tail() == old(self).spec_tail(),
    {
        proof {
            lemma_wrap_small(self.head - 1);
            let k: int = if self.head - 1 >= 0 { 0 } else { -1 };
            lemma_wrap_congruent(self.tail - wrap(self.head - 1), self.tail - self.head + 1, k);
            lemma_wrap_add(self.tail - self.head, 1);
        }
        self.head = self.head.wrapping_sub(1);
    }

    pub fn tail_forward(&mut self)
        ensures
            final(self).spec_len() == wrap(old(self).spec_len() + 1),
            final(self).spec_tail() == wrap(old(self).spec_tail() + 1),
            final(self).spec_head() == old(self).spec_head(),
    {
        proof {
            lemma_wrap_small(self.tail + 1);
            let k: int = if self.tail + 1 < usize_modulus() { 0 } else { 1 };
            lemma_wrap_congruent(wrap(self.tail + 1) - self.head, self.tail - self.head + 1, -k);
            lemma_wrap_add(self.tail - self.head, 1);
        }
        self.tail = self.tail.wrapping_add(1);
    }

    pub fn tail_backward(&mut self)
        ensures
            final(self).spec_len() == wrap(old(self).spec_len() - 1),
            final(self).spec_tail() == wrap(old(self).spec_tail() - 1),
            final(self).spec_head() == old(self).spec_head(),
    {
        proof {
            lemma_wrap_small(self.tail - 1);
            let k: int = if self.tail - 1 >= 0 { 0 } else { -1 };
            lemma_wrap_congruent(wrap(self.tail - 1) - self.head, self.tail - self.head - 1, -k);
            lemma_wrap_add(self.tail - self.head, -1);
        }
        self.tail = self.tail.wrapping_sub(1);
    }

    /// The slot that logical position `val` occupies in a tier of `capacity`
    /// slots (for a power-of-two capacity, the low bits of `val`).
    fn mask(&self, val: usize, capacity: usize) -> (r: usize)
        requires
            capacity > 0,
        ensures
            r == val % capacity,
    {
        val % capacity
    }

    pub fn masked_head(&self, capacity: usize) -> (r: usize)
        requires
            capacity > 0,
        ensures
            r == self.spec_head() % capacity,
    {
        self.mask(self.head, capacity)
    }

    pub fn masked_tail(&self, capacity: usize) -> (r: usize)
        requires
            capacity > 0,
        ensures
            r == self.spec_tail() % capacity,
    {
        self.mask(self.tail, capacity)
    }

    /// The slot of the element at `rank`, counted from the head.
    pub fn masked_rank(&self, rank: usize, capacity: usize) -> (r: usize)
        requires
            capacity > 0,
        ensures
            r == wrap(self.spec_head() + rank) % (capacity as int),
    {
        proof {
            lemma_wrap_small(self.head + rank);
        }
        self.mask(self.head.wrapping_add(rank), capacity)
    }
}

impl Default for ImplicitTierRingOffsets {
    fn default() -> (r: Self)
        ensures
            r.spec_head() == 0,
            r.spec_tail() == 0,
    {
        Self { head: 0, tail: 0 }
    }
}

} // verus!
