//! Sets of criteria over a fixed universe, and the implications between
//! criteria.
//!
//! A criterion is known by a dense id below 64, given to it when the universe
//! is loaded. A set of criteria is one machine word.

use vstd::prelude::*;
use crate::bits::{
    bits_view, has_bit, lemma_bits_and, lemma_bits_ext, lemma_bits_low_mask, lemma_bits_nonzero,
    lemma_bits_not, lemma_bits_or, lemma_bits_single, lemma_bits_subset, lemma_bits_zero, low_mask,
};

verus! {

/// Largest number of criteria a universe can hold.
pub const MAX_CRITERIA: usize = 64;

/// Id of the built-in criterion `safe-to-run`.
pub const SAFE_TO_RUN: usize = 0;

/// Id of the built-in criterion `safe-to-deploy`, which implies `safe-to-run`.
pub const SAFE_TO_DEPLOY: usize = 1;

/// A set of criteria ids.
#[derive(Clone, Copy, Debug, PartialEq, Eq, Structural)]
pub struct CriteriaSet {
    pub bits: u64,
}

impl View for CriteriaSet {
    type V = Set<nat>;

    open spec fn view(&self) -> Set<nat> {
        bits_view(self.bits)
    }
}

impl CriteriaSet {
    /// The set without members.
    pub fn empty() -> (r: CriteriaSet)
        ensures
            r@ == Set::<nat>::empty(),
    {
        proof {
            lemma_bits_zero();
        }
        CriteriaSet { bits: 0 }
    }

    /// The set of all ids below `n`.
    pub fn below(n: usize) -> (r: CriteriaSet)
        requires
            n <= 64,
        ensures
            r@ == Set::new(|c: nat| c < n),
            r.bits == low_mask(n as nat),
    {
        proof {
            lemma_bits_low_mask(n as nat);
        }
        let bits: u64 = if n == 0 {
            0
        } else if n >= 64 {
            u64::MAX
        } else {
            u64::MAX >> ((64 - n) as u64)
        };
        let r = CriteriaSet { bits };
        assert(r.bits == low_mask(n as nat));
        assert forall|c: nat| r@.contains(c) == (c < n) by {
            assert(r@.contains(c) == has_bit(low_mask(n as nat), c));
        }
        assert(r@ =~= Set::new(|c: nat| c < n));
        r
    }

    /// The set that holds `id` alone; empty where `id` is no id.
    pub fn single(id: usize) -> (r: CriteriaSet)
        ensures
            id < 64 ==> r@ == set![id as nat] && r.bits == 1u64 << (id as u64),
            id >= 64 ==> r@ == Set::<nat>::empty(),
    {
        if id < 64 {
            proof {
                lemma_bits_single(id as nat);
            }
            CriteriaSet { bits: 1u64 << (id as u64) }
        } else {
            CriteriaSet::empty()
        }
    }

    /// Whether `id` is a member.
    pub fn contains(&self, id: usize) -> (r: bool)
        ensures
            r == self@.contains(id as nat),
    {
        if id < 64 {
            (self.bits >> (id as u64)) & 1u64 == 1u64
        } else {
            false
        }
    }

    /// The set with `id` added; unchanged where `id` is no id.
    pub fn insert(&self, id: usize) -> (r: CriteriaSet)
        ensures
            id < 64 ==> r@ == self@.insert(id as nat),
            id >= 64 ==> r == *self,
    {
        let one = CriteriaSet::single(id);
        let r = self.union(&one);
        proof {
            if id < 64 {
                assert(r@ =~= self@.insert(id as nat));
            } else {
                assert forall|i: nat| i < 64 implies has_bit(r.bits, i) == has_bit(self.bits, i) by {
                    assert(r@.contains(i) == self@.contains(i));
                }
                lemma_bits_ext(r.bits, self.bits);
            }
        }
        r
    }

    pub fn union(&self, other: &CriteriaSet) -> (r: CriteriaSet)
        ensures
            r@ == self@.union(other@),
            r.bits == self.bits | other.bits,
    {
        proof {
            lemma_bits_or(self.bits, other.bits);
        }
        CriteriaSet { bits: self.bits | other.bits }
    }

    pub fn intersection(&self, other: &CriteriaSet) -> (r: CriteriaSet)
        ensures
            r@ == self@.intersect(other@),
            r.bits == self.bits & other.bits,
    {
        proof {
            lemma_bits_and(self.bits, other.bits);
        }
        CriteriaSet { bits: self.bits & other.bits }
    }

    /// The members of `self` that `other` lacks.
    pub fn difference(&self, other: &CriteriaSet) -> (r: CriteriaSet)
        ensures
            r@ == self@.difference(other@),
            r.bits == self.bits & !other.bits,
    {
        proof {
            lemma_bits_and(self.bits, !other.bits);
            lemma_bits_not(other.bits);
        }
        let r = CriteriaSet { bits: self.bits & !other.bits };
        assert(r@ =~= self@.difference(other@));
        r
    }

    pub fn is_subset(&self, other: &CriteriaSet) -> (r: bool)
        ensures
            r == self@.subset_of(other@),
    {
        proof {
            lemma_bits_subset(self.bits, other.bits);
        }
        self.bits & other.bits == self.bits
    }

    pub fn is_empty(&self) -> (r: bool)
        ensures
            r == (self@ == Set::<nat>::empty()),
    {
        proof {
            lemma_bits_nonzero(self.bits);
            lemma_bits_zero();
            if self.bits != 0 {
                let i = choose|i: nat| has_bit(self.bits, i);
                assert(self@.contains(i));
            } else {
                assert(self@ =~= Set::<nat>::empty());
            }
        }
        self.bits == 0
    }

    /// The ids of the members, in rising order.
    pub fn members(&self) -> (r: Vec<usize>)
        ensures
            forall|k: int| 0 <= k < r.len() ==> self@.contains(#[trigger] r[k] as nat),
            forall|c: nat| self@.contains(c) ==> exists|k: int| 0 <= k < r.len() && r[k] == c,
            forall|j: int, k: int| 0 <= j < k < r.len() ==> r[j] < r[k],
    {
        let mut r: Vec<usize> = Vec::new();
        let mut id: usize = 0;
        while id < 64
            invariant
                id <= 64,
                forall|k: int| 0 <= k < r.len() ==> self@.contains(#[trigger] r[k] as nat) && r[k] < id,
                forall|c: nat|
                    c < id && self@.contains(c) ==> exists|k: int| 0 <= k < r.len() && r[k] == c,
                forall|j: int, k: int| 0 <= j < k < r.len() ==> r[j] < r[k],
            decreases 64 - id,
        {
            if self.contains(id) {
                let ghost before = r@;
                r.push(id);
                assert forall|c: nat| c < id + 1 && self@.contains(c) implies exists|k: int|
                    0 <= k < r.len() && r[k] == c by {
                    if c < id {
                        let k = choose|k: int| 0 <= k < before.len() && before[k] == c;
                        assert(r[k] == c);
                    } else {
                        assert(r[r.len() - 1] == c);
                    }
                }
            }
            id += 1;
        }
        r
    }
}

/// Two sets with the same members are the same value.
pub proof fn lemma_set_ext(a: CriteriaSet, b: CriteriaSet)
    requires
        a@ == b@,
    ensures
        a == b,
{
    assert forall|i: nat| i < 64 implies has_bit(a.bits, i) == has_bit(b.bits, i) by {
        assert(a@.contains(i) == has_bit(a.bits, i));
        assert(b@.contains(i) == has_bit(b.bits, i));
    }
    lemma_bits_ext(a.bits, b.bits);
}

} // verus!
