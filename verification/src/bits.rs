//! Machine words read as finite sets of small numbers.
//!
//! A `u64` stands for the set of positions of its one bits. The lemmas here
//! carry the word operations over to set operations, so that the rest of the
//! crate can reason about sets and compute on words.

use vstd::prelude::*;

verus! {

/// Whether position `i` is set in `w`.
pub open spec fn has_bit(w: u64, i: nat) -> bool {
    i < 64 && (w >> (i as u64)) & 1u64 == 1u64
}

/// The set of positions that are set in `w`.
pub open spec fn bits_view(w: u64) -> Set<nat> {
    Set::new(|i: nat| has_bit(w, i))
}

/// The word with exactly the positions below `n` set.
pub open spec fn low_mask(n: nat) -> u64 {
    if n == 0 {
        0
    } else if n >= 64 {
        u64::MAX
    } else {
        u64::MAX >> ((64 - n) as u64)
    }
}

pub proof fn lemma_bits_or(a: u64, b: u64)
    ensures
        bits_view(a | b) == bits_view(a).union(bits_view(b)),
        forall|i: nat| has_bit(a | b, i) == (has_bit(a, i) || has_bit(b, i)),
{
    assert forall|i: nat| has_bit(a | b, i) == (has_bit(a, i) || has_bit(b, i)) by {
        if i < 64 {
            let k = i as u64;
            assert((((a | b) >> k) & 1u64 == 1u64) == (((a >> k) & 1u64 == 1u64) || ((b >> k) & 1u64
                == 1u64))) by (bit_vector);
        }
    }
    assert(bits_view(a | b) =~= bits_view(a).union(bits_view(b)));
}

pub proof fn lemma_bits_and(a: u64, b: u64)
    ensures
        bits_view(a & b) == bits_view(a).intersect(bits_view(b)),
        forall|i: nat| has_bit(a & b, i) == (has_bit(a, i) && has_bit(b, i)),
{
    assert forall|i: nat| has_bit(a & b, i) == (has_bit(a, i) && has_bit(b, i)) by {
        if i < 64 {
            let k = i as u64;
            assert((((a & b) >> k) & 1u64 == 1u64) == (((a >> k) & 1u64 == 1u64) && ((b >> k) & 1u64
                == 1u64))) by (bit_vector);
        }
    }
    assert(bits_view(a & b) =~= bits_view(a).intersect(bits_view(b)));
}

pub proof fn lemma_bits_not(a: u64)
    ensures
        forall|i: nat| i < 64 ==> has_bit(!a, i) == !has_bit(a, i),
{
    assert forall|i: nat| i < 64 implies has_bit(!a, i) == !has_bit(a, i) by {
        let k = i as u64;
        assert((((!a) >> k) & 1u64 == 1u64) == !((a >> k) & 1u64 == 1u64)) by (bit_vector)
            requires
                k < 64,
        ;
    }
}

pub proof fn lemma_bits_zero()
    ensures
        bits_view(0) == Set::<nat>::empty(),
        forall|i: nat| !has_bit(0, i),
{
    assert forall|i: nat| !has_bit(0, i) by {
        if i < 64 {
            let k = i as u64;
            assert((0u64 >> k) & 1u64 != 1u64) by (bit_vector);
        }
    }
    assert(bits_view(0) =~= Set::<nat>::empty());
}

pub proof fn lemma_bits_single(j: nat)
    requires
        j < 64,
    ensures
        bits_view(1u64 << (j as u64)) == set![j],
        forall|i: nat| #[trigger] has_bit(1u64 << (j as u64), i) == (i == j),
{
    let s = j as u64;
    assert forall|i: nat| #[trigger] has_bit(1u64 << s, i) == (i == j) by {
        if i < 64 {
            let k = i as u64;
            assert(s < 64 && k < 64 ==> ((((1u64 << s) >> k) & 1u64 == 1u64) == (k == s)))
                by (bit_vector);
        }
    }
    assert(bits_view(1u64 << s) =~= set![j]);
}

pub proof fn lemma_bits_low_mask(n: nat)
    requires
        n <= 64,
    ensures
        forall|i: nat| #[trigger] has_bit(low_mask(n), i) == (i < n),
{
    assert forall|i: nat| #[trigger] has_bit(low_mask(n), i) == (i < n) by {
        if i < 64 {
            let k = i as u64;
            if n == 0 {
                lemma_bits_zero();
            } else if n >= 64 {
                assert((0xffff_ffff_ffff_ffffu64 >> k) & 1u64 == 1u64) by (bit_vector)
                    requires
                        k < 64,
                ;
            } else {
                let s = n as u64;
                let t = (64 - n) as u64;
                assert(s < 64 && t < 64 && s + t == 64 && k < 64 ==> ((((0xffff_ffff_ffff_ffffu64
                    >> t) >> k) & 1u64 == 1u64) == (k < s))) by (bit_vector);
            }
        }
    }
}

proof fn lemma_some_bit_from(w: u64, k: nat)
    requires
        k < 64,
        w >> (k as u64) != 0,
    ensures
        exists|i: nat| has_bit(w, i),
    decreases 64 - k,
{
    let s = k as u64;
    if (w >> s) & 1u64 == 1u64 {
        assert(has_bit(w, k));
    } else if k == 63 {
        assert((w >> 63u64) != 0 ==> (w >> 63u64) & 1u64 == 1u64) by (bit_vector);
    } else {
        let t = (k + 1) as u64;
        assert(s < 63 && t == s + 1 && (w >> s) != 0 && (w >> s) & 1u64 != 1u64 ==> (w >> t)
            != 0) by (bit_vector);
        lemma_some_bit_from(w, k + 1);
    }
}

/// A word is zero exactly when it stands for the empty set.
pub proof fn lemma_bits_nonzero(w: u64)
    ensures
        (w != 0) == (exists|i: nat| has_bit(w, i)),
{
    if w != 0 {
        assert(w >> 0u64 == w) by (bit_vector);
        lemma_some_bit_from(w, 0);
    } else {
        lemma_bits_zero();
    }
}

/// Two words that stand for the same set are equal.
pub proof fn lemma_bits_ext(a: u64, b: u64)
    requires
        forall|i: nat| i < 64 ==> has_bit(a, i) == has_bit(b, i),
    ensures
        a == b,
{
    let x = a ^ b;
    if x != 0 {
        lemma_bits_nonzero(x);
        let i = choose|i: nat| has_bit(x, i);
        let k = i as u64;
        assert((((a ^ b) >> k) & 1u64 == 1u64) ==> (((a >> k) & 1u64 == 1u64) != ((b >> k) & 1u64
            == 1u64))) by (bit_vector);
        assert(has_bit(a, i) == has_bit(b, i));
        assert(false);
    }
    assert(a ^ b == 0 ==> a == b) by (bit_vector);
}

/// Inclusion of sets is the word test `a & b == a`.
pub proof fn lemma_bits_subset(a: u64, b: u64)
    ensures
        (a & b == a) == bits_view(a).subset_of(bits_view(b)),
{
    lemma_bits_and(a, b);
    if bits_view(a).subset_of(bits_view(b)) {
        assert forall|i: nat| i < 64 implies has_bit(a & b, i) == has_bit(a, i) by {
            if has_bit(a, i) {
                assert(bits_view(a).contains(i));
                assert(bits_view(b).contains(i));
            }
        }
        lemma_bits_ext(a & b, a);
    }
    if a & b == a {
        assert forall|i: nat| bits_view(a).contains(i) implies bits_view(b).contains(i) by {
            assert(has_bit(a & b, i));
        }
    }
}

/// The words 1, 2 and 3 stand for the sets {0}, {1} and {0, 1}.
pub proof fn lemma_bits_small()
    ensures
        forall|i: nat| #[trigger] has_bit(1, i) == (i == 0),
        forall|i: nat| #[trigger] has_bit(2, i) == (i == 1),
        forall|i: nat| #[trigger] has_bit(3, i) == (i == 0 || i == 1),
        bits_view(1) == set![0nat],
        bits_view(3) == set![0nat, 1nat],
{
    assert forall|i: nat| #[trigger] has_bit(1, i) == (i == 0) by {
        if i < 64 {
            let k = i as u64;
            assert(k < 64 ==> (((1u64 >> k) & 1u64 == 1u64) == (k == 0))) by (bit_vector);
        }
    }
    assert forall|i: nat| #[trigger] has_bit(2, i) == (i == 1) by {
        if i < 64 {
            let k = i as u64;
            assert(k < 64 ==> (((2u64 >> k) & 1u64 == 1u64) == (k == 1))) by (bit_vector);
        }
    }
    assert forall|i: nat| #[trigger] has_bit(3, i) == (i == 0 || i == 1) by {
        if i < 64 {
            let k = i as u64;
            assert(k < 64 ==> (((3u64 >> k) & 1u64 == 1u64) == (k == 0 || k == 1))) by (bit_vector);
        }
    }
    assert(bits_view(1) =~= set![0nat]);
    assert(bits_view(3) =~= set![0nat, 1nat]);
}

/// Adding positions to a word never makes it smaller as a number, and makes
/// it larger when a position is new.
pub proof fn lemma_bits_or_grows(a: u64, b: u64)
    ensures
        a | b >= a,
        a | b != a ==> a | b > a,
{
    assert(a | b >= a) by (bit_vector);
}

/// Clearing a position that is set makes the word smaller.
pub proof fn lemma_bits_clear(w: u64, i: nat)
    requires
        has_bit(w, i),
    ensures
        w & !(1u64 << (i as u64)) < w,
{
    let k = i as u64;
    assert(k < 64 && (w >> k) & 1u64 == 1u64 ==> w & !(1u64 << k) < w) by (bit_vector);
}

} // verus!
