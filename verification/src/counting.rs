//! Counting facts behind the termination bounds: positional codes are
//! injective and bounded, and a duplicate-free sequence drawn from a
//! bounded range is no longer than the range.

use vstd::prelude::*;

verus! {

broadcast use vstd::seq_lib::seq_to_set_is_finite, vstd::set::group_set_axioms;

/// The product of two non-negative factors is non-negative.
pub proof fn lemma_mul_nonneg(a: int, b: int)
    by (nonlinear_arith)
    requires
        a >= 0,
        b >= 0,
    ensures
        a * b >= 0,
{
}

/// Two distinct digit pairs in base `u` have distinct codes.
pub proof fn lemma_code_inj(a1: int, b1: int, a2: int, b2: int, u: int)
    by (nonlinear_arith)
    requires
        u > 0,
        0 <= b1 < u,
        0 <= b2 < u,
        a1 * u + b1 == a2 * u + b2,
    ensures
        a1 == a2,
        b1 == b2,
{
}

/// A code with digits below the bounds stays below the product.
pub proof fn lemma_code_range(a: int, b: int, amax: int, u: int)
    by (nonlinear_arith)
    requires
        0 <= a < amax,
        0 <= b < u,
    ensures
        0 <= a * u + b < amax * u,
{
}

/// A duplicate-free sequence of integers drawn from `[0, n)` has at most
/// `n` elements.
pub proof fn lemma_nodup_int_range(s: Seq<int>, n: int)
    requires
        s.no_duplicates(),
        forall|i: int| 0 <= i < s.len() ==> 0 <= #[trigger] s[i] < n,
        n >= 0,
    ensures
        s.len() <= n,
{
    s.unique_seq_to_set();
    vstd::set_lib::lemma_int_range(0, n);
    assert forall|x: int| s.to_set().contains(x) implies vstd::set_lib::set_int_range(
        0,
        n,
    ).contains(x) by {
        let i = choose|i: int| 0 <= i < s.len() && s[i] == x;
        assert(0 <= s[i] < n);
    }
    vstd::set_lib::lemma_len_subset(s.to_set(), vstd::set_lib::set_int_range(0, n));
}

} // verus!
