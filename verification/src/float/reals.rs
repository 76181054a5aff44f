//! Real numbers.
use vstd::prelude::*;

verus! {

/// A product of integers is the product of the real numbers.
pub proof fn lemma_real_product(a: int, b: int)
    ensures
        (a * b) as real == (a as real) * (b as real),
{
    assert((a * b) as real == (a as real) * (b as real)) by (nonlinear_arith);
}

/// A product of bounded factors is bounded.
pub proof fn lemma_bounded_product(a: real, b: real, m: real, n: real)
    requires
        -m <= a <= m,
        -n <= b <= n,
    ensures
        -(m * n) <= a * b <= m * n,
{
    assert(-(m * n) <= a * b <= m * n) by (nonlinear_arith)
        requires
            -m <= a <= m,
            -n <= b <= n,
    ;
}

} // verus!
