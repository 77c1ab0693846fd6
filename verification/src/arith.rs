//! Bounds on products.

use vstd::prelude::*;

verus! {

/// A product of two numbers that are not negative lies between zero and the product of bounds on
/// them.
pub proof fn lemma_product(a: int, a_top: int, b: int, b_top: int)
    requires
        0 <= a <= a_top,
        0 <= b <= b_top,
    ensures
        0 <= a * b <= a_top * b_top,
{
    assert(0 <= a * b <= a_top * b_top) by (nonlinear_arith)
        requires
            0 <= a <= a_top,
            0 <= b <= b_top,
    ;
}

} // verus!
