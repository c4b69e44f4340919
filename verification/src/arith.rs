//! Small facts of integer arithmetic that the solver does not find by itself.

use vstd::prelude::*;

verus! {

/// Multiplication distributes over sums and differences.
pub proof fn lemma_distribute(a: int, b: int, c: int)
    ensures
        (a + b) * c == a * c + b * c,
        (a - b) * c == a * c - b * c,
        c * (a + b) == c * a + c * b,
        c * (a - b) == c * a - c * b,
{
    assert((a + b) * c == a * c + b * c) by (nonlinear_arith);
    assert((a - b) * c == a * c - b * c) by (nonlinear_arith);
    assert(c * (a + b) == c * a + c * b) by (nonlinear_arith);
    assert(c * (a - b) == c * a - c * b) by (nonlinear_arith);
}

/// The factors of a product can be regrouped and exchanged.
pub proof fn lemma_regroup(a: int, b: int, c: int)
    ensures
        (a * b) * c == (a * c) * b,
        (a * b) * c == a * (b * c),
        a * b == b * a,
{
    assert((a * b) * c == (a * c) * b) by (nonlinear_arith);
    assert((a * b) * c == a * (b * c)) by (nonlinear_arith);
    assert(a * b == b * a) by (nonlinear_arith);
}

/// Two proportional numbers are zero together.
pub proof fn lemma_proportional_zero(a: int, p: int, b: int, q: int)
    requires
        a * p == b * q,
        p != 0,
        q != 0,
    ensures
        (a == 0) == (b == 0),
{
    assert((a == 0) == (b == 0)) by (nonlinear_arith)
        requires
            a * p == b * q,
            p != 0,
            q != 0,
    ;
}

/// A product of nonzero numbers is not zero.
pub proof fn lemma_product_nonzero(x: int, y: int)
    requires
        x != 0,
        y != 0,
    ensures
        x * y != 0,
{
    assert(x * y != 0) by (nonlinear_arith)
        requires
            x != 0,
            y != 0,
    ;
}

/// A product with a zero factor is zero.
pub proof fn lemma_zero_product(x: int, y: int)
    requires
        x == 0 || y == 0,
    ensures
        x * y == 0,
        y * x == 0,
{
    assert(x * y == 0 && y * x == 0) by (nonlinear_arith)
        requires
            x == 0 || y == 0,
    ;
}

/// `x * p == p * y` with a nonzero `p` gives `x == y`.
pub proof fn lemma_cancel(x: int, y: int, p: int)
    requires
        p != 0,
        x * p == p * y || x * p == y * p,
    ensures
        x == y,
{
    assert(x == y) by (nonlinear_arith)
        requires
            p != 0,
            x * p == p * y || x * p == y * p,
    ;
}

} // verus!
