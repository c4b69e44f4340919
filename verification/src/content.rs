//! Rows in lowest terms: the numerators and the denominator of a row have no
//! common divisor, and the denominator is positive. Two such rows that hold
//! the same numbers are the same row.

use crate::arith::{lemma_cancel, lemma_regroup};
use crate::bigint::magnitude_of;
use crate::bignat::{gcd, lemma_gcd_of_one, lemma_gcd_scale};
use crate::linalg::ScaledRow;
use vstd::prelude::*;

verus! {

/// The greatest common divisor of the denominator and the first `n`
/// numerators.
pub open spec fn content(row: ScaledRow, n: nat) -> nat
    decreases n,
{
    if n == 0 {
        magnitude_of(row.den)
    } else {
        gcd(content(row, (n - 1) as nat), magnitude_of(row.nums[n - 1]))
    }
}

/// The denominator is positive and has no divisor in common with all the
/// numerators.
pub open spec fn in_lowest_terms(row: ScaledRow) -> bool {
    row.den > 0 && content(row, row.nums.len()) == 1
}

/// Every row is in lowest terms.
pub open spec fn rows_in_lowest_terms(m: Seq<ScaledRow>) -> bool {
    forall|i: int| 0 <= i < m.len() ==> in_lowest_terms(#[trigger] m[i])
}

/// Once the content is one it stays one.
pub proof fn lemma_content_stays_one(row: ScaledRow, k: nat, n: nat)
    requires
        k <= n,
        content(row, k) == 1,
    ensures
        content(row, n) == 1,
    decreases n - k,
{
    if k < n {
        lemma_gcd_of_one(magnitude_of(row.nums[k as int]));
        lemma_content_stays_one(row, k + 1, n);
    }
}

/// The magnitude of a multiple by a positive factor.
pub proof fn lemma_magnitude_scaled(g: int, x: int)
    requires
        g > 0,
    ensures
        magnitude_of(g * x) == g * magnitude_of(x),
{
    assert(g * (-x) == -(g * x)) by (nonlinear_arith);
    assert(x >= 0 ==> g * x >= 0) by (nonlinear_arith)
        requires
            g > 0,
    ;
    assert(x < 0 ==> g * x < 0) by (nonlinear_arith)
        requires
            g > 0,
    ;
}

/// A row multiplied by a positive factor has its content multiplied by it.
pub proof fn lemma_content_scaled(big: ScaledRow, small: ScaledRow, g: int, n: nat)
    requires
        g > 0,
        big.den == g * small.den,
        forall|k: int| 0 <= k < n ==> #[trigger] big.nums[k] == g * small.nums[k],
    ensures
        content(big, n) == g * content(small, n),
    decreases n,
{
    if n == 0 {
        lemma_magnitude_scaled(g, small.den);
    } else {
        lemma_content_scaled(big, small, g, (n - 1) as nat);
        assert(big.nums[n - 1] == g * small.nums[n - 1]);
        lemma_magnitude_scaled(g, small.nums[n - 1]);
        lemma_gcd_scale(
            g as nat,
            content(small, (n - 1) as nat),
            magnitude_of(small.nums[n - 1]),
        );
    }
}

/// Two rows in lowest terms that hold the same numbers are the same row.
pub proof fn lemma_lowest_terms_unique(a: ScaledRow, b: ScaledRow)
    requires
        in_lowest_terms(a),
        in_lowest_terms(b),
        a.same_as(b),
    ensures
        a == b,
{
    let n = a.nums.len();
    let left = ScaledRow { nums: Seq::new(n, |k: int| b.den * a.nums[k]), den: b.den * a.den };
    let right = ScaledRow { nums: Seq::new(n, |k: int| a.den * b.nums[k]), den: a.den * b.den };
    assert forall|k: int| 0 <= k < n implies left.nums[k] == right.nums[k] by {
        assert(a.nums[k] * b.den == b.nums[k] * a.den);
        lemma_regroup(b.den, a.nums[k], 1);
        lemma_regroup(a.den, b.nums[k], 1);
    }
    lemma_regroup(b.den, a.den, 1);
    assert(left.nums =~= right.nums);
    assert(left == right);
    lemma_content_scaled(left, a, b.den, n);
    lemma_content_scaled(right, b, a.den, n);
    assert(b.den * 1 == a.den * 1);
    assert forall|k: int| 0 <= k < n implies a.nums[k] == b.nums[k] by {
        assert(a.nums[k] * b.den == b.nums[k] * a.den);
        lemma_cancel(a.nums[k], b.nums[k], a.den);
    }
    assert(a.nums =~= b.nums);
}

} // verus!
