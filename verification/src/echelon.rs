//! Echelon forms: what an elimination has reached, and why the number of
//! pivots of a finished elimination is the rank.

use crate::arith::{lemma_product_nonzero, lemma_regroup};
use crate::linalg::{
    annihilates, dependent_column, depends_by, independent_columns, lemma_idot_sparse, rank_of,
    valid_rows, ScaledRow,
};
use vstd::prelude::*;
use vstd::set_lib::{lemma_int_range, lemma_len_subset, set_int_range};

verus! {

/// The position of the first nonzero number at or after `k`, or the length
/// where there is none.
pub open spec fn leading_from(row: Seq<int>, k: int) -> int
    decreases row.len() - k,
{
    if k < 0 || k >= row.len() {
        row.len() as int
    } else if row[k] != 0 {
        k
    } else {
        leading_from(row, k + 1)
    }
}

/// The column of the first nonzero entry of the row, or its length for a zero
/// row.
pub open spec fn leading(row: ScaledRow) -> int {
    leading_from(row.nums, 0)
}

/// Reduced row-echelon form: every leading entry is one and alone in its
/// column, and the leading entries move strictly to the right from row to row,
/// which puts the zero rows last.
pub open spec fn is_rref(m: Seq<ScaledRow>, cols: int) -> bool {
    &&& forall|i: int|
        0 <= i < m.len() && leading(#[trigger] m[i]) < cols ==> m[i].one_at(leading(m[i]))
    &&& forall|i: int, j: int|
        0 <= i < m.len() && 0 <= j < m.len() && i != j && leading(#[trigger] m[i]) < cols ==> (
        #[trigger] m[j]).zero_at(leading(m[i]))
    &&& forall|i: int, j: int|
        0 <= i < j < m.len() && leading(#[trigger] m[j]) < cols ==> leading(#[trigger] m[i])
            < leading(m[j])
}

/// The number of rows with a nonzero entry.
pub open spec fn nonzero_rows(m: Seq<ScaledRow>) -> nat
    decreases m.len(),
{
    if m.len() == 0 {
        0
    } else {
        nonzero_rows(m.drop_last()) + if m.last().is_zero_row() {
            0nat
        } else {
            1nat
        }
    }
}

/// The state of an elimination. Row `i` below `pivots.len()` has its pivot, a
/// one, in column `pivots[i]` and zeros before it; the pivot columns move
/// strictly to the right. Every pivot column but the last is zero outside its
/// pivot row, and the last one is so in the rows before `done`. The rows
/// without a pivot are zero before column `frontier`.
pub open spec fn echelon(
    m: Seq<ScaledRow>,
    cols: int,
    pivots: Seq<int>,
    frontier: int,
    done: int,
) -> bool {
    let r = pivots.len() as int;
    &&& r <= m.len()
    &&& forall|i: int| 0 <= i < r ==> 0 <= #[trigger] pivots[i] < cols
    &&& forall|i: int, j: int| 0 <= i < j < r ==> #[trigger] pivots[i] < #[trigger] pivots[j]
    &&& forall|i: int| 0 <= i < r ==> (#[trigger] m[i]).one_at(pivots[i])
    &&& forall|i: int, k: int| 0 <= i < r && 0 <= k < pivots[i] ==> #[trigger] m[i].nums[k] == 0
    &&& forall|i: int, j: int|
        0 <= i < r && 0 <= j < m.len() && j != i && (i < r - 1 || j < done)
            ==> #[trigger] m[j].nums[pivots[i]] == 0
    &&& forall|j: int, k: int| r <= j < m.len() && 0 <= k < frontier ==> #[trigger] m[j].nums[k] == 0
}

/// An elimination that has come to its end.
pub open spec fn echelon_complete(m: Seq<ScaledRow>, cols: int, pivots: Seq<int>) -> bool {
    &&& 0 <= cols
    &&& valid_rows(m, cols)
    &&& echelon(m, cols, pivots, cols, m.len() as int)
}

/// Zeros up to `p` and a nonzero number at `p` put the leading position at `p`.
pub proof fn lemma_leading_from(row: Seq<int>, k: int, p: int)
    requires
        0 <= k <= p <= row.len(),
        forall|j: int| k <= j < p ==> row[j] == 0,
        p < row.len() ==> row[p] != 0,
    ensures
        leading_from(row, k) == p,
    decreases p - k,
{
    if k < p {
        lemma_leading_from(row, k + 1, p);
    }
}

/// Before the leading position stand zeros, and at it a nonzero number.
pub proof fn lemma_leading_properties(row: Seq<int>, k: int)
    requires
        0 <= k <= row.len(),
    ensures
        k <= leading_from(row, k) <= row.len(),
        forall|j: int| k <= j < leading_from(row, k) ==> row[j] == 0,
        leading_from(row, k) < row.len() ==> row[leading_from(row, k)] != 0,
    decreases row.len() - k,
{
    if k < row.len() && row[k] == 0 {
        lemma_leading_properties(row, k + 1);
    }
}

/// In a finished elimination the leading entry of each row is its pivot.
pub proof fn lemma_echelon_leading(m: Seq<ScaledRow>, cols: int, pivots: Seq<int>)
    requires
        echelon_complete(m, cols, pivots),
    ensures
        forall|i: int| 0 <= i < pivots.len() ==> leading(#[trigger] m[i]) == pivots[i],
        forall|i: int| pivots.len() <= i < m.len() ==> leading(#[trigger] m[i]) == cols,
        forall|i: int| pivots.len() <= i < m.len() ==> (#[trigger] m[i]).is_zero_row(),
        forall|i: int| 0 <= i < pivots.len() ==> !(#[trigger] m[i]).is_zero_row(),
{
    assert forall|i: int| 0 <= i < pivots.len() implies leading(#[trigger] m[i]) == pivots[i] && !m[i].is_zero_row() by {
        assert(m[i].valid(cols));
        assert(m[i].one_at(pivots[i]));
        assert forall|k: int| 0 <= k < pivots[i] implies m[i].nums[k] == 0 by {
            assert(m[i].nums[k] == 0);
        }
        lemma_leading_from(m[i].nums, 0, pivots[i]);
    }
    assert forall|i: int| pivots.len() <= i < m.len() implies leading(#[trigger] m[i]) == cols && m[i].is_zero_row() by {
        assert(m[i].valid(cols));
        assert forall|k: int| 0 <= k < cols implies m[i].nums[k] == 0 by {
            assert(m[i].nums[k] == 0);
        }
        lemma_leading_from(m[i].nums, 0, cols);
    }
}

/// A finished elimination leaves a reduced row-echelon form.
pub proof fn lemma_echelon_is_rref(m: Seq<ScaledRow>, cols: int, pivots: Seq<int>)
    requires
        echelon_complete(m, cols, pivots),
    ensures
        is_rref(m, cols),
{
    lemma_echelon_leading(m, cols, pivots);
    assert forall|i: int, j: int|
        0 <= i < m.len() && 0 <= j < m.len() && i != j && leading(#[trigger] m[i]) < cols implies (
    #[trigger] m[j]).zero_at(leading(m[i])) by {
        assert(i < pivots.len());
        assert(m[j].nums[pivots[i]] == 0);
    }
    assert forall|i: int, j: int|
        0 <= i < j < m.len() && leading(#[trigger] m[j]) < cols implies leading(#[trigger] m[i])
        < leading(m[j]) by {
        assert(j < pivots.len());
        assert(pivots[i] < pivots[j]);
    }
}

/// Where the nonzero rows are the first `r` rows, there are `r` of them.
pub proof fn lemma_count_nonzero_rows(m: Seq<ScaledRow>, r: int)
    requires
        0 <= r <= m.len(),
        forall|i: int| 0 <= i < r ==> !(#[trigger] m[i]).is_zero_row(),
        forall|i: int| r <= i < m.len() ==> (#[trigger] m[i]).is_zero_row(),
    ensures
        nonzero_rows(m) == r,
    decreases m.len(),
{
    if m.len() > 0 {
        let rest = m.drop_last();
        let r2 = if r == m.len() {
            r - 1
        } else {
            r
        };
        assert forall|i: int| 0 <= i < r2 implies !(#[trigger] rest[i]).is_zero_row() by {
            assert(rest[i] == m[i]);
        }
        assert forall|i: int| r2 <= i < rest.len() implies (#[trigger] rest[i]).is_zero_row() by {
            assert(rest[i] == m[i]);
        }
        lemma_count_nonzero_rows(rest, r2);
        assert(m.last() == m[m.len() - 1]);
    }
}

/// A finished elimination has as many nonzero rows as pivots.
pub proof fn lemma_echelon_nonzero_rows(m: Seq<ScaledRow>, cols: int, pivots: Seq<int>)
    requires
        echelon_complete(m, cols, pivots),
    ensures
        nonzero_rows(m) == pivots.len(),
{
    lemma_echelon_leading(m, cols, pivots);
    lemma_count_nonzero_rows(m, pivots.len() as int);
}

/// The product of the denominators of the first `n` rows.
pub open spec fn dens_product(m: Seq<ScaledRow>, n: nat) -> int
    decreases n,
{
    if n == 0 {
        1
    } else {
        dens_product(m, (n - 1) as nat) * m[n - 1].den
    }
}

/// The product of the denominators of the first `n` rows but row `skip`.
pub open spec fn dens_product_except(m: Seq<ScaledRow>, n: nat, skip: int) -> int
    decreases n,
{
    if n == 0 {
        1
    } else if n - 1 == skip {
        dens_product_except(m, (n - 1) as nat, skip)
    } else {
        dens_product_except(m, (n - 1) as nat, skip) * m[n - 1].den
    }
}

/// A product of nonzero denominators is not zero.
pub proof fn lemma_dens_product_nonzero(m: Seq<ScaledRow>, n: nat)
    requires
        forall|i: int| 0 <= i < n ==> (#[trigger] m[i]).den != 0,
    ensures
        dens_product(m, n) != 0,
    decreases n,
{
    if n > 0 {
        lemma_dens_product_nonzero(m, (n - 1) as nat);
        assert(m[n - 1].den != 0);
        lemma_product_nonzero(dens_product(m, (n - 1) as nat), m[n - 1].den);
    }
}

/// The product but one denominator, times that denominator, is the whole product.
pub proof fn lemma_dens_product_split(m: Seq<ScaledRow>, n: nat, skip: int)
    ensures
        0 <= skip < n ==> m[skip].den * dens_product_except(m, n, skip) == dens_product(m, n),
        !(0 <= skip < n) ==> dens_product_except(m, n, skip) == dens_product(m, n),
    decreases n,
{
    if n > 0 {
        lemma_dens_product_split(m, (n - 1) as nat, skip);
        let d = m[n - 1].den;
        let e = dens_product_except(m, (n - 1) as nat, skip);
        if n - 1 == skip {
            lemma_regroup(d, e, 1);
        } else if 0 <= skip < n {
            lemma_regroup(m[skip].den, e, d);
        }
    }
}

/// The row whose pivot stands in column `k`.
pub open spec fn pivot_row(pivots: Seq<int>, k: int) -> int {
    choose|i: int| 0 <= i < pivots.len() && pivots[i] == k
}

/// A kernel vector that shows column `j`, which holds no pivot, to be a
/// combination of the pivot columns before it.
pub open spec fn dependence_witness(m: Seq<ScaledRow>, cols: int, pivots: Seq<int>, j: int) -> Seq<
    int,
> {
    Seq::new(
        cols as nat,
        |k: int|
            if k == j {
                dens_product(m, pivots.len())
            } else if k < j && pivots.contains(k) {
                -(m[pivot_row(pivots, k)].nums[j] * dens_product_except(
                    m,
                    pivots.len(),
                    pivot_row(pivots, k),
                ))
            } else {
                0
            },
    )
}

/// In a finished elimination a column without a pivot is dependent, as the
/// witness shows.
pub proof fn lemma_free_column_dependent(m: Seq<ScaledRow>, cols: int, pivots: Seq<int>, j: int)
    requires
        echelon_complete(m, cols, pivots),
        0 <= j < cols,
        !pivots.contains(j),
    ensures
        depends_by(m, cols, j, dependence_witness(m, cols, pivots, j)),
        dependent_column(m, cols, j),
{
    let c = dependence_witness(m, cols, pivots, j);
    let r = pivots.len();
    lemma_echelon_leading(m, cols, pivots);
    assert forall|i: int| 0 <= i < m.len() implies annihilates(c, #[trigger] m[i]) by {
        let x = m[i].nums;
        assert(m[i].valid(cols));
        if i >= r {
            assert(m[i].is_zero_row());
            lemma_idot_sparse(x, c, c.len(), -1, -2);
        } else {
            let p = pivots[i];
            assert(pivots.contains(p));
            assert(p != j);
            assert forall|k: int| 0 <= k < cols && k != p && k != j implies x[k] == 0 || c[k]
                == 0 by {
                if k < p {
                    assert(m[i].nums[k] == 0);
                } else if k < j && pivots.contains(k) {
                    let i2 = pivot_row(pivots, k);
                    assert(pivots[i2] == k);
                    assert(m[i].nums[pivots[i2]] == 0);
                }
            }
            if p > j {
                assert(x[j] == 0) by {
                    assert(m[i].nums[j] == 0);
                }
                assert(c[p] == 0);
                lemma_idot_sparse(x, c, c.len(), p, j);
                assert(x[p] * c[p] == 0) by (nonlinear_arith)
                    requires
                        c[p] == 0,
                ;
                assert(x[j] * c[j] == 0) by (nonlinear_arith)
                    requires
                        x[j] == 0,
                ;
            } else {
                let i2 = pivot_row(pivots, p);
                assert(pivots[i2] == p);
                assert(i2 == i) by {
                    if i2 < i {
                        assert(pivots[i2] < pivots[i]);
                    }
                    if i < i2 {
                        assert(pivots[i] < pivots[i2]);
                    }
                }
                let d = m[i].den;
                let e = dens_product_except(m, r, i);
                let whole = dens_product(m, r);
                lemma_dens_product_split(m, r, i);
                assert(m[i].one_at(p));
                assert(x[p] == d);
                assert(c[p] == -(x[j] * e));
                assert(c[j] == whole);
                lemma_idot_sparse(x, c, c.len(), p, j);
                assert(d * (-(x[j] * e)) + x[j] * whole == 0) by (nonlinear_arith)
                    requires
                        d * e == whole,
                ;
            }
        }
    }
    assert forall|i: int| 0 <= i < r implies (#[trigger] m[i]).den != 0 by {
        assert(m[i].valid(cols));
    }
    lemma_dens_product_nonzero(m, r);
    assert(depends_by(m, cols, j, c));
}

/// In a finished elimination a pivot column is not dependent.
pub proof fn lemma_pivot_column_independent(m: Seq<ScaledRow>, cols: int, pivots: Seq<int>, i: int)
    requires
        echelon_complete(m, cols, pivots),
        0 <= i < pivots.len(),
    ensures
        !dependent_column(m, cols, pivots[i]),
{
    let j = pivots[i];
    if dependent_column(m, cols, j) {
        let c = choose|c: Seq<int>| depends_by(m, cols, j, c);
        assert(annihilates(c, m[i]));
        assert(m[i].valid(cols));
        assert forall|k: int| 0 <= k < cols && k != j implies m[i].nums[k] == 0 || c[k] == 0 by {
            if k < j {
                assert(m[i].nums[k] == 0);
            }
        }
        lemma_idot_sparse(m[i].nums, c, c.len(), j, -1);
        assert(m[i].one_at(j));
        lemma_product_nonzero(m[i].nums[j], c[j]);
    }
}

/// In a finished elimination the pivot columns are the columns that are not
/// dependent.
pub proof fn lemma_echelon_independent_columns(m: Seq<ScaledRow>, cols: int, pivots: Seq<int>)
    requires
        echelon_complete(m, cols, pivots),
    ensures
        independent_columns(m, cols) == pivots.to_set(),
{
    assert forall|j: int| independent_columns(m, cols).contains(j) == pivots.to_set().contains(
        j,
    ) by {
        if pivots.contains(j) {
            let i = choose|i: int| 0 <= i < pivots.len() && pivots[i] == j;
            lemma_pivot_column_independent(m, cols, pivots, i);
        } else if 0 <= j < cols {
            lemma_free_column_dependent(m, cols, pivots, j);
        }
    }
    assert(independent_columns(m, cols) =~= pivots.to_set());
}

/// The rank of a finished elimination is its number of pivots.
pub proof fn lemma_echelon_rank(m: Seq<ScaledRow>, cols: int, pivots: Seq<int>)
    requires
        echelon_complete(m, cols, pivots),
    ensures
        rank_of(m, cols) == pivots.len(),
        pivots.len() <= cols,
{
    lemma_echelon_independent_columns(m, cols, pivots);
    assert(pivots.no_duplicates()) by {
        assert forall|a: int, b: int|
            0 <= a < pivots.len() && 0 <= b < pivots.len() && a != b implies pivots[a]
            != pivots[b] by {
            if a < b {
                assert(pivots[a] < pivots[b]);
            } else {
                assert(pivots[b] < pivots[a]);
            }
        }
    }
    pivots.unique_seq_to_set();
    assert(pivots.to_set().subset_of(set_int_range(0, cols)));
    lemma_int_range(0, cols);
    lemma_len_subset(pivots.to_set(), set_int_range(0, cols));
}

} // verus!
