//! The steps of an elimination, each keeping what the earlier steps have
//! reached, and the elimination as a whole: every matrix has a reduced
//! row-echelon form.

use crate::arith::{
    lemma_cancel, lemma_product_nonzero, lemma_proportional_zero, lemma_zero_product,
};
use crate::echelon::{
    echelon, echelon_complete, is_rref, leading, lemma_echelon_is_rref,
    lemma_echelon_nonzero_rows, lemma_echelon_rank, lemma_leading_from, lemma_leading_properties,
    nonzero_rows,
};
use crate::linalg::{
    lemma_kernel_row_divided, lemma_kernel_row_eliminated, lemma_kernel_swapped,
    lemma_rank_same_kernel, lemma_same_kernel_transitive, rank_of, same_kernel, valid_rows,
    ScaledRow,
};
use vstd::prelude::*;

verus! {

/// Exchanging two rows without a pivot keeps the state of an elimination.
pub proof fn lemma_echelon_swapped(
    m: Seq<ScaledRow>,
    cols: int,
    pivots: Seq<int>,
    frontier: int,
    a: int,
    b: int,
)
    requires
        echelon(m, cols, pivots, frontier, m.len() as int),
        pivots.len() <= a < m.len(),
        pivots.len() <= b < m.len(),
    ensures
        echelon(m.update(a, m[b]).update(b, m[a]), cols, pivots, frontier, m.len() as int),
{
    let m2 = m.update(a, m[b]).update(b, m[a]);
    let r = pivots.len() as int;
    assert forall|i: int| 0 <= i < r implies (#[trigger] m2[i]).one_at(pivots[i]) by {
        assert(m2[i] == m[i]);
    }
    assert forall|i: int, k: int| 0 <= i < r && 0 <= k < pivots[i] implies #[trigger] m2[i].nums[k]
        == 0 by {
        assert(m2[i] == m[i]);
        assert(m[i].nums[k] == 0);
    }
    assert forall|i: int, j: int|
        0 <= i < r && 0 <= j < m2.len() && j != i implies #[trigger] m2[j].nums[pivots[i]] == 0 by {
        let j0 = if j == a {
            b
        } else if j == b {
            a
        } else {
            j
        };
        assert(m2[j] == m[j0]);
        assert(m[j0].nums[pivots[i]] == 0);
    }
    assert forall|j: int, k: int| r <= j < m2.len() && 0 <= k < frontier implies #[trigger] m2[j].nums[k]
        == 0 by {
        let j0 = if j == a {
            b
        } else if j == b {
            a
        } else {
            j
        };
        assert(m2[j] == m[j0]);
        assert(m[j0].nums[k] == 0);
    }
}

/// Where the column at the frontier is zero in the rows without a pivot, the
/// frontier moves on.
pub proof fn lemma_echelon_advance(m: Seq<ScaledRow>, cols: int, pivots: Seq<int>, frontier: int)
    requires
        echelon(m, cols, pivots, frontier, m.len() as int),
        forall|j: int| pivots.len() <= j < m.len() ==> #[trigger] m[j].nums[frontier] == 0,
    ensures
        echelon(m, cols, pivots, frontier + 1, m.len() as int),
{
    assert forall|j: int, k: int|
        pivots.len() <= j < m.len() && 0 <= k < frontier + 1 implies #[trigger] m[j].nums[k]
        == 0 by {
        if k < frontier {
            assert(m[j].nums[k] == 0);
        }
    }
}

/// Once every row has a pivot, nothing is left before any frontier.
pub proof fn lemma_echelon_full(m: Seq<ScaledRow>, cols: int, pivots: Seq<int>, frontier: int)
    requires
        echelon(m, cols, pivots, frontier, m.len() as int),
        pivots.len() == m.len(),
    ensures
        echelon(m, cols, pivots, cols, m.len() as int),
{
}

/// Dividing the first row without a pivot by its entry at the frontier gives
/// it a pivot there.
pub proof fn lemma_echelon_pivot_made(
    m: Seq<ScaledRow>,
    m2: Seq<ScaledRow>,
    cols: int,
    pivots: Seq<int>,
    frontier: int,
)
    requires
        valid_rows(m, cols),
        valid_rows(m2, cols),
        echelon(m, cols, pivots, frontier, m.len() as int),
        pivots.len() < m.len(),
        0 <= frontier < cols,
        forall|i: int| 0 <= i < pivots.len() ==> #[trigger] pivots[i] < frontier,
        m[pivots.len() as int].nums[frontier] != 0,
        m2 =~= m.update(pivots.len() as int, m2[pivots.len() as int]),
        m2[pivots.len() as int].same_as(m[pivots.len() as int].divided_by_entry(frontier)) || (m2
            == m && m[pivots.len() as int].one_at(frontier)),
    ensures
        echelon(m2, cols, pivots.push(frontier), frontier, 0),
{
    let r = pivots.len() as int;
    let extended = pivots.push(frontier);
    let old_row = m[r];
    let new_row = m2[r];
    let p = old_row.nums[frontier];
    assert(old_row.valid(cols));
    assert(new_row.valid(cols));
    assert forall|k: int| 0 <= k < cols && old_row.nums[k] == 0 implies new_row.nums[k] == 0 by {
        if !(m2 == m && old_row.one_at(frontier)) {
            assert(new_row.nums[k] * p == old_row.nums[k] * new_row.den);
            lemma_zero_product(old_row.nums[k], new_row.den);
            lemma_proportional_zero(new_row.nums[k], p, 0, 1);
        }
    }
    assert(new_row.one_at(frontier)) by {
        if !(m2 == m && old_row.one_at(frontier)) {
            assert(new_row.nums[frontier] * p == old_row.nums[frontier] * new_row.den);
            lemma_cancel(new_row.nums[frontier], new_row.den, p);
        }
    }
    assert forall|i: int| 0 <= i < r + 1 implies (#[trigger] m2[i]).one_at(extended[i]) by {
        if i < r {
            assert(m2[i] == m[i]);
            assert(m[i].one_at(pivots[i]));
        }
    }
    assert forall|i: int, j: int| 0 <= i < j < r + 1 implies #[trigger] extended[i] < #[trigger] extended[j] by {
        if j < r {
            assert(pivots[i] < pivots[j]);
        } else {
            assert(pivots[i] < frontier);
        }
    }
    assert forall|i: int, k: int| 0 <= i < r + 1 && 0 <= k < extended[i] implies #[trigger] m2[i].nums[k]
        == 0 by {
        if i < r {
            assert(m2[i] == m[i]);
            assert(m[i].nums[k] == 0);
        } else {
            assert(m[r].nums[k] == 0);
        }
    }
    assert forall|i: int, j: int|
        0 <= i < r + 1 && 0 <= j < m2.len() && j != i && (i < r + 1 - 1 || j < 0)
        implies #[trigger] m2[j].nums[extended[i]] == 0 by {
        assert(extended[i] == pivots[i]);
        assert(m[j].nums[pivots[i]] == 0);
        if j != r {
            assert(m2[j] == m[j]);
        }
    }
    assert forall|j: int, k: int| r + 1 <= j < m2.len() && 0 <= k < frontier implies #[trigger] m2[j].nums[k]
        == 0 by {
        assert(m2[j] == m[j]);
        assert(m[j].nums[k] == 0);
    }
}

/// Clearing the pivot column at the frontier in one more row.
pub proof fn lemma_echelon_eliminated(
    m: Seq<ScaledRow>,
    m2: Seq<ScaledRow>,
    cols: int,
    pivots: Seq<int>,
    frontier: int,
    done: int,
)
    requires
        valid_rows(m, cols),
        valid_rows(m2, cols),
        echelon(m, cols, pivots, frontier, done),
        pivots.len() >= 1,
        pivots.last() == frontier,
        0 <= done < m.len(),
        m2 =~= m.update(done, m2[done]),
        (m2 == m && (done == pivots.len() - 1 || m[done].nums[frontier] == 0)) || (done
            != pivots.len() - 1 && m2[done].same_as(
            m[done].minus_multiple_of(m[pivots.len() - 1], frontier),
        )),
    ensures
        echelon(m2, cols, pivots, frontier, done + 1),
{
    let r = pivots.len() as int;
    let cur = r - 1;
    if m2 == m && (done == cur || m[done].nums[frontier] == 0) {
        assert forall|i: int, j: int|
            0 <= i < r && 0 <= j < m2.len() && j != i && (i < r - 1 || j < done + 1)
            implies #[trigger] m2[j].nums[pivots[i]] == 0 by {
            if i < r - 1 || j < done {
                assert(m[j].nums[pivots[i]] == 0);
            } else {
                assert(pivots[i] == pivots.last());
                assert(m[done].nums[frontier] == 0);
            }
        }
    } else {
        let t = m[done];
        let s = m[cur];
        let e = t.minus_multiple_of(s, frontier);
        let n = m2[done];
        assert(t.valid(cols));
        assert(s.valid(cols));
        assert(n.valid(cols));
        assert(s.one_at(pivots[cur]));
        lemma_product_nonzero(t.den, s.den);
        // where the source row is zero, the target row keeps its zeros and ones
        assert forall|k: int| 0 <= k < cols && s.nums[k] == 0 implies (t.nums[k] == 0 ==> n.nums[k]
            == 0) && (t.nums[k] == t.den ==> n.nums[k] == n.den) by {
            assert(n.nums[k] * e.den == e.nums[k] * n.den);
            lemma_zero_product(t.nums[frontier], s.nums[k]);
            assert(e.nums[k] == t.nums[k] * s.den);
            if t.nums[k] == 0 {
                lemma_zero_product(t.nums[k], s.den);
                lemma_zero_product(e.nums[k], n.den);
                lemma_proportional_zero(n.nums[k], e.den, 0, 1);
            }
            if t.nums[k] == t.den {
                assert(n.nums[k] * e.den == e.den * n.den);
                lemma_cancel(n.nums[k], n.den, e.den);
            }
        }
        // the entry at the frontier becomes zero
        assert(n.nums[frontier] == 0) by {
            assert(n.nums[frontier] * e.den == e.nums[frontier] * n.den);
            assert(s.nums[frontier] == s.den);
            assert(e.nums[frontier] == 0);
            lemma_zero_product(e.nums[frontier], n.den);
            lemma_proportional_zero(n.nums[frontier], e.den, 0, 1);
        }
        assert forall|k: int| 0 <= k < frontier implies s.nums[k] == 0 by {
            assert(m[cur].nums[k] == 0);
        }
        assert forall|i: int| 0 <= i < cur implies s.nums[pivots[i]] == 0 by {
            assert(m[cur].nums[pivots[i]] == 0);
        }
        assert forall|i: int| 0 <= i < r implies (#[trigger] m2[i]).one_at(pivots[i]) by {
            assert(m[i].one_at(pivots[i]));
            if i == done {
                assert(pivots[i] < pivots[cur]);
            }
        }
        assert forall|i: int, k: int| 0 <= i < r && 0 <= k < pivots[i] implies #[trigger] m2[i].nums[k]
            == 0 by {
            assert(m[i].nums[k] == 0);
            if i == done {
                assert(pivots[i] < pivots[cur]);
            }
        }
        assert forall|i: int, j: int|
            0 <= i < r && 0 <= j < m2.len() && j != i && (i < r - 1 || j < done + 1)
            implies #[trigger] m2[j].nums[pivots[i]] == 0 by {
            if j == done {
                if i < r - 1 {
                    assert(m[j].nums[pivots[i]] == 0);
                }
            } else {
                assert(m2[j] == m[j]);
                assert(m[j].nums[pivots[i]] == 0);
            }
        }
        assert forall|j: int, k: int| r <= j < m2.len() && 0 <= k < frontier implies #[trigger] m2[j].nums[k]
            == 0 by {
            assert(m[j].nums[k] == 0);
        }
    }
}

/// In a reduced row-echelon form the search for a pivot finds it in place: the
/// first row without a pivot holds a one at the frontier, which is zero in
/// every other row.
pub proof fn lemma_rref_pivot_in_place(
    m: Seq<ScaledRow>,
    cols: int,
    pivots: Seq<int>,
    frontier: int,
    found: int,
)
    requires
        valid_rows(m, cols),
        is_rref(m, cols),
        echelon(m, cols, pivots, frontier, m.len() as int),
        pivots.len() <= found < m.len(),
        0 <= frontier < cols,
        m[found].nums[frontier] != 0,
    ensures
        found == pivots.len(),
        m[found].one_at(frontier),
        forall|j: int| 0 <= j < m.len() && j != found ==> #[trigger] m[j].nums[frontier] == 0,
{
    let r = pivots.len() as int;
    assert(m[found].valid(cols));
    assert forall|k: int| 0 <= k < frontier implies m[found].nums[k] == 0 by {
        assert(m[found].nums[k] == 0);
    }
    lemma_leading_from(m[found].nums, 0, frontier);
    assert(leading(m[found]) == frontier);
    if found > r {
        assert(m[r].valid(cols));
        assert(leading(m[r]) < leading(m[found]));
        lemma_leading_properties(m[r].nums, 0);
        assert(m[r].nums[leading(m[r])] == 0);
    }
    assert forall|j: int| 0 <= j < m.len() && j != found implies #[trigger] m[j].nums[frontier]
        == 0 by {
        assert(m[j].zero_at(leading(m[found])));
    }
}

/// The column at the frontier can be cleared in every row from `done` on: the
/// outcome is the state with all rows done, and has the same kernel.
pub proof fn lemma_column_cleared(
    m: Seq<ScaledRow>,
    cols: int,
    pivots: Seq<int>,
    frontier: int,
    done: int,
) -> (cleared: Seq<ScaledRow>)
    requires
        valid_rows(m, cols),
        echelon(m, cols, pivots, frontier, done),
        pivots.len() >= 1,
        pivots.last() == frontier,
        0 <= frontier < cols,
        0 <= done <= m.len(),
    ensures
        cleared.len() == m.len(),
        valid_rows(cleared, cols),
        echelon(cleared, cols, pivots, frontier, m.len() as int),
        same_kernel(m, cleared, cols),
    decreases m.len() - done,
{
    let cur = pivots.len() - 1;
    if done == m.len() {
        m
    } else if done == cur || m[done].nums[frontier] == 0 {
        assert(m =~= m.update(done, m[done]));
        lemma_echelon_eliminated(m, m, cols, pivots, frontier, done);
        lemma_column_cleared(m, cols, pivots, frontier, done + 1)
    } else {
        let row = m[done].minus_multiple_of(m[cur], frontier);
        let next = m.update(done, row);
        assert(m[done].valid(cols));
        assert(m[cur].valid(cols));
        lemma_product_nonzero(m[done].den, m[cur].den);
        assert forall|i: int| 0 <= i < next.len() implies (#[trigger] next[i]).valid(cols) by {
            if i != done {
                assert(m[i].valid(cols));
            }
        }
        assert(next =~= m.update(done, next[done]));
        lemma_echelon_eliminated(m, next, cols, pivots, frontier, done);
        lemma_kernel_row_eliminated(m, next, cols, done, cur, frontier);
        let cleared = lemma_column_cleared(next, cols, pivots, frontier, done + 1);
        lemma_same_kernel_transitive(m, next, cleared, cols);
        cleared
    }
}

/// An elimination can always be brought to its end: the outcome is a finished
/// elimination with the same kernel.
pub proof fn lemma_elimination_finishes(
    m: Seq<ScaledRow>,
    cols: int,
    pivots: Seq<int>,
    frontier: int,
) -> (end: (Seq<ScaledRow>, Seq<int>))
    requires
        valid_rows(m, cols),
        echelon(m, cols, pivots, frontier, m.len() as int),
        forall|i: int| 0 <= i < pivots.len() ==> #[trigger] pivots[i] < frontier,
        0 <= frontier <= cols,
    ensures
        end.0.len() == m.len(),
        echelon_complete(end.0, cols, end.1),
        same_kernel(m, end.0, cols),
    decreases cols - frontier,
{
    let r = pivots.len() as int;
    if r == m.len() {
        lemma_echelon_full(m, cols, pivots, frontier);
        (m, pivots)
    } else if frontier == cols {
        (m, pivots)
    } else if exists|j: int| r <= j < m.len() && m[j].nums[frontier] != 0 {
        let j = choose|j: int| r <= j < m.len() && m[j].nums[frontier] != 0;
        let swapped = m.update(r, m[j]).update(j, m[r]);
        lemma_echelon_swapped(m, cols, pivots, frontier, r, j);
        lemma_kernel_swapped(m, r, j, cols);
        assert forall|i: int| 0 <= i < swapped.len() implies (#[trigger] swapped[i]).valid(
            cols,
        ) by {
            assert(m[i].valid(cols));
            assert(m[j].valid(cols));
            assert(m[r].valid(cols));
        }
        let scaled = swapped.update(r, swapped[r].divided_by_entry(frontier));
        assert forall|i: int| 0 <= i < scaled.len() implies (#[trigger] scaled[i]).valid(cols) by {
            assert(swapped[i].valid(cols));
        }
        assert(scaled =~= swapped.update(r, scaled[r]));
        lemma_kernel_row_divided(swapped, scaled, cols, r, frontier);
        lemma_echelon_pivot_made(swapped, scaled, cols, pivots, frontier);
        let extended = pivots.push(frontier);
        let cleared = lemma_column_cleared(scaled, cols, extended, frontier, 0);
        assert forall|i: int| extended.len() <= i < cleared.len() implies #[trigger] cleared[i].nums[frontier]
            == 0 by {
            assert(extended[r] == frontier);
            assert(cleared[i].nums[extended[r]] == 0);
        }
        lemma_echelon_advance(cleared, cols, extended, frontier);
        assert forall|i: int| 0 <= i < extended.len() implies #[trigger] extended[i] < frontier
            + 1 by {
            if i < r {
                assert(pivots[i] < frontier);
            }
        }
        let end = lemma_elimination_finishes(cleared, cols, extended, frontier + 1);
        lemma_same_kernel_transitive(m, swapped, scaled, cols);
        lemma_same_kernel_transitive(m, scaled, cleared, cols);
        lemma_same_kernel_transitive(m, cleared, end.0, cols);
        end
    } else {
        lemma_echelon_advance(m, cols, pivots, frontier);
        assert forall|i: int| 0 <= i < pivots.len() implies #[trigger] pivots[i] < frontier + 1 by {
            assert(pivots[i] < frontier);
        }
        lemma_elimination_finishes(m, cols, pivots, frontier + 1)
    }
}

/// Every matrix has a reduced row-echelon form with the same kernel; the
/// number of its nonzero rows is the rank of the matrix.
pub proof fn law_reduced_form_exists(m: Seq<ScaledRow>, cols: int) -> (reduced: Seq<ScaledRow>)
    requires
        0 <= cols,
        valid_rows(m, cols),
    ensures
        reduced.len() == m.len(),
        valid_rows(reduced, cols),
        is_rref(reduced, cols),
        same_kernel(m, reduced, cols),
        nonzero_rows(reduced) == rank_of(m, cols),
{
    let end = lemma_elimination_finishes(m, cols, Seq::<int>::empty(), 0);
    lemma_echelon_is_rref(end.0, cols, end.1);
    lemma_echelon_nonzero_rows(end.0, cols, end.1);
    lemma_echelon_rank(end.0, cols, end.1);
    lemma_rank_same_kernel(m, end.0, cols);
    end.0
}

/// The rank of a matrix is at most the number of its rows and at most the
/// number of its columns.
pub proof fn law_rank_within_dimensions(m: Seq<ScaledRow>, cols: int)
    requires
        0 <= cols,
        valid_rows(m, cols),
    ensures
        0 <= rank_of(m, cols) <= m.len(),
        rank_of(m, cols) <= cols,
{
    let end = lemma_elimination_finishes(m, cols, Seq::<int>::empty(), 0);
    lemma_echelon_rank(end.0, cols, end.1);
    lemma_rank_same_kernel(m, end.0, cols);
}

} // verus!
