//! Gaussian elimination to reduced row-echelon form, and the rank it finds.

use crate::echelon::{
    echelon, echelon_complete, is_rref, leading, lemma_echelon_is_rref,
    lemma_echelon_nonzero_rows, lemma_echelon_rank, lemma_leading_from, nonzero_rows,
};
use crate::elimination::{
    lemma_echelon_advance, lemma_echelon_eliminated, lemma_echelon_full,
    lemma_echelon_pivot_made, lemma_echelon_swapped, lemma_rref_pivot_in_place,
};
use crate::linalg::{
    lemma_kernel_row_divided, lemma_kernel_row_eliminated, lemma_kernel_swapped,
    lemma_rank_same_kernel, lemma_same_kernel_symmetric, lemma_same_kernel_transitive, rank_of,
    same_kernel, valid_rows, ScaledRow,
};
use crate::content::{lemma_lowest_terms_unique, rows_in_lowest_terms};
use crate::matrix::Matrix;
use crate::uniqueness::{leading_columns, lemma_echelon_unique, lemma_rref_is_echelon};
use vstd::prelude::*;

verus! {

/// Counts the rows that hold a nonzero entry.
pub fn count_non_empty_rows(matrix: &Matrix) -> (count: usize)
    requires
        matrix.wf(),
    ensures
        count == nonzero_rows(matrix@),
{
    let num_rows = matrix.num_rows();
    let num_cols = matrix.num_cols();
    let mut count: usize = 0;
    let mut i: usize = 0;
    proof {
        matrix.lemma_wf();
    }
    while i < num_rows
        invariant
            matrix.wf(),
            num_rows == matrix@.len(),
            num_cols == matrix.width(),
            i <= num_rows,
            count <= i,
            count == nonzero_rows(matrix@.take(i as int)),
        decreases num_rows - i,
    {
        let mut k: usize = 0;
        while k < num_cols && matrix.entry_is_zero(i, k)
            invariant
                matrix.wf(),
                num_cols == matrix.width(),
                i < matrix@.len(),
                k <= num_cols,
                forall|j: int| 0 <= j < k ==> matrix@[i as int].nums[j] == 0,
            decreases num_cols - k,
        {
            k += 1;
        }
        proof {
            matrix.lemma_wf();
            let next = matrix@.take(i as int + 1);
            assert(next.drop_last() =~= matrix@.take(i as int));
            assert(next.last() == matrix@[i as int]);
            assert(matrix@[i as int].valid(num_cols as int));
            if k < num_cols {
                assert(matrix@[i as int].zero_at(k as int) == false);
            }
        }
        if k < num_cols {
            count += 1;
        }
        i += 1;
    }
    proof {
        assert(matrix@.take(num_rows as int) =~= matrix@);
    }
    count
}

/// `after` is what elimination makes of `before`, a matrix with `cols`
/// columns, and `rank` is the rank it finds: `after` is in reduced row-echelon
/// form, with its rows in lowest terms, and has the kernel of `before`; `rank`
/// is the rank of `before` and the number of nonzero rows of `after`; and a
/// matrix that is in reduced row-echelon form already is left as it is.
pub open spec fn reduces_to(
    before: Seq<ScaledRow>,
    cols: int,
    after: Seq<ScaledRow>,
    rank: int,
) -> bool {
    &&& after.len() == before.len()
    &&& valid_rows(after, cols)
    &&& rows_in_lowest_terms(after)
    &&& is_rref(after, cols)
    &&& same_kernel(before, after, cols)
    &&& rank == rank_of(before, cols)
    &&& rank == nonzero_rows(after)
    &&& 0 <= rank <= before.len()
    &&& rank <= cols
    &&& is_rref(before, cols) ==> after == before
}

/// Reducing a reduced matrix once more leaves it unchanged and finds the same
/// rank.
pub proof fn law_row_reduce_is_idempotent(
    start: Seq<ScaledRow>,
    cols: int,
    once: Seq<ScaledRow>,
    first_rank: int,
    twice: Seq<ScaledRow>,
    second_rank: int,
)
    requires
        reduces_to(start, cols, once, first_rank),
        reduces_to(once, cols, twice, second_rank),
    ensures
        twice == once,
        second_rank == first_rank,
{
    lemma_rank_same_kernel(start, once, cols);
}

/// What elimination makes of a matrix is determined by the matrix: two
/// outcomes are the same matrix and find the same rank.
pub proof fn law_reduced_form_is_unique(
    start: Seq<ScaledRow>,
    cols: int,
    one: Seq<ScaledRow>,
    rank_one: int,
    other: Seq<ScaledRow>,
    rank_other: int,
)
    requires
        reduces_to(start, cols, one, rank_one),
        reduces_to(start, cols, other, rank_other),
    ensures
        rank_one == rank_other,
        one == other,
{
    if one.len() > 0 {
        assert(one[0].valid(cols));
        lemma_rref_is_echelon(one, cols);
        lemma_rref_is_echelon(other, cols);
        lemma_same_kernel_symmetric(start, other, cols);
        lemma_same_kernel_transitive(other, start, one, cols);
        lemma_echelon_unique(
            other,
            leading_columns(other, cols),
            one,
            leading_columns(one, cols),
            cols,
        );
        assert forall|i: int| 0 <= i < one.len() implies one[i] == other[i] by {
            assert(one[i].same_as(other[i]));
            lemma_lowest_terms_unique(one[i], other[i]);
        }
    }
    assert(one =~= other);
}

/// Brings the matrix to reduced row-echelon form and returns its rank.
///
/// The columns are swept from left to right. In each column the first row at
/// or below the current one with a nonzero entry becomes the pivot row: it is
/// moved up, divided by that entry, and subtracted from every other row until
/// the rest of the column is zero. A column without such a row is passed
/// over.
pub fn row_reduce(matrix: &mut Matrix) -> (rank: usize)
    requires
        old(matrix).wf(),
    ensures
        final(matrix).wf(),
        final(matrix).width() == old(matrix).width(),
        reduces_to(old(matrix)@, old(matrix).width(), final(matrix)@, rank as int),
{
    let num_rows = matrix.num_rows();
    let num_cols = matrix.num_cols();
    let ghost start = matrix@;
    let ghost w = matrix.width();
    let ghost mut pivots: Seq<int> = Seq::empty();
    let mut current_row: usize = 0;
    let mut pivot_col: usize = 0;
    proof {
        matrix.lemma_wf();
    }
    while current_row < num_rows && pivot_col < num_cols
        invariant
            matrix.wf(),
            matrix.width() == w,
            matrix@.len() == num_rows,
            num_cols == w,
            start.len() == num_rows,
            current_row <= num_rows,
            pivot_col <= num_cols,
            pivots.len() == current_row,
            forall|i: int| 0 <= i < pivots.len() ==> #[trigger] pivots[i] < pivot_col,
            echelon(matrix@, w, pivots, pivot_col as int, num_rows as int),
            same_kernel(start, matrix@, w),
            is_rref(start, w) ==> matrix@ == start,
        decreases num_cols - pivot_col,
    {
        let mut next_row: usize = current_row;
        while next_row < num_rows && matrix.entry_is_zero(next_row, pivot_col)
            invariant
                matrix.wf(),
                matrix.width() == w,
                matrix@.len() == num_rows,
                num_cols == w,
                current_row <= next_row <= num_rows,
                pivot_col < num_cols,
                forall|j: int|
                    current_row <= j < next_row ==> #[trigger] matrix@[j].nums[pivot_col as int]
                        == 0,
            decreases num_rows - next_row,
        {
            next_row += 1;
        }
        if next_row == num_rows {
            proof {
                lemma_echelon_advance(matrix@, w, pivots, pivot_col as int);
            }
            pivot_col += 1;
        } else {
            let ghost searched = matrix@;
            proof {
                matrix.lemma_wf();
                if is_rref(start, w) {
                    lemma_rref_pivot_in_place(
                        searched,
                        w,
                        pivots,
                        pivot_col as int,
                        next_row as int,
                    );
                }
            }
            matrix.swap_rows(current_row, next_row);
            let ghost swapped = matrix@;
            proof {
                matrix.lemma_wf();
                lemma_echelon_swapped(
                    searched,
                    w,
                    pivots,
                    pivot_col as int,
                    current_row as int,
                    next_row as int,
                );
                lemma_kernel_swapped(searched, current_row as int, next_row as int, w);
                lemma_same_kernel_transitive(start, searched, swapped, w);
                if is_rref(start, w) {
                    assert(swapped =~= searched);
                }
            }
            if !matrix.entry_is_one(current_row, pivot_col) {
                matrix.divide_row_by_entry(current_row, pivot_col);
                proof {
                    matrix.lemma_wf();
                    assert(matrix@ =~= swapped.update(
                        current_row as int,
                        matrix@[current_row as int],
                    ));
                    lemma_kernel_row_divided(
                        swapped,
                        matrix@,
                        w,
                        current_row as int,
                        pivot_col as int,
                    );
                    lemma_same_kernel_transitive(start, swapped, matrix@, w);
                }
            }
            proof {
                matrix.lemma_wf();
                assert(matrix@ =~= swapped.update(current_row as int, matrix@[current_row as int]));
                lemma_echelon_pivot_made(swapped, matrix@, w, pivots, pivot_col as int);
                pivots = pivots.push(pivot_col as int);
            }
            let mut other: usize = 0;
            while other < num_rows
                invariant
                    matrix.wf(),
                    matrix.width() == w,
                    matrix@.len() == num_rows,
                    num_cols == w,
                    start.len() == num_rows,
                    current_row < num_rows,
                    pivot_col < num_cols,
                    other <= num_rows,
                    pivots.len() == current_row + 1,
                    pivots.last() == pivot_col,
                    echelon(matrix@, w, pivots, pivot_col as int, other as int),
                    same_kernel(start, matrix@, w),
                    is_rref(start, w) ==> matrix@ == start,
                decreases num_rows - other,
            {
                let ghost before = matrix@;
                proof {
                    matrix.lemma_wf();
                }
                if other != current_row && !matrix.entry_is_zero(other, pivot_col) {
                    proof {
                        if is_rref(start, w) {
                            lemma_rref_pivot_found(before, w, pivots, pivot_col as int, other as int);
                        }
                    }
                    matrix.subtract_multiple(other, current_row, pivot_col);
                    proof {
                        matrix.lemma_wf();
                        assert(matrix@ =~= before.update(other as int, matrix@[other as int]));
                        lemma_kernel_row_eliminated(
                            before,
                            matrix@,
                            w,
                            other as int,
                            current_row as int,
                            pivot_col as int,
                        );
                        lemma_same_kernel_transitive(start, before, matrix@, w);
                    }
                }
                proof {
                    assert(matrix@ =~= before.update(other as int, matrix@[other as int]));
                    lemma_echelon_eliminated(
                        before,
                        matrix@,
                        w,
                        pivots,
                        pivot_col as int,
                        other as int,
                    );
                }
                other += 1;
            }
            proof {
                assert forall|j: int| pivots.len() <= j < matrix@.len() implies #[trigger] matrix@[j].nums[pivot_col as int]
                    == 0 by {
                    assert(pivots[current_row as int] == pivot_col);
                    assert(matrix@[j].nums[pivots[current_row as int]] == 0);
                }
                lemma_echelon_advance(matrix@, w, pivots, pivot_col as int);
            }
            current_row += 1;
            pivot_col += 1;
        }
    }
    proof {
        matrix.lemma_wf();
        if pivot_col < num_cols {
            lemma_echelon_full(matrix@, w, pivots, pivot_col as int);
        }
        assert(echelon_complete(matrix@, w, pivots));
        lemma_echelon_is_rref(matrix@, w, pivots);
        lemma_echelon_rank(matrix@, w, pivots);
        lemma_rank_same_kernel(start, matrix@, w);
        lemma_echelon_nonzero_rows(matrix@, w, pivots);
    }
    current_row
}

/// In a reduced row-echelon form a pivot column is zero outside its pivot
/// row.
proof fn lemma_rref_pivot_found(
    m: Seq<ScaledRow>,
    cols: int,
    pivots: Seq<int>,
    frontier: int,
    other: int,
)
    requires
        valid_rows(m, cols),
        is_rref(m, cols),
        pivots.len() >= 1,
        pivots.last() == frontier,
        0 <= frontier < cols,
        0 <= other < m.len(),
        other != pivots.len() - 1,
        exists|done: int| echelon(m, cols, pivots, frontier, done),
    ensures
        m[other].nums[frontier] == 0,
{
    let cur = pivots.len() - 1;
    let done = choose|done: int| echelon(m, cols, pivots, frontier, done);
    assert(m[cur].valid(cols));
    assert(m[cur].one_at(pivots[cur]));
    assert forall|k: int| 0 <= k < frontier implies m[cur].nums[k] == 0 by {
        assert(m[cur].nums[k] == 0);
    }
    lemma_leading_from(m[cur].nums, 0, frontier);
    assert(m[other].zero_at(leading(m[cur])));
}

} // verus!
