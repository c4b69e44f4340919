//! Repeated trials: random integer matrices, their ranks, and the statistics
//! of those ranks.

use crate::linalg::rank_of;
use crate::matrix::{integer_model, Matrix};
use crate::reduce::{count_non_empty_rows, row_reduce};
use rand::Rng;
use vstd::prelude::*;

verus! {

/// The least value of a matrix entry.
pub const MIN_ALLOWED_MATRIX_VALUE: i64 = 0;

/// The greatest value of a matrix entry.
pub const MAX_ALLOWED_MATRIX_VALUE: i64 = 1000;

/// Declares `rand::rngs::ThreadRng`, the handle to the random number
/// generator of a thread. Nothing is known of what it holds.
#[verifier::external_type_specification]
#[verifier::external_body]
pub struct ExThreadRng(rand::rngs::ThreadRng);

/// Calls `rand::thread_rng`, which hands out the random number generator of
/// the current thread. Nothing is claimed of the generator. The call fails
/// only where the system cannot seed a generator.
#[verifier::external_body]
fn thread_generator() -> rand::rngs::ThreadRng {
    rand::thread_rng()
}

/// Calls `Rng::gen_range` on the inclusive range from `low` to `high`. The
/// range must not be empty; the value drawn lies in it. Which value is drawn
/// is left open.
#[verifier::external_body]
fn sample_inclusive(rng: &mut rand::rngs::ThreadRng, low: i64, high: i64) -> (value: i64)
    requires
        low <= high,
    ensures
        low <= value <= high,
{
    rng.gen_range(low..=high)
}

/// Every row has `size` entries, each within the allowed values.
pub open spec fn rows_in_range(rows: Seq<Vec<i64>>, size: int) -> bool {
    forall|i: int|
        0 <= i < rows.len() ==> (#[trigger] rows[i])@.len() == size && forall|k: int|
            0 <= k < size ==> MIN_ALLOWED_MATRIX_VALUE <= #[trigger] rows[i]@[k]
                <= MAX_ALLOWED_MATRIX_VALUE
}

/// Draws `n_vectors` random vectors of `size` entries each.
pub fn generate_random_matrix(size: usize, n_vectors: usize) -> (matrix: Vec<Vec<i64>>)
    ensures
        matrix@.len() == n_vectors,
        rows_in_range(matrix@, size as int),
{
    let mut rng = thread_generator();
    let mut matrix: Vec<Vec<i64>> = Vec::new();
    let mut i: usize = 0;
    while i < n_vectors
        invariant
            i <= n_vectors,
            matrix@.len() == i,
            rows_in_range(matrix@, size as int),
        decreases n_vectors - i,
    {
        let mut vector: Vec<i64> = Vec::new();
        let mut k: usize = 0;
        while k < size
            invariant
                k <= size,
                vector@.len() == k,
                forall|j: int|
                    0 <= j < k ==> MIN_ALLOWED_MATRIX_VALUE <= #[trigger] vector@[j]
                        <= MAX_ALLOWED_MATRIX_VALUE,
            decreases size - k,
        {
            let value = sample_inclusive(
                &mut rng,
                MIN_ALLOWED_MATRIX_VALUE,
                MAX_ALLOWED_MATRIX_VALUE,
            );
            vector.push(value);
            k += 1;
        }
        matrix.push(vector);
        i += 1;
    }
    matrix
}

/// The sum of the ranks.
pub open spec fn sum_of(ranks: Seq<usize>) -> nat
    decreases ranks.len(),
{
    if ranks.len() == 0 {
        0
    } else {
        sum_of(ranks.drop_last()) + ranks.last() as nat
    }
}

/// How often `rank` stands among the ranks.
pub open spec fn occurrences(ranks: Seq<usize>, rank: int) -> nat
    decreases ranks.len(),
{
    if ranks.len() == 0 {
        0
    } else {
        occurrences(ranks.drop_last(), rank) + if ranks.last() == rank {
            1nat
        } else {
            0nat
        }
    }
}

/// The statistics of the ranks found in a number of trials.
#[derive(Debug)]
pub struct RankSummary {
    /// The number of trials.
    pub trials: usize,
    /// The sum of the ranks found.
    pub total: u128,
    /// How often each rank was found, by rank.
    pub rank_count: Vec<usize>,
}

impl RankSummary {
    /// The summary is that of the trials whose ranks are `ranks`.
    pub open spec fn describes(&self, ranks: Seq<usize>) -> bool {
        &&& self.trials == ranks.len()
        &&& self.total == sum_of(ranks)
        &&& forall|i: int| 0 <= i < ranks.len() ==> #[trigger] ranks[i] < self.rank_count@.len()
        &&& forall|r: int|
            0 <= r < self.rank_count@.len() ==> #[trigger] self.rank_count@[r] == occurrences(
                ranks,
                r,
            )
    }

    /// No rank was found more often than there were trials, and their sum is
    /// at most the greatest rank times the number of trials.
    pub open spec fn wf(&self) -> bool {
        &&& self.rank_count@.len() >= 1
        &&& self.total <= self.trials * (self.rank_count@.len() - 1)
        &&& forall|r: int|
            0 <= r < self.rank_count@.len() ==> #[trigger] self.rank_count@[r] <= self.trials
    }

    /// The summary of no trials, for ranks up to `size`.
    pub fn new(size: usize) -> (summary: RankSummary)
        requires
            size < usize::MAX,
        ensures
            summary.wf(),
            summary.rank_count@.len() == size + 1,
            summary.describes(Seq::<usize>::empty()),
    {
        let mut rank_count: Vec<usize> = Vec::new();
        let mut r: usize = 0;
        while r < size + 1
            invariant
                size < usize::MAX,
                r <= size + 1,
                rank_count@.len() == r,
                forall|j: int| 0 <= j < r ==> #[trigger] rank_count@[j] == 0,
            decreases size + 1 - r,
        {
            rank_count.push(0);
            r += 1;
        }
        let summary = RankSummary { trials: 0, total: 0, rank_count };
        assert(0 * (summary.rank_count@.len() - 1) == 0);
        summary
    }

    /// Counts one more trial, in which `rank` was found.
    pub fn record(&mut self, rank: usize)
        requires
            old(self).wf(),
            old(self).trials < usize::MAX,
            rank < old(self).rank_count@.len(),
        ensures
            final(self).wf(),
            final(self).trials == old(self).trials + 1,
            final(self).total == old(self).total + rank,
            final(self).rank_count@ == old(self).rank_count@.update(
                rank as int,
                (old(self).rank_count@[rank as int] + 1) as usize,
            ),
            old(self).rank_count@[rank as int] < usize::MAX,
    {
        let length = self.rank_count.len();
        proof {
            let t = self.trials as int;
            let top = length - 1;
            assert((t + 1) * top == t * top + top) by (nonlinear_arith);
            assert(t * top <= 0xFFFF_FFFF_FFFF_FFFF * 0xFFFF_FFFF_FFFF_FFFF) by (nonlinear_arith)
                requires
                    0 <= t <= 0xFFFF_FFFF_FFFF_FFFF,
                    0 <= top <= 0xFFFF_FFFF_FFFF_FFFF,
            ;
        }
        self.trials = self.trials + 1;
        self.total = self.total + rank as u128;
        let count = self.rank_count[rank];
        self.rank_count[rank] = count + 1;
    }

    /// The ranks that were found at least once, each with the number of times
    /// it was found, in rising order.
    pub fn nonzero_rank_counts(&self) -> (found: Vec<(usize, usize)>)
        ensures
            found@ == nonzero_counts(self.rank_count@, self.rank_count@.len()),
    {
        let mut found: Vec<(usize, usize)> = Vec::new();
        let mut r: usize = 0;
        while r < self.rank_count.len()
            invariant
                r <= self.rank_count@.len(),
                found@ == nonzero_counts(self.rank_count@, r as nat),
            decreases self.rank_count@.len() - r,
        {
            if self.rank_count[r] != 0 {
                found.push((r, self.rank_count[r]));
            }
            r += 1;
        }
        found
    }
}

/// The positions below `n` that hold a nonzero count, each with its count.
pub open spec fn nonzero_counts(counts: Seq<usize>, n: nat) -> Seq<(usize, usize)>
    decreases n,
{
    if n == 0 {
        Seq::empty()
    } else {
        let rest = nonzero_counts(counts, (n - 1) as nat);
        if counts[n - 1] != 0 {
            rest.push(((n - 1) as usize, counts[n - 1]))
        } else {
            rest
        }
    }
}

/// Recording a rank in the summary of some trials gives the summary of those
/// trials and one more.
pub proof fn lemma_record_describes(
    before: RankSummary,
    after: RankSummary,
    ranks: Seq<usize>,
    rank: usize,
)
    requires
        before.describes(ranks),
        rank < before.rank_count@.len(),
        after.trials == before.trials + 1,
        after.total == before.total + rank,
        after.rank_count@ == before.rank_count@.update(
            rank as int,
            (before.rank_count@[rank as int] + 1) as usize,
        ),
        before.rank_count@[rank as int] < usize::MAX,
    ensures
        after.describes(ranks.push(rank)),
{
    let next = ranks.push(rank);
    assert(next.drop_last() =~= ranks);
    assert forall|i: int| 0 <= i < next.len() implies #[trigger] next[i] < after.rank_count@.len() by {
        if i < ranks.len() {
            assert(ranks[i] < before.rank_count@.len());
        }
    }
}

/// `rank` is the rank of some matrix of `n_vectors` rows and `size` columns
/// whose entries are allowed values.
pub open spec fn is_trial_rank(rank: usize, size: usize, n_vectors: usize) -> bool {
    &&& rank <= size
    &&& rank <= n_vectors
    &&& exists|rows: Seq<Vec<i64>>|
        #![trigger integer_model(rows)]
        rows.len() == n_vectors && rows_in_range(rows, size as int) && rank == rank_of(
            integer_model(rows),
            size as int,
        )
}

/// What `get_average_rank` can return for `trials` matrices of `n_vectors`
/// rows and `size` columns: the summary of `trials` ranks, each the rank of
/// such a matrix. The sum of the ranks is therefore at most `trials` times
/// the smaller dimension.
pub open spec fn is_outcome(summary: RankSummary, size: usize, n_vectors: usize, trials: usize) -> bool {
    &&& summary.wf()
    &&& summary.rank_count@.len() == size + 1
    &&& summary.trials == trials
    &&& summary.total <= trials * size
    &&& summary.total <= trials * n_vectors
    &&& exists|ranks: Seq<usize>|
        #![trigger summary.describes(ranks)]
        summary.describes(ranks) && forall|i: int|
            0 <= i < ranks.len() ==> is_trial_rank(#[trigger] ranks[i], size, n_vectors)
}

/// Runs `trials` trials, each on a fresh random matrix of `n_vectors` rows and
/// `size` columns, and sums up the ranks found. The average rank is `total`
/// divided by `trials`.
pub fn get_average_rank(size: usize, n_vectors: usize, trials: usize) -> (summary: RankSummary)
    requires
        size < usize::MAX,
    ensures
        is_outcome(summary, size, n_vectors, trials),
{
    let mut summary = RankSummary::new(size);
    let ghost mut ranks: Seq<usize> = Seq::empty();
    let mut done: usize = 0;
    proof {
        assert(0 * (size as int) == 0);
        assert(0 * (n_vectors as int) == 0);
    }
    while done < trials
        invariant
            done <= trials,
            size < usize::MAX,
            summary.wf(),
            summary.rank_count@.len() == size + 1,
            summary.trials == done,
            summary.total <= done * size,
            summary.total <= done * n_vectors,
            summary.describes(ranks),
            forall|i: int|
                0 <= i < ranks.len() ==> is_trial_rank(#[trigger] ranks[i], size, n_vectors),
        decreases trials - done,
    {
        let rows = generate_random_matrix(size, n_vectors);
        let mut matrix = Matrix::from_rows(&rows, size).unwrap();
        row_reduce(&mut matrix);
        let rank = count_non_empty_rows(&matrix);
        let ghost before = summary;
        summary.record(rank);
        proof {
            assert(is_trial_rank(rank, size, n_vectors)) by {
                assert(rows@.len() == n_vectors && rows_in_range(rows@, size as int) && rank
                    == rank_of(integer_model(rows@), size as int));
            }
            lemma_record_describes(before, summary, ranks, rank);
            ranks = ranks.push(rank);
            let d = done as int;
            assert((d + 1) * size == d * size + size) by (nonlinear_arith);
            assert((d + 1) * n_vectors == d * n_vectors + n_vectors) by (nonlinear_arith);
        }
        done += 1;
    }
    summary
}

/// The rank of the matrix with the given rows of `cols` integers each; none
/// where a row does not have `cols` entries.
pub fn rank_of_rows(rows: &Vec<Vec<i64>>, cols: usize) -> (rank: Option<usize>)
    ensures
        rank is Some <==> forall|i: int| 0 <= i < rows@.len() ==> (#[trigger] rows@[i])@.len() == cols,
        rank is Some ==> rank->0 == rank_of(integer_model(rows@), cols as int),
        rank is Some ==> rank->0 <= cols && rank->0 <= rows@.len(),
{
    match Matrix::from_rows(rows, cols) {
        Some(matrix) => {
            let mut matrix = matrix;
            let rank = row_reduce(&mut matrix);
            Some(rank)
        },
        None => None,
    }
}

} // verus!
