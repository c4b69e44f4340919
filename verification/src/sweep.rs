//! The sweep over a grid of vector sizes and vector counts.

use crate::trials::{get_average_rank, is_outcome, RankSummary};
use vstd::prelude::*;

verus! {

/// The grid of a sweep and the number of trials in each of its cells.
#[derive(Debug, Clone, Copy)]
pub struct SweepConfig {
    /// The least vector size.
    pub min_size: usize,
    /// The greatest vector size.
    pub max_size: usize,
    /// The least number of vectors.
    pub min_count: usize,
    /// The greatest number of vectors.
    pub max_count: usize,
    /// The number of trials in each cell.
    pub trials: usize,
}

impl Default for SweepConfig {
    /// Sizes and counts from 1 to 20, and 100 trials in each cell.
    fn default() -> (config: SweepConfig)
        ensures
            config.min_size == 1,
            config.max_size == 20,
            config.min_count == 1,
            config.max_count == 20,
            config.trials == 100,
    {
        SweepConfig { min_size: 1, max_size: 20, min_count: 1, max_count: 20, trials: 100 }
    }
}

/// Why a configuration is refused.
#[derive(Debug, Clone, Copy, PartialEq, Eq, Structural)]
pub enum ConfigError {
    /// The sizes include zero.
    ZeroSize,
    /// The counts include zero.
    ZeroCount,
}

/// The number of values from `low` to `high`, both included.
pub open spec fn span(low: usize, high: usize) -> nat {
    if low <= high {
        (high - low + 1) as nat
    } else {
        0
    }
}

/// The table holds, for each size and each count of the grid in rising order,
/// the outcome of that cell: sizes by row, counts by column.
pub open spec fn is_sweep_table(table: Seq<Vec<RankSummary>>, config: SweepConfig) -> bool {
    &&& table.len() == span(config.min_size, config.max_size)
    &&& forall|a: int|
        0 <= a < table.len() ==> (#[trigger] table[a])@.len() == span(
            config.min_count,
            config.max_count,
        )
    &&& forall|a: int, b: int|
        0 <= a < table.len() && 0 <= b < table[a]@.len() ==> is_outcome(
            #[trigger] table[a]@[b],
            (config.min_size + a) as usize,
            (config.min_count + b) as usize,
            config.trials,
        )
}

/// Runs the trials of every cell of the grid. A grid whose sizes or counts
/// include zero is refused.
pub fn sweep(config: &SweepConfig) -> (result: Result<Vec<Vec<RankSummary>>, ConfigError>)
    requires
        config.max_size < usize::MAX,
    ensures
        config.min_size == 0 ==> result == Err::<Vec<Vec<RankSummary>>, ConfigError>(
            ConfigError::ZeroSize,
        ),
        config.min_size != 0 && config.min_count == 0 ==> result == Err::<
            Vec<Vec<RankSummary>>,
            ConfigError,
        >(ConfigError::ZeroCount),
        config.min_size != 0 && config.min_count != 0 ==> result is Ok && is_sweep_table(
            result->Ok_0@,
            *config,
        ),
{
    if config.min_size == 0 {
        return Err(ConfigError::ZeroSize);
    }
    if config.min_count == 0 {
        return Err(ConfigError::ZeroCount);
    }
    let sizes: usize = if config.min_size <= config.max_size {
        config.max_size - config.min_size + 1
    } else {
        0
    };
    let counts: usize = if config.min_count <= config.max_count {
        config.max_count - config.min_count + 1
    } else {
        0
    };
    let mut table: Vec<Vec<RankSummary>> = Vec::new();
    let mut a: usize = 0;
    while a < sizes
        invariant
            config.max_size < usize::MAX,
            sizes == span(config.min_size, config.max_size),
            counts == span(config.min_count, config.max_count),
            a <= sizes,
            table@.len() == a,
            forall|i: int| 0 <= i < a ==> (#[trigger] table@[i])@.len() == counts,
            forall|i: int, j: int|
                0 <= i < a && 0 <= j < counts ==> is_outcome(
                    #[trigger] table@[i]@[j],
                    (config.min_size + i) as usize,
                    (config.min_count + j) as usize,
                    config.trials,
                ),
        decreases sizes - a,
    {
        let size = config.min_size + a;
        let mut row: Vec<RankSummary> = Vec::new();
        let mut b: usize = 0;
        while b < counts
            invariant
                size < usize::MAX,
                counts == span(config.min_count, config.max_count),
                b <= counts,
                row@.len() == b,
                forall|j: int|
                    0 <= j < b ==> is_outcome(
                        #[trigger] row@[j],
                        size,
                        (config.min_count + j) as usize,
                        config.trials,
                    ),
            decreases counts - b,
        {
            let count = config.min_count + b;
            let summary = get_average_rank(size, count, config.trials);
            row.push(summary);
            b += 1;
        }
        table.push(row);
        a += 1;
    }
    Ok(table)
}

} // verus!
