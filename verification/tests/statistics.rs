use random_rank::sweep::{sweep, ConfigError, SweepConfig};
use random_rank::trials::{
    generate_random_matrix, get_average_rank, RankSummary, MAX_ALLOWED_MATRIX_VALUE,
    MIN_ALLOWED_MATRIX_VALUE,
};

#[test]
fn allowed_values() {
    assert_eq!(MIN_ALLOWED_MATRIX_VALUE, 0);
    assert_eq!(MAX_ALLOWED_MATRIX_VALUE, 1000);
}

#[test]
fn generated_matrix_has_the_asked_shape_and_range() {
    let m = generate_random_matrix(4, 3);
    assert_eq!(m.len(), 3);
    for row in &m {
        assert_eq!(row.len(), 4);
        for &value in row {
            assert!((0..=1000).contains(&value));
        }
    }
    assert_eq!(generate_random_matrix(5, 0).len(), 0);
    let m = generate_random_matrix(0, 2);
    assert_eq!(m.len(), 2);
    assert!(m.iter().all(|row| row.is_empty()));
}

#[test]
fn generated_entries_vary() {
    let m = generate_random_matrix(20, 20);
    let first = m[0][0];
    assert!(m.iter().flatten().any(|&value| value != first));
    assert!(m.iter().flatten().any(|&value| value != MIN_ALLOWED_MATRIX_VALUE));
    assert!(m.iter().flatten().any(|&value| value != MAX_ALLOWED_MATRIX_VALUE));
}

#[test]
fn summary_counts_what_is_recorded() {
    let mut summary = RankSummary::new(3);
    assert_eq!(summary.trials, 0);
    assert_eq!(summary.total, 0);
    assert_eq!(summary.rank_count, vec![0, 0, 0, 0]);
    assert_eq!(summary.nonzero_rank_counts(), Vec::<(usize, usize)>::new());
    summary.record(2);
    summary.record(2);
    summary.record(0);
    summary.record(3);
    assert_eq!(summary.trials, 4);
    assert_eq!(summary.total, 7);
    assert_eq!(summary.rank_count, vec![1, 0, 2, 1]);
    assert_eq!(summary.nonzero_rank_counts(), vec![(0, 1), (2, 2), (3, 1)]);
    let average = summary.total as f64 / summary.trials as f64;
    assert_eq!(average, 1.75);
}

fn check_outcome(summary: &RankSummary, size: usize, count: usize, trials: usize) {
    assert_eq!(summary.trials, trials);
    assert_eq!(summary.rank_count.len(), size + 1);
    assert_eq!(summary.rank_count.iter().sum::<usize>(), trials);
    let weighted: u128 =
        summary.rank_count.iter().enumerate().map(|(r, &c)| (r as u128) * (c as u128)).sum();
    assert_eq!(summary.total, weighted);
    let bound = size.min(count);
    assert!(summary.total <= (trials as u128) * (bound as u128));
    for (rank, &c) in summary.rank_count.iter().enumerate() {
        if rank > bound {
            assert_eq!(c, 0);
        }
    }
}

#[test]
fn average_of_one_by_one_is_close_to_one() {
    let summary = get_average_rank(1, 1, 100);
    check_outcome(&summary, 1, 1, 100);
    let average = summary.total as f64 / summary.trials as f64;
    assert!((0.0..=1.0).contains(&average));
    assert!(average >= 0.9);
}

#[test]
fn average_of_five_vectors_of_size_two_is_close_to_two() {
    let summary = get_average_rank(2, 5, 100);
    check_outcome(&summary, 2, 5, 100);
    let average = summary.total as f64 / summary.trials as f64;
    assert!((1.9..=2.0).contains(&average));
}

#[test]
fn average_stays_within_the_smaller_dimension() {
    for (size, count) in [(1usize, 4usize), (4, 1), (3, 3), (2, 6), (5, 2)] {
        let summary = get_average_rank(size, count, 20);
        check_outcome(&summary, size, count, 20);
    }
}

#[test]
fn no_trials_give_an_empty_summary() {
    let summary = get_average_rank(3, 2, 0);
    assert_eq!(summary.trials, 0);
    assert_eq!(summary.total, 0);
    assert_eq!(summary.rank_count, vec![0, 0, 0, 0]);
}

#[test]
fn no_vectors_give_rank_zero() {
    let summary = get_average_rank(3, 0, 5);
    assert_eq!(summary.total, 0);
    assert_eq!(summary.rank_count, vec![5, 0, 0, 0]);
    let summary = get_average_rank(0, 3, 5);
    assert_eq!(summary.total, 0);
    assert_eq!(summary.rank_count, vec![5]);
}

#[test]
fn default_configuration() {
    let config = SweepConfig::default();
    assert_eq!((config.min_size, config.max_size), (1, 20));
    assert_eq!((config.min_count, config.max_count), (1, 20));
    assert_eq!(config.trials, 100);
}

#[test]
fn sweep_follows_the_grid() {
    let config = SweepConfig { min_size: 2, max_size: 4, min_count: 1, max_count: 2, trials: 5 };
    let table = sweep(&config).unwrap();
    assert_eq!(table.len(), 3);
    for (a, row) in table.iter().enumerate() {
        assert_eq!(row.len(), 2);
        for (b, summary) in row.iter().enumerate() {
            check_outcome(summary, 2 + a, 1 + b, 5);
        }
    }
}

#[test]
fn sweep_refuses_a_grid_with_zero() {
    let config = SweepConfig { min_size: 0, max_size: 4, min_count: 1, max_count: 2, trials: 5 };
    assert_eq!(sweep(&config).err(), Some(ConfigError::ZeroSize));
    let config = SweepConfig { min_size: 1, max_size: 4, min_count: 0, max_count: 2, trials: 5 };
    assert_eq!(sweep(&config).err(), Some(ConfigError::ZeroCount));
    let config = SweepConfig { min_size: 0, max_size: 4, min_count: 0, max_count: 2, trials: 5 };
    assert_eq!(sweep(&config).err(), Some(ConfigError::ZeroSize));
}

#[test]
fn sweep_of_an_empty_range_is_empty() {
    let config = SweepConfig { min_size: 3, max_size: 2, min_count: 1, max_count: 2, trials: 5 };
    assert_eq!(sweep(&config).unwrap().len(), 0);
    let config = SweepConfig { min_size: 1, max_size: 2, min_count: 5, max_count: 4, trials: 5 };
    let table = sweep(&config).unwrap();
    assert_eq!(table.len(), 2);
    assert!(table.iter().all(|row| row.is_empty()));
}
