use random_rank::matrix::Matrix;
use random_rank::reduce::{count_non_empty_rows, row_reduce};
use random_rank::trials::{generate_random_matrix, rank_of_rows};

fn matrix(rows: &[&[i64]], cols: usize) -> Matrix {
    let rows: Vec<Vec<i64>> = rows.iter().map(|r| r.to_vec()).collect();
    Matrix::from_rows(&rows, cols).unwrap()
}

/// Checks every entry against the expected fraction `(num, den)`.
fn assert_entries(m: &Matrix, expected: &[&[(i64, i64)]]) {
    assert_eq!(m.num_rows(), expected.len());
    for (i, row) in expected.iter().enumerate() {
        assert_eq!(m.num_cols(), row.len());
        for (k, &(num, den)) in row.iter().enumerate() {
            assert!(m.entry_equals(i, k, num, den), "entry ({}, {}) is not {}/{}", i, k, num, den);
        }
    }
}

#[test]
fn ragged_rows_are_refused() {
    let rows = vec![vec![1, 2], vec![3]];
    assert!(Matrix::from_rows(&rows, 2).is_none());
    assert!(Matrix::from_rows(&rows, 1).is_none());
    assert_eq!(rank_of_rows(&rows, 2), None);
    let rows = vec![vec![1, 2], vec![3, 4]];
    assert!(Matrix::from_rows(&rows, 3).is_none());
    assert!(Matrix::from_rows(&rows, 2).is_some());
}

#[test]
fn entries_of_an_integer_matrix() {
    let m = matrix(&[&[0, 1, -7], &[5, 1000, 2]], 3);
    assert_eq!(m.num_rows(), 2);
    assert_eq!(m.num_cols(), 3);
    assert!(m.entry_is_zero(0, 0));
    assert!(m.entry_is_one(0, 1));
    assert!(!m.entry_is_zero(0, 1));
    assert!(!m.entry_is_one(0, 0));
    assert!(m.entry_equals(0, 2, -7, 1));
    assert!(m.entry_equals(0, 2, 14, -2));
    assert!(!m.entry_equals(0, 2, 7, 1));
    assert!(m.entry_equals(1, 1, 1000, 1));
}

#[test]
fn identity_has_full_rank_and_stays() {
    let mut m = matrix(&[&[1, 0, 0], &[0, 1, 0], &[0, 0, 1]], 3);
    assert_eq!(row_reduce(&mut m), 3);
    assert_entries(
        &m,
        &[&[(1, 1), (0, 1), (0, 1)], &[(0, 1), (1, 1), (0, 1)], &[(0, 1), (0, 1), (1, 1)]],
    );
    assert_eq!(count_non_empty_rows(&m), 3);
}

#[test]
fn zero_matrix_has_rank_zero() {
    for (rows, cols) in [(1usize, 1usize), (2, 3), (3, 2), (4, 4)] {
        let data = vec![vec![0i64; cols]; rows];
        let mut m = Matrix::from_rows(&data, cols).unwrap();
        assert_eq!(row_reduce(&mut m), 0);
        assert_eq!(count_non_empty_rows(&m), 0);
        for i in 0..rows {
            for k in 0..cols {
                assert!(m.entry_is_zero(i, k));
            }
        }
    }
}

#[test]
fn matrix_without_rows_or_columns() {
    let none: Vec<Vec<i64>> = Vec::new();
    let mut m = Matrix::from_rows(&none, 3).unwrap();
    assert_eq!(m.num_rows(), 0);
    assert_eq!(m.num_cols(), 3);
    assert_eq!(row_reduce(&mut m), 0);
    let empty_rows = vec![Vec::<i64>::new(), Vec::new()];
    let mut m = Matrix::from_rows(&empty_rows, 0).unwrap();
    assert_eq!(m.num_rows(), 2);
    assert_eq!(row_reduce(&mut m), 0);
    assert_eq!(count_non_empty_rows(&m), 0);
}

#[test]
fn single_entry() {
    assert_eq!(rank_of_rows(&vec![vec![0]], 1), Some(0));
    assert_eq!(rank_of_rows(&vec![vec![1]], 1), Some(1));
    assert_eq!(rank_of_rows(&vec![vec![1000]], 1), Some(1));
    let mut m = matrix(&[&[-7]], 1);
    assert_eq!(row_reduce(&mut m), 1);
    assert!(m.entry_is_one(0, 0));
}

#[test]
fn regular_two_by_two_reduces_to_identity() {
    let mut m = matrix(&[&[2, 4], &[1, 3]], 2);
    assert_eq!(row_reduce(&mut m), 2);
    assert_entries(&m, &[&[(1, 1), (0, 1)], &[(0, 1), (1, 1)]]);
}

#[test]
fn division_is_exact() {
    // 3 / 2 is not cut down to 1: the second row is not a multiple of the first.
    let mut m = matrix(&[&[2, 3], &[2, 2]], 2);
    assert_eq!(row_reduce(&mut m), 2);
    assert_entries(&m, &[&[(1, 1), (0, 1)], &[(0, 1), (1, 1)]]);
    let mut m = matrix(&[&[2, 2], &[2, 3]], 2);
    assert_eq!(row_reduce(&mut m), 2);
}

#[test]
fn proportional_rows_have_rank_one() {
    let mut m = matrix(&[&[2, 3], &[4, 6]], 2);
    assert_eq!(row_reduce(&mut m), 1);
    assert_entries(&m, &[&[(1, 1), (3, 2)], &[(0, 1), (0, 1)]]);
    assert_eq!(count_non_empty_rows(&m), 1);
}

#[test]
fn negative_entries() {
    let mut m = matrix(&[&[-2, 4], &[1, -2]], 2);
    assert_eq!(row_reduce(&mut m), 1);
    assert_entries(&m, &[&[(1, 1), (-2, 1)], &[(0, 1), (0, 1)]]);
    let mut m = matrix(&[&[-3, 1], &[2, -5]], 2);
    assert_eq!(row_reduce(&mut m), 2);
    assert_entries(&m, &[&[(1, 1), (0, 1)], &[(0, 1), (1, 1)]]);
}

#[test]
fn three_by_three_of_rank_two() {
    let mut m = matrix(&[&[1, 2, 3], &[4, 5, 6], &[7, 8, 9]], 3);
    assert_eq!(row_reduce(&mut m), 2);
    assert_entries(
        &m,
        &[&[(1, 1), (0, 1), (-1, 1)], &[(0, 1), (1, 1), (2, 1)], &[(0, 1), (0, 1), (0, 1)]],
    );
    assert_eq!(count_non_empty_rows(&m), 2);
}

#[test]
fn fractions_in_the_result() {
    let mut m = matrix(&[&[2, 1, 1], &[1, 3, 2]], 3);
    assert_eq!(row_reduce(&mut m), 2);
    assert_entries(&m, &[&[(1, 1), (0, 1), (1, 5)], &[(0, 1), (1, 1), (3, 5)]]);
}

#[test]
fn zero_column_is_passed_over_and_pivot_row_moves_up() {
    let mut m = matrix(&[&[0, 0, 5], &[0, 3, 1]], 3);
    assert_eq!(row_reduce(&mut m), 2);
    assert_entries(&m, &[&[(0, 1), (1, 1), (0, 1)], &[(0, 1), (0, 1), (1, 1)]]);
}

#[test]
fn first_nonzero_row_becomes_the_pivot_row() {
    let mut m = matrix(&[&[0, 1], &[0, 2], &[3, 4]], 2);
    assert_eq!(row_reduce(&mut m), 2);
    assert_entries(&m, &[&[(1, 1), (0, 1)], &[(0, 1), (1, 1)], &[(0, 1), (0, 1)]]);
}

#[test]
fn more_rows_than_columns() {
    let mut m = matrix(&[&[1, 2], &[3, 4], &[5, 6], &[7, 8], &[9, 11]], 2);
    assert_eq!(row_reduce(&mut m), 2);
    assert_eq!(count_non_empty_rows(&m), 2);
    for i in 2..5 {
        assert!(m.entry_is_zero(i, 0) && m.entry_is_zero(i, 1));
    }
}

#[test]
fn more_columns_than_rows() {
    let mut m = matrix(&[&[1, 2, 3, 4], &[2, 4, 6, 9]], 4);
    assert_eq!(row_reduce(&mut m), 2);
    assert_entries(
        &m,
        &[&[(1, 1), (2, 1), (3, 1), (0, 1)], &[(0, 1), (0, 1), (0, 1), (1, 1)]],
    );
}

#[test]
fn rank_is_bounded_by_both_dimensions() {
    let rows = vec![vec![5, 7, 11], vec![13, 17, 19]];
    let rank = rank_of_rows(&rows, 3).unwrap();
    assert!(rank <= 2 && rank <= 3);
    assert_eq!(rank, 2);
    let rows = vec![vec![5], vec![7], vec![11]];
    assert_eq!(rank_of_rows(&rows, 1), Some(1));
}

#[test]
fn rank_does_not_depend_on_the_order_of_rows() {
    let a = vec![vec![2, 3, 1], vec![2, 2, 5], vec![4, 5, 6], vec![0, 1, -4]];
    let orders: [[usize; 4]; 5] =
        [[0, 1, 2, 3], [1, 0, 2, 3], [3, 2, 1, 0], [2, 3, 0, 1], [1, 3, 0, 2]];
    for order in orders {
        let b: Vec<Vec<i64>> = order.iter().map(|&i| a[i].clone()).collect();
        assert_eq!(rank_of_rows(&b, 3), Some(2));
    }
    assert_eq!(rank_of_rows(&vec![vec![2, 3], vec![2, 2]], 2), Some(2));
    assert_eq!(rank_of_rows(&vec![vec![2, 2], vec![2, 3]], 2), Some(2));
}

#[test]
fn reducing_twice_changes_nothing() {
    let mut m = matrix(&[&[2, 1, 1], &[1, 3, 2], &[3, 4, 3]], 3);
    let first = row_reduce(&mut m);
    assert_eq!(first, 2);
    let expected: &[&[(i64, i64)]] =
        &[&[(1, 1), (0, 1), (1, 5)], &[(0, 1), (1, 1), (3, 5)], &[(0, 1), (0, 1), (0, 1)]];
    assert_entries(&m, expected);
    let second = row_reduce(&mut m);
    assert_eq!(second, first);
    assert_entries(&m, expected);
}

#[test]
fn dominant_diagonal_has_full_rank() {
    let n = 9usize;
    let rows: Vec<Vec<i64>> = (0..n)
        .map(|i| (0..n).map(|j| if i == j { 1000 } else { ((i * 7 + j * 13) % 50) as i64 }).collect())
        .collect();
    let mut m = Matrix::from_rows(&rows, n).unwrap();
    assert_eq!(row_reduce(&mut m), n);
    for i in 0..n {
        for k in 0..n {
            assert_eq!(m.entry_is_one(i, k), i == k);
            assert_eq!(m.entry_is_zero(i, k), i != k);
        }
    }
}

#[test]
fn combinations_of_two_vectors_have_rank_two() {
    let u: [i64; 7] = [1000, 999, 3, 0, 512, 77, 640];
    let v: [i64; 7] = [1, 0, 998, 1000, 313, 5, 2];
    let rows: Vec<Vec<i64>> = (0..8i64)
        .map(|i| (0..7).map(|k| (i + 1) * u[k] + (3 * i * i + 2) * v[k]).collect())
        .collect();
    assert_eq!(rank_of_rows(&rows, 7), Some(2));
}

#[test]
fn powers_of_distinct_numbers_have_full_rank() {
    let rows: Vec<Vec<i64>> =
        (1..=7i64).map(|x| (0..7u32).map(|k| (x * 3 + 1).pow(k)).collect()).collect();
    assert_eq!(rank_of_rows(&rows, 7), Some(7));
}

#[test]
fn extreme_entries() {
    let rows = vec![vec![i64::MAX, i64::MIN], vec![i64::MIN, i64::MAX]];
    assert_eq!(rank_of_rows(&rows, 2), Some(2));
    let rows = vec![vec![i64::MIN, i64::MIN], vec![i64::MIN, i64::MIN]];
    assert_eq!(rank_of_rows(&rows, 2), Some(1));
}

#[test]
fn row_operations_one_by_one() {
    let mut m = matrix(&[&[2, 4], &[1, 3]], 2);
    m.swap_rows(0, 1);
    assert_entries(&m, &[&[(1, 1), (3, 1)], &[(2, 1), (4, 1)]]);
    m.swap_rows(1, 1);
    assert_entries(&m, &[&[(1, 1), (3, 1)], &[(2, 1), (4, 1)]]);
    m.divide_row_by_entry(1, 1);
    assert_entries(&m, &[&[(1, 1), (3, 1)], &[(1, 2), (1, 1)]]);
    m.subtract_multiple(0, 1, 1);
    assert_entries(&m, &[&[(-1, 2), (0, 1)], &[(1, 2), (1, 1)]]);
    m.divide_row_by_entry(0, 0);
    assert_entries(&m, &[&[(1, 1), (0, 1)], &[(1, 2), (1, 1)]]);
}

/// Checks the shape of a reduced row-echelon form with `rank` nonzero rows.
fn assert_reduced_shape(m: &Matrix, rank: usize) {
    let mut last: Option<usize> = None;
    for i in 0..m.num_rows() {
        let leading = (0..m.num_cols()).find(|&k| !m.entry_is_zero(i, k));
        match leading {
            Some(k) => {
                assert!(i < rank);
                assert!(m.entry_is_one(i, k));
                assert!(last.map_or(true, |before| before < k));
                for other in 0..m.num_rows() {
                    assert_eq!(m.entry_is_zero(other, k), other != i);
                }
                last = Some(k);
            }
            None => assert!(i >= rank),
        }
    }
}

#[test]
fn random_matrices_reduce_to_the_right_shape() {
    for (size, count) in [(1usize, 1usize), (3, 7), (7, 3), (10, 10), (15, 12), (20, 20)] {
        let rows = generate_random_matrix(size, count);
        let mut m = Matrix::from_rows(&rows, size).unwrap();
        let rank = row_reduce(&mut m);
        assert!(rank <= size && rank <= count);
        assert_eq!(count_non_empty_rows(&m), rank);
        assert_reduced_shape(&m, rank);
        assert_eq!(rank_of_rows(&rows, size), Some(rank));
        let again = row_reduce(&mut m);
        assert_eq!(again, rank);
        assert_reduced_shape(&m, rank);
    }
}

#[test]
fn reduced_shape_of_fixed_matrices() {
    let mut m = matrix(&[&[1, 2, 3], &[4, 5, 6], &[7, 8, 9]], 3);
    let rank = row_reduce(&mut m);
    assert_reduced_shape(&m, rank);
    let mut m = matrix(&[&[0, 0, 0, 0], &[0, 2, 4, 6], &[0, 1, 2, 4], &[0, 0, 0, 0]], 4);
    let rank = row_reduce(&mut m);
    assert_eq!(rank, 2);
    assert_reduced_shape(&m, rank);
    assert_entries(
        &m,
        &[
            &[(0, 1), (1, 1), (2, 1), (0, 1)],
            &[(0, 1), (0, 1), (0, 1), (1, 1)],
            &[(0, 1), (0, 1), (0, 1), (0, 1)],
            &[(0, 1), (0, 1), (0, 1), (0, 1)],
        ],
    );
}

#[test]
fn a_copy_keeps_the_matrix() {
    let m = matrix(&[&[2, 4], &[1, 3]], 2);
    let mut copy = m.clone();
    assert_eq!(row_reduce(&mut copy), 2);
    assert_entries(&copy, &[&[(1, 1), (0, 1)], &[(0, 1), (1, 1)]]);
    assert_entries(&m, &[&[(2, 1), (4, 1)], &[(1, 1), (3, 1)]]);
}
