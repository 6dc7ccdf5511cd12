use sparse_matrix::error::MatrixError;
use sparse_matrix::mat::SparseMatrix;

/// A dense grid kept beside the matrix, to compare against.
fn dense(cols: usize, rows: usize) -> Vec<Vec<u32>> {
    vec![vec![0; cols]; rows]
}

fn count_occupied(grid: &Vec<Vec<u32>>) -> usize {
    let mut n = 0;
    for row in grid {
        for v in row {
            if *v != 0 {
                n += 1;
            }
        }
    }
    n
}

fn count_rows(grid: &Vec<Vec<u32>>) -> usize {
    let mut n = 0;
    for row in grid {
        if row.iter().any(|v| *v != 0) {
            n += 1;
        }
    }
    n
}

#[test]
fn new_matrix_has_its_dimensions() {
    let mat: SparseMatrix<u32> = SparseMatrix::new(10, 20, 0);
    assert_eq!(mat.rows(), 20);
    assert_eq!(mat.cols(), 10);
}

#[test]
fn new_matrix_is_empty() {
    let mat: SparseMatrix<u32> = SparseMatrix::new(10, 10, 0);
    assert_eq!(mat.actual_size(), 0);
    assert_eq!(mat.len(), 0);
    assert_eq!(*mat.get(0, 0), 0);
    assert_eq!(*mat.get(9, 9), 0);
    assert!(mat.entries().is_empty());
}

#[test]
fn default_value_need_not_be_zero() {
    let mut mat: SparseMatrix<u32> = SparseMatrix::new(4, 3, 7);
    assert_eq!(*mat.get(2, 1), 7);
    assert_eq!(mat.insert(2, 1, 0), Ok(()));
    assert_eq!(*mat.get(2, 1), 0);
    assert_eq!(mat.actual_size(), 1);
    assert_eq!(mat.insert(2, 1, 7), Ok(()));
    assert_eq!(*mat.get(2, 1), 7);
    assert_eq!(mat.actual_size(), 0);
    assert_eq!(mat.len(), 0);
}

#[test]
fn size_counts_cells_that_differ_from_default() {
    let mut mat: SparseMatrix<u32> = SparseMatrix::new(10, 10, 0);
    assert_eq!(mat.insert(0, 0, 10), Ok(()));
    assert_eq!(mat.insert(0, 1, 0), Ok(()));
    assert_eq!(mat.insert(3, 1, 10), Ok(()));
    assert_eq!(mat.insert(2, 0, 10), Ok(()));
    assert_eq!(mat.insert(3, 2, 10), Ok(()));
    assert_eq!(mat.insert(3, 1, 22), Ok(()));
    assert_eq!(mat.actual_size(), 4);
    assert_eq!(mat.len(), 3);
}

#[test]
fn elements_read_back() {
    let mut mat: SparseMatrix<u32> = SparseMatrix::new(10, 10, 0);
    assert_eq!(mat.insert(0, 0, 10), Ok(()));
    assert_eq!(mat.insert(0, 1, 0), Ok(()));
    assert_eq!(mat.insert(3, 1, 10), Ok(()));
    assert_eq!(mat.insert(2, 0, 12), Ok(()));
    assert_eq!(mat.insert(3, 2, 10), Ok(()));
    assert_eq!(mat.insert(3, 1, 22), Ok(()));
    assert_eq!(*mat.get(2, 0), 12);
    assert_eq!(*mat.get(3, 1), 22);
    assert_eq!(*mat.get(1, 1), 0);
}

#[test]
fn scenario_insert_read_clear() {
    let mut mat: SparseMatrix<u32> = SparseMatrix::new(10, 10, 0);
    assert_eq!(mat.insert(2, 0, 12), Ok(()));
    assert_eq!(mat.insert(3, 1, 22), Ok(()));
    assert_eq!(mat.insert(3, 2, 10), Ok(()));
    assert_eq!(*mat.get(2, 0), 12);
    assert_eq!(*mat.get(3, 1), 22);
    assert_eq!(*mat.get(1, 1), 0);
    assert_eq!(mat.actual_size(), 3);
    assert_eq!(mat.insert(3, 1, 0), Ok(()));
    assert_eq!(mat.actual_size(), 2);
    assert_eq!(*mat.get(3, 1), 0);
}

#[test]
fn round_trip_on_every_cell() {
    let mut mat: SparseMatrix<u32> = SparseMatrix::new(7, 5, 0);
    for row in 0..5 {
        for col in 0..7 {
            let v = (row * 7 + col + 1) as u32;
            assert_eq!(mat.insert(col, row, v), Ok(()));
            assert_eq!(*mat.get(col, row), v);
        }
    }
    for row in 0..5 {
        for col in 0..7 {
            assert_eq!(*mat.get(col, row), (row * 7 + col + 1) as u32);
        }
    }
    assert_eq!(mat.actual_size(), 35);
    assert_eq!(mat.len(), 5);
}

#[test]
fn round_trip_in_descending_order() {
    let mut mat: SparseMatrix<u32> = SparseMatrix::new(6, 6, 0);
    for row in (0..6).rev() {
        for col in (0..6).rev() {
            assert_eq!(mat.insert(col, row, (10 * row + col + 1) as u32), Ok(()));
        }
    }
    for row in 0..6 {
        for col in 0..6 {
            assert_eq!(*mat.get(col, row), (10 * row + col + 1) as u32);
        }
    }
}

#[test]
fn overwrite_keeps_the_count() {
    let mut mat: SparseMatrix<u32> = SparseMatrix::new(5, 5, 0);
    assert_eq!(mat.insert(4, 4, 1), Ok(()));
    assert_eq!(mat.insert(4, 4, 2), Ok(()));
    assert_eq!(*mat.get(4, 4), 2);
    assert_eq!(mat.actual_size(), 1);
    assert_eq!(mat.len(), 1);
}

#[test]
fn clearing_an_occupied_cell_takes_one_off() {
    let mut mat: SparseMatrix<u32> = SparseMatrix::new(5, 5, 0);
    assert_eq!(mat.insert(1, 2, 8), Ok(()));
    assert_eq!(mat.insert(3, 2, 9), Ok(()));
    assert_eq!(mat.actual_size(), 2);
    assert_eq!(mat.insert(1, 2, 0), Ok(()));
    assert_eq!(*mat.get(1, 2), 0);
    assert_eq!(*mat.get(3, 2), 9);
    assert_eq!(mat.actual_size(), 1);
    assert_eq!(mat.len(), 1);
}

#[test]
fn clearing_a_default_cell_changes_nothing() {
    let mut mat: SparseMatrix<u32> = SparseMatrix::new(5, 5, 0);
    assert_eq!(mat.insert(1, 2, 8), Ok(()));
    assert_eq!(mat.insert(0, 0, 0), Ok(()));
    assert_eq!(mat.insert(4, 2, 0), Ok(()));
    assert_eq!(mat.insert(1, 4, 0), Ok(()));
    assert_eq!(*mat.get(0, 0), 0);
    assert_eq!(*mat.get(1, 2), 8);
    assert_eq!(mat.actual_size(), 1);
    assert_eq!(mat.len(), 1);
    assert_eq!(mat.entries(), vec![(1, 2, 8)]);
}

#[test]
fn clearing_the_last_cell_of_a_row_drops_the_row() {
    let mut mat: SparseMatrix<u32> = SparseMatrix::new(5, 5, 0);
    assert_eq!(mat.insert(1, 1, 8), Ok(()));
    assert_eq!(mat.insert(2, 3, 9), Ok(()));
    assert_eq!(mat.len(), 2);
    assert_eq!(mat.insert(1, 1, 0), Ok(()));
    assert_eq!(mat.len(), 1);
    assert_eq!(mat.insert(2, 3, 0), Ok(()));
    assert_eq!(mat.len(), 0);
    assert_eq!(mat.actual_size(), 0);
}

#[test]
fn a_cleared_cell_in_a_missing_row_leaves_other_rows_alone() {
    let mut mat: SparseMatrix<u32> = SparseMatrix::new(5, 5, 0);
    assert_eq!(mat.insert(2, 3, 9), Ok(()));
    assert_eq!(mat.insert(2, 1, 0), Ok(()));
    assert_eq!(mat.insert(2, 4, 0), Ok(()));
    assert_eq!(*mat.get(2, 3), 9);
    assert_eq!(mat.actual_size(), 1);
}

#[test]
fn out_of_bounds_is_refused() {
    let mut mat: SparseMatrix<u32> = SparseMatrix::new(10, 8, 0);
    assert_eq!(mat.insert(3, 3, 5), Ok(()));
    assert_eq!(mat.insert(10, 0, 1), Err(MatrixError::OutOfBounds));
    assert_eq!(mat.insert(0, 8, 1), Err(MatrixError::OutOfBounds));
    assert_eq!(mat.insert(10, 8, 1), Err(MatrixError::OutOfBounds));
    assert_eq!(mat.insert(usize::MAX, usize::MAX, 1), Err(MatrixError::OutOfBounds));
    assert_eq!(mat.insert(10, 0, 0), Err(MatrixError::OutOfBounds));
    assert_eq!(mat.actual_size(), 1);
    assert_eq!(mat.entries(), vec![(3, 3, 5)]);
    assert_eq!(mat.insert(9, 7, 1), Ok(()));
}

#[test]
fn reads_outside_the_grid_give_the_default() {
    let mut mat: SparseMatrix<u32> = SparseMatrix::new(3, 3, 4);
    assert_eq!(mat.insert(2, 2, 1), Ok(()));
    assert_eq!(*mat.get(3, 0), 4);
    assert_eq!(*mat.get(0, 3), 4);
    assert_eq!(*mat.get(100, 100), 4);
}

#[test]
fn empty_grid_refuses_every_insert() {
    let mut mat: SparseMatrix<u32> = SparseMatrix::new(0, 0, 0);
    assert_eq!(mat.insert(0, 0, 1), Err(MatrixError::OutOfBounds));
    let mut flat: SparseMatrix<u32> = SparseMatrix::new(5, 0, 0);
    assert_eq!(flat.insert(0, 0, 1), Err(MatrixError::OutOfBounds));
    let mut thin: SparseMatrix<u32> = SparseMatrix::new(0, 5, 0);
    assert_eq!(thin.insert(0, 0, 1), Err(MatrixError::OutOfBounds));
    assert_eq!(mat.actual_size(), 0);
    assert_eq!(mat.render(), Vec::<Vec<u32>>::new());
    assert_eq!(thin.render(), vec![Vec::<u32>::new(); 5]);
}

#[test]
fn count_matches_a_dense_grid() {
    let cols = 13;
    let rows = 9;
    let mut mat: SparseMatrix<u32> = SparseMatrix::new(cols, rows, 0);
    let mut reference = dense(cols, rows);
    let mut state: u64 = 0x2545_f491_4f6c_dd1d;
    for _ in 0..4000 {
        state = state.wrapping_mul(6364136223846793005).wrapping_add(1442695040888963407);
        let col = ((state >> 33) % cols as u64) as usize;
        let row = ((state >> 17) % rows as u64) as usize;
        let val = ((state >> 50) % 3) as u32;
        assert_eq!(mat.insert(col, row, val), Ok(()));
        reference[row][col] = val;
        assert_eq!(*mat.get(col, row), val);
        assert_eq!(mat.actual_size(), count_occupied(&reference));
        assert_eq!(mat.len(), count_rows(&reference));
    }
    assert_eq!(mat.render(), reference);
    for row in 0..rows {
        for col in 0..cols {
            assert_eq!(*mat.get(col, row), reference[row][col]);
        }
    }
}

#[test]
fn render_writes_out_every_cell() {
    let mut mat: SparseMatrix<u32> = SparseMatrix::new(4, 3, 0);
    assert_eq!(mat.insert(1, 0, 5), Ok(()));
    assert_eq!(mat.insert(3, 2, 6), Ok(()));
    assert_eq!(mat.insert(0, 2, 7), Ok(()));
    assert_eq!(mat.render(), vec![vec![0, 5, 0, 0], vec![0, 0, 0, 0], vec![7, 0, 0, 6]]);
}

#[test]
fn render_of_a_wide_grid_has_all_columns() {
    let mut mat: SparseMatrix<u32> = SparseMatrix::new(5, 2, 9);
    assert_eq!(mat.insert(4, 1, 1), Ok(()));
    assert_eq!(mat.render(), vec![vec![9, 9, 9, 9, 9], vec![9, 9, 9, 9, 1]]);
}

#[test]
fn entries_come_in_row_major_order() {
    let mut mat: SparseMatrix<u32> = SparseMatrix::new(10, 10, 0);
    assert_eq!(mat.insert(3, 2, 10), Ok(()));
    assert_eq!(mat.insert(3, 1, 22), Ok(()));
    assert_eq!(mat.insert(2, 0, 12), Ok(()));
    assert_eq!(mat.insert(0, 1, 1), Ok(()));
    assert_eq!(mat.insert(9, 0, 2), Ok(()));
    assert_eq!(
        mat.entries(),
        vec![(2, 0, 12), (9, 0, 2), (0, 1, 1), (3, 1, 22), (3, 2, 10)]
    );
}

#[test]
fn error_can_be_compared_and_shown() {
    let e = MatrixError::OutOfBounds;
    assert_eq!(e, MatrixError::OutOfBounds);
    assert_eq!(format!("{:?}", e), "OutOfBounds");
}

#[test]
fn checked_reads_refuse_positions_outside_the_grid() {
    let mut mat: SparseMatrix<u32> = SparseMatrix::new(4, 3, 0);
    assert_eq!(mat.insert(3, 2, 6), Ok(()));
    assert_eq!(mat.get_checked(3, 2), Ok(&6));
    assert_eq!(mat.get_checked(0, 0), Ok(&0));
    assert_eq!(mat.get_checked(4, 0), Err(MatrixError::OutOfBounds));
    assert_eq!(mat.get_checked(0, 3), Err(MatrixError::OutOfBounds));
    assert_eq!(mat.get_checked(4, 3), Err(MatrixError::OutOfBounds));
}

#[test]
fn a_large_grid_with_few_cells_stays_small() {
    let mut mat: SparseMatrix<u32> = SparseMatrix::new(4000, 4000, 0);
    for i in 0..1000 {
        assert_eq!(mat.insert((i * 37) % 4000, (i * 91) % 4000, i as u32 + 2), Ok(()));
    }
    assert_eq!(mat.actual_size(), 1000);
    for i in 0..1000 {
        assert_eq!(*mat.get((i * 37) % 4000, (i * 91) % 4000), i as u32 + 2);
    }
    assert_eq!(mat.entries().len(), 1000);
    assert_eq!(mat.nth_default(4000 * 4000 - 1000), None);
    assert!(mat.nth_default(4000 * 4000 - 1001).is_some());
}
