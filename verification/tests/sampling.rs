use rand::rngs::StdRng;
use rand::SeedableRng;
use sparse_matrix::mat::SparseMatrix;

fn show(mat: &SparseMatrix<u32>) {
    for row in mat.render() {
        let line: Vec<String> = row.iter().map(|v| format!("{:<4}", v)).collect();
        println!("{}", line.join(" "));
    }
}

#[test]
fn mat_avail() {
    let mut rng = StdRng::seed_from_u64(0);
    let mut mat: SparseMatrix<u32> = SparseMatrix::new(10, 10, 0);
    mat.insert(0, 0, 10).unwrap();
    mat.insert(0, 1, 1).unwrap();
    mat.insert(0, 2, 2).unwrap();
    mat.insert(0, 3, 3).unwrap();
    mat.insert(1, 0, 10).unwrap();
    mat.insert(2, 0, 20).unwrap();
    mat.insert(3, 0, 30).unwrap();
    mat.insert(3, 1, 10).unwrap();
    mat.insert(2, 0, 12).unwrap();
    mat.insert(3, 2, 10).unwrap();
    mat.insert(3, 1, 22).unwrap();
    mat.insert(5, 8, 4).unwrap();

    show(&mat);
    for (col, row, val) in mat.entries() {
        println!("{:<3}: ([{:<3}] {:<3})", row, col, val);
    }

    for i in 0..10 {
        println!("Iter: {}", i);
        match mat.random_default(&mut rng) {
            Some((r, c)) => {
                mat.insert(r, c, 99).unwrap();
                println!("\nInserting into: ({}, {})", r, c);
            }
            _ => {
                println!("None remaining");
                break;
            }
        };
    }

    show(&mat);

    assert_eq!(*mat.get(2, 0), 12);
    assert_eq!(*mat.get(3, 1), 22);
    assert_eq!(*mat.get(3, 2), 10);
}

#[test]
fn sampling_fills_ten_more_cells() {
    let mut rng = StdRng::seed_from_u64(7);
    let mut mat: SparseMatrix<u32> = SparseMatrix::new(10, 10, 0);
    mat.insert(0, 0, 10).unwrap();
    mat.insert(5, 8, 4).unwrap();
    for _ in 0..10 {
        let (col, row) = mat.random_default(&mut rng).unwrap();
        assert_eq!(*mat.get(col, row), 0);
        mat.insert(col, row, 99).unwrap();
    }
    assert_eq!(mat.actual_size(), 12);
    assert_eq!(*mat.get(0, 0), 10);
    assert_eq!(*mat.get(5, 8), 4);
}

#[test]
fn rank_walks_the_default_cells_in_row_major_order() {
    let mut mat: SparseMatrix<u32> = SparseMatrix::new(3, 3, 0);
    mat.insert(1, 0, 5).unwrap();
    mat.insert(0, 1, 5).unwrap();
    mat.insert(2, 2, 5).unwrap();
    assert_eq!(mat.nth_default(0), Some((0, 0)));
    assert_eq!(mat.nth_default(1), Some((2, 0)));
    assert_eq!(mat.nth_default(2), Some((1, 1)));
    assert_eq!(mat.nth_default(3), Some((2, 1)));
    assert_eq!(mat.nth_default(4), Some((0, 2)));
    assert_eq!(mat.nth_default(5), Some((1, 2)));
    assert_eq!(mat.nth_default(6), None);
    assert_eq!(mat.nth_default(usize::MAX), None);
}

#[test]
fn rank_skips_whole_rows_of_default_cells() {
    let mut mat: SparseMatrix<u32> = SparseMatrix::new(4, 4, 0);
    mat.insert(1, 2, 5).unwrap();
    assert_eq!(mat.nth_default(0), Some((0, 0)));
    assert_eq!(mat.nth_default(3), Some((3, 0)));
    assert_eq!(mat.nth_default(4), Some((0, 1)));
    assert_eq!(mat.nth_default(7), Some((3, 1)));
    assert_eq!(mat.nth_default(8), Some((0, 2)));
    assert_eq!(mat.nth_default(9), Some((2, 2)));
    assert_eq!(mat.nth_default(10), Some((3, 2)));
    assert_eq!(mat.nth_default(11), Some((0, 3)));
    assert_eq!(mat.nth_default(14), Some((3, 3)));
    assert_eq!(mat.nth_default(15), None);
}

#[test]
fn rank_on_an_empty_matrix_is_the_flat_offset() {
    let mat: SparseMatrix<u32> = SparseMatrix::new(5, 3, 0);
    for k in 0..15 {
        assert_eq!(mat.nth_default(k), Some((k % 5, k / 5)));
    }
    assert_eq!(mat.nth_default(15), None);
}

#[test]
fn rank_agrees_with_a_scan_of_the_grid() {
    let cols = 6;
    let rows = 5;
    let mut mat: SparseMatrix<u32> = SparseMatrix::new(cols, rows, 0);
    let mut state: u64 = 99;
    for _ in 0..17 {
        state = state.wrapping_mul(6364136223846793005).wrapping_add(1442695040888963407);
        let col = ((state >> 33) % cols as u64) as usize;
        let row = ((state >> 17) % rows as u64) as usize;
        mat.insert(col, row, 1).unwrap();
    }
    let mut expected = Vec::new();
    for row in 0..rows {
        for col in 0..cols {
            if *mat.get(col, row) == 0 {
                expected.push((col, row));
            }
        }
    }
    assert_eq!(expected.len(), cols * rows - mat.actual_size());
    for (k, cell) in expected.iter().enumerate() {
        assert_eq!(mat.nth_default(k), Some(*cell));
    }
    assert_eq!(mat.nth_default(expected.len()), None);
}

#[test]
fn sampled_cells_hold_the_default() {
    let mut rng = StdRng::seed_from_u64(42);
    let mut mat: SparseMatrix<u32> = SparseMatrix::new(8, 8, 0);
    for i in 0..8 {
        mat.insert(i, i, 3).unwrap();
        mat.insert(7 - i, i, 4).unwrap();
    }
    for _ in 0..500 {
        let (col, row) = mat.random_default(&mut rng).unwrap();
        assert!(col < 8 && row < 8);
        assert_eq!(*mat.get(col, row), 0);
    }
}

#[test]
fn sampling_a_full_matrix_gives_none() {
    let mut rng = StdRng::seed_from_u64(1);
    let mut mat: SparseMatrix<u32> = SparseMatrix::new(4, 3, 0);
    for row in 0..3 {
        for col in 0..4 {
            mat.insert(col, row, 1).unwrap();
        }
    }
    assert_eq!(mat.random_default(&mut rng), None);
    assert_eq!(mat.nth_default(0), None);
    mat.insert(2, 1, 0).unwrap();
    assert_eq!(mat.random_default(&mut rng), Some((2, 1)));
}

#[test]
fn sampling_until_full_visits_every_cell_once() {
    let mut rng = StdRng::seed_from_u64(5);
    let mut mat: SparseMatrix<u32> = SparseMatrix::new(5, 4, 0);
    let mut seen = vec![vec![false; 5]; 4];
    for _ in 0..20 {
        let (col, row) = mat.random_default(&mut rng).unwrap();
        assert!(!seen[row][col]);
        seen[row][col] = true;
        mat.insert(col, row, 1).unwrap();
    }
    assert_eq!(mat.random_default(&mut rng), None);
    assert_eq!(mat.actual_size(), 20);
}

#[test]
fn sampling_an_empty_grid_gives_none() {
    let mut rng = StdRng::seed_from_u64(1);
    let mat: SparseMatrix<u32> = SparseMatrix::new(0, 0, 0);
    assert_eq!(mat.random_default(&mut rng), None);
    let flat: SparseMatrix<u32> = SparseMatrix::new(6, 0, 0);
    assert_eq!(flat.random_default(&mut rng), None);
    assert_eq!(flat.nth_default(0), None);
}

#[test]
fn sampling_reaches_every_default_cell() {
    let mut rng = StdRng::seed_from_u64(11);
    let mut mat: SparseMatrix<u32> = SparseMatrix::new(2, 2, 0);
    mat.insert(1, 0, 9).unwrap();
    let mut hits = vec![vec![0usize; 2]; 2];
    for _ in 0..300 {
        let (col, row) = mat.random_default(&mut rng).unwrap();
        hits[row][col] += 1;
    }
    assert_eq!(hits[0][1], 0);
    assert!(hits[0][0] > 50);
    assert!(hits[1][0] > 50);
    assert!(hits[1][1] > 50);
}

#[test]
fn same_seed_gives_the_same_cells() {
    let mut first = StdRng::seed_from_u64(2024);
    let mut second = StdRng::seed_from_u64(2024);
    let mut mat: SparseMatrix<u32> = SparseMatrix::new(50, 40, 0);
    mat.insert(10, 10, 1).unwrap();
    for _ in 0..20 {
        assert_eq!(mat.random_default(&mut first), mat.random_default(&mut second));
    }
}

#[test]
fn sampling_a_single_default_cell_finds_it() {
    let mut rng = StdRng::seed_from_u64(3);
    let mut mat: SparseMatrix<u32> = SparseMatrix::new(3, 3, 0);
    for row in 0..3 {
        for col in 0..3 {
            if (col, row) != (1, 2) {
                mat.insert(col, row, 7).unwrap();
            }
        }
    }
    for _ in 0..20 {
        assert_eq!(mat.random_default(&mut rng), Some((1, 2)));
    }
}
