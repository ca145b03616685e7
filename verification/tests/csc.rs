use conix::assembly::layout_triplets;
use conix::csc::CscMatrix;

fn mat(m: usize, n: usize, trips: &[(usize, usize, f64)]) -> CscMatrix<f64> {
    CscMatrix::from_unique_triplets(m, n, trips)
}

#[test]
fn zeros_stores_nothing() {
    let z: CscMatrix<f64> = CscMatrix::zeros(3, 2);
    assert_eq!(z.m, 3);
    assert_eq!(z.n, 2);
    assert_eq!(z.col_ptr, vec![0, 0, 0]);
    assert_eq!(z.nnz(), 0);
}

#[test]
fn identity_stores_the_diagonal() {
    let e = CscMatrix::identity(3, 1.0);
    assert_eq!(e.col_ptr, vec![0, 1, 2, 3]);
    assert_eq!(e.row_idx, vec![0, 1, 2]);
    assert_eq!(e.x, vec![1.0, 1.0, 1.0]);
    assert_eq!(e.nnz(), 3);
}

#[test]
fn from_unique_triplets_sorts_by_column_then_row() {
    let a = mat(3, 3, &[(2, 0, 3.0), (0, 0, 1.0), (1, 2, 5.0)]);
    assert_eq!(a.col_ptr, vec![0, 2, 2, 3]);
    assert_eq!(a.row_idx, vec![0, 2, 1]);
    assert_eq!(a.x, vec![1.0, 3.0, 5.0]);
}

#[test]
fn layout_merges_repeated_positions() {
    let lay = layout_triplets(2, 2, &[(1, 0), (0, 0), (1, 0), (0, 1)]);
    assert_eq!(lay.col_ptr, vec![0, 2, 3]);
    assert_eq!(lay.row_idx, vec![0, 1, 0]);
    assert_eq!(lay.slot, vec![1, 0, 1, 2]);
    assert_eq!(lay.first, vec![1, 0, 3]);
}

#[test]
fn layout_of_nothing_is_empty() {
    let lay = layout_triplets(3, 2, &[]);
    assert_eq!(lay.col_ptr, vec![0, 0, 0]);
    assert!(lay.row_idx.is_empty());
    assert!(lay.slot.is_empty());
}

#[test]
fn same_pattern_ignores_values() {
    let a = mat(2, 2, &[(0, 0, 1.0), (1, 1, 2.0)]);
    let b = mat(2, 2, &[(0, 0, -4.0), (1, 1, 0.5)]);
    let c = mat(2, 2, &[(0, 0, 1.0), (0, 1, 2.0)]);
    let d = mat(3, 2, &[(0, 0, 1.0), (1, 1, 2.0)]);
    assert!(a.same_pattern(&b));
    assert!(!a.same_pattern(&c));
    assert!(!a.same_pattern(&d));
}

#[test]
fn retain_entries_drops_unkept() {
    let a = mat(3, 2, &[(0, 0, 1.0), (2, 0, 0.0), (1, 1, 4.0)]);
    let r = a.retain_entries(&[true, false, true]);
    assert_eq!(r.col_ptr, vec![0, 1, 2]);
    assert_eq!(r.row_idx, vec![0, 1]);
    assert_eq!(r.x, vec![1.0, 4.0]);
    let all = a.retain_entries(&[true, true, true]);
    assert_eq!(all.col_ptr, a.col_ptr);
    assert_eq!(all.row_idx, a.row_idx);
    assert_eq!(all.x, a.x);
}

#[test]
fn upper_triangle_triplets_reflect_lower_entries() {
    let a = mat(2, 2, &[(0, 0, 2.0), (1, 0, 1.0), (0, 1, 1.0), (1, 1, 3.0)]);
    let t = a.upper_triangle_triplets();
    assert_eq!(t, vec![(0, 0, 2.0), (0, 1, 1.0), (0, 1, 1.0), (1, 1, 3.0)]);
}

#[test]
fn permute_sym_upper_relabels() {
    // upper triangle of [[1, 2, 0], [2, 3, 4], [0, 4, 5]]
    let a = mat(3, 3, &[(0, 0, 1.0), (0, 1, 2.0), (1, 1, 3.0), (1, 2, 4.0), (2, 2, 5.0)]);
    // new index k holds old index perm[k]
    let b = a.permute_sym_upper(&[2, 0, 1]);
    // B(k, l) = A(perm[k], perm[l]): B = [[5, 0, 4], [0, 1, 2], [4, 2, 3]]
    assert_eq!(b.col_ptr, vec![0, 1, 2, 5]);
    assert_eq!(b.row_idx, vec![0, 1, 0, 1, 2]);
    assert_eq!(b.x, vec![5.0, 1.0, 4.0, 2.0, 3.0]);
}

#[test]
fn permuted_pattern_depends_on_the_pattern_only() {
    let a1 = mat(3, 3, &[(0, 0, 1.0), (0, 1, 2.0), (1, 1, 3.0), (1, 2, 4.0), (2, 2, 5.0)]);
    let a2 = mat(3, 3, &[(0, 0, -7.0), (0, 1, 0.5), (1, 1, 9.0), (1, 2, -1.0), (2, 2, 2.0)]);
    let b1 = a1.permute_sym_upper(&[1, 2, 0]);
    let b2 = a2.permute_sym_upper(&[1, 2, 0]);
    assert_eq!(b1.col_ptr, b2.col_ptr);
    assert_eq!(b1.row_idx, b2.row_idx);
    assert_ne!(b1.x, b2.x);
}

#[test]
fn select_rows_picks_and_reorders() {
    let a = mat(3, 2, &[(0, 0, 1.0), (1, 0, 2.0), (2, 1, 3.0)]);
    let r = a.select_rows(&[2, 0]);
    assert_eq!(r.m, 2);
    assert_eq!(r.col_ptr, vec![0, 1, 2]);
    assert_eq!(r.row_idx, vec![1, 0]);
    assert_eq!(r.x, vec![1.0, 3.0]);
}
