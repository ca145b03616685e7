use conix::amd::order_upper;
use conix::csc::CscMatrix;
use conix::ldl::LdlSymbolic;
use conix::perm::{inv_permute, invert_permutation, permute};

fn mat(m: usize, n: usize, trips: &[(usize, usize, f64)]) -> CscMatrix<f64> {
    CscMatrix::from_unique_triplets(m, n, trips)
}

fn is_perm(p: &[usize], n: usize) -> bool {
    let mut seen = vec![false; n];
    for &i in p {
        if i >= n || seen[i] {
            return false;
        }
        seen[i] = true;
    }
    p.len() == n
}

#[test]
fn inverse_permutation() {
    assert_eq!(invert_permutation(&[2, 0, 1]), vec![1, 2, 0]);
    assert_eq!(invert_permutation(&[0, 1, 2, 3]), vec![0, 1, 2, 3]);
    assert!(invert_permutation(&[]).is_empty());
}

#[test]
fn permute_then_inv_permute_restores() {
    let perm = [2usize, 0, 3, 1];
    let x = [10.0, 20.0, 30.0, 40.0];
    let mut y = [0.0; 4];
    permute(&perm, &x, &mut y);
    assert_eq!(y, [30.0, 10.0, 40.0, 20.0]);
    let mut back = [0.0; 4];
    inv_permute(&perm, &y, &mut back);
    assert_eq!(back, x);
}

#[test]
fn minimum_degree_eliminates_leaves_first() {
    // upper triangle of a star centred at vertex 3 (an arrow matrix)
    let a = mat(4, 4, &[(0, 0, 1.0), (1, 1, 1.0), (2, 2, 1.0), (0, 3, 1.0), (1, 3, 1.0), (2, 3, 1.0), (3, 3, 1.0)]);
    assert_eq!(order_upper(&a), vec![0, 1, 2, 3]);
    // path 1 - 0 - 2: the ends go first, lowest index on ties
    let b = mat(3, 3, &[(0, 1, 1.0), (0, 2, 1.0)]);
    assert_eq!(order_upper(&b), vec![1, 0, 2]);
}

#[test]
fn minimum_degree_follows_the_elimination_graph() {
    // edges 0-1, 0-2, 0-3, 3-4: once 1 and 2 are gone, vertex 0 has degree 1
    // and goes before 3 and 4, unlike an order by the initial degrees
    let a = mat(5, 5, &[(0, 1, 1.0), (0, 2, 1.0), (0, 3, 1.0), (3, 4, 1.0)]);
    assert_eq!(order_upper(&a), vec![1, 2, 0, 3, 4]);
    // a 4-cycle: eliminating 0 joins 1 and 3, and every degree stays 2
    let c = mat(4, 4, &[(0, 1, 1.0), (1, 2, 1.0), (2, 3, 1.0), (0, 3, 1.0)]);
    assert_eq!(order_upper(&c), vec![0, 1, 2, 3]);
    // lower-triangle entries count the same as upper ones
    let l = mat(3, 3, &[(1, 0, 1.0), (2, 0, 1.0)]);
    assert_eq!(order_upper(&l), vec![1, 0, 2]);
}

#[test]
fn ordering_depends_on_the_pattern_only() {
    let t1 = [(0, 0, 4.0), (0, 2, 1.0), (1, 2, -2.0), (2, 3, 0.5), (3, 3, 1.0)];
    let t2 = [(0, 0, -1.0), (0, 2, 7.0), (1, 2, 3.0), (2, 3, 9.0), (3, 3, 2.0)];
    let p1 = order_upper(&mat(4, 4, &t1));
    let p2 = order_upper(&mat(4, 4, &t2));
    assert_eq!(p1, p2);
    assert_eq!(p1, vec![0, 1, 2, 3]);
}

#[test]
fn ordering_is_a_permutation() {
    let a = mat(5, 5, &[(0, 0, 1.0), (0, 4, 1.0), (1, 2, 1.0), (2, 4, 1.0), (3, 3, 1.0), (1, 4, 1.0)]);
    let p = order_upper(&a);
    assert!(is_perm(&p, 5));
    let e: CscMatrix<f64> = CscMatrix::zeros(0, 0);
    assert!(order_upper(&e).is_empty());
}

#[test]
fn symbolic_tridiagonal() {
    // upper triangle of a tridiagonal 3 x 3 matrix
    let a = mat(3, 3, &[(0, 0, 4.0), (0, 1, 1.0), (1, 1, 4.0), (1, 2, 1.0), (2, 2, 4.0)]);
    let s = LdlSymbolic::analyze(&a).unwrap();
    assert_eq!(s.n, 3);
    assert_eq!(s.etree, vec![1, 2, -1]);
    assert_eq!(s.lnz, vec![1, 1, 0]);
    assert_eq!(s.lp, vec![0, 1, 2, 2]);
}

#[test]
fn symbolic_analysis_depends_on_the_pattern_only() {
    let a1 = mat(3, 3, &[(0, 0, 4.0), (0, 2, 1.0), (1, 1, 4.0), (1, 2, 1.0), (2, 2, 4.0)]);
    let a2 = mat(3, 3, &[(0, 0, -2.0), (0, 2, 8.0), (1, 1, 0.5), (1, 2, -3.0), (2, 2, 1.0)]);
    let s1 = LdlSymbolic::analyze(&a1).unwrap();
    let s2 = LdlSymbolic::analyze(&a2).unwrap();
    assert_eq!(s1.etree, s2.etree);
    assert_eq!(s1.lnz, s2.lnz);
    assert_eq!(s1.lp, s2.lp);
    assert_eq!(s1.etree, vec![2, 2, -1]);
}

#[test]
fn symbolic_arrow_fills_nothing() {
    let a = mat(3, 3, &[(0, 0, 1.0), (1, 1, 1.0), (0, 2, 1.0), (1, 2, 1.0), (2, 2, 1.0)]);
    let s = LdlSymbolic::analyze(&a).unwrap();
    assert_eq!(s.etree, vec![2, 2, -1]);
    assert_eq!(s.lnz, vec![1, 1, 0]);
    assert_eq!(s.lp, vec![0, 1, 2, 2]);
}

#[test]
fn symbolic_fill_in() {
    // entries (0,1) and (0,2) make L(2,1) fill in
    let a = mat(3, 3, &[(0, 0, 1.0), (0, 1, 1.0), (1, 1, 1.0), (0, 2, 1.0), (2, 2, 1.0)]);
    let s = LdlSymbolic::analyze(&a).unwrap();
    assert_eq!(s.etree, vec![1, 2, -1]);
    assert_eq!(s.lnz, vec![2, 1, 0]);
    assert_eq!(s.lp, vec![0, 2, 3, 3]);
}

#[test]
fn row_patterns_list_descendants_first() {
    let a = mat(3, 3, &[(0, 0, 1.0), (0, 1, 1.0), (1, 1, 1.0), (0, 2, 1.0), (2, 2, 1.0)]);
    let s = LdlSymbolic::analyze(&a).unwrap();
    let rows = s.row_patterns(&a);
    assert_eq!(rows, vec![vec![], vec![0], vec![0, 1]]);
    let b = mat(3, 3, &[(0, 0, 1.0), (1, 1, 1.0), (0, 2, 1.0), (1, 2, 1.0), (2, 2, 1.0)]);
    let sb = LdlSymbolic::analyze(&b).unwrap();
    assert_eq!(sb.row_patterns(&b), vec![vec![], vec![], vec![1, 0]]);
}

#[test]
fn row_patterns_follow_the_walks_last_first() {
    // column 3 holds rows 0 and 1; the walk from 0 meets 0 then 2, the walk
    // from 1 meets 1; the last walk comes first
    let a = mat(4, 4, &[(0, 0, 1.0), (1, 1, 1.0), (0, 2, 1.0), (2, 2, 1.0), (0, 3, 1.0), (1, 3, 1.0), (3, 3, 1.0)]);
    let s = LdlSymbolic::analyze(&a).unwrap();
    assert_eq!(s.etree, vec![2, 3, 3, -1]);
    assert_eq!(s.row_patterns(&a), vec![vec![], vec![], vec![0], vec![1, 0, 2]]);
}

#[test]
fn fill_check_accepts_small_and_refused_matrices() {
    let a = mat(3, 3, &[(0, 0, 1.0), (0, 2, 1.0), (1, 1, 1.0), (2, 2, 1.0)]);
    assert!(LdlSymbolic::fill_fits_in_usize(&a));
    let empty_col = mat(2, 2, &[(0, 0, 1.0)]);
    assert!(LdlSymbolic::fill_fits_in_usize(&empty_col));
}

#[test]
fn symbolic_rejects_empty_column() {
    let a = mat(2, 2, &[(0, 0, 1.0)]);
    let e = LdlSymbolic::analyze(&a).unwrap_err();
    assert_eq!(e.msg, "empty column in upper CSC");
}

#[test]
fn symbolic_rejects_lower_entry() {
    let a = mat(2, 2, &[(0, 0, 1.0), (1, 0, 1.0), (1, 1, 1.0)]);
    let e = LdlSymbolic::analyze(&a).unwrap_err();
    assert_eq!(e.msg, "entry below diagonal");
}
