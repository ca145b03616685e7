use conix::cones::{CompositeCone, Cone};
use conix::csc::CscMatrix;
use conix::kkt::{assemble, assemble_upper, assemble_with_blocks, hs_block_placeholders, HsBlock, KktSource};

fn mat(m: usize, n: usize, trips: &[(usize, usize, f64)]) -> CscMatrix<f64> {
    CscMatrix::from_unique_triplets(m, n, trips)
}

#[test]
fn exp_block_is_not_dense_m() {
    let p: CscMatrix<f64> = CscMatrix::zeros(1, 1);
    let a = mat(6, 1, &[(0, 0, 1.0), (3, 0, -1.0)]);
    let cones: CompositeCone<f64> = CompositeCone::new(vec![Cone::Nonnegative { dim: 3 }, Cone::Exponential]);
    let k = assemble(&p, &a, &cones);
    let dense_hs = 6 * 7 / 2;
    assert!(
        k.k.nnz() < 1 + 2 + dense_hs,
        "nnz={} should be cone-block, not dense Hs",
        k.k.nnz()
    );
    assert_eq!(cones.hs_packed_len(), 3 + 6);
}

#[test]
fn ipm_kkt_cone_blocks_not_dense() {
    let p: CscMatrix<f64> = CscMatrix::zeros(1, 1);
    let a = mat(9, 1, &[(0, 0, 1.0), (3, 0, -1.0), (6, 0, 0.5)]);
    let cones: CompositeCone<f64> = CompositeCone::new(vec![
        Cone::Nonnegative { dim: 3 },
        Cone::Exponential,
        Cone::Exponential,
    ]);
    let k = assemble(&p, &a, &cones);
    let dense_hs = 9 * 10 / 2;
    assert!(
        k.k.nnz() < dense_hs,
        "nnz={} should beat a dense m x m Hs triangle ({dense_hs})",
        k.k.nnz()
    );
    assert_eq!(cones.hs_packed_len(), 3 + 6 + 6);
}

#[test]
fn nn_only_diagonal_hs() {
    let p = CscMatrix::identity(2, 1.0);
    let a = mat(2, 2, &[(0, 0, 1.0), (1, 1, 1.0)]);
    let cones: CompositeCone<f64> = CompositeCone::new(vec![Cone::Nonnegative { dim: 2 }]);
    let k = assemble(&p, &a, &cones);
    assert_eq!(cones.hs_packed_len(), 2);
    assert!(matches!(&k.blocks[0], HsBlock::Diagonal { off: 0, indices } if indices.len() == 2));
}

#[test]
fn splitting_kkt_pattern() {
    // P = [[4, 1], [1, 2]] by its upper triangle, A = [1 1]
    let pu = mat(2, 2, &[(0, 0, 4.0), (0, 1, 1.0), (1, 1, 2.0)]);
    let a = mat(1, 2, &[(0, 0, 1.0), (0, 1, 1.0)]);
    let r = assemble_upper(&pu, &a);
    assert_eq!(r.k.m, 3);
    assert_eq!(r.k.n, 3);
    assert_eq!(r.k.col_ptr, vec![0, 1, 3, 6]);
    assert_eq!(r.k.row_idx, vec![0, 0, 1, 0, 1, 2]);
    assert_eq!(
        r.k.x,
        vec![
            KktSource::P(0),
            KktSource::P(1),
            KktSource::P(2),
            KktSource::A(0),
            KktSource::A(1),
            KktSource::DualDiag(0)
        ]
    );
    assert_eq!(r.p_map, vec![0, 1, 2]);
    assert_eq!(r.a_map, vec![3, 4]);
    assert_eq!(r.diag_map, vec![0, 2]);
    assert_eq!(r.rho_map, vec![5]);
}

#[test]
fn splitting_kkt_fills_missing_diagonal_with_sigma() {
    let pu = mat(2, 2, &[(0, 1, 1.0)]);
    let a = mat(0, 2, &[]);
    let r = assemble_upper(&pu, &a);
    assert_eq!(r.k.col_ptr, vec![0, 1, 3]);
    assert_eq!(r.k.row_idx, vec![0, 0, 1]);
    assert_eq!(r.k.x, vec![KktSource::SigmaDiag(0), KktSource::P(0), KktSource::SigmaDiag(1)]);
    assert_eq!(r.diag_map, vec![0, 2]);
    assert!(r.rho_map.is_empty());
}

#[test]
fn kkt_pattern_survives_value_updates() {
    let pu1 = mat(2, 2, &[(0, 0, 4.0), (0, 1, 1.0), (1, 1, 2.0)]);
    let pu2 = mat(2, 2, &[(0, 0, -7.0), (0, 1, 0.0), (1, 1, 9.5)]);
    let a1 = mat(2, 2, &[(0, 0, 1.0), (1, 0, 2.0), (1, 1, 3.0)]);
    let a2 = mat(2, 2, &[(0, 0, 5.0), (1, 0, 6.0), (1, 1, 7.0)]);
    let r1 = assemble_upper(&pu1, &a1);
    let r2 = assemble_upper(&pu2, &a2);
    assert!(r1.k.same_pattern(&r2.k));
    assert_eq!(r1.k.x, r2.k.x);
    assert_eq!(r1.p_map, r2.p_map);
    assert_eq!(r1.a_map, r2.a_map);
    assert_eq!(r1.diag_map, r2.diag_map);
    assert_eq!(r1.rho_map, r2.rho_map);
    let cones: CompositeCone<f64> = CompositeCone::new(vec![Cone::SecondOrder { dim: 2 }]);
    let s1 = assemble(&pu1, &a1, &cones);
    let s2 = assemble(&pu2, &a2, &cones);
    assert!(s1.k.same_pattern(&s2.k));
    assert_eq!(s1.k.x, s2.k.x);
    assert_eq!(s1.p_map, s2.p_map);
    assert_eq!(s1.a_map, s2.a_map);
    assert_eq!(s1.diag_p, s2.diag_p);
}

#[test]
fn ipm_kkt_pattern_with_dense_block() {
    let pu = mat(1, 1, &[(0, 0, 1.0)]);
    let a = mat(3, 1, &[(0, 0, 1.0), (2, 0, 1.0)]);
    let blocks = vec![
        HsBlock::Diagonal { off: 0, indices: vec![0; 1] },
        HsBlock::DenseUpper { off: 1, dim: 2, indices: vec![0; 3] },
    ];
    let r = assemble_with_blocks(&pu, &a, &blocks);
    assert_eq!(r.k.col_ptr, vec![0, 1, 3, 4, 7]);
    assert_eq!(r.k.row_idx, vec![0, 0, 1, 2, 0, 2, 3]);
    assert_eq!(
        r.k.x,
        vec![
            KktSource::P(0),
            KktSource::A(0),
            KktSource::Hs(0, 0),
            KktSource::Hs(1, 0),
            KktSource::A(1),
            KktSource::Hs(1, 1),
            KktSource::Hs(1, 2)
        ]
    );
    assert_eq!(r.p_map, vec![0]);
    assert_eq!(r.a_map, vec![1, 4]);
    assert_eq!(r.diag_p, vec![0]);
    assert!(matches!(&r.blocks[0], HsBlock::Diagonal { off: 0, indices } if *indices == vec![2]));
    assert!(matches!(&r.blocks[1], HsBlock::DenseUpper { off: 1, dim: 2, indices } if *indices == vec![3, 5, 6]));
}

#[test]
fn placeholders_follow_the_cones() {
    let cones: CompositeCone<f64> = CompositeCone::new(vec![
        Cone::Zero { dim: 1 },
        Cone::SecondOrder { dim: 3 },
        Cone::Nonnegative { dim: 2 },
    ]);
    let b = hs_block_placeholders(&cones);
    assert_eq!(b.len(), 3);
    assert!(matches!(&b[0], HsBlock::Diagonal { off: 0, indices } if *indices == vec![0]));
    assert!(matches!(&b[1], HsBlock::DenseUpper { off: 1, dim: 3, indices } if *indices == vec![0; 6]));
    assert!(matches!(&b[2], HsBlock::Diagonal { off: 4, indices } if *indices == vec![0, 0]));
}
