use conix::cones::{cone_from_code, psd_tri_len, CompositeCone, Cone};
use conix::workspace::zero_cone_rows;

#[test]
fn packed_triangle_lengths() {
    assert_eq!(psd_tri_len(0), 0);
    assert_eq!(psd_tri_len(1), 1);
    assert_eq!(psd_tri_len(3), 6);
    assert_eq!(psd_tri_len(4), 10);
}

#[test]
fn cone_dimensions_and_degrees() {
    let cones: Vec<Cone<f64>> = vec![
        Cone::Zero { dim: 2 },
        Cone::Nonnegative { dim: 3 },
        Cone::SecondOrder { dim: 4 },
        Cone::Exponential,
        Cone::DualExponential,
        Cone::Power { alpha: 0.3 },
        Cone::DualPower { alpha: 0.7 },
        Cone::GenPower { alpha: vec![0.5, 0.5], n_z: 1 },
        Cone::PsdTriangle { side: 3 },
    ];
    let dims: Vec<usize> = cones.iter().map(|c| c.dim()).collect();
    assert_eq!(dims, vec![2, 3, 4, 3, 3, 3, 3, 3, 6]);
    let degrees: Vec<usize> = cones.iter().map(|c| c.barrier_degree()).collect();
    assert_eq!(degrees, vec![0, 3, 1, 3, 3, 3, 3, 3, 3]);
    let poly: Vec<bool> = cones.iter().map(|c| c.is_polyhedral()).collect();
    assert_eq!(poly, vec![true, true, false, false, false, false, false, false, false]);
    let sym: Vec<bool> = cones.iter().map(|c| c.is_symmetric()).collect();
    assert_eq!(sym, vec![true, true, true, false, false, false, false, false, true]);
    let packed: Vec<usize> = cones.iter().map(|c| c.hs_packed_len()).collect();
    assert_eq!(packed, vec![2, 3, 10, 6, 6, 6, 6, 6, 21]);
}

#[test]
fn composite_offsets_are_running_sums() {
    let cc: CompositeCone<f64> = CompositeCone::new(vec![
        Cone::Zero { dim: 2 },
        Cone::Exponential,
        Cone::Nonnegative { dim: 4 },
    ]);
    assert_eq!(cc.offsets, vec![0, 2, 5]);
    assert_eq!(cc.dim, 9);
    assert!(!cc.is_polyhedral());
    assert!(!cc.is_symmetric());
    assert_eq!(cc.barrier_degree(), 0 + 3 + 4);
    assert_eq!(cc.hs_packed_len(), 2 + 6 + 4);
    let empty: CompositeCone<f64> = CompositeCone::new(Vec::new());
    assert_eq!(empty.dim, 0);
    assert!(empty.is_polyhedral());
}

#[test]
fn cone_codes() {
    assert!(matches!(cone_from_code(0, 3, 0.5), Ok(Cone::Zero { dim: 3 })));
    assert!(matches!(cone_from_code(1, 2, 0.5), Ok(Cone::Nonnegative { dim: 2 })));
    assert!(matches!(cone_from_code(2, 4, 0.5), Ok(Cone::SecondOrder { dim: 4 })));
    assert!(matches!(cone_from_code(3, 9, 0.5), Ok(Cone::Exponential)));
    assert!(matches!(cone_from_code(4, 9, 0.25), Ok(Cone::Power { alpha }) if alpha == 0.25));
    assert!(matches!(cone_from_code(5, 9, 0.5), Ok(Cone::DualExponential)));
    assert!(matches!(cone_from_code(6, 9, 0.75), Ok(Cone::DualPower { alpha }) if alpha == 0.75));
    assert!(matches!(cone_from_code(8, 3, 0.5), Ok(Cone::PsdTriangle { side: 3 })));
    assert!(matches!(cone_from_code(7, 3, 0.5), Err(7)));
    assert!(matches!(cone_from_code(-2, 3, 0.5), Err(-2)));
}

#[test]
fn equality_rows_of_a_product() {
    let cc: CompositeCone<f64> = CompositeCone::new(vec![
        Cone::Zero { dim: 2 },
        Cone::Nonnegative { dim: 1 },
        Cone::Zero { dim: 1 },
        Cone::SecondOrder { dim: 2 },
    ]);
    assert_eq!(zero_cone_rows(&cc), vec![true, true, false, true, false, false]);
}
