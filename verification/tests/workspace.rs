use conix::cones::{CompositeCone, Cone};
use conix::csc::CscMatrix;
use conix::workspace::Qcp;

fn problem(pm: usize, pn: usize, qlen: usize, am: usize, an: usize, blen: usize, cone_dim: usize) -> Qcp<f64, f64> {
    Qcp {
        p: CscMatrix::zeros(pm, pn),
        q: vec![0.0; qlen],
        a: CscMatrix::zeros(am, an),
        b: vec![0.0; blen],
        cones: CompositeCone::new(vec![Cone::Nonnegative { dim: cone_dim }]),
    }
}

#[test]
fn validate_accepts_consistent_dimensions() {
    assert!(problem(2, 2, 2, 3, 2, 3, 3).validate().is_ok());
}

#[test]
fn validate_reports_first_mismatch() {
    assert_eq!(problem(2, 3, 2, 3, 2, 3, 3).validate().unwrap_err(), "P must be square");
    assert_eq!(problem(2, 2, 1, 3, 2, 3, 3).validate().unwrap_err(), "q dimension");
    assert_eq!(problem(2, 2, 2, 3, 1, 3, 3).validate().unwrap_err(), "A column dimension");
    assert_eq!(problem(2, 2, 2, 3, 2, 2, 3).validate().unwrap_err(), "b dimension");
    assert_eq!(problem(2, 2, 2, 3, 2, 3, 2).validate().unwrap_err(), "cone dimension != m");
    // several mismatches: the first one is reported
    assert_eq!(problem(2, 3, 1, 3, 1, 2, 2).validate().unwrap_err(), "P must be square");
}
