use conix::settings::{auto_first_engine, engine_from_i, ipm_outcome_final, EngineKind};
use conix::status::{bump_update, classify, final_status, status_code, status_str, Status, UpdateClass};

#[test]
fn bump_update_keeps_the_most_severe_class() {
    let mut cur = UpdateClass::Setup;
    bump_update(&mut cur, UpdateClass::R0);
    assert_eq!(cur, UpdateClass::R0);
    bump_update(&mut cur, UpdateClass::R1);
    assert_eq!(cur, UpdateClass::R1);
    bump_update(&mut cur, UpdateClass::R0);
    assert_eq!(cur, UpdateClass::R1);
    bump_update(&mut cur, UpdateClass::Setup);
    assert_eq!(cur, UpdateClass::R1);
    bump_update(&mut cur, UpdateClass::R2);
    assert_eq!(cur, UpdateClass::R2);
    bump_update(&mut cur, UpdateClass::R0);
    assert_eq!(cur, UpdateClass::R2);
}

#[test]
fn bump_update_order_does_not_matter() {
    let classes = [UpdateClass::Setup, UpdateClass::R0, UpdateClass::R1, UpdateClass::R2];
    for &a in &classes {
        for &b in &classes {
            let mut x = UpdateClass::Setup;
            bump_update(&mut x, a);
            bump_update(&mut x, b);
            let mut y = UpdateClass::Setup;
            bump_update(&mut y, b);
            bump_update(&mut y, a);
            assert_eq!(x, y);
            let mut z = a;
            bump_update(&mut z, a);
            assert_eq!(z, a);
        }
    }
}

#[test]
fn status_names() {
    assert_eq!(status_str(Status::Unsolved), "Unsolved");
    assert_eq!(status_str(Status::Solved), "Solved");
    assert_eq!(status_str(Status::MaxIters), "MaxIters");
    assert_eq!(status_str(Status::PrimalInfeasible), "PrimalInfeasible");
    assert_eq!(status_str(Status::DualInfeasible), "DualInfeasible");
    assert_eq!(status_str(Status::Indeterminate), "Indeterminate");
}

#[test]
fn status_codes() {
    assert_eq!(status_code(Status::Unsolved), 0);
    assert_eq!(status_code(Status::Solved), 1);
    assert_eq!(status_code(Status::MaxIters), 2);
    assert_eq!(status_code(Status::PrimalInfeasible), 3);
    assert_eq!(status_code(Status::DualInfeasible), 4);
    assert_eq!(status_code(Status::Indeterminate), 5);
}

#[test]
fn final_status_rechecks_claims() {
    // infeasibility stands only with a certified ray
    assert_eq!(final_status(Status::PrimalInfeasible, true, false), Status::PrimalInfeasible);
    assert_eq!(final_status(Status::PrimalInfeasible, false, true), Status::MaxIters);
    assert_eq!(final_status(Status::DualInfeasible, true, true), Status::DualInfeasible);
    assert_eq!(final_status(Status::DualInfeasible, false, false), Status::MaxIters);
    // a passing residual check makes any other status Solved
    assert_eq!(final_status(Status::MaxIters, false, true), Status::Solved);
    assert_eq!(final_status(Status::Indeterminate, true, true), Status::Solved);
    // a failed Solved claim becomes MaxIters, the others stay
    assert_eq!(final_status(Status::Solved, true, false), Status::MaxIters);
    assert_eq!(final_status(Status::MaxIters, true, false), Status::MaxIters);
    assert_eq!(final_status(Status::Unsolved, false, false), Status::Unsolved);
    assert_eq!(final_status(Status::Indeterminate, false, false), Status::Indeterminate);
}

#[test]
fn engine_codes() {
    assert_eq!(engine_from_i(1), EngineKind::Admm);
    assert_eq!(engine_from_i(2), EngineKind::Splitting);
    assert_eq!(engine_from_i(3), EngineKind::Ipm);
    assert_eq!(engine_from_i(0), EngineKind::Auto);
    assert_eq!(engine_from_i(4), EngineKind::Auto);
    assert_eq!(engine_from_i(-1), EngineKind::Auto);
}

#[test]
fn auto_runs_admm_only_on_polyhedral_r0_with_a_solution() {
    assert_eq!(auto_first_engine(true, true, UpdateClass::R0), EngineKind::Admm);
    assert_eq!(auto_first_engine(true, true, UpdateClass::R1), EngineKind::Ipm);
    assert_eq!(auto_first_engine(true, true, UpdateClass::Setup), EngineKind::Ipm);
    assert_eq!(auto_first_engine(true, false, UpdateClass::R0), EngineKind::Ipm);
    assert_eq!(auto_first_engine(false, true, UpdateClass::R0), EngineKind::Ipm);
}

#[test]
fn ipm_outcomes_kept_by_auto() {
    assert!(ipm_outcome_final(Status::Solved));
    assert!(ipm_outcome_final(Status::PrimalInfeasible));
    assert!(ipm_outcome_final(Status::DualInfeasible));
    assert!(!ipm_outcome_final(Status::MaxIters));
    assert!(!ipm_outcome_final(Status::Indeterminate));
    assert!(!ipm_outcome_final(Status::Unsolved));
}

#[test]
fn classify_by_priority() {
    assert_eq!(classify(true, true, true, 10, 5), Status::PrimalInfeasible);
    assert_eq!(classify(false, true, true, 10, 5), Status::DualInfeasible);
    assert_eq!(classify(false, false, true, 10, 5), Status::Solved);
    assert_eq!(classify(false, false, false, 5, 5), Status::MaxIters);
    assert_eq!(classify(false, false, false, 4, 5), Status::Unsolved);
}
