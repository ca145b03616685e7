//! Choice of the solution engine.

use vstd::prelude::*;
use crate::status::{Status, UpdateClass};

verus! {

/// Which engine solves: the automatic choice, operator splitting (ADMM),
/// homogeneous Douglas-Rachford splitting, or the interior point method.
#[derive(Clone, Copy, Debug, PartialEq, Eq, Structural)]
pub enum EngineKind {
    Auto,
    Admm,
    Splitting,
    Ipm,
}

/// The engine for an integer code of the C interface.
pub open spec fn spec_engine_from_i(v: i32) -> EngineKind {
    if v == 1 {
        EngineKind::Admm
    } else if v == 2 {
        EngineKind::Splitting
    } else if v == 3 {
        EngineKind::Ipm
    } else {
        EngineKind::Auto
    }
}

/// The engine for an integer code: 1 ADMM, 2 splitting, 3 interior point,
/// any other code the automatic choice.
pub fn engine_from_i(v: i32) -> (r: EngineKind)
    ensures
        r == spec_engine_from_i(v),
{
    match v {
        1 => EngineKind::Admm,
        2 => EngineKind::Splitting,
        3 => EngineKind::Ipm,
        _ => EngineKind::Auto,
    }
}

/// The engine the automatic choice runs first: ADMM on a polyhedral problem
/// whose cached factor is still valid (a solution exists and only vectors
/// changed since), the interior point method otherwise.
pub open spec fn spec_auto_first_engine(polyhedral: bool, has_solution: bool, last_update: UpdateClass) -> EngineKind {
    if polyhedral && has_solution && last_update == UpdateClass::R0 {
        EngineKind::Admm
    } else {
        EngineKind::Ipm
    }
}

/// The engine the automatic choice runs first.
pub fn auto_first_engine(polyhedral: bool, has_solution: bool, last_update: UpdateClass) -> (r: EngineKind)
    ensures
        r == spec_auto_first_engine(polyhedral, has_solution, last_update),
{
    if polyhedral && has_solution && last_update == UpdateClass::R0 {
        EngineKind::Admm
    } else {
        EngineKind::Ipm
    }
}

/// An interior point outcome that the automatic choice keeps without trying
/// ADMM: solved, or either infeasibility.
pub fn ipm_outcome_final(status: Status) -> (r: bool)
    ensures
        r == (status == Status::Solved || status == Status::PrimalInfeasible || status == Status::DualInfeasible),
{
    match status {
        Status::Solved | Status::PrimalInfeasible | Status::DualInfeasible => true,
        _ => false,
    }
}

/// The automatic choice runs ADMM first exactly when the problem is
/// polyhedral and its cached factor is still valid: a solution exists and only
/// vectors changed since. Every other case, the first solve and matrix
/// updates among them, starts with the interior point method.
pub proof fn lemma_auto_first_engine(polyhedral: bool, has_solution: bool, last_update: UpdateClass)
    ensures
        spec_auto_first_engine(polyhedral, has_solution, last_update) == EngineKind::Admm
            ==> polyhedral && has_solution && last_update == UpdateClass::R0,
        polyhedral && has_solution && last_update == UpdateClass::R0
            ==> spec_auto_first_engine(polyhedral, has_solution, last_update) == EngineKind::Admm,
        spec_auto_first_engine(polyhedral, has_solution, last_update) == EngineKind::Admm
            || spec_auto_first_engine(polyhedral, has_solution, last_update) == EngineKind::Ipm,
{
}

/// Codes 1, 2 and 3 select ADMM, splitting and the interior point method, and
/// every other code the automatic choice.
pub proof fn lemma_engine_codes(v: i32)
    ensures
        v == 1 <==> spec_engine_from_i(v) == EngineKind::Admm,
        v == 2 <==> spec_engine_from_i(v) == EngineKind::Splitting,
        v == 3 <==> spec_engine_from_i(v) == EngineKind::Ipm,
        (v != 1 && v != 2 && v != 3) <==> spec_engine_from_i(v) == EngineKind::Auto,
{
}

} // verus!
