//! Solver status codes and the classification of data updates between solves.

use vstd::prelude::*;

verus! {

/// Outcome of a solve.
#[derive(Clone, Copy, Debug, PartialEq, Eq, Structural)]
pub enum Status {
    Unsolved,
    Solved,
    MaxIters,
    PrimalInfeasible,
    DualInfeasible,
    Indeterminate,
}

/// How much of the cached solver state a data update invalidates.
///
/// `Setup`: nothing changed since the last solve. `R0`: only vectors changed
/// (factorizations stay valid). `R1`: matrix values changed on a fixed
/// pattern (numeric refactor). `R2`: the pattern changed (full re-analysis).
#[derive(Clone, Copy, Debug, PartialEq, Eq, Structural)]
pub enum UpdateClass {
    Setup,
    R0,
    R1,
    R2,
}

/// Rank of an update class in the chain `Setup < R0 < R1 < R2`.
pub open spec fn update_rank(c: UpdateClass) -> int {
    match c {
        UpdateClass::Setup => 0,
        UpdateClass::R0 => 1,
        UpdateClass::R1 => 2,
        UpdateClass::R2 => 3,
    }
}

/// The class that covers both `a` and `b`: the more severe of the two.
pub open spec fn join_update(a: UpdateClass, b: UpdateClass) -> UpdateClass {
    if update_rank(a) >= update_rank(b) { a } else { b }
}

/// Record an incoming update: the pending class becomes the more severe of
/// the pending and the incoming one.
pub fn bump_update(cur: &mut UpdateClass, incoming: UpdateClass)
    ensures
        *final(cur) == join_update(*old(cur), incoming),
{
    *cur = match (*cur, incoming) {
        (UpdateClass::R2, _) | (_, UpdateClass::R2) => UpdateClass::R2,
        (UpdateClass::R1, _) | (_, UpdateClass::R1) => UpdateClass::R1,
        (UpdateClass::R0, _) | (_, UpdateClass::R0) => UpdateClass::R0,
        _ => UpdateClass::Setup,
    };
}


/// Recording an update after another gives what recording them in the other
/// order gives.
pub proof fn lemma_join_commutative(a: UpdateClass, b: UpdateClass)
    ensures
        join_update(a, b) == join_update(b, a),
{
}

/// Recording a sequence of updates does not depend on how they are grouped.
pub proof fn lemma_join_associative(a: UpdateClass, b: UpdateClass, c: UpdateClass)
    ensures
        join_update(join_update(a, b), c) == join_update(a, join_update(b, c)),
{
}

/// Recording the pending class again changes nothing.
pub proof fn lemma_join_idempotent(a: UpdateClass)
    ensures
        join_update(a, a) == a,
{
}

/// `Setup` records no change: it leaves the pending class as it is.
pub proof fn lemma_join_setup_identity(a: UpdateClass)
    ensures
        join_update(a, UpdateClass::Setup) == a,
        join_update(UpdateClass::Setup, a) == a,
{
}

/// An update never lowers the pending class, and the result is the more
/// severe of the two; `R2` absorbs everything.
pub proof fn lemma_join_is_max(a: UpdateClass, b: UpdateClass)
    ensures
        update_rank(join_update(a, b)) >= update_rank(a),
        update_rank(join_update(a, b)) >= update_rank(b),
        join_update(a, b) == a || join_update(a, b) == b,
        join_update(a, UpdateClass::R2) == UpdateClass::R2,
{
}

/// Name of a status, as the Python interface reports it.
pub open spec fn status_name(s: Status) -> Seq<char> {
    match s {
        Status::Unsolved => "Unsolved"@,
        Status::Solved => "Solved"@,
        Status::MaxIters => "MaxIters"@,
        Status::PrimalInfeasible => "PrimalInfeasible"@,
        Status::DualInfeasible => "DualInfeasible"@,
        Status::Indeterminate => "Indeterminate"@,
    }
}

/// Name of a status.
pub fn status_str(s: Status) -> (r: &'static str)
    ensures
        r@ == status_name(s),
{
    match s {
        Status::Unsolved => "Unsolved",
        Status::Solved => "Solved",
        Status::MaxIters => "MaxIters",
        Status::PrimalInfeasible => "PrimalInfeasible",
        Status::DualInfeasible => "DualInfeasible",
        Status::Indeterminate => "Indeterminate",
    }
}

/// Integer code of a status in the C interface.
pub open spec fn spec_status_code(s: Status) -> int {
    match s {
        Status::Unsolved => 0,
        Status::Solved => 1,
        Status::MaxIters => 2,
        Status::PrimalInfeasible => 3,
        Status::DualInfeasible => 4,
        Status::Indeterminate => 5,
    }
}

/// Integer code of a status: 0 unsolved, 1 solved, 2 iteration limit,
/// 3 primal infeasible, 4 dual infeasible, 5 indeterminate.
pub fn status_code(s: Status) -> (r: i32)
    ensures
        r == spec_status_code(s),
{
    match s {
        Status::Solved => 1,
        Status::MaxIters => 2,
        Status::PrimalInfeasible => 3,
        Status::DualInfeasible => 4,
        Status::Indeterminate => 5,
        Status::Unsolved => 0,
    }
}

/// The status a solve reports after its independent check: an infeasibility
/// status stands only if its ray is certified; any other status becomes
/// `Solved` exactly when the residuals pass, and a `Solved` claim that fails
/// them becomes `MaxIters`.
pub open spec fn spec_final_status(status: Status, ray_certified: bool, solved: bool) -> Status {
    match status {
        Status::PrimalInfeasible => if ray_certified { status } else { Status::MaxIters },
        Status::DualInfeasible => if ray_certified { status } else { Status::MaxIters },
        _ => if solved {
            Status::Solved
        } else if status == Status::Solved {
            Status::MaxIters
        } else {
            status
        },
    }
}

/// The reported status, from the engine's status, whether the infeasibility
/// ray matching that status was certified in original coordinates, and
/// whether the original residuals meet the tolerance.
pub fn final_status(status: Status, ray_certified: bool, solved: bool) -> (r: Status)
    ensures
        r == spec_final_status(status, ray_certified, solved),
{
    match status {
        Status::PrimalInfeasible | Status::DualInfeasible => {
            if !ray_certified {
                Status::MaxIters
            } else {
                status
            }
        }
        _ => {
            if solved {
                Status::Solved
            } else if status == Status::Solved {
                Status::MaxIters
            } else {
                status
            }
        }
    }
}

/// An accepted `Solved` passed the residual check, and an accepted
/// infeasibility status carries a certified ray.
pub proof fn lemma_final_status_checked(status: Status, ray_certified: bool, solved: bool)
    ensures
        spec_final_status(status, ray_certified, solved) == Status::Solved ==> solved,
        spec_final_status(status, ray_certified, solved) is PrimalInfeasible ==> ray_certified,
        spec_final_status(status, ray_certified, solved) is DualInfeasible ==> ray_certified,
{
}


/// The status an engine reports at a termination check, by priority: a primal
/// infeasibility ray, a dual infeasibility ray, converged residuals, the
/// iteration limit; otherwise the solve goes on.
pub open spec fn spec_classify(pri_ray: bool, dual_ray: bool, solved: bool, iters: int, max_iter: int) -> Status {
    if pri_ray {
        Status::PrimalInfeasible
    } else if dual_ray {
        Status::DualInfeasible
    } else if solved {
        Status::Solved
    } else if iters >= max_iter {
        Status::MaxIters
    } else {
        Status::Unsolved
    }
}

/// Classify a termination check from whether a primal or a dual
/// infeasibility ray was found, whether the residuals converged, and the
/// iteration count against its limit.
pub fn classify(pri_ray: bool, dual_ray: bool, solved: bool, iters: usize, max_iter: usize) -> (r: Status)
    ensures
        r == spec_classify(pri_ray, dual_ray, solved, iters as int, max_iter as int),
{
    if pri_ray {
        return Status::PrimalInfeasible;
    }
    if dual_ray {
        return Status::DualInfeasible;
    }
    if solved {
        return Status::Solved;
    }
    if iters >= max_iter {
        return Status::MaxIters;
    }
    Status::Unsolved
}

/// A passing residual check makes any status other than an infeasibility
/// `Solved`, whatever the engine reported.
pub proof fn lemma_final_status_check_passes(status: Status, ray_certified: bool, solved: bool)
    requires
        !(status is PrimalInfeasible),
        !(status is DualInfeasible),
        solved,
    ensures
        spec_final_status(status, ray_certified, solved) == Status::Solved,
{
}

/// A failing residual check never reports `Solved`: a `Solved` claim becomes
/// `MaxIters`, and any other status other than an infeasibility is kept.
pub proof fn lemma_final_status_check_fails(status: Status, ray_certified: bool, solved: bool)
    requires
        !(status is PrimalInfeasible),
        !(status is DualInfeasible),
        !solved,
    ensures
        spec_final_status(status, ray_certified, solved) != Status::Solved,
        status == Status::Solved ==> spec_final_status(status, ray_certified, solved) == Status::MaxIters,
        status != Status::Solved ==> spec_final_status(status, ray_certified, solved) == status,
{
}

/// An infeasibility status stands exactly when its ray is certified, and is
/// `MaxIters` otherwise; the residual check plays no part.
pub proof fn lemma_final_status_infeasible(status: Status, ray_certified: bool, solved: bool)
    requires
        status is PrimalInfeasible || status is DualInfeasible,
    ensures
        ray_certified ==> spec_final_status(status, ray_certified, solved) == status,
        !ray_certified ==> spec_final_status(status, ray_certified, solved) == Status::MaxIters,
        spec_final_status(status, ray_certified, solved) == spec_final_status(status, ray_certified, !solved),
{
}

/// A termination check reports by priority: a primal ray wins, then a dual
/// ray, then converged residuals, then the iteration limit; only when none
/// holds does the solve go on.
pub proof fn lemma_classify_priority(pri_ray: bool, dual_ray: bool, solved: bool, iters: int, max_iter: int)
    ensures
        pri_ray ==> spec_classify(pri_ray, dual_ray, solved, iters, max_iter) == Status::PrimalInfeasible,
        !pri_ray && dual_ray ==> spec_classify(pri_ray, dual_ray, solved, iters, max_iter) == Status::DualInfeasible,
        !pri_ray && !dual_ray && solved ==> spec_classify(pri_ray, dual_ray, solved, iters, max_iter) == Status::Solved,
        !pri_ray && !dual_ray && !solved && iters >= max_iter
            ==> spec_classify(pri_ray, dual_ray, solved, iters, max_iter) == Status::MaxIters,
        spec_classify(pri_ray, dual_ray, solved, iters, max_iter) == Status::Unsolved
            <==> (!pri_ray && !dual_ray && !solved && iters < max_iter),
{
}

} // verus!
