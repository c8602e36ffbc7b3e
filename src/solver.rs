//! The stopping rule of the iterative solvers.

use vstd::prelude::*;

use crate::error::MatError;

verus! {

/// What an iterative solver does after checking its residual.
#[derive(Debug, Clone, Copy, PartialEq, Eq, Structural)]
pub enum SolverStep {
    /// The residual is within tolerance: the current estimate is the answer.
    Converged,
    /// Take one more step.
    Iterate,
    /// Stop and report the failure.
    Fail(MatError),
}

/// The stopping rule shared by the solvers: stop with the estimate once the
/// residual is within tolerance, fail with `DidNotConverge` once
/// `max_iterations` steps were taken without that, and otherwise go on.
pub fn next_step(
    iterations_done: usize,
    max_iterations: usize,
    residual_within_tolerance: bool,
) -> (r: SolverStep)
    ensures
        residual_within_tolerance ==> r == SolverStep::Converged,
        !residual_within_tolerance && iterations_done >= max_iterations ==> r == SolverStep::Fail(
            MatError::DidNotConverge,
        ),
        !residual_within_tolerance && iterations_done < max_iterations ==> r
            == SolverStep::Iterate,
{
    if residual_within_tolerance {
        SolverStep::Converged
    } else if iterations_done >= max_iterations {
        SolverStep::Fail(MatError::DidNotConverge)
    } else {
        SolverStep::Iterate
    }
}

} // verus!
