//! The decision core of the component-wise Newton root finder: when to
//! declare convergence, when to keep iterating, and when to give up.

use vstd::prelude::*;

verus! {

/// After so many iterations, consider the numerical method has failed to
/// converge.
pub const NUMBER_ITERATION_FAIL: usize = 1000000;

/// Trait to be added to your custom struct holding Newton's method
/// arguments. The solver never inspects the arguments; it only hands them
/// to the caller's function and derivative.
pub trait NewtonMethodArguments {

}

/// Outcome of one convergence check of the component-wise Newton
/// iteration.
#[derive(Clone, Copy, Debug, PartialEq, Eq, Structural)]
pub enum NewtonDecision {
    /// Every component's last step stayed below the threshold: the
    /// current values are the answer.
    Converged,
    /// Some component is still moving and the iteration budget is spent:
    /// the method has failed to converge.
    Failed,
    /// Some component is still moving: take another step.
    Continue,
}

/// Every component's last step stayed below the convergence threshold.
pub open spec fn all_components_converged(step_below_threshold: Seq<bool>) -> bool {
    forall|i: int| 0 <= i < step_below_threshold.len() ==> step_below_threshold[i]
}

/// Decide how a component-wise Newton iteration proceeds, given, for each
/// component, whether its last step stayed below the convergence
/// threshold, and the number of iterations already taken. Convergence of
/// every component ends the search even on the iteration the budget runs
/// out; a search over no components at all is converged from the start.
pub fn newton_step_decision(step_below_threshold: &Vec<bool>, iteration: usize) -> (decision:
    NewtonDecision)
    ensures
        decision is Converged <==> all_components_converged(step_below_threshold@),
        decision is Failed <==> (!all_components_converged(step_below_threshold@) && iteration
            > NUMBER_ITERATION_FAIL),
        decision is Continue <==> (!all_components_converged(step_below_threshold@) && iteration
            <= NUMBER_ITERATION_FAIL),
{
    let mut all_converged: bool = true;
    let mut i: usize = 0;
    while i < step_below_threshold.len()
        invariant
            i <= step_below_threshold@.len(),
            all_converged <==> (forall|k: int| 0 <= k < i ==> step_below_threshold@[k]),
        decreases step_below_threshold@.len() - i,
    {
        if !step_below_threshold[i] {
            all_converged = false;
        }
        i = i + 1;
    }
    if all_converged {
        NewtonDecision::Converged
    } else if iteration > NUMBER_ITERATION_FAIL {
        NewtonDecision::Failed
    } else {
        NewtonDecision::Continue
    }
}

} // verus!
