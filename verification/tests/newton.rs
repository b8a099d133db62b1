use tool::{newton_step_decision, NewtonDecision, NUMBER_ITERATION_FAIL};

#[test]
fn test_newton_converged_when_all_below_threshold() {
    let flags = vec![true, true, true];
    assert_eq!(newton_step_decision(&flags, 0), NewtonDecision::Converged);
    // convergence wins even when the budget is long spent
    assert_eq!(
        newton_step_decision(&flags, NUMBER_ITERATION_FAIL + 5),
        NewtonDecision::Converged
    );
}

#[test]
fn test_newton_empty_batch_is_converged() {
    let flags: Vec<bool> = Vec::new();
    assert_eq!(newton_step_decision(&flags, 0), NewtonDecision::Converged);
}

#[test]
fn test_newton_continue_while_budget_remains() {
    let flags = vec![true, false, true];
    assert_eq!(newton_step_decision(&flags, 0), NewtonDecision::Continue);
    // the cap comparison is strict: the budget boundary still iterates
    assert_eq!(
        newton_step_decision(&flags, NUMBER_ITERATION_FAIL),
        NewtonDecision::Continue
    );
}

#[test]
fn test_newton_failed_past_the_cap() {
    let flags = vec![false];
    assert_eq!(
        newton_step_decision(&flags, NUMBER_ITERATION_FAIL + 1),
        NewtonDecision::Failed
    );
}
