//! Batch-oriented numeric helpers: sample counts and uniformly spaced
//! lists over stepped ranges, element-wise clipping and integer powers,
//! and the convergence policy of a component-wise Newton iteration.

mod general;
mod matrix;
mod numerical_algorithms;

pub use general::{type_of, TypeName};
pub use matrix::{
    clip, lemma_clip_no_bounds_identity, lemma_clip_within_bounds, lemma_linspace_endpoints,
    lemma_pows_unit_powers, linspace, pows, size_range_degenerate, size_range_with_step,
    spec_clip, spec_linspace_at, spec_size_range_with_step, spec_whole_steps,
};
pub use numerical_algorithms::{
    all_components_converged, newton_step_decision, NewtonDecision, NewtonMethodArguments,
    NUMBER_ITERATION_FAIL,
};
