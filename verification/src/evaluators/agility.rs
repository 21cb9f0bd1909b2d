//! The agility evaluator: how fast the cursor has to change direction.
use vstd::prelude::*;

verus! {

/// Rates how much cursor agility an object asks for.
///
/// Its rating is a floating-point formula over the object's distances and
/// timings; this crate holds the type, the rating stands with the callers.
pub struct AgilityEvaluator;

} // verus!
