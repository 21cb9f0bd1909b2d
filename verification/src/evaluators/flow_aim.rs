//! The flow evaluator: difficulty of moving the cursor continuously.
use vstd::prelude::*;

verus! {

/// Rates how hard an object is to reach with a continuous cursor movement.
///
/// The rating is a floating-point formula; this crate holds the type, the
/// rating stands with the callers.
pub struct FlowAimEvaluator;

} // verus!
