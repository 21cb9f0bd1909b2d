//! The aim evaluator: snap, agility and flow difficulty combined.
use vstd::prelude::*;

verus! {

/// Combines the snap, agility and flow ratings of an object into one aim
/// rating.
///
/// The combination is a floating-point formula; this crate holds the type,
/// the rating stands with the callers.
pub struct AimEvaluator;

} // verus!
