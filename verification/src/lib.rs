//! Verified bookkeeping of the osu! difficulty skills: which neighbouring
//! objects a difficulty evaluator looks at, how strain sections are opened,
//! back-filled and stored, how stored sections are split before weighting,
//! and how notes are counted for the reading reduction.
//!
//! Times are integers in microseconds, strain peak lengths are whole
//! milliseconds, and strain values are carried as order keys (see
//! [`skills::strain::STRAIN_ZERO`]).
pub mod object;
pub mod evaluators;
pub mod skills;
