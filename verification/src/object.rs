use vstd::prelude::*;

verus! {

/// Microseconds in one millisecond.
pub const MICROS_PER_MILLI: i64 = 1000;

/// The timing facts of one difficulty object that the window selections read.
///
/// The objects of a beatmap are held in a slice in the order in which they are
/// played, and an object is referred to by its position in that slice.
/// All three fields are in microseconds.
#[derive(Clone, Copy, Debug)]
pub struct ObjectTiming {
    /// When the object starts.
    pub start_time: i64,
    /// How long before its start time the object begins to appear.
    pub preempt: i64,
    /// Time since the previous object, after the lower clamp.
    pub adjusted_delta_time: i64,
}

impl ObjectTiming {
    /// Builds the timing record of one object.
    pub fn new(start_time: i64, preempt: i64, adjusted_delta_time: i64) -> (res: Self)
        ensures
            res.start_time == start_time,
            res.preempt == preempt,
            res.adjusted_delta_time == adjusted_delta_time,
    {
        ObjectTiming { start_time, preempt, adjusted_delta_time }
    }
}

/// Position of the object `backwards + 1` places before position `idx`.
pub open spec fn previous_position(idx: int, backwards: int) -> int {
    idx - backwards - 1
}

/// Position of the object `forwards + 1` places after position `idx`.
pub open spec fn next_position(idx: int, forwards: int) -> int {
    idx + forwards + 1
}

} // verus!
