//! The snap evaluator: difficulty of jumping from one object to the next.
use vstd::prelude::*;
use crate::object::{ObjectTiming, previous_position};

verus! {

/// How many earlier objects the angle-repetition check looks at, at most.
pub const NOTE_LIMIT: usize = 6;

/// Two objects keep the same rhythm when the longer of their adjusted delta
/// times is at most 1.1 times the shorter one.
pub open spec fn same_rhythm(a: ObjectTiming, b: ObjectTiming) -> bool {
    let longer = if a.adjusted_delta_time >= b.adjusted_delta_time {
        a.adjusted_delta_time
    } else {
        b.adjusted_delta_time
    };
    let shorter = if a.adjusted_delta_time <= b.adjusted_delta_time {
        a.adjusted_delta_time
    } else {
        b.adjusted_delta_time
    };
    10 * longer <= 11 * shorter
}

/// Rates how hard an object is to snap to.
///
/// The rating itself is a floating-point formula that stands with the
/// callers; the choice of the earlier objects whose angles count as repeated
/// stands here.
pub struct SnapAimEvaluator;

impl SnapAimEvaluator {
    /// How many earlier objects, nearest first, the angle-repetition check of
    /// the object at position `current` weighs.
    ///
    /// The walk takes at most [`NOTE_LIMIT`] earlier objects and stops at the
    /// first one whose rhythm differs from the current object's.
    pub fn repetition_window(current: usize, objects: &[ObjectTiming]) -> (count: usize)
        requires
            current < objects@.len(),
        ensures
            count <= NOTE_LIMIT,
            count <= current,
            forall|i: int|
                0 <= i < count ==> same_rhythm(
                    objects@[current as int],
                    #[trigger] objects@[previous_position(current as int, i)],
                ),
            count < NOTE_LIMIT && count < current ==> !same_rhythm(
                objects@[current as int],
                objects@[previous_position(current as int, count as int)],
            ),
            forall|i: int|
                0 <= i < count ==> {
                    let d = objects@[current as int].adjusted_delta_time;
                    let e = #[trigger] objects@[current - 1 - i].adjusted_delta_time;
                    10 * d <= 11 * e && 10 * e <= 11 * d
                },
            count < NOTE_LIMIT && count < current ==> {
                let d = objects@[current as int].adjusted_delta_time;
                let e = objects@[current - 1 - count].adjusted_delta_time;
                10 * d > 11 * e || 10 * e > 11 * d
            },
    {
        let mut index: usize = 0;
        while index < NOTE_LIMIT && index < current
            && Self::keeps_rhythm(&objects[current], &objects[current - index - 1])
            invariant
                current < objects@.len(),
                index <= NOTE_LIMIT,
                index <= current,
                forall|i: int|
                    0 <= i < index ==> same_rhythm(
                        objects@[current as int],
                        #[trigger] objects@[previous_position(current as int, i)],
                    ),
            decreases current - index,
        {
            index = index + 1;
        }
        proof {
            assert forall|i: int| 0 <= i < index implies {
                let d = objects@[current as int].adjusted_delta_time;
                let e = #[trigger] objects@[current - 1 - i].adjusted_delta_time;
                10 * d <= 11 * e && 10 * e <= 11 * d
            } by {
                assert(same_rhythm(
                    objects@[current as int],
                    objects@[previous_position(current as int, i)],
                ));
            }
        }
        index
    }

    fn keeps_rhythm(a: &ObjectTiming, b: &ObjectTiming) -> (res: bool)
        ensures
            res == same_rhythm(*a, *b),
    {
        let x = a.adjusted_delta_time as i128;
        let y = b.adjusted_delta_time as i128;
        let longer = if x >= y { x } else { y };
        let shorter = if x <= y { x } else { y };
        10 * longer <= 11 * shorter
    }
}

} // verus!
