//! The objects that the reading evaluator weighs around the current object.
use vstd::prelude::*;
use crate::object::{ObjectTiming, previous_position, next_position};

verus! {

/// How far around the current object, in microseconds, objects still count
/// towards its reading difficulty (three seconds).
pub const READING_WINDOW_SIZE: i64 = 3_000_000;

/// How far back, in microseconds, the angles of earlier objects are compared
/// with the current one (two seconds).
pub const MINIMUM_ANGLE_RELEVANCY_TIME: i64 = 2_000_000;

/// The earlier object at position `j` is still visible when the object at
/// position `c` starts: it lies within the reading window, and it does not
/// start before `c` begins to appear.
pub open spec fn visible_in_past(objects: Seq<ObjectTiming>, c: int, j: int) -> bool {
    &&& objects[c].start_time - objects[j].start_time <= READING_WINDOW_SIZE
    &&& objects[j].start_time >= objects[c].start_time - objects[c].preempt
}

/// The later object at position `j` is already visible when the object at
/// position `c` starts: it lies within the reading window, and it has begun to
/// appear by then.
pub open spec fn visible_ahead(objects: Seq<ObjectTiming>, c: int, j: int) -> bool {
    &&& objects[j].start_time - objects[c].start_time <= READING_WINDOW_SIZE
    &&& objects[c].start_time >= objects[j].start_time - objects[j].preempt
}

/// Time in microseconds from the object at position `j` to the object at
/// position `c`.
pub open spec fn gap_to(objects: Seq<ObjectTiming>, c: int, j: int) -> int {
    objects[c].start_time - objects[j].start_time
}

fn is_visible_in_past(current: &ObjectTiming, other: &ObjectTiming) -> (res: bool)
    ensures
        res == (current.start_time - other.start_time <= READING_WINDOW_SIZE
            && other.start_time >= current.start_time - current.preempt),
{
    let within_window = (current.start_time as i128) - (other.start_time as i128)
        <= READING_WINDOW_SIZE as i128;
    let appeared = (other.start_time as i128) >= (current.start_time as i128)
        - (current.preempt as i128);
    within_window && appeared
}

fn is_visible_ahead(current: &ObjectTiming, other: &ObjectTiming) -> (res: bool)
    ensures
        res == (other.start_time - current.start_time <= READING_WINDOW_SIZE
            && current.start_time >= other.start_time - other.preempt),
{
    let within_window = (other.start_time as i128) - (current.start_time as i128)
        <= READING_WINDOW_SIZE as i128;
    let appeared = (current.start_time as i128) >= (other.start_time as i128)
        - (other.preempt as i128);
    within_window && appeared
}

/// The earlier objects that are still visible when the object at position
/// `current` starts, nearest first.
///
/// Walks back from the previous object and stops at the first object that is
/// not visible; the result holds the positions of the objects passed before
/// that.
pub fn retrieve_past_visible_objects(current: usize, objects: &[ObjectTiming]) -> (res: Vec<usize>)
    requires
        current < objects@.len(),
    ensures
        res@.len() <= current,
        forall|i: int|
            0 <= i < res@.len() ==> #[trigger] res@[i] == previous_position(current as int, i),
        forall|i: int|
            0 <= i < res@.len() ==> visible_in_past(
                objects@,
                current as int,
                previous_position(current as int, i),
            ),
        res@.len() < current ==> !visible_in_past(
            objects@,
            current as int,
            previous_position(current as int, res@.len() as int),
        ),
        forall|i: int|
            0 <= i < res@.len() ==> {
                &&& 0 <= #[trigger] res@[i] < current
                &&& objects@[current as int].start_time - objects@[res@[i] as int].start_time
                    <= 3_000_000
                &&& objects@[res@[i] as int].start_time >= objects@[current as int].start_time
                    - objects@[current as int].preempt
            },
        res@.len() < current ==> {
            let j = current - res@.len() - 1;
            ||| objects@[current as int].start_time - objects@[j].start_time > 3_000_000
            ||| objects@[j].start_time < objects@[current as int].start_time
                - objects@[current as int].preempt
        },
{
    let mut result: Vec<usize> = Vec::new();
    let mut i: usize = 0;
    while i < current && is_visible_in_past(&objects[current], &objects[current - i - 1])
        invariant
            current < objects@.len(),
            i <= current,
            result@.len() == i,
            forall|k: int|
                0 <= k < i ==> #[trigger] result@[k] == previous_position(current as int, k),
            forall|k: int|
                0 <= k < i ==> visible_in_past(
                    objects@,
                    current as int,
                    previous_position(current as int, k),
                ),
        decreases current - i,
    {
        result.push(current - i - 1);
        i = i + 1;
    }
    result
}

/// The later objects that are already visible when the object at position
/// `current` starts, nearest first.
///
/// Walks forward from the next object and stops at the first object that is
/// not yet visible; the result holds the positions of the objects passed
/// before that.
pub fn retrieve_current_visible_objects(current: usize, objects: &[ObjectTiming]) -> (res: Vec<usize>)
    requires
        current < objects@.len(),
    ensures
        current + res@.len() < objects@.len(),
        forall|i: int|
            0 <= i < res@.len() ==> #[trigger] res@[i] == next_position(current as int, i),
        forall|i: int|
            0 <= i < res@.len() ==> visible_ahead(
                objects@,
                current as int,
                next_position(current as int, i),
            ),
        next_position(current as int, res@.len() as int) < objects@.len() ==> !visible_ahead(
            objects@,
            current as int,
            next_position(current as int, res@.len() as int),
        ),
        forall|i: int|
            0 <= i < res@.len() ==> {
                &&& current < #[trigger] res@[i] < objects@.len()
                &&& objects@[res@[i] as int].start_time - objects@[current as int].start_time
                    <= 3_000_000
                &&& objects@[res@[i] as int].start_time - objects@[res@[i] as int].preempt
                    <= objects@[current as int].start_time
            },
        current + res@.len() + 1 < objects@.len() ==> {
            let j = current + res@.len() + 1;
            ||| objects@[j].start_time - objects@[current as int].start_time > 3_000_000
            ||| objects@[j].start_time - objects@[j].preempt > objects@[current as int].start_time
        },
{
    let mut result: Vec<usize> = Vec::new();
    let len = objects.len();
    let mut i: usize = 0;
    while current + i + 1 < len && is_visible_ahead(&objects[current], &objects[current + i + 1])
        invariant
            len == objects@.len(),
            current < len,
            current + i < len,
            result@.len() == i,
            forall|k: int|
                0 <= k < i ==> #[trigger] result@[k] == next_position(current as int, k),
            forall|k: int|
                0 <= k < i ==> visible_ahead(objects@, current as int, next_position(current as int, k)),
        decreases len - current - i,
    {
        result.push(current + i + 1);
        i = i + 1;
    }
    result
}

/// How many earlier objects the angle comparison of the object at position
/// `current` walks over.
///
/// The walk visits the previous objects nearest first and stops after the
/// first one that lies at least [`MINIMUM_ANGLE_RELEVANCY_TIME`] before the
/// current object, or when no earlier object is left.
pub fn angle_relevancy_window(current: usize, objects: &[ObjectTiming]) -> (count: usize)
    requires
        current < objects@.len(),
    ensures
        count <= current,
        current > 0 ==> count >= 1,
        forall|i: int|
            0 <= i < count - 1 ==> gap_to(objects@, current as int, previous_position(current as int, i))
                < MINIMUM_ANGLE_RELEVANCY_TIME,
        count < current ==> gap_to(
            objects@,
            current as int,
            previous_position(current as int, count - 1),
        ) >= MINIMUM_ANGLE_RELEVANCY_TIME,
        forall|i: int|
            0 <= i < count - 1 ==> objects@[current as int].start_time
                - #[trigger] objects@[current - 1 - i].start_time < 2_000_000,
        count < current ==> objects@[current as int].start_time - objects@[current
            - count].start_time >= 2_000_000,
{
    let mut gap: i128 = 0;
    let mut index: usize = 0;
    while gap < MINIMUM_ANGLE_RELEVANCY_TIME as i128 && index < current
        invariant
            current < objects@.len(),
            index <= current,
            index == 0 ==> gap == 0,
            index > 0 ==> gap == gap_to(
                objects@,
                current as int,
                previous_position(current as int, index - 1),
            ),
            forall|i: int|
                0 <= i < index - 1 ==> gap_to(
                    objects@,
                    current as int,
                    previous_position(current as int, i),
                ) < MINIMUM_ANGLE_RELEVANCY_TIME,
        decreases current - index,
    {
        gap = (objects[current].start_time as i128) - (objects[current - index - 1].start_time as i128);
        index = index + 1;
    }
    proof {
        assert forall|i: int| 0 <= i < index - 1 implies objects@[current as int].start_time
            - #[trigger] objects@[current - 1 - i].start_time < 2_000_000 by {
            assert(gap_to(objects@, current as int, previous_position(current as int, i))
                < MINIMUM_ANGLE_RELEVANCY_TIME);
        }
    }
    index
}

} // verus!
