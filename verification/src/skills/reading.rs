//! The count of notes at the start of a map whose reading difficulty is
//! reduced.
use vstd::prelude::*;

verus! {

/// Length in microseconds of the stretch, counted from the first object,
/// whose notes are counted for the reduction (one minute).
pub const REDUCED_DIFFICULTY_DURATION: i64 = 60_000_000;

/// How many of the given start times lie at or before `limit`.
pub open spec fn count_within(times: Seq<i64>, limit: int) -> nat
    decreases times.len(),
{
    if times.len() == 0 {
        0
    } else {
        count_within(times.drop_last(), limit) + if times.last() <= limit {
            1nat
        } else {
            0nat
        }
    }
}

/// The end of the counted stretch for the given start times, once there is a
/// first one.
pub open spec fn reduced_duration_of(times: Seq<i64>) -> Option<int> {
    if times.len() == 0 {
        None
    } else {
        Some(times[0] + REDUCED_DIFFICULTY_DURATION)
    }
}

/// At most all the start times are counted.
pub proof fn lemma_count_within_bound(times: Seq<i64>, limit: int)
    ensures
        count_within(times, limit) <= times.len(),
    decreases times.len(),
{
    if times.len() > 0 {
        lemma_count_within_bound(times.drop_last(), limit);
    }
}

/// When the start times do not decrease, the counted notes are exactly the
/// leading ones: the note at position `i` is counted, that is lies within the
/// stretch, exactly when `i` is below the count.
pub proof fn lemma_counted_notes_are_leading(times: Seq<i64>, limit: int)
    requires
        forall|i: int, j: int| 0 <= i < j < times.len() ==> times[i] <= times[j],
    ensures
        forall|i: int|
            0 <= i < times.len() ==> (i < count_within(times, limit) <==> #[trigger] times[i]
                <= limit),
    decreases times.len(),
{
    if times.len() > 0 {
        let rest = times.drop_last();
        lemma_counted_notes_are_leading(rest, limit);
        lemma_count_within_bound(rest, limit);
        let n = times.len() - 1;
        if times[n] <= limit {
            if n > 0 {
                assert(rest[n - 1] == times[n - 1]);
                assert(times[n - 1] <= times[n]);
                assert(n - 1 < count_within(rest, limit));
            }
        }
        assert forall|i: int| 0 <= i < times.len() implies (i < count_within(times, limit)
            <==> #[trigger] times[i] <= limit) by {
            if i < n {
                assert(rest[i] == times[i]);
            }
        }
    }
}

/// The abstract state of [`ReducedNoteCount`].
#[verifier::ext_equal]
pub struct ReducedNotesView {
    /// The start times seen, in order.
    pub observed: Seq<i64>,
    /// The number of counted notes.
    pub count: nat,
    /// The end of the counted stretch, once the first object has been seen.
    pub reduced_duration: Option<int>,
}

/// Counts the notes that start no later than one minute after the first
/// object.
pub struct ReducedNoteCount {
    reduced_duration: Option<i128>,
    count: u64,
    observed: Ghost<Seq<i64>>,
}

impl View for ReducedNoteCount {
    type V = ReducedNotesView;

    closed spec fn view(&self) -> ReducedNotesView {
        ReducedNotesView {
            observed: self.observed@,
            count: self.count as nat,
            reduced_duration: match self.reduced_duration {
                Some(d) => Some(d as int),
                None => None,
            },
        }
    }
}

impl ReducedNoteCount {
    /// The count agrees with the start times seen: the stretch ends one minute
    /// after the first of them, and the count is the number of them within it.
    pub open spec fn wf(&self) -> bool {
        &&& self@.reduced_duration == reduced_duration_of(self@.observed)
        &&& self@.count == match self@.reduced_duration {
            Some(d) => count_within(self@.observed, d),
            None => 0,
        }
    }

    /// No object seen yet.
    pub fn new() -> (res: Self)
        ensures
            res.wf(),
            res@.observed == Seq::<i64>::empty(),
            res@.count == 0,
    {
        ReducedNoteCount { reduced_duration: None, count: 0, observed: Ghost(Seq::empty()) }
    }

    /// The number of counted notes.
    pub fn count(&self) -> (res: u64)
        ensures
            res == self@.count,
    {
        self.count
    }

    /// The end of the counted stretch, in microseconds, once the first object
    /// has been seen.
    pub fn reduced_duration(&self) -> (res: Option<i128>)
        ensures
            res matches Some(d) ==> self@.reduced_duration == Some(d as int),
            res is None ==> self@.reduced_duration is None,
    {
        self.reduced_duration
    }

    /// Records an object starting at `start_time`: the first one fixes the end
    /// of the stretch one minute later, and an object that starts no later
    /// than that end is counted.
    pub fn observe(&mut self, start_time: i64)
        requires
            old(self).wf(),
            old(self)@.count < u64::MAX,
        ensures
            final(self).wf(),
            final(self)@.observed == old(self)@.observed.push(start_time),
            final(self)@.count == old(self)@.count + if start_time <= reduced_duration_of(
                final(self)@.observed,
            ).unwrap() {
                1int
            } else {
                0int
            },
            final(self)@.count == old(self)@.count + if start_time <= final(self)@.observed[0]
                + 60_000_000 {
                1int
            } else {
                0int
            },
            old(self)@.observed.len() == 0 ==> final(self)@.observed[0] == start_time,
    {
        let ghost before = self.observed@;
        let limit: i128 = match self.reduced_duration {
            Some(d) => d,
            None => {
                let d = start_time as i128 + REDUCED_DIFFICULTY_DURATION as i128;
                self.reduced_duration = Some(d);
                d
            },
        };
        if (start_time as i128) <= limit {
            self.count = self.count + 1;
        }
        self.observed = Ghost(before.push(start_time));
        proof {
            let now = before.push(start_time);
            assert(now.drop_last() =~= before);
            assert(now[0] == if before.len() == 0 { start_time } else { before[0] });
            assert(count_within(now, limit as int) == count_within(before, limit as int) + if start_time <= limit {
                1nat
            } else {
                0nat
            });
            if before.len() == 0 {
                assert(count_within(before, limit as int) == 0);
            }
        }
    }
}

} // verus!
