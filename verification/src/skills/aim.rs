//! Strain sections of the aim skill.
//!
//! Strains are grouped into sections of at most [`MAX_SECTION_LENGTH`]. A
//! section keeps its peak strain; when a new object's strain is higher than
//! the peak a new section begins at that object, otherwise the strain is queued
//! so that it can seed a later section. Closed sections are stored as
//! [`StrainPeak`]s in the order in which they close; while their total length
//! exceeds [`MAX_STORED_LENGTH`], the stored section of lowest strain is
//! dropped, as it is too deep in the weighting to contribute.
//!
//! The strain values themselves are floating-point results computed by the
//! caller; here they are order keys (see [`STRAIN_ZERO`]).
use vstd::prelude::*;
use crate::skills::strain::{
    lengths_total, lemma_lengths_total_remove, lemma_lengths_total_push,
    StrainPeak, STRAIN_ZERO, millis_rounded, strain_gt, strain_max, strain_greater, max_strain,
};

verus! {

/// Longest a section runs, in microseconds, before a new one is begun
/// (400 milliseconds).
pub const MAX_SECTION_LENGTH: i64 = 400_000;

/// Longest a section runs, in whole milliseconds.
pub const MAX_SECTION_MILLIS: i64 = 400;

/// Total length in microseconds above which stored sections are dropped:
/// eleven decay lengths of `1 / (1 - 0.9)` sections of 400 milliseconds each,
/// that is 44 seconds.
pub const MAX_STORED_LENGTH: i64 = 44_000_000;

/// Largest start time, in microseconds and in either direction, that the
/// sections accept (2^61 microseconds, about 73,000 years).
pub const TIME_LIMIT: i64 = 0x2000_0000_0000_0000;

/// A start time that the sections accept.
pub open spec fn time_in_range(t: int) -> bool {
    -TIME_LIMIT <= t <= TIME_LIMIT
}

/// The abstract state of [`StrainSections`]; all times in microseconds.
#[verifier::ext_equal]
pub struct SectionsView {
    /// Whether the first object has been seen.
    pub started: bool,
    /// Order key of the peak strain of the open section.
    pub peak: u64,
    /// Start of the open section.
    pub begin: int,
    /// End of the open section.
    pub end: int,
    /// The closed sections kept, oldest first.
    pub peaks: Seq<StrainPeak>,
    /// Running total of the lengths of the closed sections.
    pub total_length: int,
    /// Strains waiting to seed a later section, with their start times.
    pub queue: Seq<(u64, i64)>,
    /// Start time of the latest object seen.
    pub last_time: int,
    /// What rounding the closed sections to whole milliseconds has added to
    /// their lengths, in microseconds, summed over every section closed so
    /// far.
    pub rounding: int,
    /// How many sections have been closed so far.
    pub closed: nat,
}

/// Position of the stored section of lowest strain; among sections of equal
/// strain, the newest.
pub open spec fn lowest_index(peaks: Seq<StrainPeak>) -> int
    decreases peaks.len(),
{
    if peaks.len() <= 1 {
        0
    } else {
        let j = lowest_index(peaks.drop_last());
        if peaks.last().value <= peaks[j].value {
            peaks.len() - 1
        } else {
            j
        }
    }
}

/// The position of lowest strain lies in the sequence, and no section there
/// has a lower strain.
pub proof fn lemma_lowest_index(peaks: Seq<StrainPeak>)
    requires
        peaks.len() > 0,
    ensures
        0 <= lowest_index(peaks) < peaks.len(),
        forall|k: int|
            0 <= k < peaks.len() ==> peaks[lowest_index(peaks)].value <= #[trigger] peaks[k].value,
    decreases peaks.len(),
{
    if peaks.len() > 1 {
        let rest = peaks.drop_last();
        lemma_lowest_index(rest);
        let j = lowest_index(rest);
        assert(rest[j] == peaks[j]);
        assert forall|k: int| 0 <= k < peaks.len() implies peaks[lowest_index(peaks)].value
            <= #[trigger] peaks[k].value by {
            if k < peaks.len() - 1 {
                assert(rest[k] == peaks[k]);
            }
        }
    }
}

/// The stored sections trimmed while the running total exceeds
/// [`MAX_STORED_LENGTH`]: each time, the section of lowest strain (the newest
/// among equal ones) is dropped and its rounded length taken off the total;
/// the others keep their order.
pub open spec fn trim_peaks(peaks: Seq<StrainPeak>, total: int) -> (Seq<StrainPeak>, int)
    decreases peaks.len(),
{
    if total > MAX_STORED_LENGTH && peaks.len() > 0 {
        proof {
            lemma_lowest_index(peaks);
        }
        let i = lowest_index(peaks);
        trim_peaks(peaks.remove(i), total - 1000 * peaks[i].section_length)
    } else {
        (peaks, total)
    }
}

/// Trimming takes off the running total exactly the lengths of the sections it
/// drops, once each, and stops as soon as the total is at most
/// [`MAX_STORED_LENGTH`] or nothing is left.
pub proof fn lemma_trim_total(peaks: Seq<StrainPeak>, total: int)
    ensures
        trim_peaks(peaks, total).1 == total - 1000 * (lengths_total(peaks) - lengths_total(
            trim_peaks(peaks, total).0,
        )),
        trim_peaks(peaks, total).1 <= MAX_STORED_LENGTH || trim_peaks(peaks, total).0.len() == 0,
        total <= MAX_STORED_LENGTH ==> trim_peaks(peaks, total).0 == peaks,
    decreases peaks.len(),
{
    if total > MAX_STORED_LENGTH && peaks.len() > 0 {
        lemma_lowest_index(peaks);
        let i = lowest_index(peaks);
        lemma_lengths_total_remove(peaks, i);
        lemma_trim_total(peaks.remove(i), total - 1000 * peaks[i].section_length);
    }
}

/// The stored sections last at most [`MAX_STORED_LENGTH`] together, up to
/// what rounding to whole milliseconds has added, unless none is stored.
pub proof fn lemma_stored_sections_bounded(v: SectionsView)
    requires
        sections_invariant(v),
    ensures
        v.peaks.len() == 0 || 1000 * lengths_total(v.peaks) <= MAX_STORED_LENGTH + 500 * v.closed,
{
}

/// Trimming only drops sections, and every dropped section has a strain no
/// higher than any section kept.
pub proof fn lemma_trim_keeps_highest(peaks: Seq<StrainPeak>, total: int)
    ensures
        forall|y: StrainPeak|
            #[trigger] trim_peaks(peaks, total).0.to_multiset().count(y) <= peaks.to_multiset().count(y),
        forall|x: StrainPeak, k: int|
            0 <= k < trim_peaks(peaks, total).0.len() && trim_peaks(peaks, total).0.to_multiset().count(x)
                < #[trigger] peaks.to_multiset().count(x) ==> x.value <= #[trigger] trim_peaks(
                peaks,
                total,
            ).0[k].value,
    decreases peaks.len(),
{
    broadcast use vstd::seq_lib::group_to_multiset_ensures;
    broadcast use vstd::multiset::group_multiset_axioms;

    if total > MAX_STORED_LENGTH && peaks.len() > 0 {
        lemma_lowest_index(peaks);
        let i = lowest_index(peaks);
        let rest = peaks.remove(i);
        let t = total - 1000 * peaks[i].section_length;
        lemma_trim_keeps_highest(rest, t);
        let kept = trim_peaks(rest, t).0;
        assert(trim_peaks(peaks, total).0 == kept);
        assert(rest.to_multiset() =~= peaks.to_multiset().remove(peaks[i]));
        assert forall|x: StrainPeak, k: int|
            0 <= k < kept.len() && kept.to_multiset().count(x) < #[trigger] peaks.to_multiset().count(x)
            implies x.value <= #[trigger] kept[k].value by {
            let y = kept[k];
            assert(kept.contains(y));
            assert(kept.to_multiset().count(y) > 0);
            assert(rest.to_multiset().count(y) > 0);
            assert(rest.contains(y));
            let m = choose|m: int| 0 <= m < rest.len() && rest[m] == y;
            if m < i {
                assert(rest[m] == peaks[m]);
            } else {
                assert(rest[m] == peaks[m + 1]);
            }
            if x != peaks[i] {
                assert(rest.to_multiset().count(x) == peaks.to_multiset().count(x));
            }
        }
    }
}

/// The queue with the strains lower than `strain` taken off its end, as the
/// floating-point `<` decides.
pub open spec fn pop_smaller(queue: Seq<(u64, i64)>, strain: u64) -> Seq<(u64, i64)>
    decreases queue.len(),
{
    if queue.len() > 0 && strain_gt(strain, queue.last().0) {
        pop_smaller(queue.drop_last(), strain)
    } else {
        queue
    }
}

/// The state after the open section is stored with the given length (in
/// microseconds) and the stored sections are trimmed.
pub open spec fn with_saved_peak(v: SectionsView, length: int) -> SectionsView {
    let stored = trim_peaks(
        v.peaks.push(StrainPeak { value: v.peak, section_length: millis_rounded(length) as i64 }),
        v.total_length + length,
    );
    SectionsView {
        started: v.started,
        peak: v.peak,
        begin: v.begin,
        end: v.end,
        peaks: stored.0,
        total_length: stored.1,
        queue: v.queue,
        last_time: v.last_time,
        rounding: v.rounding + (1000 * millis_rounded(length) - length),
        closed: v.closed + 1,
    }
}

/// The state after the first object, starting at `t` with strain `strain`.
pub open spec fn after_start(v: SectionsView, t: int, strain: u64) -> SectionsView {
    SectionsView {
        started: true,
        peak: strain,
        begin: t,
        end: t + MAX_SECTION_LENGTH,
        peaks: v.peaks,
        total_length: v.total_length,
        queue: v.queue,
        last_time: t,
        rounding: v.rounding,
        closed: v.closed,
    }
}

/// The state after one back-fill step for an object starting at `t`: the
/// open section is stored, the next one begins where it ended, and it is
/// seeded from the oldest queued strain if there is one.
pub open spec fn after_backfill(v: SectionsView, t: int, initial: u64) -> SectionsView {
    let s = with_saved_peak(v, v.end - v.begin);
    if v.queue.len() > 0 {
        SectionsView {
            started: s.started,
            peak: strain_max(initial, v.queue[0].0),
            begin: v.end,
            end: v.queue[0].1 + MAX_SECTION_LENGTH,
            peaks: s.peaks,
            total_length: s.total_length,
            queue: v.queue.drop_first(),
            last_time: t,
            rounding: s.rounding,
            closed: s.closed,
        }
    } else {
        SectionsView {
            started: s.started,
            peak: initial,
            begin: v.end,
            end: v.end + MAX_SECTION_LENGTH,
            peaks: s.peaks,
            total_length: s.total_length,
            queue: v.queue,
            last_time: t,
            rounding: s.rounding,
            closed: s.closed,
        }
    }
}

/// The state after the strain `strain` of an object starting at `t` is
/// added: a higher strain than the peak closes the open section and begins a
/// new one at `t`; any other strain is queued behind the strains not lower
/// than it.
pub open spec fn after_push(v: SectionsView, t: int, strain: u64) -> SectionsView {
    if strain_gt(strain, v.peak) {
        let cleared = SectionsView {
            started: v.started,
            peak: v.peak,
            begin: v.begin,
            end: v.end,
            peaks: v.peaks,
            total_length: v.total_length,
            queue: Seq::empty(),
            last_time: v.last_time,
            rounding: v.rounding,
            closed: v.closed,
        };
        let s = with_saved_peak(cleared, t - v.begin);
        SectionsView {
            started: s.started,
            peak: strain,
            begin: t,
            end: t + MAX_SECTION_LENGTH,
            peaks: s.peaks,
            total_length: s.total_length,
            queue: s.queue,
            last_time: t,
            rounding: s.rounding,
            closed: s.closed,
        }
    } else {
        SectionsView {
            started: v.started,
            peak: v.peak,
            begin: v.begin,
            end: v.end,
            peaks: v.peaks,
            total_length: v.total_length,
            queue: pop_smaller(v.queue, strain).push((strain, t as i64)),
            last_time: t,
            rounding: v.rounding,
            closed: v.closed,
        }
    }
}

/// The stored sections followed by the open one, as returned for the
/// difficulty calculation.
pub open spec fn strain_peaks_with_open(v: SectionsView) -> Seq<StrainPeak> {
    v.peaks.push(StrainPeak { value: v.peak, section_length: millis_rounded(v.end - v.begin) as i64 })
}

/// What holds of the sections in every state that the operations reach.
///
/// Once started, the open section does not end before it begins and begins no
/// later than the latest object; the queued strains are ordered by time and
/// lie between the seed time of the open section and the latest object; no
/// queued strain is greater than the one queued just before it; the open section lasts at most [`MAX_SECTION_LENGTH`] and no queued strain
/// starts after it ends; every stored section lasts between zero and
/// [`MAX_SECTION_MILLIS`]; the running total of the stored lengths is at
/// most [`MAX_STORED_LENGTH`] unless no section is stored; and the running
/// total is the stored sections' total length, less what rounding to whole
/// milliseconds has added, which is between -0.499 and 0.5 milliseconds per
/// section closed so far.
pub open spec fn sections_invariant(v: SectionsView) -> bool {
    &&& !v.started ==> v.queue.len() == 0 && v.peaks.len() == 0 && v.begin == v.end
    &&& v.started ==> {
        &&& v.begin <= v.end
        &&& v.end - v.begin <= MAX_SECTION_LENGTH
        &&& v.begin <= v.last_time
        &&& v.end - MAX_SECTION_LENGTH <= v.last_time
        &&& forall|i: int|
            0 <= i < v.queue.len() ==> v.end - MAX_SECTION_LENGTH <= #[trigger] v.queue[i].1
                <= v.last_time && v.queue[i].1 <= v.end
        &&& forall|i: int, j: int|
            0 <= i < j < v.queue.len() ==> #[trigger] v.queue[i].1 <= #[trigger] v.queue[j].1
        &&& forall|i: int|
            0 < i < v.queue.len() ==> !strain_gt(#[trigger] v.queue[i].0, v.queue[i - 1].0)
    }
    &&& forall|i: int|
        0 <= i < v.peaks.len() ==> 0 <= #[trigger] v.peaks[i].section_length <= MAX_SECTION_MILLIS
    &&& v.total_length <= MAX_STORED_LENGTH || v.peaks.len() == 0
    &&& v.total_length + v.rounding == 1000 * lengths_total(v.peaks)
    &&& -499 * v.closed <= v.rounding <= 500 * v.closed
}

/// Back-filling makes progress: each step either takes a strain off the
/// queue or moves the end of the open section [`MAX_SECTION_LENGTH`] later,
/// and the end never moves earlier. So the back-fill loop for an object ends.
pub proof fn lemma_backfill_progress(v: SectionsView, t: int, initial: u64)
    requires
        sections_invariant(v),
        v.started,
        t >= v.last_time,
        t > v.end,
    ensures
        after_backfill(v, t, initial).end >= v.end,
        after_backfill(v, t, initial).queue.len() < v.queue.len() || after_backfill(
            v,
            t,
            initial,
        ).end == v.end + MAX_SECTION_LENGTH,
        after_backfill(v, t, initial).begin == v.end,
        !strain_gt(initial, after_backfill(v, t, initial).peak),
        v.queue.len() > 0 ==> !strain_gt(v.queue[0].0, after_backfill(v, t, initial).peak),
        after_backfill(v, t, initial).peak == initial || (v.queue.len() > 0 && after_backfill(
            v,
            t,
            initial,
        ).peak == v.queue[0].0),
        after_backfill(v, t, initial).end - after_backfill(v, t, initial).begin
            <= MAX_SECTION_LENGTH,
{
    if v.queue.len() > 0 {
        assert(v.end - MAX_SECTION_LENGTH <= v.queue[0].1);
    }
}

/// After a strain is added, the open section's peak is not lower than that
/// strain (as the floating-point `>` decides), and when no back-fill is due
/// the object lies in the open section.
pub proof fn lemma_push_covers_object(v: SectionsView, t: int, strain: u64)
    requires
        sections_invariant(v),
        v.started,
        t >= v.last_time,
    ensures
        !strain_gt(strain, after_push(v, t, strain).peak),
        after_push(v, t, strain).begin <= t,
        t <= v.end ==> t <= after_push(v, t, strain).end,
        after_push(v, t, strain).last_time == t,
{
}

/// Position of the stored section of lowest strain, the newest among equal
/// ones.
fn lowest_position(peaks: &Vec<StrainPeak>) -> (res: usize)
    requires
        peaks@.len() > 0,
    ensures
        res == lowest_index(peaks@),
{
    let n = peaks.len();
    let mut j: usize = 0;
    proof {
        assert(peaks@.take(1).len() == 1);
    }
    for k in 1..n
        invariant
            n == peaks@.len(),
            n > 0,
            j == lowest_index(peaks@.take(k as int)),
            j < k,
    {
        proof {
            let t = peaks@.take(k + 1);
            assert(t.drop_last() =~= peaks@.take(k as int));
            assert(t[j as int] == peaks@[j as int]);
            assert(t.last() == peaks@[k as int]);
        }
        if peaks[k].value <= peaks[j].value {
            j = k;
        }
    }
    proof {
        assert(peaks@.take(n as int) =~= peaks@);
    }
    j
}

/// Every section the sections hand out, stored or open, lasts between zero and
/// [`MAX_SECTION_MILLIS`].
pub proof fn lemma_sections_bounded(v: SectionsView)
    requires
        sections_invariant(v),
    ensures
        forall|i: int|
            0 <= i < strain_peaks_with_open(v).len() ==> 0 <= #[trigger] strain_peaks_with_open(
                v,
            )[i].section_length <= MAX_SECTION_MILLIS,
{
    let len = v.end - v.begin;
    assert(0 <= millis_rounded(len) <= MAX_SECTION_MILLIS) by (nonlinear_arith)
        requires
            0 <= len <= 400_000,
            millis_rounded(len) == (len + 500) / 1000,
    ;
    let all = strain_peaks_with_open(v);
    assert forall|i: int| 0 <= i < all.len() implies 0 <= #[trigger] all[i].section_length
        <= MAX_SECTION_MILLIS by {
        if i < v.peaks.len() {
            assert(all[i] == v.peaks[i]);
        }
    }
}

/// The section bookkeeping of the aim skill.
pub struct StrainSections {
    started: bool,
    current_section_peak: u64,
    current_section_begin: i64,
    current_section_end: i64,
    strain_peaks: Vec<StrainPeak>,
    total_length: i64,
    queued_strains: Vec<(u64, i64)>,
    last_time: i64,
    origin: Ghost<int>,
    rounding: Ghost<int>,
    closed: Ghost<nat>,
}

impl View for StrainSections {
    type V = SectionsView;

    closed spec fn view(&self) -> SectionsView {
        SectionsView {
            started: self.started,
            peak: self.current_section_peak,
            begin: self.current_section_begin as int,
            end: self.current_section_end as int,
            peaks: self.strain_peaks@,
            total_length: self.total_length as int,
            queue: self.queued_strains@,
            last_time: self.last_time as int,
            rounding: self.rounding@,
            closed: self.closed@,
        }
    }
}

impl StrainSections {
    /// The sections are well formed: the invariant holds and every quantity
    /// stays within the range of its integer type.
    pub closed spec fn wf(&self) -> bool {
        let v = self@;
        &&& sections_invariant(v)
        &&& time_in_range(v.last_time)
        &&& -TIME_LIMIT <= self.origin@
        &&& v.started ==> self.origin@ <= v.begin
        &&& -TIME_LIMIT <= v.begin
        &&& v.end <= TIME_LIMIT + MAX_SECTION_LENGTH
        &&& !v.started ==> v.begin == 0 && v.end == 0 && v.total_length == 0
        &&& v.started ==> v.total_length <= v.begin - self.origin@
        &&& v.total_length >= 0
    }

    /// Well-formed sections satisfy [`sections_invariant`].
    pub proof fn lemma_wf_invariant(&self)
        requires
            self.wf(),
        ensures
            sections_invariant(self@),
    {
    }

    /// Sections before the first object: no stored or queued strain, an
    /// empty open section at time zero with zero peak.
    pub fn new() -> (res: Self)
        ensures
            res.wf(),
            !res@.started,
            res@.peak == STRAIN_ZERO,
            res@.begin == 0,
            res@.end == 0,
            res@.peaks == Seq::<StrainPeak>::empty(),
            res@.total_length == 0,
            res@.queue == Seq::<(u64, i64)>::empty(),
            res@.last_time == 0,
            res@.rounding == 0,
            res@.closed == 0,
    {
        StrainSections {
            started: false,
            current_section_peak: STRAIN_ZERO,
            current_section_begin: 0,
            current_section_end: 0,
            strain_peaks: Vec::new(),
            total_length: 0,
            queued_strains: Vec::new(),
            last_time: 0,
            origin: Ghost(0),
            rounding: Ghost(0),
            closed: Ghost(0),
        }
    }

    /// Whether the first object has been seen.
    pub fn is_started(&self) -> (res: bool)
        ensures
            res == self@.started,
    {
        self.started
    }

    /// Start time of the latest object seen.
    pub fn last_time(&self) -> (res: i64)
        ensures
            res == self@.last_time,
    {
        self.last_time
    }

    /// Start of the open section.
    pub fn section_begin(&self) -> (res: i64)
        ensures
            res == self@.begin,
    {
        self.current_section_begin
    }

    /// End of the open section: the time at which the strain that seeds the
    /// next section is evaluated.
    pub fn section_end(&self) -> (res: i64)
        ensures
            res == self@.end,
    {
        self.current_section_end
    }

    /// Opens the first section at the first object, starting at `start_time`
    /// with strain `strain`.
    pub fn start(&mut self, start_time: i64, strain: u64)
        requires
            old(self).wf(),
            !old(self)@.started,
            time_in_range(start_time as int),
        ensures
            final(self).wf(),
            final(self)@ == after_start(old(self)@, start_time as int, strain),
    {
        self.started = true;
        self.current_section_begin = start_time;
        self.current_section_end = start_time + MAX_SECTION_LENGTH;
        self.current_section_peak = strain;
        self.last_time = start_time;
        self.origin = Ghost(start_time as int);
    }

    /// Whether an object starting at `start_time` lies beyond the open
    /// section, so that the section has to be closed first.
    pub fn needs_backfill(&self, start_time: i64) -> (res: bool)
        ensures
            res == (start_time > self@.end),
    {
        start_time > self.current_section_end
    }

    /// One back-fill step for an object starting at `start_time`, which lies
    /// beyond the open section.
    ///
    /// The open section is stored with its full length and the next section
    /// begins where it ended. If a strain is queued, the oldest one is taken
    /// off the queue, the new section ends [`MAX_SECTION_LENGTH`] after that
    /// strain's start time, and its peak is the greater of `initial_strain`
    /// and that strain, ignoring NaN ([`strain_max`]); otherwise the new section runs for
    /// [`MAX_SECTION_LENGTH`] and its peak is `initial_strain`.
    /// `initial_strain` is the order key of the decayed strain at the end of
    /// the open section, which the caller evaluates at [`Self::section_end`].
    pub fn backfill_step(&mut self, start_time: i64, initial_strain: u64)
        requires
            old(self).wf(),
            old(self)@.started,
            time_in_range(start_time as int),
            start_time >= old(self)@.last_time,
            start_time > old(self)@.end,
        ensures
            final(self).wf(),
            final(self)@ == after_backfill(old(self)@, start_time as int, initial_strain),
    {
        let ghost v0 = self@;
        let length = self.current_section_end - self.current_section_begin;
        self.save_current_peak(length);
        let ghost v1 = self@;
        self.current_section_begin = self.current_section_end;
        if self.queued_strains.len() > 0 {
            let (strain, queued_time) = self.queued_strains.remove(0);
            proof {
                assert(v0.queue.remove(0) =~= v0.queue.drop_first());
            }
            self.current_section_end = queued_time + MAX_SECTION_LENGTH;
            self.current_section_peak = max_strain(initial_strain, strain);
        } else {
            self.current_section_end = self.current_section_begin + MAX_SECTION_LENGTH;
            self.current_section_peak = initial_strain;
        }
        self.last_time = start_time;
        proof {
            assert(self@ =~= after_backfill(v0, start_time as int, initial_strain));
            let v = self@;
            assert forall|i: int, j: int|
                0 <= i < j < v.queue.len() implies #[trigger] v.queue[i].1
                <= #[trigger] v.queue[j].1 by {
                assert(v.queue[i] == v0.queue[i + 1]);
                assert(v.queue[j] == v0.queue[j + 1]);
            }
            assert forall|i: int| 0 < i < v.queue.len() implies !strain_gt(
                #[trigger] v.queue[i].0,
                v.queue[i - 1].0,
            ) by {
                assert(v.queue[i] == v0.queue[i + 1]);
                assert(v.queue[i - 1] == v0.queue[i]);
            }
            assert forall|i: int| 0 <= i < v.queue.len() implies v.end - MAX_SECTION_LENGTH
                <= #[trigger] v.queue[i].1 <= v.last_time && v.queue[i].1 <= v.end by {
                assert(v.queue[i] == v0.queue[i + 1]);
                assert(v0.queue[0].1 <= v0.queue[i + 1].1);
            }
        }
    }

    /// Adds the strain `strain` of an object starting at `start_time`, after
    /// any back-fill, so that the object lies within the open section.
    ///
    /// A strain greater than the open peak (as the floating-point `>`
    /// decides, see [`strain_gt`]) empties the queue, stores the open section
    /// with the length up to `start_time`, and begins a new section at
    /// `start_time` with that strain as its peak. Any other strain takes the
    /// lower strains off the end of the queue and is queued with its start
    /// time.
    pub fn push_strain(&mut self, start_time: i64, strain: u64)
        requires
            old(self).wf(),
            old(self)@.started,
            time_in_range(start_time as int),
            start_time >= old(self)@.last_time,
            start_time <= old(self)@.end,
        ensures
            final(self).wf(),
            final(self)@ == after_push(old(self)@, start_time as int, strain),
    {
        let ghost v0 = self@;
        if strain_greater(strain, self.current_section_peak) {
            self.queued_strains.clear();
            let length = start_time - self.current_section_begin;
            self.save_current_peak(length);
            self.current_section_begin = start_time;
            self.current_section_end = start_time + MAX_SECTION_LENGTH;
            self.current_section_peak = strain;
            self.last_time = start_time;
            proof {
                assert(self@ =~= after_push(v0, start_time as int, strain));
            }
        } else {
            while self.queued_strains.len() > 0
                && strain_greater(strain, self.queued_strains[self.queued_strains.len() - 1].0)
                invariant
                    pop_smaller(self.queued_strains@, strain) == pop_smaller(v0.queue, strain),
                    forall|i: int|
                        0 <= i < self.queued_strains@.len() ==> #[trigger] self.queued_strains@[i]
                            == v0.queue[i],
                    self.queued_strains@.len() <= v0.queue.len(),
                    self.current_section_peak == v0.peak,
                    self.current_section_begin == v0.begin,
                    self.current_section_end == v0.end,
                    self.strain_peaks@ == v0.peaks,
                    self.total_length == v0.total_length,
                    self.started == v0.started,
                    self.last_time == v0.last_time,
                    self.origin == old(self).origin,
                    self.rounding == old(self).rounding,
                    self.closed == old(self).closed,
                decreases self.queued_strains@.len(),
            {
                let ghost before = self.queued_strains@;
                self.queued_strains.pop();
                proof {
                    assert(before.drop_last() =~= self.queued_strains@);
                }
            }
            let ghost kept = self.queued_strains@;
            assert(kept.len() == 0 || !strain_gt(strain, kept[kept.len() - 1].0));
            self.queued_strains.push((strain, start_time));
            self.last_time = start_time;
            proof {
                assert(self@ =~= after_push(v0, start_time as int, strain));
                let v = self@;
                assert forall|i: int, j: int|
                    0 <= i < j < v.queue.len() implies #[trigger] v.queue[i].1
                    <= #[trigger] v.queue[j].1 by {
                    assert(v.queue[i] == v0.queue[i]);
                    if j == v.queue.len() - 1 {
                        assert(v0.queue[i].1 <= v0.last_time);
                    } else {
                        assert(v.queue[j] == v0.queue[j]);
                    }
                }
                assert forall|i: int| 0 < i < v.queue.len() implies !strain_gt(
                    #[trigger] v.queue[i].0,
                    v.queue[i - 1].0,
                ) by {
                    assert(v.queue[i - 1] == v0.queue[i - 1]);
                    if i < v.queue.len() - 1 {
                        assert(v.queue[i] == v0.queue[i]);
                    } else {
                        assert(kept[i - 1] == v0.queue[i - 1]);
                    }
                }
                assert forall|i: int| 0 <= i < v.queue.len() implies v.end - MAX_SECTION_LENGTH
                    <= #[trigger] v.queue[i].1 <= v.last_time && v.queue[i].1 <= v.end by {
                    if i < v.queue.len() - 1 {
                        assert(v.queue[i] == v0.queue[i]);
                    }
                }
            }
        }
    }

    /// The stored sections followed by the open one, whose length is rounded
    /// to whole milliseconds.
    pub fn current_strain_peaks(&self) -> (res: Vec<StrainPeak>)
        requires
            self.wf(),
        ensures
            res@ == strain_peaks_with_open(self@),
    {
        let mut peaks: Vec<StrainPeak> = Vec::new();
        let n = self.strain_peaks.len();
        for i in 0..n
            invariant
                n == self.strain_peaks@.len(),
                peaks@ == self.strain_peaks@.take(i as int),
        {
            proof {
                assert(self.strain_peaks@.take(i + 1) =~= self.strain_peaks@.take(i as int).push(
                    self.strain_peaks@[i as int],
                ));
            }
            peaks.push(self.strain_peaks[i]);
        }
        proof {
            assert(self.strain_peaks@.take(n as int) =~= self.strain_peaks@);
        }
        let length = self.current_section_end - self.current_section_begin;
        peaks.push(StrainPeak::new(self.current_section_peak, length));
        peaks
    }

    /// Stores the open section with the given length and trims the stored
    /// sections.
    fn save_current_peak(&mut self, section_length: i64)
        requires
            old(self).wf(),
            old(self)@.started,
            0 <= section_length <= MAX_SECTION_LENGTH,
            old(self)@.begin + section_length <= TIME_LIMIT + MAX_SECTION_LENGTH,
        ensures
            final(self)@ == with_saved_peak(old(self)@, section_length as int),
            final(self).origin == old(self).origin,
            final(self)@.total_length + final(self)@.rounding == 1000 * lengths_total(
                final(self)@.peaks,
            ),
            final(self)@.total_length <= old(self)@.total_length + section_length,
            final(self)@.total_length >= 0,
            final(self)@.total_length <= MAX_STORED_LENGTH || final(self)@.peaks.len() == 0,
            forall|i: int|
                0 <= i < final(self)@.peaks.len() ==> 0 <= #[trigger] final(self)@.peaks[i].section_length
                    <= MAX_SECTION_MILLIS,
    {
        let ghost v0 = self@;
        let peak = StrainPeak::new(self.current_section_peak, section_length);
        proof {
            assert(peak.section_length <= MAX_SECTION_MILLIS) by (nonlinear_arith)
                requires
                    peak.section_length == (section_length + 500) / 1000,
                    section_length <= 400_000,
                    section_length >= 0,
            ;
        }
        self.strain_peaks.push(peak);
        self.total_length = self.total_length + section_length;
        proof {
            assert(peak == StrainPeak {
                value: v0.peak,
                section_length: millis_rounded(section_length as int) as i64,
            });
            self.rounding = Ghost(
                self.rounding@ + (1000 * millis_rounded(section_length as int) - section_length),
            );
            self.closed = Ghost(self.closed@ + 1);
            lemma_lengths_total_push(v0.peaks, peak);
        }
        while self.total_length > MAX_STORED_LENGTH && self.strain_peaks.len() > 0
            invariant
                trim_peaks(self.strain_peaks@, self.total_length as int) == trim_peaks(
                    v0.peaks.push(
                        StrainPeak {
                            value: v0.peak,
                            section_length: millis_rounded(section_length as int) as i64,
                        },
                    ),
                    v0.total_length + section_length,
                ),
                self.total_length <= v0.total_length + section_length,
                self.total_length >= 0,
                forall|i: int|
                    0 <= i < self.strain_peaks@.len() ==> 0 <= #[trigger] self.strain_peaks@[i].section_length
                        <= MAX_SECTION_MILLIS,
                self.current_section_peak == v0.peak,
                self.current_section_begin == v0.begin,
                self.current_section_end == v0.end,
                self.queued_strains@ == v0.queue,
                self.started == v0.started,
                self.last_time == v0.last_time,
                self.origin == old(self).origin,
                self.rounding@ == v0.rounding + (1000 * millis_rounded(section_length as int)
                    - section_length),
                self.closed@ == v0.closed + 1,
                self.total_length + self.rounding@ == 1000 * lengths_total(self.strain_peaks@),
            decreases self.strain_peaks@.len(),
        {
            let ghost before = self.strain_peaks@;
            let lowest = lowest_position(&self.strain_peaks);
            proof {
                lemma_lowest_index(before);
            }
            let removed = self.strain_peaks.remove(lowest);
            proof {
                lemma_lengths_total_remove(before, lowest as int);
                assert forall|i: int| 0 <= i < self.strain_peaks@.len() implies 0
                    <= #[trigger] self.strain_peaks@[i].section_length <= MAX_SECTION_MILLIS by {
                    if i < lowest {
                        assert(self.strain_peaks@[i] == before[i]);
                    } else {
                        assert(self.strain_peaks@[i] == before[i + 1]);
                    }
                }
            }
            self.total_length = self.total_length - removed.section_length * 1000;
        }
        proof {
            assert(self@ =~= with_saved_peak(v0, section_length as int));
        }
    }
}

} // verus!
