//! Strain peaks and the split of the highest-weighted peaks into short chunks.
use vstd::prelude::*;
use vstd::multiset::Multiset;

verus! {

/// The order key of a zero strain.
///
/// Strain values are carried as order keys: the key of a non-negative value is
/// its IEEE-754 bit pattern with the sign bit set, and the key of a negative
/// value is its bit pattern with every bit flipped. Keys then follow the total
/// order of the values: for values that are not NaN they compare as the values
/// do, except that -0.0 has a lower key than +0.0; a NaN with the sign bit clear
/// has a key above every number and one with the sign bit set a key below
/// every number. Where the strains are compared as the floating-point
/// operators compare them, [`strain_gt`] and [`strain_max`] say how.
pub const STRAIN_ZERO: u64 = 0x8000_0000_0000_0000;

/// The order key of a negative zero strain.
pub const STRAIN_NEGATIVE_ZERO: u64 = 0x7FFF_FFFF_FFFF_FFFF;

/// The order key of a positive infinite strain; keys above it are NaN.
pub const STRAIN_POSITIVE_INFINITY: u64 = 0xFFF0_0000_0000_0000;

/// The order key of a negative infinite strain; keys below it are NaN.
pub const STRAIN_NEGATIVE_INFINITY: u64 = 0x000F_FFFF_FFFF_FFFF;

/// The key is that of a NaN.
pub open spec fn is_nan_key(k: u64) -> bool {
    k > STRAIN_POSITIVE_INFINITY || k < STRAIN_NEGATIVE_INFINITY
}

/// The key is that of a zero of either sign.
pub open spec fn is_zero_key(k: u64) -> bool {
    k == STRAIN_ZERO || k == STRAIN_NEGATIVE_ZERO
}

/// The strain of key `a` is greater than the strain of key `b`, as the
/// floating-point `>` decides: never when either is NaN, and never between
/// the two zeros.
pub open spec fn strain_gt(a: u64, b: u64) -> bool {
    !is_nan_key(a) && !is_nan_key(b) && a > b && !(is_zero_key(a) && is_zero_key(b))
}

/// The greater of two strains, ignoring NaN: when one is NaN the other is the
/// result, and when neither is greater than the other, `a`.
pub open spec fn strain_max(a: u64, b: u64) -> u64 {
    if is_nan_key(a) {
        b
    } else if is_nan_key(b) {
        a
    } else if strain_gt(b, a) {
        b
    } else {
        a
    }
}

/// Whether the strain of key `a` is greater than that of key `b`.
pub fn strain_greater(a: u64, b: u64) -> (res: bool)
    ensures
        res == strain_gt(a, b),
{
    let a_nan = a > STRAIN_POSITIVE_INFINITY || a < STRAIN_NEGATIVE_INFINITY;
    let b_nan = b > STRAIN_POSITIVE_INFINITY || b < STRAIN_NEGATIVE_INFINITY;
    let both_zero = (a == STRAIN_ZERO || a == STRAIN_NEGATIVE_ZERO)
        && (b == STRAIN_ZERO || b == STRAIN_NEGATIVE_ZERO);
    !a_nan && !b_nan && a > b && !both_zero
}

/// The greater of two strains, ignoring NaN (see [`strain_max`]).
pub fn max_strain(a: u64, b: u64) -> (res: u64)
    ensures
        res == strain_max(a, b),
{
    if a > STRAIN_POSITIVE_INFINITY || a < STRAIN_NEGATIVE_INFINITY {
        b
    } else if b > STRAIN_POSITIVE_INFINITY || b < STRAIN_NEGATIVE_INFINITY {
        a
    } else if strain_greater(b, a) {
        b
    } else {
        a
    }
}

/// Length in milliseconds of the stretch at the start of the stored sections
/// whose strains are reduced (four seconds).
pub const REDUCED_SECTION_TIME: i64 = 4000;

/// Length in milliseconds of one chunk of a reduced section.
pub const CHUNK_SIZE: i64 = 20;

/// A stored strain section: its peak strain (an order key) and its length in
/// whole milliseconds.
#[derive(Clone, Copy, Debug)]
pub struct StrainPeak {
    /// Order key of the highest strain in the section.
    pub value: u64,
    /// Length of the section in whole milliseconds.
    pub section_length: i64,
}

/// A length in microseconds rounded to whole milliseconds, halves away from
/// zero.
pub open spec fn millis_rounded(micros: int) -> int {
    if micros >= 0 {
        (micros + 500) / 1000
    } else {
        -((-micros + 500) / 1000)
    }
}

impl StrainPeak {
    /// A section of the given peak whose length, given in microseconds, is
    /// rounded to whole milliseconds (halves away from zero).
    pub fn new(value: u64, section_length: i64) -> (res: Self)
        ensures
            res.value == value,
            res.section_length == millis_rounded(section_length as int),
            section_length - 500 <= 1000 * res.section_length <= section_length + 500,
            1000 * res.section_length == section_length + 500 ==> section_length > 0,
            1000 * res.section_length == section_length - 500 ==> section_length < 0,
    {
        let micros = section_length as i128;
        let millis: i128 = if micros >= 0 {
            (micros + 500) / 1000
        } else {
            -((-micros + 500) / 1000)
        };
        StrainPeak { value, section_length: millis as i64 }
    }
}

/// Rounding a length to whole milliseconds moves it by at most half a
/// millisecond, and a half is rounded away from zero.
pub proof fn lemma_millis_rounded(micros: int)
    ensures
        micros - 500 <= 1000 * millis_rounded(micros) <= micros + 500,
        1000 * millis_rounded(micros) == micros + 500 ==> micros > 0,
        1000 * millis_rounded(micros) == micros - 500 ==> micros < 0,
        micros >= 0 ==> millis_rounded(micros) >= 0,
{
}

/// One chunk of a reduced section, in milliseconds: which positive peak it
/// comes from, where it starts counted from the start of the first positive
/// peak, and how long it is.
#[derive(Clone, Copy, Debug)]
pub struct ReductionChunk {
    /// Position of the source peak among the positive peaks.
    pub source: usize,
    /// Start of the chunk, in milliseconds after the start of the first peak.
    pub offset: i128,
    /// Length of the chunk in milliseconds.
    pub length: i64,
}

impl ReductionChunk {
    /// The chunk as a triple of source, offset and length.
    pub open spec fn triple(self) -> (int, int, int) {
        (self.source as int, self.offset as int, self.length as int)
    }
}

/// The peaks split before weighting: the peaks of positive strain, highest
/// first, the chunks cut from the first of them, and the position among them
/// from which peaks are kept whole.
pub struct ReducedSections {
    /// The peaks whose strain is greater than zero, highest strain first;
    /// peaks of equal strain in their stored order.
    pub positive: Vec<StrainPeak>,
    /// The chunks cut from `positive[..remaining_start]`, in order.
    pub chunks: Vec<ReductionChunk>,
    /// `positive[remaining_start..]` is kept whole.
    pub remaining_start: usize,
}

/// A peak whose strain is greater than zero (so not NaN).
pub open spec fn is_positive(p: StrainPeak) -> bool {
    strain_gt(p.value, STRAIN_ZERO)
}

/// The peaks of positive strain, in their order.
pub open spec fn positive_peaks(peaks: Seq<StrainPeak>) -> Seq<StrainPeak> {
    peaks.filter(|p: StrainPeak| is_positive(p))
}

/// Total length in milliseconds of the first `i` peaks.
pub open spec fn elapsed(peaks: Seq<StrainPeak>, i: int) -> int
    decreases i,
{
    if i <= 0 {
        0
    } else {
        elapsed(peaks, i - 1) + peaks[i - 1].section_length
    }
}

/// Number of chunks cut from a section of the given length.
pub open spec fn chunk_count(len: int) -> int {
    if len <= 0 {
        0
    } else {
        (len + CHUNK_SIZE - 1) / (CHUNK_SIZE as int)
    }
}

/// The chunks cut from the peak at position `source`, of length `len`, that
/// starts at `start`: consecutive pieces of [`CHUNK_SIZE`], the last one
/// possibly shorter.
pub open spec fn peak_chunks(source: int, len: int, start: int) -> Seq<(int, int, int)> {
    Seq::new(
        chunk_count(len) as nat,
        |k: int|
            (
                source,
                start + CHUNK_SIZE * k,
                if len - CHUNK_SIZE * k < CHUNK_SIZE {
                    len - CHUNK_SIZE * k
                } else {
                    CHUNK_SIZE as int
                },
            ),
    )
}

/// The chunks cut from the first `i` peaks, in order.
pub open spec fn chunks_upto(peaks: Seq<StrainPeak>, i: int) -> Seq<(int, int, int)>
    decreases i,
{
    if i <= 0 {
        seq![]
    } else {
        chunks_upto(peaks, i - 1) + peak_chunks(i - 1, peaks[i - 1].section_length as int, elapsed(peaks, i - 1))
    }
}

proof fn lemma_chunk_count(len: int, k: int)
    requires
        k >= 0,
        CHUNK_SIZE * k >= len,
        k == 0 || CHUNK_SIZE * (k - 1) < len,
    ensures
        chunk_count(len) == k,
{
    if len > 0 {
        assert(k > 0);
        assert((len + CHUNK_SIZE - 1) / (CHUNK_SIZE as int) == k) by (nonlinear_arith)
            requires
                len > 0,
                20 * k >= len,
                20 * (k - 1) < len,
                CHUNK_SIZE == 20,
        ;
    }
}

/// Total length of a run of chunks.
pub open spec fn chunks_length(chunks: Seq<(int, int, int)>) -> int
    decreases chunks.len(),
{
    if chunks.len() == 0 {
        0
    } else {
        chunks_length(chunks.drop_last()) + chunks.last().2
    }
}

proof fn lemma_chunks_prefix_length(source: int, len: int, start: int, k: int)
    requires
        len > 0,
        0 <= k <= chunk_count(len),
    ensures
        chunks_length(peak_chunks(source, len, start).take(k)) == if CHUNK_SIZE * k <= len {
            CHUNK_SIZE * k
        } else {
            len
        },
    decreases k,
{
    let pc = peak_chunks(source, len, start);
    if k > 0 {
        lemma_chunks_prefix_length(source, len, start, k - 1);
        assert(pc.take(k).drop_last() =~= pc.take(k - 1));
        assert(CHUNK_SIZE * (k - 1) < len) by (nonlinear_arith)
            requires
                k - 1 < (len + 19) / 20,
                len > 0,
                k >= 1,
                CHUNK_SIZE == 20,
        ;
    }
}

/// The chunks cut from a section of positive length cover it exactly: each
/// is between one and [`CHUNK_SIZE`] milliseconds long, each starts where the
/// previous one ended, the first starts with the section, and together they
/// are as long as the section.
pub proof fn lemma_peak_chunks_cover(source: int, len: int, start: int)
    requires
        len > 0,
    ensures
        chunks_length(peak_chunks(source, len, start)) == len,
        peak_chunks(source, len, start).len() > 0,
        peak_chunks(source, len, start)[0].1 == start,
        forall|k: int|
            0 <= k < peak_chunks(source, len, start).len() ==> 0 < #[trigger] peak_chunks(
                source,
                len,
                start,
            )[k].2 <= CHUNK_SIZE && peak_chunks(source, len, start)[k].0 == source,
        forall|k: int|
            0 < k < peak_chunks(source, len, start).len() ==> #[trigger] peak_chunks(
                source,
                len,
                start,
            )[k].1 == peak_chunks(source, len, start)[k - 1].1 + peak_chunks(
                source,
                len,
                start,
            )[k - 1].2,
{
    let pc = peak_chunks(source, len, start);
    let n = chunk_count(len);
    assert(n > 0) by (nonlinear_arith)
        requires
            n == (len + 19) / 20,
            len > 0,
    ;
    lemma_chunks_prefix_length(source, len, start, n);
    assert(pc.take(n) =~= pc);
    assert(CHUNK_SIZE * n >= len) by (nonlinear_arith)
        requires
            n == (len + 19) / 20,
            len > 0,
            CHUNK_SIZE == 20,
    ;
    assert forall|k: int| 0 <= k < pc.len() implies 0 < #[trigger] pc[k].2 <= CHUNK_SIZE
        && pc[k].0 == source by {
        lemma_count_bound_converse(len, k);
    }
    assert forall|k: int| 0 < k < pc.len() implies #[trigger] pc[k].1 == pc[k - 1].1 + pc[
        k - 1].2 by {
        lemma_count_bound_converse(len, k - 1);
    }
}

proof fn lemma_count_bound_converse(len: int, k: int)
    requires
        len > 0,
        0 <= k < chunk_count(len),
    ensures
        CHUNK_SIZE * k < len,
{
    assert(CHUNK_SIZE * k < len) by (nonlinear_arith)
        requires
            k < (len + 19) / 20,
            len > 0,
            k >= 0,
            CHUNK_SIZE == 20,
    ;
}

/// Position in `s` of the first peak whose strain is lower than `v`, or the
/// length of `s` when there is none.
pub open spec fn first_lower(s: Seq<StrainPeak>, v: u64) -> int
    decreases s.len(),
{
    if s.len() == 0 {
        0
    } else if s[0].value < v {
        0
    } else {
        1 + first_lower(s.drop_first(), v)
    }
}

/// The peaks ordered by strain, highest first; peaks of equal strain keep
/// their order. Each peak is placed after every earlier peak whose strain is
/// not lower.
pub open spec fn sort_desc(s: Seq<StrainPeak>) -> Seq<StrainPeak>
    decreases s.len(),
{
    if s.len() == 0 {
        s
    } else {
        let rest = sort_desc(s.drop_last());
        rest.insert(first_lower(rest, s.last().value), s.last())
    }
}

/// The peaks are ordered by strain, highest first.
pub open spec fn sorted_desc(s: Seq<StrainPeak>) -> bool {
    forall|i: int, j: int| 0 <= i < j < s.len() ==> #[trigger] s[i].value >= #[trigger] s[j].value
}

proof fn lemma_first_lower_at(s: Seq<StrainPeak>, v: u64, j: int)
    requires
        0 <= j <= s.len(),
        forall|k: int| 0 <= k < j ==> #[trigger] s[k].value >= v,
        j == s.len() || s[j].value < v,
    ensures
        first_lower(s, v) == j,
    decreases s.len(),
{
    if s.len() > 0 && j > 0 {
        let t = s.drop_first();
        assert forall|k: int| 0 <= k < j - 1 implies #[trigger] t[k].value >= v by {
            assert(t[k] == s[k + 1]);
        }
        assert(s[0].value >= v);
        lemma_first_lower_at(t, v, j - 1);
    }
}

proof fn lemma_first_lower_sorted(s: Seq<StrainPeak>, v: u64)
    requires
        sorted_desc(s),
    ensures
        0 <= first_lower(s, v) <= s.len(),
        forall|k: int| 0 <= k < first_lower(s, v) ==> #[trigger] s[k].value >= v,
        forall|k: int| first_lower(s, v) <= k < s.len() ==> #[trigger] s[k].value < v,
    decreases s.len(),
{
    if s.len() > 0 && s[0].value >= v {
        let t = s.drop_first();
        assert forall|i: int, j: int| 0 <= i < j < t.len() implies #[trigger] t[i].value
            >= #[trigger] t[j].value by {
            assert(t[i] == s[i + 1] && t[j] == s[j + 1]);
        }
        lemma_first_lower_sorted(t, v);
        assert forall|k: int| 0 <= k < first_lower(s, v) implies #[trigger] s[k].value >= v by {
            if k > 0 {
                assert(s[k] == t[k - 1]);
            }
        }
        assert forall|k: int| first_lower(s, v) <= k < s.len() implies #[trigger] s[k].value < v by {
            assert(s[k] == t[k - 1]);
        }
    } else if s.len() > 0 {
        assert forall|k: int| 0 <= k < s.len() implies #[trigger] s[k].value < v by {
            if k > 0 {
                assert(s[0].value >= s[k].value);
            }
        }
    }
}

/// Ordering the peaks by strain keeps every peak, as often as it occurs, and
/// leaves them ordered highest first.
pub proof fn lemma_sort_desc(s: Seq<StrainPeak>)
    ensures
        sorted_desc(sort_desc(s)),
        sort_desc(s).to_multiset() =~= s.to_multiset(),
        sort_desc(s).len() == s.len(),
    decreases s.len(),
{
    broadcast use vstd::seq_lib::group_to_multiset_ensures;
    broadcast use vstd::multiset::group_multiset_axioms;

    if s.len() > 0 {
        let rest = sort_desc(s.drop_last());
        lemma_sort_desc(s.drop_last());
        let p = s.last();
        let j = first_lower(rest, p.value);
        lemma_first_lower_sorted(rest, p.value);
        let ins = rest.insert(j, p);
        assert(ins.len() == rest.len() + 1);
        assert forall|k: int| 0 <= k < ins.len() implies #[trigger] ins[k] == if k < j {
            rest[k]
        } else if k == j {
            p
        } else {
            rest[k - 1]
        } by {}
        assert forall|a: int, b: int| 0 <= a < b < ins.len() implies #[trigger] ins[a].value
            >= #[trigger] ins[b].value by {
            if b < j {
                assert(rest[a].value >= rest[b].value);
            } else if b == j {
                assert(rest[a].value >= p.value);
            } else if a < j {
                assert(rest[a].value >= rest[b - 1].value);
            } else if a == j {
                assert(rest[b - 1].value < p.value);
            } else {
                assert(rest[a - 1].value >= rest[b - 1].value);
            }
        }
        assert(ins.remove(j) =~= rest);
        assert(s.drop_last().push(p) =~= s);
        assert(ins.to_multiset().count(p) > 0) by {
            assert(ins[j] == p);
            assert(ins.contains(p));
        }
        assert(ins.to_multiset() =~= rest.to_multiset().insert(p));
    }
}

proof fn lemma_positive_counts(s: Seq<StrainPeak>)
    ensures
        forall|x: StrainPeak|
            #[trigger] positive_peaks(s).to_multiset().count(x) == if is_positive(x) {
                s.to_multiset().count(x)
            } else {
                0
            },
    decreases s.len(),
{
    broadcast use vstd::seq_lib::group_to_multiset_ensures;
    broadcast use vstd::multiset::group_multiset_axioms;

    reveal_with_fuel(Seq::<_>::filter, 1);
    if s.len() == 0 {
        assert forall|x: StrainPeak| #[trigger] positive_peaks(s).to_multiset().count(x) == 0 by {
            assert(positive_peaks(s) =~= Seq::<StrainPeak>::empty());
        }
    } else {
        let rest = s.drop_last();
        let l = s.last();
        lemma_positive_counts(rest);
        assert(rest.push(l) =~= s);
        if is_positive(l) {
            assert(positive_peaks(s) == positive_peaks(rest).push(l));
        } else {
            assert(positive_peaks(s) == positive_peaks(rest));
        }
        assert(s.to_multiset() =~= rest.to_multiset().insert(l));
    }
}

/// Peaks with equal strain among the positive peaks of a multiset are
/// identical.
pub open spec fn positive_strains_distinct(m: Multiset<StrainPeak>) -> bool {
    forall|x: StrainPeak, y: StrainPeak|
        #![trigger m.count(x), m.count(y)]
        m.count(x) > 0 && m.count(y) > 0 && is_positive(x) && is_positive(y) && x.value == y.value
            ==> x == y
}

proof fn lemma_sorted_unique(a: Seq<StrainPeak>, b: Seq<StrainPeak>)
    requires
        sorted_desc(a),
        sorted_desc(b),
        a.to_multiset() =~= b.to_multiset(),
        forall|k: int| 0 <= k < a.len() ==> is_positive(#[trigger] a[k]),
        positive_strains_distinct(a.to_multiset()),
    ensures
        a == b,
    decreases a.len(),
{
    broadcast use vstd::seq_lib::group_to_multiset_ensures;
    broadcast use vstd::multiset::group_multiset_axioms;

    assert(a.to_multiset().len() == b.to_multiset().len());
    assert(a.len() == b.len());
    if a.len() > 0 {
        assert(a.contains(a[0]));
        assert(a.to_multiset().count(a[0]) > 0);
        assert(b.to_multiset().count(a[0]) > 0);
        assert(b.contains(a[0]));
        let k = choose|k: int| 0 <= k < b.len() && b[k] == a[0];
        assert(b.contains(b[0]));
        assert(b.to_multiset().count(b[0]) > 0);
        assert(a.to_multiset().count(b[0]) > 0);
        assert(a.contains(b[0]));
        let m = choose|m: int| 0 <= m < a.len() && a[m] == b[0];
        if k > 0 {
            assert(b[0].value >= b[k].value);
        }
        if m > 0 {
            assert(a[0].value >= a[m].value);
        }
        assert(a.to_multiset().count(a[0]) > 0);
        assert(a.to_multiset().count(b[0]) > 0);
        assert(is_positive(a[m]));
        assert(a[0] == b[0]);
        let ta = a.drop_first();
        let tb = b.drop_first();
        assert(a.remove(0) =~= ta);
        assert(b.remove(0) =~= tb);
        assert(ta.to_multiset() =~= tb.to_multiset());
        assert forall|i: int, j: int| 0 <= i < j < ta.len() implies #[trigger] ta[i].value
            >= #[trigger] ta[j].value by {
            assert(ta[i] == a[i + 1] && ta[j] == a[j + 1]);
        }
        assert forall|i: int, j: int| 0 <= i < j < tb.len() implies #[trigger] tb[i].value
            >= #[trigger] tb[j].value by {
            assert(tb[i] == b[i + 1] && tb[j] == b[j + 1]);
        }
        assert forall|i: int| 0 <= i < ta.len() implies is_positive(#[trigger] ta[i]) by {
            assert(ta[i] == a[i + 1]);
        }
        assert forall|x: StrainPeak, y: StrainPeak|
            #![trigger ta.to_multiset().count(x), ta.to_multiset().count(y)]
            ta.to_multiset().count(x) > 0 && ta.to_multiset().count(y) > 0 && is_positive(x)
                && is_positive(y) && x.value == y.value implies x == y by {
            assert(a.to_multiset().count(x) > 0);
            assert(a.to_multiset().count(y) > 0);
        }
        lemma_sorted_unique(ta, tb);
        assert(a =~= b) by {
            assert forall|i: int| 0 <= i < a.len() implies a[i] == b[i] by {
                if i > 0 {
                    assert(a[i] == ta[i - 1] && b[i] == tb[i - 1]);
                }
            }
        }
    }
}

/// The order in which the peaks are given does not matter when positive
/// peaks of equal strain are identical: any rearrangement of the same peaks
/// is split into the same positive peaks, in the same order, and so into the
/// same chunks and the same whole peaks.
pub proof fn lemma_reduce_order_independent(s1: Seq<StrainPeak>, s2: Seq<StrainPeak>)
    requires
        s1.to_multiset() =~= s2.to_multiset(),
        positive_strains_distinct(s1.to_multiset()),
    ensures
        sort_desc(positive_peaks(s1)) == sort_desc(positive_peaks(s2)),
{
    broadcast use vstd::seq_lib::group_to_multiset_ensures;
    broadcast use vstd::multiset::group_multiset_axioms;

    let p1 = positive_peaks(s1);
    let p2 = positive_peaks(s2);
    lemma_positive_counts(s1);
    lemma_positive_counts(s2);
    assert(p1.to_multiset() =~= p2.to_multiset()) by {
        assert forall|x: StrainPeak| #[trigger] p1.to_multiset().count(x) == p2.to_multiset().count(x) by {
            assert(p1.to_multiset().count(x) == if is_positive(x) { s1.to_multiset().count(x) } else { 0 });
            assert(p2.to_multiset().count(x) == if is_positive(x) { s2.to_multiset().count(x) } else { 0 });
        }
    }
    lemma_sort_desc(p1);
    lemma_sort_desc(p2);
    let a = sort_desc(p1);
    let b = sort_desc(p2);
    assert forall|k: int| 0 <= k < a.len() implies is_positive(#[trigger] a[k]) by {
        assert(a.contains(a[k]));
        assert(a.to_multiset().count(a[k]) > 0);
        assert(p1.to_multiset().count(a[k]) > 0);
        if !is_positive(a[k]) {
            assert(p1.to_multiset().count(a[k]) == 0);
        }
    }
    assert forall|x: StrainPeak, y: StrainPeak|
        #![trigger a.to_multiset().count(x), a.to_multiset().count(y)]
        a.to_multiset().count(x) > 0 && a.to_multiset().count(y) > 0 && is_positive(x) && is_positive(y)
            && x.value == y.value implies x == y by {
        assert(p1.to_multiset().count(x) == s1.to_multiset().count(x));
        assert(p1.to_multiset().count(y) == s1.to_multiset().count(y));
    }
    lemma_sorted_unique(a, b);
}

/// The peaks ordered by strain, highest first, peaks of equal strain in their
/// given order.
fn sort_peaks_desc(peaks: &Vec<StrainPeak>) -> (res: Vec<StrainPeak>)
    ensures
        res@ == sort_desc(peaks@),
{
    let mut sorted: Vec<StrainPeak> = Vec::new();
    let n = peaks.len();
    for i in 0..n
        invariant
            n == peaks@.len(),
            sorted@ == sort_desc(peaks@.take(i as int)),
    {
        let peak = peaks[i];
        let mut j: usize = 0;
        while j < sorted.len() && sorted[j].value >= peak.value
            invariant
                j <= sorted@.len(),
                forall|k: int| 0 <= k < j ==> #[trigger] sorted@[k].value >= peak.value,
            decreases sorted@.len() - j,
        {
            j = j + 1;
        }
        proof {
            lemma_first_lower_at(sorted@, peak.value, j as int);
            assert(peaks@.take(i + 1).drop_last() =~= peaks@.take(i as int));
            assert(peaks@.take(i + 1).last() == peak);
        }
        sorted.insert(j, peak);
    }
    proof {
        assert(peaks@.take(n as int) =~= peaks@);
    }
    sorted
}

/// The strains greater than zero, in their order.
pub open spec fn positive_strains(strains: Seq<u64>) -> Seq<u64> {
    strains.filter(|k: u64| strain_gt(k, STRAIN_ZERO))
}

/// The keys are ordered highest first.
pub open spec fn keys_descending(keys: Seq<u64>) -> bool {
    forall|i: int, j: int| 0 <= i < j < keys.len() ==> #[trigger] keys[i] >= #[trigger] keys[j]
}

/// The strains greater than zero, highest first.
///
/// Strains of zero, negative strains and NaN are left out; the others are
/// ordered by their keys, which for these strains is the order of their
/// values. Being ordered and holding exactly these strains, the result is
/// unique.
pub fn positive_descending(strains: &[u64]) -> (res: Vec<u64>)
    ensures
        keys_descending(res@),
        res@.to_multiset() =~= positive_strains(strains@).to_multiset(),
{
    let mut sorted: Vec<u64> = Vec::new();
    let n = strains.len();
    proof {
        broadcast use vstd::seq_lib::group_to_multiset_ensures;
        broadcast use vstd::multiset::group_multiset_axioms;

        reveal_with_fuel(Seq::<_>::filter, 1);
        assert(positive_strains(strains@.take(0)) =~= Seq::<u64>::empty());
        assert(sorted@ =~= Seq::<u64>::empty());
        assert(Seq::<u64>::empty().to_multiset().len() == 0);
    }
    for i in 0..n
        invariant
            n == strains@.len(),
            keys_descending(sorted@),
            sorted@.to_multiset() =~= positive_strains(strains@.take(i as int)).to_multiset(),
    {
        let k = strains[i];
        proof {
            reveal_with_fuel(Seq::<_>::filter, 1);
            assert(strains@.take(i + 1).drop_last() =~= strains@.take(i as int));
            assert(strains@.take(i + 1).last() == k);
        }
        if strain_greater(k, STRAIN_ZERO) {
            let mut j: usize = 0;
            while j < sorted.len() && sorted[j] >= k
                invariant
                    j <= sorted@.len(),
                    forall|m: int| 0 <= m < j ==> #[trigger] sorted@[m] >= k,
                decreases sorted@.len() - j,
            {
                j = j + 1;
            }
            let ghost before = sorted@;
            sorted.insert(j, k);
            proof {
                broadcast use vstd::seq_lib::group_to_multiset_ensures;
                broadcast use vstd::multiset::group_multiset_axioms;

                let after = sorted@;
                assert forall|m: int| 0 <= m < after.len() implies #[trigger] after[m] == if m
                    < j {
                    before[m]
                } else if m == j {
                    k
                } else {
                    before[m - 1]
                } by {}
                assert forall|a: int, b: int| 0 <= a < b < after.len() implies #[trigger] after[a]
                    >= #[trigger] after[b] by {
                    if j < before.len() {
                        assert(before[j as int] < k);
                    }
                    if b < j {
                        assert(before[a] >= before[b]);
                    } else if b == j {
                        assert(before[a] >= k);
                    } else if a < j {
                        assert(before[a] >= before[b - 1]);
                    } else if a == j {
                        assert(before[j as int] >= before[b - 1]);
                    } else {
                        assert(before[a - 1] >= before[b - 1]);
                    }
                }
                assert(after.remove(j as int) =~= before);
                assert(after[j as int] == k);
                assert(after.contains(k));
                assert(after.to_multiset().count(k) > 0);
                assert(before.to_multiset() =~= after.to_multiset().remove(k));
                assert(after.to_multiset() =~= before.to_multiset().insert(k));
                let prev = positive_strains(strains@.take(i as int));
                assert(positive_strains(strains@.take(i + 1)) == prev.push(k));
                assert(prev.push(k).to_multiset() =~= prev.to_multiset().insert(k));
            }
        } else {
            proof {
                assert(positive_strains(strains@.take(i + 1)) == positive_strains(
                    strains@.take(i as int),
                ));
            }
        }
    }
    proof {
        assert(strains@.take(n as int) =~= strains@);
    }
    sorted
}

/// Total length in milliseconds of the given peaks.
pub open spec fn lengths_total(peaks: Seq<StrainPeak>) -> int {
    peaks.fold_left(0int, |acc: int, p: StrainPeak| acc + p.section_length)
}

/// Adding a peak adds its length to the total.
pub proof fn lemma_lengths_total_push(peaks: Seq<StrainPeak>, p: StrainPeak)
    ensures
        lengths_total(peaks.push(p)) == lengths_total(peaks) + p.section_length,
{
    assert(peaks.push(p).drop_last() =~= peaks);
}

/// The total of two runs of peaks together is the sum of their totals.
pub proof fn lemma_lengths_total_concat(a: Seq<StrainPeak>, b: Seq<StrainPeak>)
    ensures
        lengths_total(a + b) == lengths_total(a) + lengths_total(b),
    decreases b.len(),
{
    if b.len() == 0 {
        assert(a + b =~= a);
    } else {
        lemma_lengths_total_concat(a, b.drop_last());
        assert((a + b).drop_last() =~= a + b.drop_last());
        assert((a + b).last() == b.last());
    }
}

/// Removing a peak takes its length off the total.
pub proof fn lemma_lengths_total_remove(peaks: Seq<StrainPeak>, i: int)
    requires
        0 <= i < peaks.len(),
    ensures
        lengths_total(peaks.remove(i)) == lengths_total(peaks) - peaks[i].section_length,
{
    let front = peaks.subrange(0, i);
    let back = peaks.subrange(i + 1, peaks.len() as int);
    assert(peaks.remove(i) =~= front + back);
    assert(peaks =~= front.push(peaks[i]) + back);
    lemma_lengths_total_concat(front, back);
    lemma_lengths_total_concat(front.push(peaks[i]), back);
    lemma_lengths_total_push(front, peaks[i]);
}

/// The elapsed time before a peak is the total length of the peaks before it.
pub proof fn lemma_elapsed_is_prefix_total(peaks: Seq<StrainPeak>, i: int)
    requires
        0 <= i <= peaks.len(),
    ensures
        elapsed(peaks, i) == lengths_total(peaks.take(i)),
    decreases i,
{
    if i > 0 {
        lemma_elapsed_is_prefix_total(peaks, i - 1);
        assert(peaks.take(i).drop_last() =~= peaks.take(i - 1));
        assert(peaks.take(i).last() == peaks[i - 1]);
    } else {
        assert(peaks.take(0).len() == 0);
    }
}

/// Every chunk cut from the first `r` peaks lies within its source peak: the
/// source is one of those peaks, the chunk starts no earlier than the source
/// and ends no later, and it lasts between one and [`CHUNK_SIZE`]
/// milliseconds.
pub proof fn lemma_chunks_within_sources(peaks: Seq<StrainPeak>, r: int)
    requires
        0 <= r <= peaks.len(),
    ensures
        forall|m: int|
            0 <= m < chunks_upto(peaks, r).len() ==> {
                let c = #[trigger] chunks_upto(peaks, r)[m];
                &&& 0 <= c.0 < r
                &&& elapsed(peaks, c.0) <= c.1
                &&& c.1 + c.2 <= elapsed(peaks, c.0) + peaks[c.0].section_length
                &&& 0 < c.2 <= CHUNK_SIZE
            },
    decreases r,
{
    if r > 0 {
        lemma_chunks_within_sources(peaks, r - 1);
        let before = chunks_upto(peaks, r - 1);
        let len = peaks[r - 1].section_length as int;
        let pieces = peak_chunks(r - 1, len, elapsed(peaks, r - 1));
        let all = chunks_upto(peaks, r);
        assert(all == before + pieces);
        assert forall|m: int| 0 <= m < all.len() implies {
            let c = #[trigger] all[m];
            &&& 0 <= c.0 < r
            &&& elapsed(peaks, c.0) <= c.1
            &&& c.1 + c.2 <= elapsed(peaks, c.0) + peaks[c.0].section_length
            &&& 0 < c.2 <= CHUNK_SIZE
        } by {
            if m < before.len() {
                assert(all[m] == before[m]);
            } else {
                let k = m - before.len();
                assert(all[m] == pieces[k]);
                lemma_count_bound_converse(len, k);
            }
        }
    }
}

/// Splits the peaks before weighting.
///
/// Peaks whose strain is zero, negative or NaN are dropped and the others are ordered by
/// strain, highest first (peaks of equal strain keep their stored order).
/// Then, highest first, the positive peaks are cut into chunks of [`CHUNK_SIZE`] milliseconds (the
/// last chunk of a peak possibly shorter) for as long as the peaks passed so
/// far are shorter than [`REDUCED_SECTION_TIME`] in total; the peaks from the
/// first one that starts at or after that time on are kept whole.
pub fn reduce_sections(strain_peaks: &[StrainPeak]) -> (res: ReducedSections)
    ensures
        res.positive@ == sort_desc(positive_peaks(strain_peaks@)),
        sorted_desc(res.positive@),
        res.positive@.to_multiset() =~= positive_peaks(strain_peaks@).to_multiset(),
        forall|i: int|
            0 <= i < res.positive@.len() ==> #[trigger] res.positive@[i].value
                > STRAIN_ZERO && res.positive@[i].value <= STRAIN_POSITIVE_INFINITY,
        res.remaining_start <= res.positive@.len(),
        forall|i: int|
            0 <= i < res.remaining_start ==> #[trigger] elapsed(res.positive@, i)
                < REDUCED_SECTION_TIME,
        res.remaining_start < res.positive@.len() ==> elapsed(
            res.positive@,
            res.remaining_start as int,
        ) >= REDUCED_SECTION_TIME,
        res.chunks@.len() == chunks_upto(res.positive@, res.remaining_start as int).len(),
        forall|m: int|
            0 <= m < res.chunks@.len() ==> #[trigger] res.chunks@[m].triple() == chunks_upto(
                res.positive@,
                res.remaining_start as int,
            )[m],
        forall|i: int|
            0 <= i < res.remaining_start ==> lengths_total(#[trigger] res.positive@.take(i))
                < REDUCED_SECTION_TIME,
        res.remaining_start < res.positive@.len() ==> lengths_total(
            res.positive@.take(res.remaining_start as int),
        ) >= REDUCED_SECTION_TIME,
        forall|m: int|
            0 <= m < res.chunks@.len() ==> {
                let c = #[trigger] res.chunks@[m];
                let before = lengths_total(res.positive@.take(c.source as int));
                &&& c.source < res.remaining_start
                &&& before <= c.offset
                &&& c.offset + c.length <= before + res.positive@[c.source as int].section_length
                &&& 0 < c.length <= CHUNK_SIZE
            },
{
    let mut positive: Vec<StrainPeak> = Vec::new();
    let count = strain_peaks.len();
    for i in 0..count
        invariant
            count == strain_peaks@.len(),
            positive@ == positive_peaks(strain_peaks@.take(i as int)),
    {
        proof {
            reveal_with_fuel(Seq::<_>::filter, 1);
            assert(strain_peaks@.take(i + 1).drop_last() =~= strain_peaks@.take(i as int));
        }
        let peak = strain_peaks[i];
        if strain_greater(peak.value, STRAIN_ZERO) {
            positive.push(peak);
        }
    }
    proof {
        assert(strain_peaks@.take(count as int) =~= strain_peaks@);
    }
    let positive = sort_peaks_desc(&positive);

    let n = positive.len();
    let mut chunks: Vec<ReductionChunk> = Vec::new();
    let mut skip: usize = 0;
    let mut time: i128 = 0;
    while skip < n && time < REDUCED_SECTION_TIME as i128
        invariant
            n == positive@.len(),
            skip <= n,
            time == elapsed(positive@, skip as int),
            time >= -(skip as int) * 0x8000_0000_0000_0000,
            time < REDUCED_SECTION_TIME + 0x8000_0000_0000_0000,
            forall|i: int|
                0 <= i < skip ==> #[trigger] elapsed(positive@, i) < REDUCED_SECTION_TIME,
            chunks@.len() == chunks_upto(positive@, skip as int).len(),
            forall|m: int|
                0 <= m < chunks@.len() ==> #[trigger] chunks@[m].triple() == chunks_upto(
                    positive@,
                    skip as int,
                )[m],
        decreases n - skip,
    {
        let len = positive[skip].section_length as i128;
        let ghost before = chunks_upto(positive@, skip as int);
        let ghost pieces = peak_chunks(skip as int, len as int, time as int);
        let mut added: i128 = 0;
        let ghost mut k: int = 0;
        while added < len
            invariant
                k >= 0,
                added == CHUNK_SIZE * k,
                k == 0 || CHUNK_SIZE * (k - 1) < len,
                skip < positive@.len(),
                len == positive@[skip as int].section_length,
                skip < n,
                n <= usize::MAX,
                time < REDUCED_SECTION_TIME,
                time >= -(skip as int) * 0x8000_0000_0000_0000,
                time <= REDUCED_SECTION_TIME,
                pieces == peak_chunks(skip as int, len as int, time as int),
                chunks@.len() == before.len() + k,
                k <= pieces.len(),
                forall|m: int|
                    0 <= m < chunks@.len() ==> #[trigger] chunks@[m].triple() == (before
                        + pieces.take(k))[m],
            decreases len + CHUNK_SIZE - added,
        {
            proof {
                lemma_count_bound(len as int, k);
            }
            let rest = len - added;
            let length: i128 = if rest < CHUNK_SIZE as i128 {
                rest
            } else {
                CHUNK_SIZE as i128
            };
            let ghost prev = chunks@;
            let chunk = ReductionChunk { source: skip, offset: time + added, length: length as i64 };
            chunks.push(chunk);
            proof {
                assert(pieces.take(k + 1) =~= pieces.take(k).push(pieces[k]));
                assert(chunk.triple() == pieces[k]);
                assert forall|m: int| 0 <= m < chunks@.len() implies #[trigger] chunks@[m].triple()
                    == (before + pieces.take(k + 1))[m] by {
                    if m < chunks@.len() - 1 {
                        assert(chunks@[m] == prev[m]);
                    }
                }
                k = k + 1;
            }
            added = added + CHUNK_SIZE as i128;
        }
        proof {
            lemma_chunk_count(len as int, k);
            assert(pieces.take(k) =~= pieces);
            assert(chunks_upto(positive@, skip + 1) == before + pieces);
        }
        time = time + len;
        skip = skip + 1;
    }
    proof {
        let r = skip as int;
        lemma_sort_desc(positive_peaks(strain_peaks@));
        lemma_positive_counts(strain_peaks@);
        assert forall|i: int| 0 <= i < positive@.len() implies #[trigger] positive@[i].value
            > STRAIN_ZERO && positive@[i].value <= STRAIN_POSITIVE_INFINITY by {
            broadcast use vstd::seq_lib::group_to_multiset_ensures;

            let x = positive@[i];
            assert(positive@.contains(x));
            assert(positive@.to_multiset().count(x) > 0);
            assert(positive_peaks(strain_peaks@).to_multiset().count(x) > 0);
        }
        lemma_chunks_within_sources(positive@, r);
        assert forall|i: int| 0 <= i < r implies lengths_total(#[trigger] positive@.take(i))
            < REDUCED_SECTION_TIME by {
            lemma_elapsed_is_prefix_total(positive@, i);
        }
        lemma_elapsed_is_prefix_total(positive@, r);
        assert forall|m: int| 0 <= m < chunks@.len() implies {
            let c = #[trigger] chunks@[m];
            let before = lengths_total(positive@.take(c.source as int));
            &&& c.source < r
            &&& before <= c.offset
            &&& c.offset + c.length <= before + positive@[c.source as int].section_length
            &&& 0 < c.length <= CHUNK_SIZE
        } by {
            assert(chunks@[m].triple() == chunks_upto(positive@, r)[m]);
            let c = chunks_upto(positive@, r)[m];
            lemma_elapsed_is_prefix_total(positive@, c.0);
        }
    }
    ReducedSections { positive, chunks, remaining_start: skip }
}

proof fn lemma_count_bound(len: int, k: int)
    requires
        k >= 0,
        CHUNK_SIZE * k < len,
    ensures
        k < chunk_count(len),
{
    assert(k < (len + CHUNK_SIZE - 1) / (CHUNK_SIZE as int)) by (nonlinear_arith)
        requires
            k >= 0,
            20 * k < len,
            CHUNK_SIZE == 20,
    ;
}

} // verus!
