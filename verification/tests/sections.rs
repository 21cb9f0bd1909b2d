use rosu_pp::skills::aim::StrainSections;
use rosu_pp::skills::reading::ReducedNoteCount;
use rosu_pp::skills::strain::STRAIN_ZERO;

fn key(x: f64) -> u64 {
    let bits = x.to_bits();
    if x.is_sign_negative() {
        !bits
    } else {
        bits | (1u64 << 63)
    }
}

fn summary(s: &StrainSections) -> Vec<(u64, i64)> {
    s.current_strain_peaks().iter().map(|p| (p.value, p.section_length)).collect()
}

#[test]
fn fresh_sections_hold_one_empty_peak() {
    let s = StrainSections::new();
    assert!(!s.is_started());
    assert_eq!(summary(&s), vec![(STRAIN_ZERO, 0)]);
}

#[test]
fn sections_backfill_from_queue_then_new_peak() {
    let mut s = StrainSections::new();
    s.start(0, key(1.0));
    assert_eq!((s.section_begin(), s.section_end()), (0, 400_000));
    s.push_strain(100_000, key(0.5));
    s.push_strain(200_000, key(0.7));
    assert!(s.needs_backfill(700_000));
    s.backfill_step(700_000, key(0.2));
    assert_eq!((s.section_begin(), s.section_end()), (400_000, 600_000));
    assert!(s.needs_backfill(700_000));
    s.backfill_step(700_000, key(0.1));
    assert_eq!((s.section_begin(), s.section_end()), (600_000, 1_000_000));
    assert!(!s.needs_backfill(700_000));
    s.push_strain(700_000, key(0.9));
    assert_eq!((s.section_begin(), s.section_end()), (700_000, 1_100_000));
    assert_eq!(
        summary(&s),
        vec![(key(1.0), 400), (key(0.7), 200), (key(0.1), 100), (key(0.9), 400)]
    );
}

#[test]
fn backfill_seed_keeps_higher_initial_strain() {
    let mut s = StrainSections::new();
    s.start(0, key(1.0));
    s.push_strain(100_000, key(0.3));
    s.backfill_step(500_000, key(0.6));
    assert_eq!(summary(&s), vec![(key(1.0), 400), (key(0.6), 100)]);
}

#[test]
fn lower_strain_does_not_open_section() {
    let mut s = StrainSections::new();
    s.start(1_000, key(1.0));
    s.push_strain(50_000, key(1.0));
    assert_eq!((s.section_begin(), s.section_end()), (1_000, 401_000));
    assert_eq!(summary(&s), vec![(key(1.0), 400)]);
}

#[test]
fn stored_sections_drop_lowest_strain_past_forty_four_seconds() {
    let mut s = StrainSections::new();
    s.start(0, key(1.0));
    let late = 200_000_000;
    // Each back-fill step closes a full 400 ms section; the 111th closed
    // section brings the total to 44.4 seconds.
    for i in 0..111 {
        let seed = if i == 50 { 0.5 } else { 5.0 };
        s.backfill_step(late, key(seed));
    }
    let peaks = summary(&s);
    // 110 stored sections and the open one.
    assert_eq!(peaks.len(), 111);
    assert!(peaks.iter().all(|&(_, len)| len == 400));
    // The section seeded with 0.5 was the lowest and is gone; the first one
    // (strain 1.0) and the newest closed one stay.
    assert!(!peaks.contains(&(key(0.5), 400)));
    assert_eq!(peaks[0], (key(1.0), 400));
    assert_eq!(peaks.iter().filter(|&&(v, _)| v == key(5.0)).count(), 110);
}

#[test]
fn sections_never_exceed_four_hundred_ms() {
    let mut s = StrainSections::new();
    s.start(0, key(1.0));
    let times = [100_000, 390_000, 1_000_000, 1_000_000, 1_350_000, 5_000_000];
    let strains = [0.9, 0.8, 0.5, 0.7, 2.0, 0.1];
    for (&t, &v) in times.iter().zip(strains.iter()) {
        while s.needs_backfill(t) {
            s.backfill_step(t, key(0.05));
        }
        s.push_strain(t, key(v));
        assert!(s.section_begin() <= t && t <= s.section_end());
    }
    for (_, len) in summary(&s) {
        assert!((0..=400).contains(&len));
    }
}

#[test]
fn zero_of_other_sign_does_not_open_section() {
    let mut s = StrainSections::new();
    s.start(0, key(-0.0));
    s.push_strain(100_000, key(0.0));
    // +0.0 is not greater than -0.0, so it is queued and the section stays.
    assert_eq!((s.section_begin(), s.section_end()), (0, 400_000));
    s.backfill_step(500_000, key(-0.0));
    // The queued +0.0 seeds the next section; neither zero is greater, so
    // the back-fill strain is kept.
    assert_eq!(summary(&s), vec![(key(-0.0), 400), (key(-0.0), 100)]);
}

#[test]
fn nan_strain_never_opens_section_and_is_ignored_as_seed() {
    let mut s = StrainSections::new();
    s.start(0, key(1.0));
    s.push_strain(100_000, key(f64::NAN));
    assert_eq!((s.section_begin(), s.section_end()), (0, 400_000));
    // A later strain does not take NaN off the queue.
    s.push_strain(200_000, key(0.5));
    s.backfill_step(700_000, key(0.2));
    // The queued NaN seeds the next section; the maximum ignores it.
    assert_eq!(summary(&s), vec![(key(1.0), 400), (key(0.2), 100)]);
    assert_eq!(s.section_end(), 500_000);
    s.backfill_step(700_000, key(0.1));
    assert_eq!(summary(&s), vec![(key(1.0), 400), (key(0.2), 100), (key(0.5), 100)]);
}

#[test]
fn reduced_note_count_counts_first_minute() {
    let mut c = ReducedNoteCount::new();
    assert_eq!(c.reduced_duration(), None);
    c.observe(1_000_000);
    assert_eq!(c.reduced_duration(), Some(61_000_000));
    c.observe(30_000_000);
    c.observe(61_000_000);
    assert_eq!(c.count(), 3);
    c.observe(61_000_001);
    assert_eq!(c.count(), 3);
}
