use rosu_pp::skills::strain::{positive_descending, reduce_sections, StrainPeak, STRAIN_ZERO};

fn key(x: f64) -> u64 {
    let bits = x.to_bits();
    if x.is_sign_negative() {
        !bits
    } else {
        bits | (1u64 << 63)
    }
}

#[test]
fn key_of_zero_is_strain_zero() {
    assert_eq!(key(0.0), STRAIN_ZERO);
    assert!(key(-0.5) < key(0.0));
    assert!(key(0.25) < key(1.0));
}

#[test]
fn strain_peak_rounds_half_away_from_zero() {
    assert_eq!(StrainPeak::new(7, 1_499).section_length, 1);
    assert_eq!(StrainPeak::new(7, 1_500).section_length, 2);
    assert_eq!(StrainPeak::new(7, 2_500).section_length, 3);
    assert_eq!(StrainPeak::new(7, -1_500).section_length, -2);
    assert_eq!(StrainPeak::new(7, -1_499).section_length, -1);
    assert_eq!(StrainPeak::new(7, 400_000).section_length, 400);
    assert_eq!(StrainPeak::new(7, 0).value, 7);
}

#[test]
fn reduce_sections_drops_zero_peaks_and_chunks_highest_first() {
    let peaks = vec![
        StrainPeak { value: key(0.0), section_length: 100 },
        StrainPeak { value: key(2.0), section_length: 30 },
        StrainPeak { value: key(1.0), section_length: 5000 },
        StrainPeak { value: key(3.0), section_length: 40 },
    ];
    let reduced = reduce_sections(&peaks);
    let order: Vec<u64> = reduced.positive.iter().map(|p| p.value).collect();
    assert_eq!(order, vec![key(3.0), key(2.0), key(1.0)]);
    assert_eq!(reduced.remaining_start, 3);
    assert_eq!(reduced.chunks.len(), 254);
    let c = &reduced.chunks;
    assert_eq!((c[0].source, c[0].offset, c[0].length), (0, 0, 20));
    assert_eq!((c[1].source, c[1].offset, c[1].length), (0, 20, 20));
    assert_eq!((c[2].source, c[2].offset, c[2].length), (1, 40, 20));
    assert_eq!((c[3].source, c[3].offset, c[3].length), (1, 60, 10));
    assert_eq!((c[4].source, c[4].offset, c[4].length), (2, 70, 20));
    assert_eq!((c[253].source, c[253].offset, c[253].length), (2, 5050, 20));
    let total: i64 = c.iter().filter(|ch| ch.source == 2).map(|ch| ch.length).sum();
    assert_eq!(total, 5000);
}

#[test]
fn reduce_sections_gives_first_chunk_to_highest_strain() {
    let low_first = vec![
        StrainPeak { value: key(1.0), section_length: 20 },
        StrainPeak { value: key(2.0), section_length: 20 },
    ];
    let high_first = vec![low_first[1], low_first[0]];
    for peaks in [low_first, high_first] {
        let reduced = reduce_sections(&peaks);
        assert_eq!(reduced.positive[reduced.chunks[0].source].value, key(2.0));
        assert_eq!(reduced.chunks[0].offset, 0);
        assert_eq!(reduced.positive[reduced.chunks[1].source].value, key(1.0));
        assert_eq!(reduced.chunks[1].offset, 20);
    }
}

#[test]
fn reduce_sections_keeps_stored_order_among_equal_strains() {
    let peaks = vec![
        StrainPeak { value: key(1.0), section_length: 10 },
        StrainPeak { value: key(1.0), section_length: 30 },
    ];
    let reduced = reduce_sections(&peaks);
    assert_eq!(reduced.positive[0].section_length, 10);
    assert_eq!(reduced.positive[1].section_length, 30);
}

#[test]
fn reduce_sections_of_empty_or_zero_peaks() {
    let reduced = reduce_sections(&[]);
    assert!(reduced.positive.is_empty() && reduced.chunks.is_empty());
    assert_eq!(reduced.remaining_start, 0);
    let peaks = vec![StrainPeak { value: key(0.0), section_length: 400 }];
    let reduced = reduce_sections(&peaks);
    assert!(reduced.positive.is_empty() && reduced.chunks.is_empty());
}

#[test]
fn reduce_sections_zero_length_peak_has_no_chunks() {
    let peaks = vec![
        StrainPeak { value: key(2.0), section_length: 0 },
        StrainPeak { value: key(1.0), section_length: 45 },
    ];
    let reduced = reduce_sections(&peaks);
    assert_eq!(reduced.remaining_start, 2);
    let c: Vec<(usize, i128, i64)> =
        reduced.chunks.iter().map(|ch| (ch.source, ch.offset, ch.length)).collect();
    assert_eq!(c, vec![(1, 0, 20), (1, 20, 20), (1, 40, 5)]);
}

#[test]
fn nan_and_zero_peaks_are_not_positive() {
    let peaks = vec![
        StrainPeak { value: key(f64::NAN), section_length: 20 },
        StrainPeak { value: key(-f64::NAN), section_length: 20 },
        StrainPeak { value: key(-0.0), section_length: 20 },
        StrainPeak { value: key(0.0), section_length: 20 },
        StrainPeak { value: key(f64::INFINITY), section_length: 20 },
        StrainPeak { value: key(0.5), section_length: 20 },
    ];
    let reduced = reduce_sections(&peaks);
    let values: Vec<u64> = reduced.positive.iter().map(|p| p.value).collect();
    assert_eq!(values, vec![key(f64::INFINITY), key(0.5)]);
}

#[test]
fn positive_descending_filters_and_orders() {
    let strains = [0.3, 0.0, f64::NAN, 2.5, -1.0, -0.0, 0.3, 1.0];
    let keys: Vec<u64> = strains.iter().map(|&v| key(v)).collect();
    let res = positive_descending(&keys);
    assert_eq!(res, vec![key(2.5), key(1.0), key(0.3), key(0.3)]);
    assert!(positive_descending(&[]).is_empty());
}
