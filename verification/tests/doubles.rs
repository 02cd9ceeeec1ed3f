use radio_track_splitter::cli::{minutes_text, seconds_from_text, seconds_text};
use radio_track_splitter::detect::{sample_index, snap_to_energy_minimum};
use radio_track_splitter::doubles::{difference, round_even, seconds_of, to_double, to_seconds};
use radio_track_splitter::editor::{fmt_dur, fmt_time, Editor};
use radio_track_splitter::pipeline::{find_candidates, scale_window};
use radio_track_splitter::saved::to_keep;

const PARTS: f64 = 4835703278458516698824704.0;
const HOP_TIME: i64 = 960_000_000;

fn ns(seconds: f64) -> i64 {
    (seconds * 1e9).round() as i64
}

/// Times that fall on a sample, many of which lie between two milliseconds, and others.
fn times() -> Vec<f64> {
    let mut all: Vec<f64> = (0..40_000u32).map(|k| (k * 37) as f64 / 16000.0).collect();
    all.extend((0..20_000u32).map(|k| k as f64 * 7.05 / 100.0));
    all.extend([1e-9, 5e-9, 0.05, 59.9995, 59.999499999, 86399.9995, 7e6, 1234567.8905, 9e9]);
    all.iter().map(|&t| ns(t) as f64 / 1e9).collect()
}

#[test]
fn seconds_are_the_nearest_double() {
    for t in times() {
        assert_eq!(to_seconds(ns(t)) as f64, t * PARTS, "{t}");
        assert_eq!(to_seconds(-ns(t)) as f64, -t * PARTS, "{t}");
        assert_eq!(seconds_of(ns(t) as u64).value() as f64, t * PARTS, "{t}");
    }
    assert_eq!(to_seconds(0), 0);
    assert_eq!(to_seconds(i64::MIN) as f64, i64::MIN as f64 / 1e9 * PARTS);
}

#[test]
fn differences_are_rounded_to_a_double() {
    let all = times();
    for pair in all.windows(2) {
        let expected = (pair[1] - pair[0]) * PARTS;
        assert_eq!(difference(ns(pair[1]), ns(pair[0])) as f64, expected, "{pair:?}");
    }
    assert_eq!(to_double(-7, 2), -4);
    assert_eq!(round_even(7, 2), 4);
    assert_eq!(round_even(5, 2), 2);
}

#[test]
fn times_are_written_as_doubles_are() {
    for t in times() {
        let m = (t / 60.0).floor();
        let expected = format!("{}:{:06.3}", m as u64, t - m * 60.0);
        assert_eq!(fmt_time(ns(t)), expected);
        let s = t.round() as u64;
        assert_eq!(fmt_dur(ns(t)), format!("{}:{:02}", s / 60, s % 60));
        assert_eq!(seconds_text(ns(t), 3), format!("{t:.3}"));
        assert_eq!(seconds_text(ns(t), 1), format!("{t:.1}"));
        assert_eq!(seconds_text(-ns(t), 2), format!("{:.2}", if t == 0.0 { 0.0 } else { -t }));
        assert_eq!(minutes_text(ns(t)), format!("{:.1}", t / 60.0));
    }
    for pair in times().windows(2) {
        let expected = format!("{:.1}", pair[1] - pair[0]);
        assert_eq!(seconds_from_text(ns(pair[0]), ns(pair[1])), expected);
    }
}

#[test]
fn marks_are_kept_as_doubles_are_rounded() {
    for t in times() {
        let expected = ns((t * 1000.0).round() / 1000.0);
        assert_eq!(to_keep(&vec![ns(t)], "").marks, vec![expected], "{t}");
        assert_eq!(to_keep(&vec![-ns(t)], "").marks, vec![-expected], "{t}");
    }
}

#[test]
fn a_fifth_of_a_second_is_near_where_doubles_say_so() {
    let mut near = 0;
    for k in 1..500u32 {
        let mark = k as f64;
        let t = (k * 10 + 2) as f64 / 10.0;
        let mut e = Editor::new(ns(600.0));
        e.set_marks(vec![ns(mark)]);
        let added = e.add_marker(ns(t));
        assert_eq!(added, !((mark - t).abs() < 0.2), "{mark} {t}");
        near += if added { 0 } else { 1 };
    }
    assert!(0 < near && near < 499);
    let mut e = Editor::new(ns(600.0));
    e.set_marks(vec![ns(200.0)]);
    assert!(!e.add_marker(ns(200.2)));
    assert_eq!(e.sel, Some(0));
}

#[test]
fn windows_are_quotients_of_doubles() {
    for k in 0..20_000u32 {
        let scale = k as f64 / 100.0;
        let expected = ((scale / 0.96).round_ties_even() as u64).max(1);
        assert_eq!(scale_window(ns(scale), HOP_TIME), expected, "{scale}");
    }
    assert_eq!(scale_window(ns(4.32), HOP_TIME), 5);
    assert_eq!(scale_window(1, i64::MAX), 1);
    assert_eq!(scale_window(i64::MAX, 1), (i64::MAX as f64 / 1e9 / 1e-9).round_ties_even() as u64);
}

#[test]
fn samples_are_found_as_doubles_are_cut() {
    for t in times() {
        let expected = (t * 16000.0) as u128;
        assert_eq!(sample_index(16000, seconds_of(ns(t) as u64)), expected, "{t}");
        let place = seconds_of(HOP_TIME as u64).times(ns(t) as u64 / 1_000_000);
        let seconds = (ns(t) as u64 / 1_000_000) as f64 * 0.96;
        assert_eq!(sample_index(16000, place), (seconds * 16000.0) as u128, "{t}");
    }
}

#[test]
fn candidates_are_searched_around_the_product_of_doubles() {
    let mut score = vec![0.0f64; 40];
    score[11] = 2.0;
    score[24] = 2.0;
    let bits: Vec<u64> = score.iter().map(|v| v.to_bits()).collect();
    let mut samples = vec![5000i16; 16000 * 40];
    for p in [11usize, 24] {
        samples[15360 * p + 3000..15360 * p + 5000].fill(0);
    }
    let found =
        find_candidates(&bits, HOP_TIME, &samples, 1.5f64.to_bits(), 0, 3_000_000_000);
    for (c, p) in found.iter().zip([11i64, 24]) {
        assert_eq!(c.raw, p * HOP_TIME);
        let centre = (p as f64 * 0.96 * 16000.0) as i64;
        let sample = c.snapped / 62_500;
        assert_eq!(c.snapped % 62_500, 0);
        assert_eq!((sample - (centre - 48_000)) % 256, 0);
        assert!(15360 * p + 3000 < sample && sample < 15360 * p + 5000);
    }
    assert_eq!((11.0f64 * 0.96 * 16000.0) as i64, 15360 * 11 - 1);
    assert_eq!(snap_to_energy_minimum(&samples, 0, 7, 9), 7);
}
