use radio_track_splitter::cli::{
    cuts_text, duration_text, minutes_text, parse_scales, seconds_from_text, seconds_text,
    split_points, track_text, writing_text,
};
use radio_track_splitter::pipeline::Candidate;

fn ns(seconds: f64) -> i64 {
    (seconds * 1e9).round() as i64
}

#[test]
fn scales_are_numbers_with_commas() {
    assert_eq!(parse_scales("8,15,25"), Some(vec![ns(8.0), ns(15.0), ns(25.0)]));
    assert_eq!(parse_scales(" 8 , 2.5"), Some(vec![ns(8.0), ns(2.5)]));
    assert_eq!(parse_scales("8, inf"), Some(vec![ns(8.0), i64::MAX]));
    assert_eq!(parse_scales("8,,25"), None);
    assert_eq!(parse_scales("8;15"), None);
    assert_eq!(parse_scales(""), None);
}

#[test]
fn split_points_are_sorted() {
    let c = |raw: i64, snapped: i64| Candidate { raw, score: 0, snapped };
    assert_eq!(split_points(&vec![c(1, 50), c(2, 20), c(3, 70)]), [20, 50, 70]);
}

#[test]
fn numbers_are_rounded_to_the_even_digit() {
    assert_eq!(seconds_text(ns(2.5), 0), "2");
    assert_eq!(seconds_text(ns(3.5), 0), "4");
    assert_eq!(seconds_text(ns(0.25), 1), "0.2");
    assert_eq!(seconds_text(ns(-0.04), 1), "-0.0");
    assert_eq!(seconds_text(ns(-12.3456), 3), "-12.346");
    for seconds in [0.0625, 0.1875, 0.3125, 2.4375, 0.5, 1.5, 59.9996, 12345.25] {
        assert_eq!(seconds_text(ns(seconds), 3), format!("{seconds:.3}"));
        assert_eq!(seconds_text(ns(seconds), 0), format!("{seconds:.0}"));
    }
    assert_eq!(minutes_text(ns(90.0)), "1.5");
    assert_eq!(seconds_from_text(ns(1.0), ns(61.25)), "60.2");
}

#[test]
fn lines_are_laid_out_in_columns() {
    assert_eq!(duration_text(ns(3723.46)), "Duration: 3723.5s (62.1 min)");
    assert_eq!(
        track_text(1, 0, ns(182.5)),
        format!("  track {:2}: {:9.3}s - {:9.3}s  ({:6.1}s)", 1, 0.0, 182.5, 182.5)
    );
    assert_eq!(
        track_text(123, ns(12345.678), ns(12400.0)),
        format!("  track {:2}: {:9.3}s - {:9.3}s  ({:6.1}s)", 123, 12345.678, 12400.0, 12400.0 - 12345.678)
    );
    assert_eq!(
        writing_text("show_track_001.mp3", ns(1.0), ns(61.25)),
        "Writing show_track_001.mp3  [1.0s - 61.2s]  (60.2s)"
    );
    assert_eq!(cuts_text(0), "Using 0 split points -> 1 tracks");
    assert_eq!(cuts_text(9), "Using 9 split points -> 10 tracks");
}
