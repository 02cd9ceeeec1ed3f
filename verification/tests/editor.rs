use radio_track_splitter::editor::{fmt_dur, fmt_time, parse_time, Editor, MIN_GAP, MIN_SPAN};

fn ns(seconds: f64) -> i64 {
    (seconds * 1e9).round() as i64
}

fn editor() -> Editor {
    let mut e = Editor::new(ns(600.0));
    e.set_marks(vec![ns(100.0), ns(200.0), ns(400.0)]);
    e
}

#[test]
fn time_formatting_round_trips() {
    assert_eq!(fmt_time(ns(182.5)), "3:02.500");
    assert_eq!(parse_time("3:02.500"), Some(ns(182.5)));
    assert_eq!(parse_time("182.5"), Some(ns(182.5)));
    assert_eq!(parse_time("1:00:00"), Some(ns(3600.0)));
    assert_eq!(parse_time("abc"), None);
    assert_eq!(fmt_dur(ns(147.0)), "2:27");
}

#[test]
fn markers_cannot_cross_neighbours() {
    let mut e = editor();
    e.move_marker(1, ns(50.0));
    assert_eq!(e.marks[1], ns(100.0) + MIN_GAP);
    e.move_marker(1, ns(1e6));
    assert_eq!(e.marks[1], ns(400.0) - MIN_GAP);
    e.move_marker(2, ns(1e6));
    assert_eq!(e.marks[2], ns(600.0) - MIN_GAP);
}

#[test]
fn nudge_and_selection() {
    let mut e = editor();
    assert!(e.nudge(ns(0.1)));
    assert_eq!(e.marks[0], ns(100.1));
    e.sel = None;
    assert!(!e.nudge(ns(1.0)));
    e.select_relative(1);
    assert_eq!(e.sel, Some(0));
    e.select_relative(5);
    assert_eq!(e.sel, Some(2));
}

#[test]
fn add_near_existing_selects_it() {
    let mut e = editor();
    assert!(!e.add_marker(ns(200.1)));
    assert_eq!(e.sel, Some(1));
    assert!(e.add_marker(ns(300.0)));
    assert_eq!(e.marks, vec![ns(100.0), ns(200.0), ns(300.0), ns(400.0)]);
    assert_eq!(e.sel, Some(2));
}

#[test]
fn delete_keeps_a_valid_selection() {
    let mut e = editor();
    e.sel = Some(2);
    e.delete_selected();
    assert_eq!(e.sel, Some(1));
    e.delete_selected();
    e.delete_selected();
    assert_eq!(e.sel, None);
    assert!(e.marks.is_empty());
}

#[test]
fn zoom_keeps_anchor_fixed() {
    let mut e = editor();
    e.view_start = ns(100.0);
    e.view_span = ns(60.0);
    let anchor = ns(120.0);
    let frac = (anchor - e.view_start) as f64 / e.view_span as f64;
    e.zoom(1, 2, Some(anchor));
    assert_eq!(e.view_span, ns(30.0));
    assert!((e.view_start as f64 + frac * e.view_span as f64 - anchor as f64).abs() < 1.0);
    e.zoom(1_000_000_000, 1, None);
    assert_eq!((e.view_start, e.view_span), (0, ns(600.0)));
}

#[test]
fn view_stays_inside_the_file() {
    let mut e = editor();
    e.center_on(ns(-50.0), Some(ns(60.0)));
    assert_eq!(e.view_start, 0);
    e.center_on(ns(1e6), None);
    assert_eq!(e.view_start + e.view_span, ns(600.0));
}

#[test]
fn a_new_editor_shows_the_first_minute() {
    let e = Editor::new(ns(600.0));
    assert_eq!((e.view_start, e.view_span), (0, ns(60.0)));
    let e = Editor::new(ns(20.0));
    assert_eq!((e.view_start, e.view_span), (0, ns(20.0)));
    let e = Editor::new(ns(0.1));
    assert_eq!((e.view_start, e.view_span), (0, MIN_SPAN));
}

#[test]
fn marks_are_brought_into_the_recording_and_sorted() {
    let mut e = Editor::new(ns(600.0));
    e.set_marks(vec![ns(700.0), ns(300.0), ns(-4.0)]);
    assert_eq!(e.marks, vec![MIN_GAP, ns(300.0), ns(600.0) - MIN_GAP]);
    assert_eq!(e.sel, Some(0));
    e.set_marks(Vec::new());
    assert_eq!(e.sel, None);
}

#[test]
fn bounds_are_the_ends_of_the_tracks() {
    assert_eq!(editor().bounds(), vec![0, ns(100.0), ns(200.0), ns(400.0), ns(600.0)]);
}

#[test]
fn panning_and_showing_everything() {
    let mut e = editor();
    e.pan(ns(10.0));
    assert_eq!((e.view_start, e.view_span), (ns(10.0), ns(60.0)));
    e.pan(ns(-30.0));
    assert_eq!(e.view_start, 0);
    e.zoom_all();
    assert_eq!((e.view_start, e.view_span), (0, ns(600.0)));
}

#[test]
fn selecting_a_mark_shows_it() {
    let mut e = editor();
    e.select_relative(2);
    assert_eq!(e.sel, Some(2));
    assert_eq!((e.view_start, e.view_span), (ns(370.0), ns(60.0)));
    e.select_relative(-100);
    assert_eq!(e.sel, Some(0));
    assert_eq!(e.view_start, ns(70.0));
}

#[test]
fn marks_stay_apart_whatever_is_done() {
    let mut e = editor();
    assert!(e.add_marker(ns(200.3)));
    e.move_marker(1, ns(500.0));
    assert_eq!(e.marks[1], ns(200.3) - MIN_GAP);
    e.delete(0);
    assert_eq!(e.marks, vec![ns(200.25), ns(200.3), ns(400.0)]);
    for pair in e.marks.windows(2) {
        assert!(pair[0] + MIN_GAP <= pair[1]);
    }
    e.delete(7);
    assert_eq!(e.marks.len(), 3);
}

#[test]
fn seconds_round_to_the_even_millisecond() {
    assert_eq!(fmt_time(62_500_000), "0:00.062");
    assert_eq!(fmt_time(187_500_000), "0:00.188");
    for seconds in [0.0625, 0.1875, 0.4375, 33.0625] {
        assert_eq!(fmt_time(ns(seconds)), format!("0:{seconds:06.3}"));
    }
    assert_eq!(fmt_time(-5), "0:00.000");
    assert_eq!(fmt_time(500_000), "0:00.001");
    assert_eq!(fmt_time(ns(3661.0005)), "61:01.001");
    assert_eq!(fmt_time(59_999_700_000), "0:60.000");
}

#[test]
fn lengths_round_to_the_nearest_second() {
    assert_eq!(fmt_dur(ns(59.5)), "1:00");
    assert_eq!(fmt_dur(ns(59.49)), "0:59");
    assert_eq!(fmt_dur(ns(-3.0)), "0:00");
}

#[test]
fn times_are_read_as_decimal_numbers() {
    assert_eq!(parse_time(" 1:03:02.5 "), Some(ns(3782.5)));
    assert_eq!(parse_time("1.5 : 30"), Some(ns(120.0)));
    assert_eq!(parse_time("2e1"), Some(ns(20.0)));
    assert_eq!(parse_time("25E-1"), Some(ns(2.5)));
    assert_eq!(parse_time(".5"), Some(ns(0.5)));
    assert_eq!(parse_time("5."), Some(ns(5.0)));
    assert_eq!(parse_time("-1:30"), Some(ns(-30.0)));
    assert_eq!(parse_time("+7"), Some(ns(7.0)));
    assert_eq!(parse_time("0.0000000019"), Some(1));
    assert_eq!(parse_time("0e999999999999999999999999999999999999"), Some(0));
    assert_eq!(parse_time("1e-999999999999999999999999999999999999"), Some(0));
    assert_eq!(parse_time("100000000000000000000e-20"), Some(ns(1.0)));
    assert_eq!(parse_time("99999999999"), Some(i64::MAX));
    assert_eq!(parse_time("-1e300"), Some(i64::MIN));
    assert_eq!(parse_time("1e12:-6e13"), Some(0));
    assert_eq!(parse_time("1.797e308"), Some(i64::MAX));
    assert_eq!(parse_time("1.7976931348623157e308"), Some(i64::MAX));
    assert_eq!(parse_time("1e11:5"), Some(i64::MAX));
    assert_eq!(parse_time("000000000e308"), Some(0));
}

#[test]
fn what_is_no_time_is_not_read() {
    for text in ["", ".", "e5", "1e", "1:", ":1", "1:x", "1 2", "inf", "-Infinity", "nan", "1.7976931348623159e308", "2e308", "1e308:0", "3e306:0", "-1e308:0", "0x10", "1e309", "1e999", "-1e999", "--1"] {
        assert_eq!(parse_time(text), None, "{text}");
    }
}

#[test]
fn a_written_time_is_read_back_to_the_millisecond() {
    for t in [0, 62_500_000, ns(182.5), 59_999_700_000, ns(86_399.123)] {
        let read = parse_time(&fmt_time(t)).unwrap();
        assert!((read - t).abs() <= 500_000, "{t} {read}");
        assert_eq!(read % 1_000_000, 0);
    }
}
