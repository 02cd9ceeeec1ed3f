use radio_track_splitter::canvas::{ruler_step, ruler_ticks, tick_label, PIXEL};
use radio_track_splitter::editor::{Editor, MIN_GAP};
use radio_track_splitter::saved::{state_path, state_path_in, to_keep, Saved, State};
use radio_track_splitter::session::{
    computing, writing, DetectStep, ExportStep, Key, PlayerStep, Session,
};

const SECOND: i64 = 1_000_000_000;
const WIDTH: u32 = 600 * PIXEL;

fn px(x: i32) -> i32 {
    x * PIXEL as i32
}

fn empty() -> Session {
    Session::new("out".to_string(), true, State::new())
}

/// A recording of ten minutes with marks at 100, 200 and 400 seconds.
fn loaded() -> Session {
    let mut s = empty();
    let marks = vec![100 * SECOND, 200 * SECOND, 400 * SECOND];
    s.state.insert("a.mp3", Saved { marks, out_dir: String::new() });
    assert!(s.on_loaded("a.mp3".to_string(), 600 * SECOND, true) == DetectStep::Nothing);
    s.ed.zoom_all();
    s
}

#[test]
fn a_session_begins_without_a_recording() {
    let mut s = empty();
    assert_eq!(s.status_text(), "Open a recording to begin.");
    assert_eq!(s.press(Key::Space, false, false, false), PlayerStep::Nothing);
    s.add_marker(5);
    s.delete_selected();
    assert!(!s.dirty);
    assert_eq!(s.auto_detect(false, true), DetectStep::Nothing);
    assert!(matches!(s.export(0, true), ExportStep::Nothing));
    assert!(!s.save_now());
    s.nudge(5);
    assert_eq!(s.status, "Select a split point first.");
}

#[test]
fn opening_needs_the_tools_and_no_other_job() {
    let mut s = empty();
    assert!(!s.open(Some("ffmpeg not found".to_string())));
    assert!(s.status_is_error);
    assert_eq!(s.status_text(), "ffmpeg not found");
    assert!(s.open(None));
    assert_eq!(s.busy.as_deref(), Some("Decoding audio..."));
    assert!(!s.open(None));
    assert_eq!(s.auto_detect(false, true), DetectStep::Nothing);
    s.on_failed("broken");
    assert_eq!((s.status.as_str(), s.status_is_error, s.busy.is_none()), ("Error: broken", true, true));
}

#[test]
fn an_unknown_recording_is_searched_for_split_points() {
    let mut s = empty();
    assert_eq!(s.on_loaded("b.mp3".to_string(), 600 * SECOND, true), DetectStep::Start);
    assert_eq!(
        s.busy.as_deref(),
        Some("Detecting track changes (first run computes the neural embeddings)...")
    );
    s.set_status(&computing(3, 7), false);
    assert_eq!(s.status_text(), "Computing neural embeddings 3/7...");
    s.on_detected(vec![300 * SECOND, 100 * SECOND]);
    assert_eq!(s.status, "Auto-detected 2 split points -> 3 tracks.");
    assert_eq!(s.ed.marks, [100 * SECOND, 300 * SECOND]);
    assert_eq!((s.ed.view_start, s.ed.view_span), (85 * SECOND, 30 * SECOND));
    assert!(s.dirty && s.busy.is_none());
    let mut s = empty();
    assert_eq!(s.on_loaded("b.mp3".to_string(), SECOND, false), DetectStep::Nothing);
    assert_eq!(s.status, "Sensitivity and min track length must be numbers.");
}

#[test]
fn split_points_are_replaced_after_a_question() {
    let mut s = loaded();
    assert_eq!(s.auto_detect(true, true), DetectStep::Confirm);
    assert!(s.busy.is_none());
    assert_eq!(s.auto_detect(false, true), DetectStep::Start);
    let mut s = loaded();
    s.ed.set_marks(Vec::new());
    assert_eq!(s.auto_detect(true, true), DetectStep::Start);
}

#[test]
fn what_was_kept_is_loaded() {
    let mut s = loaded();
    assert_eq!(s.status, "Loaded 3 saved split points. Press Auto-detect to start over.");
    assert_eq!(s.out_dir, "out");
    s.ed.marks[0] = 100_000_499_999;
    s.choose_folder("elsewhere");
    assert!(s.save_due());
    assert!(s.save_now());
    assert!(!s.dirty);
    let mut later = Session::new("out".to_string(), true, s.state);
    assert_eq!(later.on_loaded("a.mp3".to_string(), 600 * SECOND, true), DetectStep::Nothing);
    assert_eq!(later.ed.marks, [100 * SECOND, 200 * SECOND, 400 * SECOND]);
    assert_eq!(later.out_dir, "elsewhere");
}

#[test]
fn odd_marks_come_back_rounded_inside_and_in_order() {
    let mut s = loaded();
    s.ed.marks = vec![300 * SECOND + 1_600_000, 700 * SECOND, 5];
    assert!(s.save_now());
    let mut later = Session::new("out".to_string(), true, s.state);
    later.on_loaded("a.mp3".to_string(), 600 * SECOND, true);
    assert_eq!(later.ed.marks, [MIN_GAP, 300 * SECOND + 2_000_000, 600 * SECOND - MIN_GAP]);
}

#[test]
fn marks_are_kept_to_the_millisecond() {
    let kept = to_keep(&vec![1_499_999, 1_500_000, -1_500_000, -1_499_999, 0], "d");
    assert_eq!(kept.marks, [1_000_000, 2_000_000, -2_000_000, -1_000_000, 0]);
    assert_eq!(kept.out_dir, "d");
}

#[test]
fn what_is_kept_is_found_by_its_path() {
    let mut s = State::new();
    assert!(s.get("a").is_none());
    s.insert("a", Saved { marks: vec![1], out_dir: "x".to_string() });
    s.insert("b", Saved { marks: vec![2], out_dir: "y".to_string() });
    s.insert("a", Saved { marks: vec![3, 4], out_dir: "z".to_string() });
    assert_eq!(s.entries.len(), 2);
    let a = s.get("a").unwrap();
    assert_eq!((a.marks, a.out_dir), (vec![3, 4], "z".to_string()));
    assert_eq!(s.get("b").unwrap().marks, [2]);
    assert!(s.get("c").is_none());
}

#[test]
fn the_state_is_kept_in_the_folder_of_the_user() {
    let text = |s: &str| Some(s.to_string());
    let t = || "tmp".to_string();
    assert_eq!(state_path_in("d", text("local"), text("home"), t()), ["local", "d", "gui_state.json"]);
    assert_eq!(state_path_in("d", None, text("home"), t()), ["home", ".cache", "d", "gui_state.json"]);
    assert_eq!(state_path_in("d", None, None, t()), ["tmp", "d", "gui_state.json"]);
    assert_eq!(state_path(None, None, t()), ["tmp", "radio-track-splitter", "gui_state.json"]);
}

#[test]
fn exporting_asks_before_it_overwrites() {
    let mut s = loaded();
    s.input = Some(r"C:\rec\show.flac".to_string());
    match s.export(2, false) {
        ExportStep::Confirm(q) => assert_eq!(
            q,
            "out already contains 2 files named show_track_*.flac.\n\
             Files with the same names are overwritten and any extra old ones stay.\n\nContinue?"
        ),
        _ => panic!("not asked"),
    }
    assert!(s.busy.is_none());
    assert!(matches!(s.export(2, true), ExportStep::Start));
    assert_eq!(s.busy.as_deref(), Some("Exporting..."));
    assert!(s.state.get(r"C:\rec\show.flac").is_some());
    assert!(matches!(s.export(0, true), ExportStep::Nothing));
    s.set_status(&writing("show_track_001.flac", 1, 4), false);
    assert_eq!(s.status_text(), "Writing show_track_001.flac (1/4)");
    s.on_exported(4, "out");
    assert_eq!(s.status_text(), "Exported 4 tracks to out   |   3 split points -> 4 tracks");
    assert!(matches!(s.export(0, false), ExportStep::Start));
}

#[test]
fn keys_edit_and_play() {
    let mut s = loaded();
    assert_eq!(s.press(Key::Right, false, false, false), PlayerStep::Nothing);
    assert_eq!(s.ed.marks[0], 100 * SECOND + SECOND / 10);
    s.press(Key::Left, true, false, false);
    s.press(Key::Right, false, true, false);
    assert_eq!(s.ed.marks[0], 99 * SECOND + SECOND / 10 + SECOND / 100);
    assert!(s.dirty);
    s.press(Key::Down, false, false, false);
    assert_eq!(s.ed.sel, Some(1));
    assert_eq!(
        s.press(Key::P, false, false, false),
        PlayerStep::Play { start: 197 * SECOND, duration: Some(6 * SECOND) }
    );
    s.press(Key::Up, false, false, false);
    s.press(Key::Delete, false, false, false);
    assert_eq!(s.ed.marks, [200 * SECOND, 400 * SECOND]);
    s.ed.playhead = 300 * SECOND;
    assert_eq!(
        s.press(Key::Space, false, false, false),
        PlayerStep::Play { start: 300 * SECOND, duration: None }
    );
    assert_eq!(s.press(Key::Space, false, false, true), PlayerStep::Stop);
    s.press(Key::A, false, false, false);
    assert_eq!(s.ed.marks, [200 * SECOND, 300 * SECOND, 400 * SECOND]);
}

#[test]
fn playing_needs_a_player() {
    let mut s = loaded();
    s.has_ffplay = false;
    assert_eq!(s.play(0, None), PlayerStep::Nothing);
    assert_eq!(s.status_text(), "ffplay not found on PATH; playback unavailable.");
    s.has_ffplay = true;
    s.on_play_failed("no");
    assert_eq!(s.status, "Could not start ffplay: no");
    s.ed.sel = None;
    assert_eq!(s.listen_to_cut(), PlayerStep::Nothing);
    assert_eq!(s.status, "Select a split point first.");
    s.ed.sel = Some(0);
    s.ed.marks[0] = SECOND;
    assert_eq!(s.listen_to_cut(), PlayerStep::Play { start: 0, duration: Some(6 * SECOND) });
}

#[test]
fn a_time_is_typed() {
    let mut s = loaded();
    s.show_time();
    assert_eq!(s.time_text, "1:40.000");
    s.time_focus = true;
    s.time_text = "1:50".to_string();
    s.show_time();
    assert_eq!(s.time_text, "1:50");
    s.set_time();
    assert_eq!(s.ed.marks[0], 110 * SECOND);
    assert!(s.dirty && !s.time_focus);
    s.time_text = "soon".to_string();
    s.set_time();
    assert_eq!(s.status, "Could not parse time. Use m:ss.mmm or seconds.");
    s.ed.sel = None;
    s.show_time();
    assert_eq!(s.time_text, "");
}

#[test]
fn marks_are_dragged() {
    let mut s = loaded();
    s.drag_start(Some(px(205)), WIDTH);
    assert_eq!((s.drag, s.ed.sel), (Some(1), Some(1)));
    s.dragged(Some(px(250)), px(45), WIDTH);
    assert_eq!(s.ed.marks[1], 250 * SECOND);
    assert!(s.dirty && !s.save_due());
    s.dragged(Some(px(10)), px(-240), WIDTH);
    assert_eq!(s.ed.marks[1], 100 * SECOND + MIN_GAP);
    s.drag_stop();
    assert!(s.save_due());
}

#[test]
fn empty_places_are_dragged_to_pan() {
    let mut s = loaded();
    s.ed.center_on(300 * SECOND, Some(60 * SECOND));
    s.drag_start(Some(px(300)), WIDTH);
    assert_eq!(s.drag, None);
    s.dragged(Some(px(310)), px(10), WIDTH);
    assert_eq!(s.ed.view_start, 269 * SECOND);
    assert!(!s.dirty);
    s.wheel_pan(px(50));
    assert_eq!(s.ed.view_start, 260 * SECOND);
    s.wheel_zoom(1, 2, px(300), WIDTH);
    assert_eq!((s.ed.view_start, s.ed.view_span), (275 * SECOND, 30 * SECOND));
}

#[test]
fn clicks_select_add_and_delete() {
    let mut s = loaded();
    s.click(px(393), WIDTH);
    assert_eq!(s.ed.sel, Some(2));
    s.click(px(392), WIDTH);
    assert_eq!((s.ed.sel, s.ed.playhead), (Some(2), 392 * SECOND));
    s.click(px(-40), WIDTH);
    assert_eq!(s.ed.playhead, 0);
    s.double_click(px(200), WIDTH);
    assert_eq!(s.ed.marks.len(), 3);
    s.double_click(px(300), WIDTH);
    assert_eq!(s.ed.marks, [100 * SECOND, 200 * SECOND, 300 * SECOND, 400 * SECOND]);
    s.secondary_click(px(310), WIDTH);
    assert_eq!(s.ed.marks.len(), 3);
    s.secondary_click(px(311), WIDTH);
    assert_eq!(s.ed.marks.len(), 3);
}

#[test]
fn the_nearest_mark_is_hit() {
    let mut e = Editor::new(600 * SECOND);
    e.zoom_all();
    e.set_marks(vec![100 * SECOND, 104 * SECOND, 108 * SECOND]);
    assert_eq!(e.hit_marker(px(105), WIDTH, 7 * PIXEL), Some(1));
    assert_eq!(e.hit_marker(px(102), WIDTH, 7 * PIXEL), Some(0));
    assert_eq!(e.hit_marker(px(115), WIDTH, 7 * PIXEL), Some(2));
    assert_eq!(e.hit_marker(px(115) + 1, WIDTH, 7 * PIXEL), None);
    assert_eq!(e.time_at(px(150), WIDTH), 150 * SECOND);
    assert_eq!(e.time_at(px(-1), WIDTH), -SECOND);
}

#[test]
fn the_overview_is_clicked() {
    let mut s = loaded();
    s.ed.center_on(0, Some(60 * SECOND));
    s.jump(px(300), WIDTH);
    assert_eq!(s.ed.view_start, 270 * SECOND);
    s.jump(px(900), WIDTH);
    assert_eq!(s.ed.view_start, 540 * SECOND);
    s.jump(px(-5), WIDTH);
    assert_eq!(s.ed.view_start, 0);
}

#[test]
fn the_playhead_follows_the_player() {
    let mut s = loaded();
    s.ed.center_on(0, Some(60 * SECOND));
    s.follow(10 * SECOND, SECOND / 5);
    assert_eq!((s.ed.playhead, s.ed.view_start), (10 * SECOND, 0));
    s.follow(10 * SECOND, 100 * SECOND);
    assert_eq!(s.ed.playhead, 109 * SECOND + 3 * SECOND / 4);
    assert_eq!(s.ed.view_start, 79 * SECOND + 3 * SECOND / 4);
    s.follow(590 * SECOND, 100 * SECOND);
    assert_eq!(s.ed.playhead, 600 * SECOND);
}

#[test]
fn the_selected_cut_is_snapped_to_silence() {
    let mut s = loaded();
    let mut samples = vec![9000i16; 16000 * 120];
    samples[16000 * 101..16000 * 101 + 2048].fill(0);
    s.snap_selected(&samples);
    assert!((s.ed.marks[0] - 101_064_000_000).abs() < 50_000_000);
    assert!(s.dirty);
    s.ed.sel = None;
    let before = s.ed.marks.clone();
    s.snap_selected(&samples);
    assert_eq!(s.ed.marks, before);
}

#[test]
fn split_points_are_listed() {
    let mut s = loaded();
    assert_eq!(
        s.row(0),
        format!("{:>2}    {:<13}  {:<13}  {}", 1, "1:40.000", "1:40", "1:40")
    );
    assert_eq!(
        s.row(2),
        format!("{:>2}    {:<13}  {:<13}  {}", 3, "6:40.000", "3:20", "3:20")
    );
    s.select(2);
    assert_eq!(s.ed.sel, Some(2));
    s.show_cut();
    assert_eq!((s.ed.view_start, s.ed.view_span), (395 * SECOND, 10 * SECOND));
}

#[test]
fn tracks_are_labelled() {
    let mut e = Editor::new(600 * SECOND);
    e.set_marks(vec![100 * SECOND]);
    assert_eq!(e.track(0), (0, 100 * SECOND));
    assert_eq!(e.track(1), (100 * SECOND, 600 * SECOND));
    assert_eq!(e.track_label(1), "Track 2  (8:20)");
    e.center_on(300 * SECOND, None);
    assert!(!e.track_is_shown(0));
    assert!(e.track_is_shown(1));
}

#[test]
fn the_ruler_has_room_for_its_labels() {
    assert_eq!(ruler_step(900 * PIXEL, 60 * SECOND), 10 * SECOND);
    assert_eq!(ruler_step(900 * PIXEL, 10 * SECOND), SECOND);
    assert_eq!(ruler_step(900 * PIXEL, 10 * SECOND + 1), 2 * SECOND);
    assert_eq!(ruler_step(10 * PIXEL, 100_000 * SECOND), 1800 * SECOND);
    assert_eq!(ruler_ticks(3, 25, 10), [10, 20]);
    assert_eq!(ruler_ticks(10, 10, 10), [10, 20]);
    assert_eq!(ruler_ticks(11, 5, 10), Vec::<i64>::new());
    assert_eq!(tick_label(SECOND / 2, 61 * SECOND + SECOND / 2), "1:01.500");
    assert_eq!(tick_label(SECOND, 61 * SECOND), "1:01");
}

#[test]
fn the_title_and_the_dialog() {
    let mut s = loaded();
    assert_eq!(s.new_title().as_deref(), Some("Radio Track Splitter - a.mp3"));
    assert_eq!(s.new_title(), None);
    s.open_about();
    s.open_about();
    assert_eq!((s.about_open, s.about_serial), (true, 1));
    s.close_about();
    s.open_about();
    assert_eq!(s.about_serial, 2);
}
