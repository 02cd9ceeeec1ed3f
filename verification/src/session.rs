//! What the editing window does: every press of a button, every key, every movement of the
//! pointer and every message of a background job changes the session in a definite way, and
//! may ask for something to be done outside.

use crate::audio::{default_prefix, output_extension, prefix_of, track_extension};
use crate::canvas::{
    law_a_mark_is_hit_where_it_is_drawn, law_the_time_at_a_position_is_drawn_there, PIXEL,
};
use crate::detect::{snap_to_energy_minimum, snapped};
use crate::editor::{
    as_i64, as_time, clamped, floor_div, fmt_dur, fmt_time, inside,
    law_setting_marks_keeps_all_of_them, parse_time, Editor, EditorView,
};
use crate::order::{in_order, lemma_in_order, lemma_in_order_is_unique, sorted};
use crate::pipeline::SAMPLE_RATE;
use crate::saved::{
    kept, law_kept_marks_are_whole_milliseconds, law_kept_marks_stay, lemma_whole_milliseconds,
    to_keep, to_millisecond, SavedView, State,
};
use crate::text::{decimal, left_aligned, push_large, push_left, push_right, right_aligned};
use crate::times::{duration_text, law_reading_gives_what_was_written, text_time, time_text};
use crate::title::{title_for, title_update, APP_NAME};
use vstd::prelude::*;

verus! {

/// How far from a mark it is dragged or selected: seven pixels.
pub const HIT_TOLERANCE: u32 = 1792;

/// How far from a mark it is deleted: ten pixels.
pub const DELETE_TOLERANCE: u32 = 2560;

/// What is shown around a split point that was loaded or found.
pub const LOADED_SPAN: i64 = 30_000_000_000;

/// What is shown around the selected split point when it is asked for.
pub const CLOSE_SPAN: i64 = 10_000_000_000;

/// How far a quiet spot is searched from the selected split point.
pub const SNAP_WINDOW: i64 = 1_500_000_000;

/// What is played before a cut.
pub const LEAD: i64 = 3_000_000_000;

/// What is played around a cut.
pub const CUT_SPAN: i64 = 6_000_000_000;

/// What the player needs until it is heard.
pub const START_DELAY: i64 = 250_000_000;

/// The state of the editing window.
pub struct Session {
    pub ed: Editor,
    /// The path of the recording.
    pub input: Option<String>,
    /// What is being done in the background.
    pub busy: Option<String>,
    pub status: String,
    pub status_is_error: bool,
    /// The folder for the tracks.
    pub out_dir: String,
    /// What stands in the field for the time of the selected split point.
    pub time_text: String,
    /// Whether that field is being typed in.
    pub time_focus: bool,
    /// The mark that is being dragged.
    pub drag: Option<usize>,
    pub has_ffplay: bool,
    /// What is kept of all recordings.
    pub state: State,
    /// Whether there is something to keep.
    pub dirty: bool,
    pub about_open: bool,
    /// Counts how often the dialog about the program was opened.
    pub about_serial: u32,
    /// The title that the window has.
    pub title: String,
}

/// The contents of a session.
pub ghost struct SessionView {
    pub ed: EditorView,
    pub input: Option<Seq<char>>,
    pub busy: Option<Seq<char>>,
    pub status: Seq<char>,
    pub status_is_error: bool,
    pub out_dir: Seq<char>,
    pub time_text: Seq<char>,
    pub time_focus: bool,
    pub drag: Option<usize>,
    pub has_ffplay: bool,
    pub state: Map<Seq<char>, SavedView>,
    pub dirty: bool,
    pub about_open: bool,
    pub about_serial: u32,
    pub title: Seq<char>,
}

/// The characters of a text that may be there.
pub open spec fn maybe(s: Option<String>) -> Option<Seq<char>> {
    match s {
        Some(s) => Some(s@),
        None => None,
    }
}

impl View for Session {
    type V = SessionView;

    open spec fn view(&self) -> SessionView {
        SessionView {
            ed: self.ed@,
            input: maybe(self.input),
            busy: maybe(self.busy),
            status: self.status@,
            status_is_error: self.status_is_error,
            out_dir: self.out_dir@,
            time_text: self.time_text@,
            time_focus: self.time_focus,
            drag: self.drag,
            has_ffplay: self.has_ffplay,
            state: self.state@,
            dirty: self.dirty,
            about_open: self.about_open,
            about_serial: self.about_serial,
            title: self.title@,
        }
    }
}

/// What is to be done about the detection of split points.
#[derive(Debug, Clone, Copy, PartialEq, Eq, Structural)]
pub enum DetectStep {
    Nothing,
    /// The user is to be asked whether the split points may be replaced.
    Confirm,
    /// The detection is to be started.
    Start,
}

/// What is to be done about an export.
pub enum ExportStep {
    Nothing,
    /// The user is to be asked this.
    Confirm(String),
    /// What is kept is to be written, and the export is to be started.
    Start,
}

/// What is to be done about the player.
#[derive(Debug, Clone, Copy, PartialEq, Eq, Structural)]
pub enum PlayerStep {
    Nothing,
    Stop,
    /// What begins at `start` is to be played, to the end or for a length of time.
    Play { start: i64, duration: Option<i64> },
}

/// A key that the window knows.
#[derive(Debug, Clone, Copy, PartialEq, Eq, Structural)]
pub enum Key {
    Space,
    Left,
    Right,
    Up,
    Down,
    Delete,
    A,
    P,
}

// ---------- texts ----------

/// How many split points were loaded.
pub open spec fn loaded_text(n: nat) -> Seq<char> {
    "Loaded "@ + decimal(n) + " saved split points. Press Auto-detect to start over."@
}

/// How many split points were found.
pub open spec fn detected_text(n: nat) -> Seq<char> {
    "Auto-detected "@ + decimal(n) + " split points -> "@ + decimal(n + 1) + " tracks."@
}

/// How many tracks were written, and where.
pub open spec fn exported_text(n: nat, out: Seq<char>) -> Seq<char> {
    "Exported "@ + decimal(n) + " tracks to "@ + out
}

/// Whether files that are there may be overwritten.
pub open spec fn export_question(
    out: Seq<char>,
    existing: nat,
    prefix: Seq<char>,
    ext: Seq<char>,
) -> Seq<char> {
    out + " already contains "@ + decimal(existing) + " files named "@ + prefix + "*."@ + ext
        + ".\nFiles with the same names are overwritten and any extra old ones stay.\n\nContinue?"@
}

/// How far the computation of the embeddings is.
pub open spec fn computing_text(done: nat, total: nat) -> Seq<char> {
    "Computing neural embeddings "@ + decimal(done) + "/"@ + decimal(total) + "..."@
}

/// Which track is being written.
pub open spec fn writing_text(name: Seq<char>, i: nat, n: nat) -> Seq<char> {
    "Writing "@ + name + " ("@ + decimal(i) + "/"@ + decimal(n) + ")"@
}

/// Says how far the computation of the embeddings is.
pub fn computing(done: usize, total: usize) -> (r: String)
    ensures
        r@ == computing_text(done as nat, total as nat),
{
    let mut r: String = "Computing neural embeddings ".to_owned();
    push_large(&mut r, done as u128);
    r.append("/");
    push_large(&mut r, total as u128);
    r.append("...");
    r
}

/// Says which track is being written.
pub fn writing(name: &str, i: usize, n: usize) -> (r: String)
    ensures
        r@ == writing_text(name@, i as nat, n as nat),
{
    let mut r: String = "Writing ".to_owned();
    r.append(name);
    r.append(" (");
    push_large(&mut r, i as u128);
    r.append("/");
    push_large(&mut r, n as u128);
    r.append(")");
    r
}

// ---------- what happens ----------

/// What is played around a cut at `t`.
pub open spec fn cut_start(t: int) -> int {
    if t < LEAD {
        0
    } else {
        t - LEAD
    }
}

/// Where the player is: from where it started, less what it needs to be heard.
pub open spec fn player_position(from: int, elapsed: int) -> int {
    if elapsed < START_DELAY {
        as_time(from)
    } else {
        as_time(from + elapsed - START_DELAY)
    }
}

impl EditorView {
    /// With what is around the selected mark shown.
    pub open spec fn around_selected(self, span: i64) -> Self {
        match self.sel {
            Some(i) => self.centered(self.marks[i as int] as int, Some(span)),
            None => self,
        }
    }
}

impl SessionView {
    /// Whether the selected mark is there.
    pub open spec fn valid(self) -> bool {
        self.ed.selection_valid() && self.ed.view_valid()
    }

    /// Whether the mark that is being dragged is there.
    pub open spec fn drag_valid(self) -> bool {
        self.drag matches Some(i) ==> i < self.ed.marks.len()
    }

    /// With a message.
    pub open spec fn saying(self, text: Seq<char>, error: bool) -> Self {
        SessionView { status: text, status_is_error: error, ..self }
    }

    /// With an edit that is to be kept.
    pub open spec fn edited(self, ed: EditorView) -> Self {
        SessionView { ed, dirty: true, ..self }
    }

    /// With another state of the editor that is not kept.
    pub open spec fn viewing(self, ed: EditorView) -> Self {
        SessionView { ed, ..self }
    }

    /// After a recording was asked for.
    pub open spec fn opening(self, tool_error: Option<Seq<char>>) -> Self {
        if self.busy is Some {
            self
        } else {
            match tool_error {
                Some(e) => self.saying(e, true),
                None => SessionView { busy: Some("Decoding audio..."@), ..self },
            }
        }
    }

    /// What detecting split points begins with.
    pub open spec fn detect_step(self, ask: bool, numbers: bool) -> DetectStep {
        if self.input is None || self.busy is Some || !numbers {
            DetectStep::Nothing
        } else if ask && self.ed.marks.len() > 0 {
            DetectStep::Confirm
        } else {
            DetectStep::Start
        }
    }

    /// After detecting split points was asked for.
    pub open spec fn detecting(self, ask: bool, numbers: bool) -> Self {
        if self.input is None || self.busy is Some {
            self
        } else if !numbers {
            self.saying("Sensitivity and min track length must be numbers."@, true)
        } else if self.detect_step(ask, numbers) == DetectStep::Start {
            SessionView {
                busy: Some(
                    "Detecting track changes (first run computes the neural embeddings)..."@,
                ),
                ..self
            }
        } else {
            self
        }
    }

    /// With another recording, of which nothing is known yet.
    pub open spec fn with_recording(self, input: Seq<char>, duration: i64) -> Self {
        SessionView { ed: EditorView::fresh(duration), input: Some(input), busy: None, ..self }
    }

    /// After a recording was loaded: with what was kept of it, or with the detection begun.
    pub open spec fn loaded(self, input: Seq<char>, duration: i64, numbers: bool) -> Self {
        let fresh = self.with_recording(input, duration);
        if self.state.dom().contains(input) {
            let saved = self.state[input];
            let ed = fresh.ed.with_marks(saved.marks);
            SessionView {
                ed: ed.around_selected(LOADED_SPAN),
                out_dir: if saved.out_dir.len() == 0 {
                    self.out_dir
                } else {
                    saved.out_dir
                },
                ..fresh
            }.saying(loaded_text(saved.marks.len()), false)
        } else {
            fresh.detecting(false, numbers)
        }
    }

    /// After split points were detected.
    pub open spec fn detected(self, points: Seq<i64>) -> Self {
        SessionView {
            ed: self.ed.with_marks(points).around_selected(LOADED_SPAN),
            busy: None,
            dirty: true,
            ..self
        }.saying(detected_text(points.len()), false)
    }

    /// After tracks were written.
    pub open spec fn exported(self, n: nat, out: Seq<char>) -> Self {
        SessionView { busy: None, ..self }.saying(exported_text(n, out), false)
    }

    /// After a background job failed.
    pub open spec fn failed(self, e: Seq<char>) -> Self {
        SessionView { busy: None, ..self }.saying("Error: "@ + e, true)
    }

    /// After what is known of the recording was kept.
    pub open spec fn kept(self) -> Self {
        match self.input {
            Some(input) => SessionView {
                state: self.state.insert(input, kept(self.ed.marks, self.out_dir)),
                dirty: false,
                ..self
            },
            None => SessionView { dirty: false, ..self },
        }
    }

    /// After the selected mark was moved by `delta`.
    pub open spec fn nudged(self, delta: int) -> Self {
        if self.ed.sel is Some {
            self.edited(self.ed.nudged(delta))
        } else {
            self.saying("Select a split point first."@, false)
        }
    }

    /// After a mark was added.
    pub open spec fn with_added(self, t: int) -> Self {
        if self.input is None {
            self
        } else if self.ed.beside(t) is None {
            self.edited(self.ed.with_added(t))
        } else {
            self.viewing(self.ed.with_added(t))
        }
    }

    /// After the selected mark was deleted.
    pub open spec fn without_selected(self) -> Self {
        if self.ed.sel is Some {
            self.edited(self.ed.without_selected())
        } else {
            self
        }
    }

    /// What playing begins with.
    pub open spec fn play_step(self, start: i64, duration: Option<i64>) -> PlayerStep {
        if self.input is Some && self.has_ffplay {
            PlayerStep::Play { start, duration }
        } else {
            PlayerStep::Nothing
        }
    }

    /// After playing was asked for.
    pub open spec fn playing(self) -> Self {
        if self.input is Some && !self.has_ffplay {
            self.saying("ffplay not found on PATH; playback unavailable."@, true)
        } else {
            self
        }
    }

    /// What listening to the cut begins with.
    pub open spec fn listen_step(self) -> PlayerStep {
        match self.ed.sel {
            Some(i) => self.play_step(
                cut_start(self.ed.marks[i as int] as int) as i64,
                Some(CUT_SPAN),
            ),
            None => PlayerStep::Nothing,
        }
    }

    /// After listening to the cut was asked for.
    pub open spec fn listening(self) -> Self {
        if self.ed.sel is Some {
            self.playing()
        } else {
            self.saying("Select a split point first."@, false)
        }
    }

    /// What a key asks for, where `busy` says whether the player is.
    pub open spec fn key_step(self, key: Key, player_busy: bool) -> PlayerStep {
        if self.input is None {
            PlayerStep::Nothing
        } else {
            match key {
                Key::Space => if player_busy {
                    PlayerStep::Stop
                } else {
                    self.play_step(self.ed.playhead, None)
                },
                Key::P => self.listen_step(),
                _ => PlayerStep::Nothing,
            }
        }
    }

    /// How far an arrow key moves the selected mark.
    pub open spec fn key_distance(shift: bool, ctrl: bool) -> int {
        if shift {
            1_000_000_000
        } else if ctrl {
            10_000_000
        } else {
            100_000_000
        }
    }

    /// After a key was pressed.
    pub open spec fn pressed(self, key: Key, shift: bool, ctrl: bool, player_busy: bool) -> Self {
        if self.input is None {
            self
        } else {
            match key {
                Key::Space => if player_busy {
                    self
                } else {
                    self.playing()
                },
                Key::Left => self.nudged(-Self::key_distance(shift, ctrl)),
                Key::Right => self.nudged(Self::key_distance(shift, ctrl)),
                Key::Up => self.viewing(self.ed.selecting(-1)),
                Key::Down => self.viewing(self.ed.selecting(1)),
                Key::Delete => self.without_selected(),
                Key::A => self.with_added(self.ed.playhead as int),
                Key::P => self.listening(),
            }
        }
    }

    /// After the time that was typed was set.
    pub open spec fn time_set(self) -> Self {
        let done = SessionView { time_focus: false, ..self };
        match (text_time(self.time_text), self.ed.sel) {
            (Some(t), Some(i)) => done.edited(self.ed.with_moved(i as int, t)),
            (None, _) => done.saying("Could not parse time. Use m:ss.mmm or seconds."@, true),
            _ => done,
        }
    }

    /// With the time of the selected mark in its field, unless it is being typed in.
    pub open spec fn time_shown(self) -> Self {
        if self.time_focus {
            self
        } else {
            SessionView {
                time_text: match self.ed.sel {
                    Some(i) => time_text(self.ed.marks[i as int] as int),
                    None => Seq::empty(),
                },
                ..self
            }
        }
    }

    /// After a drag began at a position.
    pub open spec fn drag_started(self, at: Option<i32>, width: int) -> Self {
        let drag = match at {
            Some(p) => self.ed.hit_at(p as int, width, HIT_TOLERANCE as int),
            None => None,
        };
        match drag {
            Some(i) => SessionView { ed: EditorView { sel: Some(i), ..self.ed }, drag, ..self },
            None => SessionView { drag, ..self },
        }
    }

    /// After the pointer was dragged to a position, by `delta`.
    pub open spec fn dragged(self, at: Option<i32>, delta: int, width: int) -> Self {
        match (self.drag, at) {
            (Some(i), Some(p)) => self.edited(
                self.ed.with_moved(i as int, self.ed.time_at(p as int, width)),
            ),
            (None, _) => self.viewing(
                self.ed.showing(
                    self.ed.view_start + as_time((-delta) * self.ed.view_span / width),
                    self.ed.view_span as int,
                ),
            ),
            _ => self,
        }
    }

    /// After a click at a position.
    pub open spec fn clicked(self, at: int, width: int) -> Self {
        match self.ed.hit_at(at, width, HIT_TOLERANCE as int) {
            Some(i) => self.viewing(EditorView { sel: Some(i), ..self.ed }),
            None => self.viewing(
                EditorView {
                    playhead: clamped(self.ed.time_at(at, width), 0, self.ed.duration as int) as i64,
                    ..self.ed
                },
            ),
        }
    }

    /// After a double click at a position.
    pub open spec fn double_clicked(self, at: int, width: int) -> Self {
        if self.ed.hit_at(at, width, HIT_TOLERANCE as int) is Some {
            self
        } else {
            self.with_added(self.ed.time_at(at, width))
        }
    }

    /// After a click with the other button at a position.
    pub open spec fn secondary_clicked(self, at: int, width: int) -> Self {
        match self.ed.hit_at(at, width, DELETE_TOLERANCE as int) {
            Some(i) => self.edited(self.ed.without(i as int)),
            None => self,
        }
    }

    /// After the wheel was turned by `amount` with the shift key: fifty pixels are 15 of 100
    /// parts of what is shown.
    pub open spec fn wheel_panned(self, amount: int) -> Self {
        self.viewing(
            self.ed.showing(
                self.ed.view_start + as_time(
                    (-amount) * 3 * self.ed.view_span / (1000 * PIXEL as int),
                ),
                self.ed.view_span as int,
            ),
        )
    }

    /// After the wheel was turned at a position: what is shown becomes `num / den` as long.
    pub open spec fn wheel_zoomed(self, num: int, den: int, at: int, width: int) -> Self {
        self.viewing(self.ed.zoomed(num, den, Some(self.ed.time_at(at, width) as i64)))
    }

    /// After a click or a drag on the bar that shows the whole recording.
    pub open spec fn jumped(self, at: int, width: int) -> Self {
        self.viewing(self.ed.centered(clamped(at, 0, width) * self.ed.duration / width, None))
    }

    /// While the player is on its way.
    pub open spec fn followed(self, from: int, elapsed: int) -> Self {
        let playhead = clamped(player_position(from, elapsed), 0, self.ed.duration as int) as i64;
        let ed = EditorView { playhead, ..self.ed };
        if ed.shows(playhead as int) {
            self.viewing(ed)
        } else {
            self.viewing(ed.centered(playhead as int, None))
        }
    }

    /// What the line at the bottom says.
    pub open spec fn status_line(self) -> Seq<char> {
        match self.busy {
            Some(busy) => if self.status.len() == 0 {
                busy
            } else {
                self.status
            },
            None => if self.input is Some && !self.status_is_error {
                self.status + "   |   "@ + decimal(self.ed.marks.len()) + " split points -> "@
                    + decimal(self.ed.marks.len() + 1) + " tracks"@
            } else {
                self.status
            },
        }
    }

    /// The line for mark `i` in the list of split points.
    pub open spec fn row(self, i: int) -> Seq<char> {
        let b = self.ed.bounds();
        right_aligned(decimal((i + 1) as nat), 2) + "    "@ + left_aligned(
            time_text(self.ed.marks[i] as int),
            13,
        ) + "  "@ + left_aligned(duration_text(as_time(b[i + 1] - b[i])), 13) + "  "@
            + duration_text(as_time(b[i + 2] - b[i + 1]))
    }
}

impl Session {
    /// Whether the selected mark is there, what is shown can be shown, and what is kept is in
    /// order.
    pub open spec fn valid(&self) -> bool {
        self@.valid() && self.state.valid()
    }

    /// A session without a recording.
    pub fn new(out_dir: String, has_ffplay: bool, state: State) -> (r: Self)
        requires
            state.valid(),
        ensures
            r.valid(),
            r@ == (SessionView {
                ed: EditorView::fresh(0),
                input: None,
                busy: None,
                status: "Open a recording to begin."@,
                status_is_error: false,
                out_dir: out_dir@,
                time_text: Seq::empty(),
                time_focus: false,
                drag: None,
                has_ffplay,
                state: state@,
                dirty: false,
                about_open: false,
                about_serial: 0,
                title: APP_NAME@,
            }),
    {
        let r = Session {
            ed: Editor::new(0),
            input: None,
            busy: None,
            status: "Open a recording to begin.".to_owned(),
            status_is_error: false,
            out_dir,
            time_text: String::new(),
            time_focus: false,
            drag: None,
            has_ffplay,
            state,
            dirty: false,
            about_open: false,
            about_serial: 0,
            title: APP_NAME.to_owned(),
        };
        assert(r.time_text@ =~= Seq::empty());
        r
    }

    /// Shows a message.
    pub fn set_status(&mut self, text: &str, error: bool)
        ensures
            final(self)@ == old(self)@.saying(text@, error),
            old(self).valid() ==> final(self).valid(),
    {
        self.status = text.to_owned();
        self.status_is_error = error;
    }

    /// Begins to open a recording, where `tool_error` says what is missing for it. Says
    /// whether the player is to be stopped and the recording decoded.
    pub fn open(&mut self, tool_error: Option<String>) -> (r: bool)
        ensures
            r == (old(self).busy is None && tool_error is None),
            final(self)@ == old(self)@.opening(maybe(tool_error)),
            old(self).valid() ==> final(self).valid(),
    {
        if self.busy.is_some() {
            return false;
        }
        match tool_error {
            Some(e) => {
                self.set_status(e.as_str(), true);
                false
            },
            None => {
                self.busy = Some("Decoding audio...".to_owned());
                true
            },
        }
    }

    /// Shows what is around the selected mark.
    fn show_selected(&mut self, span: i64)
        requires
            old(self).valid(),
        ensures
            final(self)@ == old(self)@.viewing(old(self)@.ed.around_selected(span)),
            final(self).valid(),
    {
        if let Some(i) = self.ed.sel {
            let t: i64 = self.ed.marks[i];
            self.ed.center_on(t, Some(span));
        }
    }

    /// Takes a recording that was loaded, with what was kept of it. Where nothing was, split
    /// points are to be detected, if the numbers for it are any.
    pub fn on_loaded(&mut self, input: String, duration: i64, numbers: bool) -> (r: DetectStep)
        requires
            old(self).valid(),
        ensures
            final(self)@ == old(self)@.loaded(input@, duration, numbers),
            final(self).valid(),
            r == if old(self)@.state.dom().contains(input@) {
                DetectStep::Nothing
            } else {
                old(self)@.with_recording(input@, duration).detect_step(false, numbers)
            },
    {
        self.ed = Editor::new(duration);
        self.busy = None;
        let kept = self.state.get(input.as_str());
        self.input = Some(input);
        match kept {
            Some(saved) => {
                let n: usize = saved.marks.len();
                if saved.out_dir.as_str().unicode_len() > 0 {
                    self.out_dir = saved.out_dir;
                }
                self.ed.set_marks(saved.marks);
                let mut text: String = "Loaded ".to_owned();
                push_large(&mut text, n as u128);
                text.append(" saved split points. Press Auto-detect to start over.");
                self.set_status(text.as_str(), false);
                self.show_selected(LOADED_SPAN);
                DetectStep::Nothing
            },
            None => self.auto_detect(false, numbers),
        }
    }

    /// Begins to detect split points. Where `ask` is set and there are some, the user is asked
    /// first: if they agree, the detection is begun without asking.
    pub fn auto_detect(&mut self, ask: bool, numbers: bool) -> (r: DetectStep)
        ensures
            r == old(self)@.detect_step(ask, numbers),
            final(self)@ == old(self)@.detecting(ask, numbers),
            old(self).valid() ==> final(self).valid(),
    {
        if self.input.is_none() || self.busy.is_some() {
            return DetectStep::Nothing;
        }
        if !numbers {
            self.set_status("Sensitivity and min track length must be numbers.", true);
            return DetectStep::Nothing;
        }
        if ask && self.ed.marks.len() > 0 {
            return DetectStep::Confirm;
        }
        self.busy = Some(
            "Detecting track changes (first run computes the neural embeddings)...".to_owned(),
        );
        DetectStep::Start
    }

    /// Begins an export, where `existing` files may be overwritten: the user is asked about
    /// them, unless they have agreed.
    pub fn export(&mut self, existing: usize, agreed: bool) -> (r: ExportStep)
        requires
            old(self).valid(),
        ensures
            final(self).valid(),
            match (old(self)@.input, old(self)@.busy) {
                (Some(input), None) => if existing > 0 && !agreed {
                    &&& r matches ExportStep::Confirm(question) && question@ == export_question(
                        old(self)@.out_dir,
                        existing as nat,
                        prefix_of(input),
                        track_extension(input),
                    )
                    &&& final(self)@ == old(self)@
                } else {
                    &&& r is Start
                    &&& final(self)@ == (SessionView {
                        busy: Some("Exporting..."@),
                        ..old(self)@.kept()
                    })
                },
                _ => r is Nothing && final(self)@ == old(self)@,
            },
    {
        if self.busy.is_some() {
            return ExportStep::Nothing;
        }
        match &self.input {
            None => {
                return ExportStep::Nothing;
            },
            Some(input) => {
                if existing > 0 && !agreed {
                    let mut q: String = self.out_dir.as_str().to_owned();
                    q.append(" already contains ");
                    push_large(&mut q, existing as u128);
                    q.append(" files named ");
                    q.append(default_prefix(input.as_str()).as_str());
                    q.append("*.");
                    q.append(output_extension(input.as_str()).as_str());
                    q.append(
                        ".\nFiles with the same names are overwritten and any extra old ones stay.\n\nContinue?",
                    );
                    return ExportStep::Confirm(q);
                }
            },
        }
        self.save_now();
        self.busy = Some("Exporting...".to_owned());
        ExportStep::Start
    }

    /// Takes split points that were detected.
    pub fn on_detected(&mut self, points: Vec<i64>)
        requires
            old(self).valid(),
        ensures
            final(self)@ == old(self)@.detected(points@),
            final(self).valid(),
    {
        let n: usize = points.len();
        self.busy = None;
        let mut text: String = "Auto-detected ".to_owned();
        push_large(&mut text, n as u128);
        text.append(" split points -> ");
        push_large(&mut text, n as u128 + 1);
        text.append(" tracks.");
        self.set_status(text.as_str(), false);
        self.ed.set_marks(points);
        self.show_selected(LOADED_SPAN);
        self.dirty = true;
    }

    /// Takes that tracks were written.
    pub fn on_exported(&mut self, n: usize, out: &str)
        ensures
            final(self)@ == old(self)@.exported(n as nat, out@),
            old(self).valid() ==> final(self).valid(),
    {
        self.busy = None;
        let mut text: String = "Exported ".to_owned();
        push_large(&mut text, n as u128);
        text.append(" tracks to ");
        text.append(out);
        self.set_status(text.as_str(), false);
    }

    /// Takes that a background job failed.
    pub fn on_failed(&mut self, error: &str)
        ensures
            final(self)@ == old(self)@.failed(error@),
            old(self).valid() ==> final(self).valid(),
    {
        self.busy = None;
        let mut text: String = "Error: ".to_owned();
        text.append(error);
        self.set_status(text.as_str(), true);
    }

    /// Whether something is to be kept now: not while a mark is being dragged.
    pub fn save_due(&self) -> (r: bool)
        ensures
            r == (self.dirty && self.drag is None),
    {
        self.dirty && self.drag.is_none()
    }

    /// Keeps what is known of the recording. Says whether what is kept is to be written.
    pub fn save_now(&mut self) -> (r: bool)
        requires
            old(self).valid(),
        ensures
            r == old(self).input is Some,
            final(self)@ == old(self)@.kept(),
            final(self).valid(),
            final(self).input == old(self).input,
    {
        let known: bool = self.input.is_some();
        if let Some(input) = &self.input {
            let saved = to_keep(&self.ed.marks, self.out_dir.as_str());
            let key: String = input.as_str().to_owned();
            self.state.insert(key.as_str(), saved);
        }
        self.dirty = false;
        known
    }

    /// Moves the selected mark by `delta`.
    pub fn nudge(&mut self, delta: i64)
        requires
            old(self).valid(),
        ensures
            final(self)@ == old(self)@.nudged(delta as int),
            final(self).valid(),
    {
        if self.ed.nudge(delta) {
            self.dirty = true;
        } else {
            self.set_status("Select a split point first.", false);
        }
    }

    /// Moves the selected mark to the quiet spot beside it.
    pub fn snap_selected(&mut self, samples: &[i16])
        requires
            old(self).valid(),
        ensures
            final(self).valid(),
            match old(self).ed.sel {
                Some(i) => exists|t: i64|
                    #[trigger] snapped(
                        samples@,
                        SAMPLE_RATE as int,
                        old(self).ed.marks@[i as int] as int,
                        SNAP_WINDOW as int,
                        t as int,
                    ) && final(self)@ == old(self)@.edited(
                        old(self)@.ed.with_moved(i as int, t as int),
                    ),
                None => final(self)@ == old(self)@,
            },
    {
        if let Some(i) = self.ed.sel {
            let t: i64 = snap_to_energy_minimum(
                samples,
                SAMPLE_RATE,
                self.ed.marks[i],
                SNAP_WINDOW,
            );
            self.ed.move_marker(i, t);
            self.dirty = true;
        }
    }

    /// Adds a mark.
    pub fn add_marker(&mut self, t: i64)
        requires
            old(self).valid(),
        ensures
            final(self)@ == old(self)@.with_added(t as int),
            final(self).valid(),
    {
        if self.input.is_some() && self.ed.add_marker(t) {
            self.dirty = true;
        }
    }

    /// Deletes the selected mark.
    pub fn delete_selected(&mut self)
        requires
            old(self).valid(),
        ensures
            final(self)@ == old(self)@.without_selected(),
            final(self).valid(),
    {
        if self.ed.sel.is_some() {
            self.ed.delete_selected();
            self.dirty = true;
        }
    }

    /// Begins to play from `start` on.
    pub fn play(&mut self, start: i64, duration: Option<i64>) -> (r: PlayerStep)
        ensures
            r == old(self)@.play_step(start, duration),
            final(self)@ == old(self)@.playing(),
            old(self).valid() ==> final(self).valid(),
    {
        if self.input.is_none() {
            return PlayerStep::Nothing;
        }
        if !self.has_ffplay {
            self.set_status("ffplay not found on PATH; playback unavailable.", true);
            return PlayerStep::Nothing;
        }
        PlayerStep::Play { start, duration }
    }

    /// Takes that the player could not be started.
    pub fn on_play_failed(&mut self, error: &str)
        ensures
            final(self)@ == old(self)@.saying("Could not start ffplay: "@ + error@, true),
            old(self).valid() ==> final(self).valid(),
    {
        let mut text: String = "Could not start ffplay: ".to_owned();
        text.append(error);
        self.set_status(text.as_str(), true);
    }

    /// Begins to play what is around the selected mark.
    pub fn listen_to_cut(&mut self) -> (r: PlayerStep)
        requires
            old(self).valid(),
        ensures
            r == old(self)@.listen_step(),
            final(self)@ == old(self)@.listening(),
            final(self).valid(),
    {
        match self.ed.sel {
            Some(i) => {
                let t: i64 = self.ed.marks[i];
                let start: i64 = if t < LEAD {
                    0
                } else {
                    t - LEAD
                };
                self.play(start, Some(CUT_SPAN))
            },
            None => {
                self.set_status("Select a split point first.", false);
                PlayerStep::Nothing
            },
        }
    }

    /// Takes a key, where `player_busy` says whether something is being played.
    pub fn press(&mut self, key: Key, shift: bool, ctrl: bool, player_busy: bool) -> (r: PlayerStep)
        requires
            old(self).valid(),
        ensures
            r == old(self)@.key_step(key, player_busy),
            final(self)@ == old(self)@.pressed(key, shift, ctrl, player_busy),
            final(self).valid(),
    {
        if self.input.is_none() {
            return PlayerStep::Nothing;
        }
        let distance: i64 = if shift {
            1_000_000_000
        } else if ctrl {
            10_000_000
        } else {
            100_000_000
        };
        match key {
            Key::Space => {
                if player_busy {
                    return PlayerStep::Stop;
                }
                return self.play(self.ed.playhead, None);
            },
            Key::Left => self.nudge(-distance),
            Key::Right => self.nudge(distance),
            Key::Up => self.ed.select_relative(-1),
            Key::Down => self.ed.select_relative(1),
            Key::Delete => self.delete_selected(),
            Key::A => self.add_marker(self.ed.playhead),
            Key::P => {
                return self.listen_to_cut();
            },
        }
        PlayerStep::Nothing
    }

    /// Sets the selected mark to the time that was typed.
    pub fn set_time(&mut self)
        requires
            old(self).valid(),
        ensures
            final(self)@ == old(self)@.time_set(),
            final(self).valid(),
    {
        self.time_focus = false;
        match parse_time(self.time_text.as_str()) {
            Some(t) => {
                if let Some(i) = self.ed.sel {
                    self.ed.move_marker(i, t);
                    self.dirty = true;
                }
            },
            None => {
                self.set_status("Could not parse time. Use m:ss.mmm or seconds.", true);
            },
        }
    }

    /// Puts the time of the selected mark into its field, unless that is being typed in.
    pub fn show_time(&mut self)
        requires
            old(self).valid(),
        ensures
            final(self)@ == old(self)@.time_shown(),
            final(self).valid(),
    {
        if !self.time_focus {
            self.time_text = match self.ed.sel {
                Some(i) => fmt_time(self.ed.marks[i]),
                None => String::new(),
            };
            assert(self@ =~= old(self)@.time_shown());
        }
    }

    /// Selects mark `i` and shows it.
    pub fn select(&mut self, i: usize)
        requires
            old(self).valid(),
            i < old(self).ed.marks@.len(),
        ensures
            final(self)@ == old(self)@.viewing(
                (EditorView { sel: Some(i), ..old(self)@.ed }).centered(
                    old(self).ed.marks@[i as int] as int,
                    None,
                ),
            ),
            final(self).valid(),
    {
        self.ed.sel = Some(i);
        let t: i64 = self.ed.marks[i];
        self.ed.center_on(t, None);
    }

    /// Shows what is close around the selected mark.
    pub fn show_cut(&mut self)
        requires
            old(self).valid(),
        ensures
            final(self)@ == old(self)@.viewing(old(self)@.ed.around_selected(CLOSE_SPAN)),
            final(self).valid(),
    {
        self.show_selected(CLOSE_SPAN);
    }

    /// Takes the folder for the tracks that was chosen.
    pub fn choose_folder(&mut self, folder: &str)
        ensures
            final(self)@ == (SessionView { out_dir: folder@, dirty: true, ..old(self)@ }),
            old(self).valid() ==> final(self).valid(),
    {
        self.out_dir = folder.to_owned();
        self.dirty = true;
    }

    // ----- the waveform -----

    /// Takes that a drag began at a position of a drawing of a width.
    pub fn drag_start(&mut self, at: Option<i32>, width: u32)
        requires
            old(self).valid(),
        ensures
            final(self)@ == old(self)@.drag_started(at, width as int),
            final(self).valid(),
            final(self)@.drag_valid(),
    {
        self.drag = match at {
            Some(p) => self.ed.hit_marker(p, width, HIT_TOLERANCE),
            None => None,
        };
        if let Some(i) = self.drag {
            self.ed.sel = Some(i);
        }
    }

    /// Takes that the pointer was dragged to a position, by `delta`: the mark moves, or what
    /// is shown does.
    pub fn dragged(&mut self, at: Option<i32>, delta: i32, width: u32)
        requires
            old(self).valid(),
            old(self)@.drag_valid(),
            width > 0,
        ensures
            final(self)@ == old(self)@.dragged(at, delta as int, width as int),
            final(self).valid(),
    {
        match (self.drag, at) {
            (Some(i), Some(p)) => {
                let t: i64 = self.ed.time_at(p, width);
                self.ed.move_marker(i, t);
                self.dirty = true;
            },
            (None, _) => {
                let by: i64 = part_of_view(-(delta as i64), self.ed.view_span, width as i64);
                self.ed.pan(by);
            },
            _ => {},
        }
    }

    /// Takes that the drag is over.
    pub fn drag_stop(&mut self)
        ensures
            final(self)@ == (SessionView { drag: None, ..old(self)@ }),
            old(self).valid() ==> final(self).valid(),
    {
        self.drag = None;
    }

    /// Takes a click at a position: it selects the mark there, or moves the playhead.
    pub fn click(&mut self, at: i32, width: u32)
        requires
            old(self).valid(),
            old(self).ed.duration >= 0,
            width > 0,
        ensures
            final(self)@ == old(self)@.clicked(at as int, width as int),
            final(self).valid(),
    {
        match self.ed.hit_marker(at, width, HIT_TOLERANCE) {
            Some(i) => {
                self.ed.sel = Some(i);
            },
            None => {
                let t: i64 = self.ed.time_at(at, width);
                self.ed.playhead = self.in_recording(t);
            },
        }
    }

    /// Takes a double click at a position: it adds a mark.
    pub fn double_click(&mut self, at: i32, width: u32)
        requires
            old(self).valid(),
            width > 0,
        ensures
            final(self)@ == old(self)@.double_clicked(at as int, width as int),
            final(self).valid(),
    {
        if self.ed.hit_marker(at, width, HIT_TOLERANCE).is_none() {
            let t: i64 = self.ed.time_at(at, width);
            self.add_marker(t);
        }
    }

    /// Takes a click with the other button at a position: it deletes the mark there.
    pub fn secondary_click(&mut self, at: i32, width: u32)
        requires
            old(self).valid(),
        ensures
            final(self)@ == old(self)@.secondary_clicked(at as int, width as int),
            final(self).valid(),
            match old(self)@.ed.hit_at(at as int, width as int, DELETE_TOLERANCE as int) {
                Some(i) => final(self).ed.marks@ == old(self).ed.marks@.remove(i as int)
                    && final(self).dirty,
                None => final(self)@ == old(self)@,
            },
    {
        if let Some(i) = self.ed.hit_marker(at, width, DELETE_TOLERANCE) {
            self.ed.delete(i);
            self.dirty = true;
        }
    }

    /// Takes that the wheel was turned with the shift key.
    pub fn wheel_pan(&mut self, amount: i32)
        requires
            old(self).valid(),
        ensures
            final(self)@ == old(self)@.wheel_panned(amount as int),
            final(self).valid(),
    {
        let by: i64 = part_of_view(-(amount as i64) * 3, self.ed.view_span, 256_000);
        self.ed.pan(by);
    }

    /// Takes that the wheel was turned at a position: what is shown becomes `num / den` as
    /// long.
    pub fn wheel_zoom(&mut self, num: i64, den: i64, at: i32, width: u32)
        requires
            old(self).valid(),
            den > 0,
            width > 0,
        ensures
            final(self)@ == old(self)@.wheel_zoomed(
                num as int,
                den as int,
                at as int,
                width as int,
            ),
            final(self).valid(),
    {
        let t: i64 = self.ed.time_at(at, width);
        self.ed.zoom(num, den, Some(t));
    }

    /// Takes a click or a drag on the bar that shows the whole recording.
    pub fn jump(&mut self, at: i32, width: u32)
        requires
            old(self).valid(),
            width > 0,
        ensures
            final(self)@ == old(self)@.jumped(at as int, width as int),
            final(self).valid(),
    {
        let inside: i64 = if at < 0 {
            0
        } else if at as i64 > width as i64 {
            width as i64
        } else {
            at as i64
        };
        let t: i64 = part_of_view(inside, self.ed.duration, width as i64);
        proof {
            lemma_part_is_a_time(inside as int, self.ed.duration as int, width as int);
        }
        self.ed.center_on(t, None);
    }

    /// The time, or the nearest one in the recording.
    fn in_recording(&self, t: i64) -> (r: i64)
        requires
            self.ed.duration >= 0,
        ensures
            r == clamped(t as int, 0, self.ed.duration as int),
    {
        if t < 0 {
            0
        } else if t > self.ed.duration {
            self.ed.duration
        } else {
            t
        }
    }

    /// Moves the playhead to where the player is, which began at `from` before `elapsed`, and
    /// shows it.
    pub fn follow(&mut self, from: i64, elapsed: i64)
        requires
            old(self).valid(),
            old(self).ed.duration >= 0,
        ensures
            final(self)@ == old(self)@.followed(from as int, elapsed as int),
            final(self).valid(),
    {
        let position: i64 = if elapsed < START_DELAY {
            from
        } else {
            as_i64(from as i128 + (elapsed - START_DELAY) as i128)
        };
        let t: i64 = self.in_recording(position);
        self.ed.playhead = t;
        if !self.ed.is_shown(t) {
            self.ed.center_on(t, None);
        }
    }

    // ----- texts and dialogs -----

    /// What the line at the bottom says.
    pub fn status_text(&self) -> (r: String)
        ensures
            r@ == self@.status_line(),
    {
        match &self.busy {
            Some(busy) => {
                if self.status.as_str().unicode_len() == 0 {
                    busy.as_str().to_owned()
                } else {
                    self.status.as_str().to_owned()
                }
            },
            None => {
                let mut r: String = self.status.as_str().to_owned();
                if self.input.is_some() && !self.status_is_error {
                    r.append("   |   ");
                    push_large(&mut r, self.ed.marks.len() as u128);
                    r.append(" split points -> ");
                    push_large(&mut r, self.ed.marks.len() as u128 + 1);
                    r.append(" tracks");
                }
                r
            },
        }
    }

    /// The line for mark `i` in the list of split points.
    pub fn row(&self, i: usize) -> (r: String)
        requires
            i < self.ed.marks@.len(),
        ensures
            r@ == self@.row(i as int),
    {
        let n: usize = self.ed.marks.len();
        let (from, to) = self.ed.track(i);
        let (_, end) = self.ed.track(i + 1);
        let mut number = String::new();
        push_large(&mut number, i as u128 + 1);
        assert(number@ =~= decimal((i + 1) as nat));
        let mut r = String::new();
        push_right(&mut r, number.as_str(), 2);
        r.append("    ");
        push_left(&mut r, fmt_time(to).as_str(), 13);
        r.append("  ");
        push_left(&mut r, fmt_dur(as_i64(to as i128 - from as i128)).as_str(), 13);
        r.append("  ");
        r.append(fmt_dur(as_i64(end as i128 - to as i128)).as_str());
        assert(self.ed.marks@[i as int] == self@.ed.bounds()[i + 1]);
        assert(r@ =~= self@.row(i as int));
        r
    }

    /// The title that the window is to get, if it is to get another one.
    pub fn new_title(&mut self) -> (r: Option<String>)
        ensures
            final(self)@ == (SessionView { title: title_for(old(self)@.input), ..old(self)@ }),
            old(self).valid() ==> final(self).valid(),
            match r {
                Some(title) => title@ == title_for(old(self)@.input) && title@ != old(self)@.title,
                None => old(self)@.title == title_for(old(self)@.input),
            },
    {
        match &self.input {
            Some(input) => {
                let path: String = input.as_str().to_owned();
                title_update(&mut self.title, Some(path.as_str()))
            },
            None => title_update(&mut self.title, None),
        }
    }

    /// Opens the dialog about the program, as a new one unless it is open.
    pub fn open_about(&mut self)
        requires
            old(self).about_serial < u32::MAX,
        ensures
            final(self)@ == (SessionView {
                about_open: true,
                about_serial: if old(self).about_open {
                    old(self).about_serial
                } else {
                    (old(self).about_serial + 1) as u32
                },
                ..old(self)@
            }),
            old(self).valid() ==> final(self).valid(),
    {
        if !self.about_open {
            self.about_serial = self.about_serial + 1;
        }
        self.about_open = true;
    }

    /// Closes the dialog about the program.
    pub fn close_about(&mut self)
        ensures
            final(self)@ == (SessionView { about_open: false, ..old(self)@ }),
            old(self).valid() ==> final(self).valid(),
    {
        self.about_open = false;
    }
}

/// That part of a length of time, as a time.
fn part_of_view(num: i64, length: i64, den: i64) -> (r: i64)
    requires
        den > 0,
        -0x4_0000_0000 <= num <= 0x4_0000_0000,
    ensures
        r == as_time(num * length / den as int),
{
    proof {
        let (a, b) = (num as int, length as int);
        assert(-0x4_0000_0000 * 0x8000_0000_0000_0000 <= a * b <= 0x4_0000_0000
            * 0x8000_0000_0000_0000) by (nonlinear_arith)
            requires
                -0x4_0000_0000 <= a <= 0x4_0000_0000,
                -0x8000_0000_0000_0000 <= b <= 0x8000_0000_0000_0000,
        ;
    }
    as_i64(floor_div(num as i128 * length as i128, den as i128))
}

proof fn lemma_part_is_a_time(num: int, length: int, den: int)
    requires
        0 <= num <= den,
        den > 0,
        i64::MIN <= length <= i64::MAX,
    ensures
        i64::MIN <= num * length / den <= i64::MAX,
{
    let p = num * length;
    assert(length >= 0 ==> 0 <= p <= length * den) by (nonlinear_arith)
        requires
            p == num * length,
            0 <= num <= den,
    ;
    assert(length < 0 ==> length * den <= p <= 0) by (nonlinear_arith)
        requires
            p == num * length,
            0 <= num <= den,
    ;
    let q = p / den;
    assert(length >= 0 ==> 0 <= q <= length) by (nonlinear_arith)
        requires
            q == p / den,
            den > 0,
            length >= 0 ==> 0 <= p <= length * den,
    ;
    assert(length < 0 ==> length <= q <= 0) by (nonlinear_arith)
        requires
            q == p / den,
            den > 0,
            length < 0 ==> length * den <= p <= 0,
    ;
}

// ---------- laws ----------

/// While a job runs in the background, no other one begins.
pub proof fn law_nothing_begins_while_busy(
    s: SessionView,
    tool_error: Option<Seq<char>>,
    ask: bool,
    numbers: bool,
)
    requires
        s.busy is Some,
    ensures
        s.opening(tool_error) == s,
        s.detecting(ask, numbers) == s,
        s.detect_step(ask, numbers) == DetectStep::Nothing,
{
}

/// Split points are replaced without a question only where there are none, or where none
/// was to be asked.
pub proof fn law_split_points_are_not_replaced_unasked(s: SessionView, numbers: bool)
    requires
        s.ed.marks.len() > 0,
    ensures
        s.detect_step(true, numbers) != DetectStep::Start,
        s.detecting(true, numbers).busy == s.busy,
{
}

/// Whatever is kept of a recording is there when it is loaded the next time: its split points,
/// rounded to the millisecond, brought inside of it and in order, and its folder, if there is
/// one.
pub proof fn law_what_was_kept_is_loaded(
    s: SessionView,
    later: SessionView,
    duration: i64,
    numbers: bool,
)
    requires
        s.input is Some,
        later.state == s.kept().state,
    ensures
        later.loaded(s.input->0, duration, numbers).ed.marks == in_order(
            s.ed.marks.map_values(
                |m: i64| inside(duration as int, to_millisecond(m as int)) as i64,
            ),
        ),
        later.loaded(s.input->0, duration, numbers).out_dir == if s.out_dir.len() > 0 {
            s.out_dir
        } else {
            later.out_dir
        },
{
    let saved = later.state[s.input->0];
    let marks = s.ed.marks;
    assert(saved == kept(marks, s.out_dir));
    let placed = saved.marks.map_values(|m: i64| inside(duration as int, m as int) as i64);
    let wanted = marks.map_values(
        |m: i64| inside(duration as int, to_millisecond(m as int)) as i64,
    );
    assert(placed =~= wanted);
}

/// Split points that are whole milliseconds, in order and inside of the recording are loaded
/// as they were kept.
#[verifier::spinoff_prover]
pub proof fn law_proper_split_points_are_loaded_unchanged(
    s: SessionView,
    later: SessionView,
    duration: i64,
    numbers: bool,
)
    requires
        s.input is Some,
        later.state == s.kept().state,
        sorted(s.ed.marks),
        forall|i: int|
            0 <= i < s.ed.marks.len() ==> (#[trigger] s.ed.marks[i]) % 1_000_000 == 0 && inside(
                duration as int,
                s.ed.marks[i] as int,
            ) == s.ed.marks[i],
    ensures
        later.loaded(s.input->0, duration, numbers).ed.marks == s.ed.marks,
{
    law_what_was_kept_is_loaded(s, later, duration, numbers);
    let marks = s.ed.marks;
    let placed = marks.map_values(
        |m: i64| inside(duration as int, to_millisecond(m as int)) as i64,
    );
    assert forall|i: int| 0 <= i < marks.len() implies #[trigger] placed[i] == marks[i] by {
        assert(marks[i] % 1_000_000 == 0);
        lemma_whole_milliseconds(marks[i] as int);
        assert(inside(duration as int, marks[i] as int) == marks[i]);
    }
    assert(placed =~= marks);
    lemma_in_order_is_unique(marks, marks);
}

/// Keeping what is known twice is keeping it once.
pub proof fn law_keeping_again_changes_nothing(s: SessionView)
    ensures
        s.kept().kept() == s.kept(),
{
    if let Some(input) = s.input {
        assert(s.kept().kept().state =~= s.kept().state);
    }
}

/// What is kept of one recording does not touch what is kept of another.
pub proof fn law_other_recordings_stay(s: SessionView, path: Seq<char>)
    requires
        s.input != Some(path),
    ensures
        s.kept().state.dom().contains(path) == s.state.dom().contains(path),
        s.state.dom().contains(path) ==> s.kept().state[path] == s.state[path],
{
}

/// A click with the other button deletes the mark that is drawn there, within ten pixels,
/// whichever mark is selected, and no other one. Elsewhere it does nothing.
pub proof fn law_the_mark_that_is_clicked_is_deleted(s: SessionView, at: int, width: int)
    requires
        s.ed.marks.len() <= usize::MAX,
    ensures
        match s.ed.hit_at(at, width, 2560) {
            Some(i) => {
                let after = s.secondary_clicked(at, width);
                &&& after.ed.marks == s.ed.marks.remove(i as int)
                &&& after.dirty
                &&& after.ed.view_start == s.ed.view_start
                &&& after.ed.view_span == s.ed.view_span
                &&& after.ed.playhead == s.ed.playhead
                &&& after.ed.duration == s.ed.duration
                &&& after == (SessionView { ed: after.ed, dirty: true, ..s })
            },
            None => s.secondary_clicked(at, width) == s,
        },
{
    law_a_mark_is_hit_where_it_is_drawn(s.ed, at, width, 2560);
}

/// A click selects the mark that is drawn there, within seven pixels. Elsewhere it moves the
/// playhead to the time there, or to the nearest one in the recording. Nothing else changes, and
/// nothing is to be kept.
pub proof fn law_a_click_selects_or_moves_the_playhead(s: SessionView, at: int, width: int)
    requires
        0 <= s.ed.duration,
    ensures
        match s.ed.hit_at(at, width, 1792) {
            Some(i) => s.clicked(at, width) == (SessionView {
                ed: EditorView { sel: Some(i), ..s.ed },
                ..s
            }),
            None => {
                let t = s.ed.time_at(at, width);
                let p = s.clicked(at, width).ed.playhead;
                &&& 0 <= t <= s.ed.duration ==> p == t
                &&& t < 0 ==> p == 0
                &&& t > s.ed.duration ==> p == s.ed.duration
                &&& s.clicked(at, width) == (SessionView {
                    ed: EditorView { playhead: p, ..s.ed },
                    ..s
                })
            },
        },
{
}

/// A double click on a mark does nothing. Elsewhere it adds a mark at the time there.
pub proof fn law_a_double_click_adds_a_mark(s: SessionView, at: int, width: int)
    ensures
        s.ed.hit_at(at, width, 1792) is Some ==> s.double_clicked(at, width) == s,
        s.ed.hit_at(at, width, 1792) is None ==> s.double_clicked(at, width) == s.with_added(
            s.ed.time_at(at, width),
        ),
{
}

/// A mark can be added where there is a recording, and only there. It is to be kept where one
/// was added; where one was selected in its stead there is nothing new to keep.
pub proof fn law_added_marks_are_to_be_kept(s: SessionView, t: int)
    ensures
        s.input is None ==> s.with_added(t) == s,
        s.input is Some ==> {
            let after = s.with_added(t);
            &&& after.ed == s.ed.with_added(t)
            &&& after.dirty == (s.dirty || after.ed.marks.len() != s.ed.marks.len())
            &&& after == (SessionView { ed: after.ed, dirty: after.dirty, ..s })
        },
{
    lemma_in_order(s.ed.marks.push(inside(s.ed.duration as int, t) as i64));
}

/// A drag that begins on a mark, within seven pixels, takes and selects it. One that begins
/// elsewhere takes none and changes nothing else.
pub proof fn law_a_drag_takes_the_mark_it_begins_on(s: SessionView, at: Option<i32>, width: int)
    ensures
        ({
            let after = s.drag_started(at, width);
            let hit = match at {
                Some(p) => s.ed.hit_at(p as int, width, 1792),
                None => None,
            };
            &&& after.drag == hit
            &&& hit is Some ==> after == (SessionView {
                drag: hit,
                ed: EditorView { sel: hit, ..s.ed },
                ..s
            })
            &&& hit is None ==> after == (SessionView { drag: None, ..s })
        }),
{
}

/// Dragging a mark moves it to the time at the pointer, as far as its neighbours let it, and is
/// to be kept. What is shown stays.
pub proof fn law_dragging_moves_the_mark_to_the_pointer(
    s: SessionView,
    p: i32,
    delta: int,
    width: int,
)
    requires
        s.drag is Some,
        s.drag_valid(),
    ensures
        ({
            let i = s.drag->0 as int;
            let after = s.dragged(Some(p), delta, width);
            &&& after == (SessionView {
                ed: s.ed.with_moved(i, s.ed.time_at(p as int, width)),
                dirty: true,
                ..s
            })
            &&& after.ed.view_start == s.ed.view_start
            &&& after.ed.view_span == s.ed.view_span
        }),
        s.dragged(None, delta, width) == s,
{
}

/// Dragging beside the marks moves what is shown with the pointer: what was drawn under it
/// before is drawn under it afterwards, up to a nanosecond, unless the ends of the recording are
/// in the way. The marks stay, and nothing is to be kept.
pub proof fn law_dragging_elsewhere_moves_the_view(
    s: SessionView,
    at: Option<i32>,
    delta: int,
    width: int,
)
    requires
        s.drag is None,
        width > 0,
        s.ed.view_valid(),
        500_000_000 <= s.ed.duration,
        -0x7fff_ffff_ffff_ffff * width <= delta * s.ed.view_span <= 0x7fff_ffff_ffff_ffff * width,
    ensures
        ({
            let after = s.dragged(at, delta, width);
            let moved = s.ed.view_start - after.ed.view_start;
            &&& 0 < after.ed.view_start && after.ed.view_start + after.ed.view_span < s.ed.duration
                ==> delta * s.ed.view_span <= moved * width < delta * s.ed.view_span + width
            &&& delta >= 0 ==> after.ed.view_start <= s.ed.view_start
            &&& delta <= 0 ==> after.ed.view_start >= s.ed.view_start
            &&& after.ed.view_span == s.ed.view_span
            &&& after == (SessionView {
                ed: EditorView { view_start: after.ed.view_start, ..s.ed },
                ..s
            })
        }),
{
    let span = s.ed.view_span as int;
    let p = (-delta) * span;
    let q = p / width;
    assert(p == -(delta * span)) by (nonlinear_arith)
        requires
            p == (-delta) * span,
    ;
    assert(q * width <= p < q * width + width && -0x7fff_ffff_ffff_ffff <= q
        <= 0x7fff_ffff_ffff_ffff) by (nonlinear_arith)
        requires
            q == p / width,
            -0x7fff_ffff_ffff_ffff * width <= p <= 0x7fff_ffff_ffff_ffff * width,
            width > 0,
    ;
    assert((-q) * width == -(q * width)) by (nonlinear_arith);
    assert(delta >= 0 ==> q <= 0) by (nonlinear_arith)
        requires
            q == (-delta) * span / width,
            span >= 0,
            width > 0,
    ;
    assert(delta <= 0 ==> q >= 0) by (nonlinear_arith)
        requires
            q == (-delta) * span / width,
            span >= 0,
            width > 0,
    ;
}

/// Turning the wheel with the shift key by a pixel, 256 parts, moves what is shown by 3 of 1000
/// parts of its length, and by more or less in proportion: towards the beginning where the wheel is turned
/// up. The marks stay, and nothing is to be kept.
pub proof fn law_the_wheel_moves_the_view(s: SessionView, amount: int)
    requires
        s.ed.view_valid(),
        500_000_000 <= s.ed.duration,
        -0x7fff_ffff_ffff_ffff * 85_000 <= amount * s.ed.view_span <= 0x7fff_ffff_ffff_ffff * 85_000,
    ensures
        ({
            let after = s.wheel_panned(amount);
            let moved = s.ed.view_start - after.ed.view_start;
            &&& 0 < after.ed.view_start && after.ed.view_start + after.ed.view_span < s.ed.duration
                ==> 3 * (amount * s.ed.view_span) <= 256_000 * moved < 3 * (amount
                * s.ed.view_span) + 256_000
            &&& amount >= 0 ==> after.ed.view_start <= s.ed.view_start
            &&& amount <= 0 ==> after.ed.view_start >= s.ed.view_start
            &&& after.ed.view_span == s.ed.view_span
            &&& after == (SessionView {
                ed: EditorView { view_start: after.ed.view_start, ..s.ed },
                ..s
            })
        }),
{
    let span = s.ed.view_span as int;
    let p = (-amount) * 3 * span;
    assert(p == -3 * (amount * span)) by (nonlinear_arith)
        requires
            p == (-amount) * 3 * span,
    ;
    let q = p / 256_000;
    assert(1000 * PIXEL as int == 256_000);
    vstd::arithmetic::div_mod::lemma_fundamental_div_mod(p, 256_000);
    assert(q * 256_000 <= p < q * 256_000 + 256_000);
    assert(i64::MIN <= q <= i64::MAX);
    assert(s.wheel_panned(amount).ed == s.ed.showing(s.ed.view_start + q, span));
    let after = s.wheel_panned(amount);
    assert(amount * s.ed.view_span == amount * span);
    assert(after.ed.view_span == s.ed.view_span);
    assert(0 < after.ed.view_start && after.ed.view_start + after.ed.view_span < s.ed.duration
        ==> after.ed.view_start == s.ed.view_start + q);
    assert(amount >= 0 ==> amount * span >= 0) by (nonlinear_arith)
        requires
            span >= 0,
    ;
    assert(amount <= 0 ==> amount * span <= 0) by (nonlinear_arith)
        requires
            span >= 0,
    ;
}

/// A click on the bar that shows the whole recording puts the time there in the middle of what
/// is shown. The left edge is the beginning of the recording, the right edge its end.
pub proof fn law_the_bar_shows_the_whole_recording(s: SessionView, at: int, width: int)
    requires
        width > 0,
        0 <= s.ed.duration,
    ensures
        ({
            let x = if at < 0 {
                0
            } else if at > width {
                width
            } else {
                at
            };
            exists|t: int|
                0 <= t <= s.ed.duration && t * width <= x * s.ed.duration < (t + 1) * width
                    && #[trigger] s.ed.centered(t, None) == s.jumped(at, width).ed
        }),
        s.jumped(at, width) == (SessionView { ed: s.jumped(at, width).ed, ..s }),
{
    let x = clamped(at, 0, width);
    let d = s.ed.duration as int;
    let p = x * d;
    let t = p / width;
    assert(0 <= p <= d * width) by (nonlinear_arith)
        requires
            p == x * d,
            0 <= x <= width,
            0 <= d,
    ;
    assert(t * width <= p < (t + 1) * width && 0 <= t <= d) by (nonlinear_arith)
        requires
            t == p / width,
            0 <= p <= d * width,
            width > 0,
    ;
    assert(s.ed.centered(t, None) == s.jumped(at, width).ed);
}

/// The playhead goes with the player, which is heard a quarter of a second after it begins, and
/// stays in the recording. It is shown, and what is shown moves only where it was not.
pub proof fn law_the_playhead_goes_with_the_player(s: SessionView, from: int, elapsed: int)
    requires
        s.ed.view_valid(),
        500_000_000 <= s.ed.duration,
        0 <= from <= s.ed.duration,
        0 <= elapsed,
        from + elapsed <= i64::MAX,
    ensures
        ({
            let after = s.followed(from, elapsed);
            let p = after.ed.playhead;
            &&& elapsed < 250_000_000 ==> p == from
            &&& elapsed >= 250_000_000 && from + elapsed - 250_000_000 <= s.ed.duration ==> p == from
                + elapsed - 250_000_000
            &&& elapsed >= 250_000_000 && from + elapsed - 250_000_000 > s.ed.duration ==> p
                == s.ed.duration
            &&& after.ed.view_start <= p <= after.ed.view_start + after.ed.view_span
            &&& s.ed.view_start <= p <= s.ed.view_start + s.ed.view_span ==> after.ed.view_start
                == s.ed.view_start
            &&& after.ed.view_span == s.ed.view_span
            &&& after == (SessionView {
                ed: EditorView { playhead: p, view_start: after.ed.view_start, ..s.ed },
                ..s
            })
        }),
{
}

/// The arrow keys to the left and to the right move the selected mark by a tenth of a second, by
/// a second with the shift key, and by a hundredth with the control key alone.
pub proof fn law_arrow_keys_nudge(s: SessionView, shift: bool, ctrl: bool, busy: bool)
    requires
        s.input is Some,
    ensures
        ({
            let step: int = if shift {
                1_000_000_000
            } else if ctrl {
                10_000_000
            } else {
                100_000_000
            };
            &&& s.ed.sel is Some ==> s.pressed(Key::Right, shift, ctrl, busy) == (SessionView {
                ed: s.ed.nudged(step),
                dirty: true,
                ..s
            })
            &&& s.ed.sel is Some ==> s.pressed(Key::Left, shift, ctrl, busy) == (SessionView {
                ed: s.ed.nudged(-step),
                dirty: true,
                ..s
            })
            &&& s.ed.sel is None ==> s.pressed(Key::Right, shift, ctrl, busy) == s.pressed(
                Key::Left,
                shift,
                ctrl,
                busy,
            )
            &&& s.ed.sel is None ==> s.pressed(Key::Left, shift, ctrl, busy).ed == s.ed
            &&& s.ed.sel is None ==> s.pressed(Key::Left, shift, ctrl, busy).dirty == s.dirty
        }),
{
}

/// The other keys: up and down select, delete deletes the selected mark, A adds a mark at the
/// playhead, and neither of those that play changes the marks or what is shown. Without a
/// recording no key does anything.
pub proof fn law_keys_edit(s: SessionView, key: Key, shift: bool, ctrl: bool, busy: bool)
    ensures
        s.input is None ==> s.pressed(key, shift, ctrl, busy) == s && s.key_step(key, busy)
            == PlayerStep::Nothing,
        s.input is Some ==> {
            &&& s.pressed(Key::Up, shift, ctrl, busy) == (SessionView { ed: s.ed.selecting(-1), ..s })
            &&& s.pressed(Key::Down, shift, ctrl, busy) == (SessionView {
                ed: s.ed.selecting(1),
                ..s
            })
            &&& s.pressed(Key::A, shift, ctrl, busy) == s.with_added(s.ed.playhead as int)
            &&& s.ed.sel is None ==> s.pressed(Key::Delete, shift, ctrl, busy) == s
            &&& s.ed.sel matches Some(i) ==> s.pressed(Key::Delete, shift, ctrl, busy) == (
            SessionView { ed: s.ed.without(i as int), dirty: true, ..s })
            &&& s.pressed(Key::Space, shift, ctrl, busy).ed == s.ed
            &&& s.pressed(Key::P, shift, ctrl, busy).ed == s.ed
            &&& s.pressed(Key::Space, shift, ctrl, busy).dirty == s.dirty
            &&& s.pressed(Key::P, shift, ctrl, busy).dirty == s.dirty
        },
{
}

/// The space bar stops what is being played, or plays from the playhead to the end. P plays six
/// seconds around the selected mark, from three seconds before it on, or from the beginning. No
/// other key plays.
pub proof fn law_keys_play(s: SessionView, key: Key, busy: bool)
    requires
        s.input is Some,
        s.has_ffplay,
    ensures
        key == Key::Space && busy ==> s.key_step(key, busy) == PlayerStep::Stop,
        key == Key::Space && !busy ==> s.key_step(key, busy) == (PlayerStep::Play {
            start: s.ed.playhead,
            duration: None,
        }),
        key == Key::P && s.ed.sel is None ==> s.key_step(key, busy) == PlayerStep::Nothing,
        key == Key::P ==> (s.ed.sel matches Some(i) ==> (s.key_step(
            key,
            busy,
        ) matches PlayerStep::Play { start, duration } && {
            let t = s.ed.marks[i as int];
            &&& duration == Some(6_000_000_000i64)
            &&& t >= 3_000_000_000 ==> start == t - 3_000_000_000
            &&& t < 3_000_000_000 ==> start == 0
        })),
        key != Key::Space && key != Key::P ==> s.key_step(key, busy) == PlayerStep::Nothing,
{
}

/// Without a player nothing is played, and the user is told; without a recording nothing is
/// played either. What is asked to be played is played otherwise, and nothing changes.
pub proof fn law_playing_needs_a_recording_and_a_player(
    s: SessionView,
    start: i64,
    duration: Option<i64>,
)
    ensures
        s.input is None ==> s.play_step(start, duration) == PlayerStep::Nothing && s.playing() == s,
        s.input is Some && !s.has_ffplay ==> s.play_step(start, duration) == PlayerStep::Nothing
            && s.playing().status_is_error && s.playing().ed == s.ed && s.playing().status
            == "ffplay not found on PATH; playback unavailable."@,
        s.input is Some && s.has_ffplay ==> s.play_step(start, duration) == (PlayerStep::Play {
            start,
            duration,
        }) && s.playing() == s,
{
}

/// A time that was typed moves the selected mark there, as far as its neighbours let it, which is
/// to be kept. A text that is no time moves nothing, and the user is told.
pub proof fn law_a_typed_time_moves_the_selected_mark(s: SessionView)
    ensures
        !s.time_set().time_focus,
        text_time(s.time_text) is None ==> s.time_set().ed == s.ed && s.time_set().dirty == s.dirty
            && s.time_set().status_is_error && s.time_set().status
            == "Could not parse time. Use m:ss.mmm or seconds."@,
        text_time(s.time_text) is Some && s.ed.sel is None ==> s.time_set() == (SessionView {
            time_focus: false,
            ..s
        }),
        text_time(s.time_text) matches Some(t) ==> (s.ed.sel matches Some(i) ==> s.time_set() == (
        SessionView { ed: s.ed.with_moved(i as int, t), dirty: true, time_focus: false, ..s })),
{
}

/// The field for the time holds the time of the selected mark, and nothing where none is
/// selected. What is being typed stays.
pub proof fn law_the_time_of_the_selected_mark_is_shown(s: SessionView)
    ensures
        s.time_focus ==> s.time_shown() == s,
        !s.time_focus && s.ed.sel is None ==> s.time_shown().time_text.len() == 0,
        !s.time_focus ==> (s.ed.sel matches Some(i) ==> s.time_shown().time_text == time_text(
            s.ed.marks[i as int] as int,
        )),
        s.time_shown() == (SessionView { time_text: s.time_shown().time_text, ..s }),
{
}

/// Setting the time that is shown of the selected mark leaves the mark where it is, to the
/// millisecond: what is shown of a mark is a time that can be typed.
pub proof fn law_the_shown_time_can_be_set(s: SessionView)
    requires
        !s.time_focus,
        s.ed.selection_valid(),
        s.ed.sel is Some,
        0 <= s.ed.marks[s.ed.sel->0 as int],
    ensures
        ({
            let i = s.ed.sel->0 as int;
            exists|t: int|
                s.ed.marks[i] - 501_024 <= t <= s.ed.marks[i] + 501_024
                    && #[trigger] s.ed.with_moved(i, t) == s.time_shown().time_set().ed
        }),
{
    let i = s.ed.sel->0 as int;
    let shown = s.time_shown();
    law_reading_gives_what_was_written(s.ed.marks[i] as int);
    let t = text_time(shown.time_text)->0;
    assert(shown.time_set().ed == s.ed.with_moved(i, t));
}

/// A recording that was loaded and of which nothing is kept is shown from its beginning, and its
/// split points are detected, if the numbers for it are any.
pub proof fn law_an_unknown_recording_is_searched(
    s: SessionView,
    input: Seq<char>,
    duration: i64,
    numbers: bool,
)
    requires
        !s.state.dom().contains(input),
    ensures
        ({
            let after = s.loaded(input, duration, numbers);
            &&& after.input == Some(input)
            &&& after.ed == EditorView::fresh(duration)
            &&& after.out_dir == s.out_dir
            &&& after.busy is Some <==> numbers
            &&& s.with_recording(input, duration).detect_step(false, numbers) == if numbers {
                DetectStep::Start
            } else {
                DetectStep::Nothing
            }
            &&& !numbers ==> after.status_is_error
            &&& after.state == s.state
            &&& after.dirty == s.dirty
        }),
{
}

/// A recording of which something is kept is loaded with its split points, the first of which is
/// selected and shown with 15 seconds to both sides where there is room. Nothing is detected.
pub proof fn law_a_known_recording_is_loaded(
    s: SessionView,
    input: Seq<char>,
    duration: i64,
    numbers: bool,
)
    requires
        s.state.dom().contains(input),
        30_000_000_000 <= duration,
    ensures
        ({
            let after = s.loaded(input, duration, numbers);
            let saved = s.state[input];
            &&& after.input == Some(input)
            &&& after.busy is None
            &&& !after.status_is_error
            &&& after.ed.duration == duration
            &&& after.ed.playhead == 0
            &&& after.ed.marks == EditorView::fresh(duration).with_marks(saved.marks).marks
            &&& saved.marks.len() > 0 ==> {
                let m = after.ed.marks[0];
                &&& after.ed.sel == Some(0usize)
                &&& after.ed.view_span == 30_000_000_000
                &&& after.ed.view_start <= m <= after.ed.view_start + 30_000_000_000
                &&& 15_000_000_000 <= m <= duration - 15_000_000_000 ==> after.ed.view_start == m
                    - 15_000_000_000
            }
            &&& saved.marks.len() == 0 ==> after.ed.sel is None && after.ed.view_start == 0
            &&& after.out_dir == if saved.out_dir.len() > 0 {
                saved.out_dir
            } else {
                s.out_dir
            }
            &&& after.state == s.state
            &&& after.dirty == s.dirty
        }),
{
    broadcast use vstd::seq_lib::group_to_multiset_ensures;

    let saved = s.state[input];
    let fresh = EditorView::fresh(duration);
    law_setting_marks_keeps_all_of_them(fresh, saved.marks);
    if saved.marks.len() > 0 {
        let placed = saved.marks.map_values(|m: i64| inside(duration as int, m as int) as i64);
        let m = fresh.with_marks(saved.marks).marks[0];
        assert(fresh.with_marks(saved.marks).marks.contains(m));
        assert(placed.to_multiset().count(m) > 0);
        assert(placed.contains(m));
        let k = choose|k: int| 0 <= k < placed.len() && placed[k] == m;
        assert(0 <= m <= duration);
    }
}

/// Split points that were detected take the place of those there were, the first of them is
/// selected and shown with 15 seconds to both sides where there is room, and they are to be kept.
pub proof fn law_detected_split_points_are_set(s: SessionView, points: Seq<i64>)
    requires
        30_000_000_000 <= s.ed.duration,
    ensures
        ({
            let after = s.detected(points);
            &&& after.ed.marks == s.ed.with_marks(points).marks
            &&& after.ed.sel == s.ed.with_marks(points).sel
            &&& after.dirty
            &&& after.busy is None
            &&& !after.status_is_error
            &&& after.input == s.input
            &&& after.out_dir == s.out_dir
            &&& after.state == s.state
            &&& after.ed.playhead == s.ed.playhead
            &&& after.ed.duration == s.ed.duration
            &&& points.len() > 0 ==> {
                let m = after.ed.marks[0];
                &&& after.ed.view_span == 30_000_000_000
                &&& 15_000_000_000 <= m <= s.ed.duration - 15_000_000_000 ==> after.ed.view_start
                    == m - 15_000_000_000
            }
            &&& points.len() == 0 ==> after.ed.view_start == s.ed.view_start
        }),
{
    law_setting_marks_keeps_all_of_them(s.ed, points);
}

/// A job that ended leaves the marks alone and lets another one begin: an export says how many
/// tracks it wrote, and a failure says why.
pub proof fn law_jobs_end(s: SessionView, n: nat, out: Seq<char>, e: Seq<char>)
    ensures
        s.exported(n, out).busy is None,
        !s.exported(n, out).status_is_error,
        s.exported(n, out).status == "Exported "@ + decimal(n) + " tracks to "@ + out,
        s.exported(n, out).ed == s.ed,
        s.exported(n, out).dirty == s.dirty,
        s.failed(e).busy is None,
        s.failed(e).status_is_error,
        s.failed(e).status == "Error: "@ + e,
        s.failed(e).ed == s.ed,
        s.failed(e).dirty == s.dirty,
{
}

/// A recording is opened where no job runs and no tool is missing: then the job of decoding it
/// begins. A tool that is missing is told. The marks stay until the recording is there.
pub proof fn law_opening_needs_the_tools(s: SessionView, tool_error: Option<Seq<char>>)
    requires
        s.busy is None,
    ensures
        tool_error is None ==> s.opening(tool_error).busy is Some && s.opening(tool_error).status
            == s.status,
        tool_error matches Some(e) ==> s.opening(tool_error).busy is None && s.opening(
            tool_error,
        ).status == e && s.opening(tool_error).status_is_error,
        s.opening(tool_error).ed == s.ed,
        s.opening(tool_error).input == s.input,
{
}

/// Detecting begins where there is a recording, no job runs and the numbers for it are any, after
/// a question where there are split points and one is to be asked. It changes no mark.
pub proof fn law_detecting_begins(s: SessionView, ask: bool, numbers: bool)
    ensures
        s.detect_step(ask, numbers) == DetectStep::Start <==> s.input is Some && s.busy is None
            && numbers && (!ask || s.ed.marks.len() == 0),
        s.detect_step(ask, numbers) == DetectStep::Confirm <==> s.input is Some && s.busy is None
            && numbers && ask && s.ed.marks.len() > 0,
        s.busy is None ==> (s.detecting(ask, numbers).busy is Some <==> s.detect_step(ask, numbers)
            == DetectStep::Start),
        s.detecting(ask, numbers).ed == s.ed,
        s.detecting(ask, numbers).dirty == s.dirty,
        s.input is Some && s.busy is None && !numbers ==> s.detecting(ask, numbers).status_is_error,
{
}

/// Keeping a recording keeps its marks, each to the nearest millisecond, and its folder, under
/// its path. The session itself stays as it is, and nothing more is to be kept.
pub proof fn law_keeping_keeps_the_marks(s: SessionView)
    ensures
        !s.kept().dirty,
        s.kept().ed == s.ed,
        s.kept() == (SessionView { state: s.kept().state, dirty: false, ..s }),
        s.input is None ==> s.kept().state == s.state,
        s.input matches Some(path) ==> {
            &&& s.kept().state.dom() == s.state.dom().insert(path)
            &&& s.kept().state[path].out_dir == s.out_dir
            &&& s.kept().state[path].marks.len() == s.ed.marks.len()
            &&& forall|i: int|
                0 <= i < s.ed.marks.len() ==> (#[trigger] s.kept().state[path].marks[i]) % 1_000_000
                    == 0 || s.ed.marks[i] > i64::MAX - 1_000_000 || s.ed.marks[i] < i64::MIN
                    + 1_000_000
            &&& forall|i: int|
                0 <= i < s.ed.marks.len() && i64::MIN + 1_000_000 <= s.ed.marks[i] <= i64::MAX
                    - 1_000_000 ==> s.ed.marks[i] - 502_048
                    <= #[trigger] s.kept().state[path].marks[i] <= s.ed.marks[i] + 502_048
        },
{
    if let Some(path) = s.input {
        assert forall|i: int| 0 <= i < s.ed.marks.len() implies {
            let k = #[trigger] s.kept().state[path].marks[i];
            i64::MIN + 1_000_000 <= s.ed.marks[i] <= i64::MAX - 1_000_000 ==> k % 1_000_000 == 0
                && s.ed.marks[i] - 502_048 <= k <= s.ed.marks[i] + 502_048
        } by {
            let m = s.ed.marks[i] as int;
            if i64::MIN + 1_000_000 <= m <= i64::MAX - 1_000_000 {
                law_kept_marks_stay(m);
                law_kept_marks_are_whole_milliseconds(m);
            }
        }
    }
}

/// The line at the bottom says what is being done, unless there is a message, and how many split
/// points and tracks there are, unless there is an error or no recording.
pub proof fn law_the_status_line_counts_the_tracks(s: SessionView)
    ensures
        s.busy matches Some(busy) ==> s.status_line() == if s.status.len() > 0 {
            s.status
        } else {
            busy
        },
        s.busy is None && (s.input is None || s.status_is_error) ==> s.status_line() == s.status,
        s.busy is None && s.input is Some && !s.status_is_error ==> {
            &&& s.status.is_prefix_of(s.status_line())
            &&& s.status_line() == s.status + ("   |   "@ + decimal(s.ed.marks.len())
                + " split points -> "@ + decimal(s.ed.marks.len() + 1) + " tracks"@)
        },
{
    assert(s.busy is None && s.input is Some && !s.status_is_error ==> s.status_line() =~= s.status
        + ("   |   "@ + decimal(s.ed.marks.len()) + " split points -> "@ + decimal(
        s.ed.marks.len() + 1,
    ) + " tracks"@));
}

/// The list of split points counts from one, and says of each how long the track before it and
/// how long the track behind it is.
pub proof fn law_the_list_shows_the_tracks_around_a_mark(s: SessionView, i: int)
    requires
        0 <= i < s.ed.marks.len(),
    ensures
        ({
            let from = if i == 0 {
                0
            } else {
                s.ed.marks[i - 1] as int
            };
            let to = if i == s.ed.marks.len() - 1 {
                s.ed.duration as int
            } else {
                s.ed.marks[i + 1] as int
            };
            let m = s.ed.marks[i] as int;
            let head = right_aligned(decimal((i + 1) as nat), 2) + "    "@ + left_aligned(
                time_text(m),
                13,
            ) + "  "@;
            &&& i64::MIN <= m - from <= i64::MAX && i64::MIN <= to - m <= i64::MAX ==> s.row(i)
                == head + left_aligned(duration_text(m - from), 13) + "  "@ + duration_text(to - m)
        }),
{
    let b = s.ed.bounds();
    assert(b[i + 1] == s.ed.marks[i]);
}

/// Turning the wheel multiplies the length that is shown, and what is drawn under the pointer
/// stays there, up to a nanosecond before and one afterwards, unless the ends of the recording are
/// in the way. The marks stay, and nothing is to be kept.
pub proof fn law_the_wheel_zooms_at_the_pointer(
    s: SessionView,
    num: int,
    den: int,
    at: int,
    width: int,
)
    requires
        den > 0,
        width > 0,
        0 <= at <= width,
        s.ed.view_valid(),
        500_000_000 <= s.ed.duration,
    ensures
        ({
            let after = s.wheel_zoomed(num, den, at, width);
            let t = s.ed.time_at(at, width);
            let span = s.ed.view_span;
            &&& 500_000_000 <= span * num / den <= s.ed.duration ==> after.ed.view_span == span * num
                / den
            &&& 0 < after.ed.view_start && after.ed.view_start + after.ed.view_span < s.ed.duration
                ==> 0 <= (at * after.ed.view_span - (t - after.ed.view_start) * width) * span < (span
                + after.ed.view_span) * width
            &&& after == (SessionView {
                ed: EditorView {
                    view_start: after.ed.view_start,
                    view_span: after.ed.view_span,
                    ..s.ed
                },
                ..s
            })
        }),
{
    let after = s.wheel_zoomed(num, den, at, width);
    law_the_time_at_a_position_is_drawn_there(s.ed, at, width);
    let t = s.ed.time_at(at, width);
    let span = s.ed.view_span as int;
    let next = after.ed.view_span as int;
    let b = t - s.ed.view_start;
    let o = b * next / span;
    if 0 < after.ed.view_start && after.ed.view_start + next < s.ed.duration {
        assert(after.ed.view_start == t - o);
        assert(o * span <= b * next < o * span + span) by (nonlinear_arith)
            requires
                o == b * next / span,
                span > 0,
        ;
        assert(b * width <= at * span < b * width + width) by (nonlinear_arith)
            requires
                b * width <= at * span,
                at * span < (b + 1) * width,
        ;
        let d = at * next - o * width;
        assert(0 <= d * span < (span + next) * width) by (nonlinear_arith)
            requires
                d == at * next - o * width,
                o * span <= b * next < o * span + span,
                b * width <= at * span < b * width + width,
                width > 0,
                span > 0,
                next > 0,
        ;
    }
}

/// The quiet spot beside a selected mark is searched a second and a half to both sides, at 16000
/// samples per second, and ten seconds are shown around it when it is asked for.
pub proof fn law_a_selected_mark_is_looked_at_closely()
    ensures
        SNAP_WINDOW == 1_500_000_000,
        SAMPLE_RATE == 16000,
        CLOSE_SPAN == 10_000_000_000,
{
}

/// What the user is told and asked.
pub proof fn law_messages_count_what_they_tell(
    n: nat,
    m: nat,
    out: Seq<char>,
    prefix: Seq<char>,
    ext: Seq<char>,
)
    ensures
        loaded_text(n) == "Loaded "@ + decimal(n)
            + " saved split points. Press Auto-detect to start over."@,
        detected_text(n) == "Auto-detected "@ + decimal(n) + " split points -> "@ + decimal(n + 1)
            + " tracks."@,
        computing_text(n, m) == "Computing neural embeddings "@ + decimal(n) + "/"@ + decimal(m)
            + "..."@,
        writing_text(out, n, m) == "Writing "@ + out + " ("@ + decimal(n) + "/"@ + decimal(m)
            + ")"@,
        export_question(out, n, prefix, ext) == out + " already contains "@ + decimal(n)
            + " files named "@ + prefix + "*."@ + ext
            + ".\nFiles with the same names are overwritten and any extra old ones stay.\n\nContinue?"@,
{
}

} // verus!
