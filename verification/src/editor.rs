//! The state of an editing session: the split points of a recording, the selected one, the
//! playhead and the stretch of time that is shown. Times are in nanoseconds.

pub use crate::times::{as_i64, as_time, clamped, fmt_dur, fmt_time, parse_time};
use crate::doubles::{
    difference, in_seconds, lemma_close, lemma_in_seconds, lemma_signed_double, seconds_between,
    to_seconds,
};
use crate::order::{in_order, lemma_in_order, lemma_in_order_is_unique, sort, sorted};
use vstd::prelude::*;

verus! {

/// What lies at least between two marks, and between a mark and an end of the recording.
pub const MIN_GAP: i64 = 50_000_000;

/// The shortest stretch of time that is shown.
pub const MIN_SPAN: i64 = 500_000_000;

/// A mark that is to be added closer than this to another one is not added.
pub const NEAR: i64 = 200_000_000;

/// The stretch of time that is shown first.
pub const FIRST_SPAN: i64 = 60_000_000_000;

/// The greater of two numbers.
pub open spec fn greater(a: int, b: int) -> int {
    if a < b {
        b
    } else {
        a
    }
}

/// The stretch of time that is shown of a recording where `span` is asked for.
pub open spec fn shown_span(duration: int, span: int) -> int {
    clamped(span, MIN_SPAN as int, greater(duration, MIN_SPAN as int))
}

/// Where a stretch of time that is shown begins where `start` is asked for.
pub open spec fn shown_start(duration: int, start: int, span: int) -> int {
    clamped(start, 0, greater(duration - shown_span(duration, span), 0))
}

/// Where a mark can stand that is put at `t`.
pub open spec fn inside(duration: int, t: int) -> int {
    clamped(t, MIN_GAP as int, greater(duration - MIN_GAP, MIN_GAP as int))
}

/// The least time to which mark `i` can be moved.
pub open spec fn lower_limit(marks: Seq<i64>, i: int) -> int {
    if i > 0 {
        as_time(marks[i - 1] + MIN_GAP)
    } else {
        MIN_GAP as int
    }
}

/// The greatest time to which mark `i` can be moved.
pub open spec fn upper_limit(duration: int, marks: Seq<i64>, i: int) -> int {
    if i + 1 < marks.len() {
        as_time(marks[i + 1] - MIN_GAP)
    } else {
        as_time(duration - MIN_GAP)
    }
}

/// Where mark `i` comes to stand when it is moved to `t`.
pub open spec fn moved(duration: int, marks: Seq<i64>, i: int, t: int) -> int {
    let lo = lower_limit(marks, i);
    clamped(t, lo, greater(upper_limit(duration, marks, i), lo))
}

/// Whether two times are closer than the least distance of a new mark, by what doubles make of
/// their difference.
pub open spec fn near(a: int, b: int) -> bool {
    -in_seconds(NEAR as int) < seconds_between(a, b) < in_seconds(NEAR as int)
}

/// The first mark from `i` on that is near to `t`.
pub open spec fn near_from(marks: Seq<i64>, t: int, i: int) -> Option<usize>
    decreases marks.len() - i,
{
    if i < 0 || i >= marks.len() {
        None
    } else if near(marks[i] as int, t) {
        Some(i as usize)
    } else {
        near_from(marks, t, i + 1)
    }
}

/// The first mark from `i` on that stands at `t`.
pub open spec fn place_from(marks: Seq<i64>, t: int, i: int) -> Option<usize>
    decreases marks.len() - i,
{
    if i < 0 || i >= marks.len() {
        None
    } else if marks[i] == t {
        Some(i as usize)
    } else {
        place_from(marks, t, i + 1)
    }
}

fn clamp(x: i64, lo: i64, hi: i64) -> (r: i64)
    ensures
        r == clamped(x as int, lo as int, hi as int),
{
    if x < lo {
        lo
    } else if x > hi {
        hi
    } else {
        x
    }
}

/// The quotient, rounded down.
pub fn floor_div(a: i128, b: i128) -> (r: i128)
    requires
        b > 0,
        a > i128::MIN,
    ensures
        r == a / b,
{
    if a >= 0 {
        a / b
    } else {
        let n: i128 = -a;
        let q: i128 = n / b;
        let m: i128 = n % b;
        proof {
            vstd::arithmetic::div_mod::lemma_fundamental_div_mod(n as int, b as int);
            assert(0 <= q <= n) by (nonlinear_arith)
                requires
                    n == b * q + m,
                    0 <= m < b,
                    n >= 0,
            ;
            assert(m > 0 ==> q < n) by (nonlinear_arith)
                requires
                    n == b * q + m,
                    0 <= m < b,
                    q >= 0,
            ;
            if m == 0 {
                assert(a == (-q) * b + 0) by (nonlinear_arith)
                    requires
                        n == b * q + m,
                        m == 0,
                        n == -a,
                ;
                vstd::arithmetic::div_mod::lemma_fundamental_div_mod_converse(
                    a as int,
                    b as int,
                    -q as int,
                    0,
                );
            } else {
                assert(a == (-q - 1) * b + (b - m)) by (nonlinear_arith)
                    requires
                        n == b * q + m,
                        n == -a,
                ;
                vstd::arithmetic::div_mod::lemma_fundamental_div_mod_converse(
                    a as int,
                    b as int,
                    -q - 1,
                    b - m,
                );
            }
        }
        if m == 0 {
            -q
        } else {
            -q - 1
        }
    }
}

/// The part of a recording that is shown, as its beginning and its length.
fn shown(duration: i64, start: i128, span: i128) -> (r: (i64, i64))
    ensures
        r.0 == shown_start(duration as int, start as int, span as int),
        r.1 == shown_span(duration as int, span as int),
{
    let most: i64 = if duration < MIN_SPAN {
        MIN_SPAN
    } else {
        duration
    };
    let span: i64 = clamp(as_i64(span), MIN_SPAN, most);
    let last: i64 = if duration > span {
        duration - span
    } else {
        0
    };
    (clamp(as_i64(start), 0, last), span)
}

/// What is edited, and what is seen of it.
#[derive(Debug, Clone)]
pub struct Editor {
    pub duration: i64,
    pub marks: Vec<i64>,
    pub sel: Option<usize>,
    pub playhead: i64,
    pub view_start: i64,
    pub view_span: i64,
}

/// The contents of an editor.
pub ghost struct EditorView {
    pub duration: i64,
    pub marks: Seq<i64>,
    pub sel: Option<usize>,
    pub playhead: i64,
    pub view_start: i64,
    pub view_span: i64,
}

impl EditorView {
    /// The state for a recording without marks.
    pub open spec fn fresh(duration: i64) -> Self {
        EditorView {
            duration,
            marks: Seq::empty(),
            sel: None,
            playhead: 0,
            view_start: shown_start(duration as int, 0, FIRST_SPAN as int) as i64,
            view_span: shown_span(duration as int, FIRST_SPAN as int) as i64,
        }
    }

    /// Whether the selected mark is there.
    pub open spec fn selection_valid(self) -> bool {
        self.sel matches Some(i) ==> i < self.marks.len()
    }

    /// Whether the part that is shown is one that can be.
    pub open spec fn view_valid(self) -> bool {
        self == self.showing(self.view_start as int, self.view_span as int)
    }

    /// With the part shown that begins at `start` and has the length `span`, as far as it
    /// can be.
    pub open spec fn showing(self, start: int, span: int) -> Self {
        EditorView {
            view_start: shown_start(self.duration as int, start, span) as i64,
            view_span: shown_span(self.duration as int, span) as i64,
            ..self
        }
    }

    /// With marks in place of those there were, inside of the recording and in order, and
    /// the first one selected.
    pub open spec fn with_marks(self, marks: Seq<i64>) -> Self {
        EditorView {
            marks: in_order(
                marks.map_values(|m: i64| inside(self.duration as int, m as int) as i64),
            ),
            sel: if marks.len() == 0 {
                None
            } else {
                Some(0)
            },
            ..self
        }
    }

    /// With what is around `t` shown, in a span of its own or in that there is.
    pub open spec fn centered(self, t: int, span: Option<i64>) -> Self {
        let span = match span {
            Some(s) => s as int,
            None => self.view_span as int,
        };
        self.showing(t - span / 2, span)
    }

    /// The time that stays where it is on the screen: `anchor`, or the middle.
    pub open spec fn anchor(self, anchor: Option<i64>) -> int {
        match anchor {
            Some(t) => t as int,
            None => self.view_start + self.view_span / 2,
        }
    }

    /// With the span that is shown multiplied by `num / den`, and the time `anchor` where it
    /// was on the screen.
    pub open spec fn zoomed(self, num: int, den: int, anchor: Option<i64>) -> Self {
        let at = self.anchor(anchor);
        let span = shown_span(self.duration as int, self.view_span * num / den);
        self.showing(at - (at - self.view_start) * span / self.view_span as int, span)
    }

    /// With mark `i` moved towards `t`, as far as its neighbours let it.
    pub open spec fn with_moved(self, i: int, t: int) -> Self {
        EditorView {
            marks: self.marks.update(i, moved(self.duration as int, self.marks, i, t) as i64),
            ..self
        }
    }

    /// With the selected mark moved by `delta`.
    pub open spec fn nudged(self, delta: int) -> Self {
        match self.sel {
            Some(i) => self.with_moved(i as int, as_time(self.marks[i as int] + delta)),
            None => self,
        }
    }

    /// The mark that is near to where one would be added.
    pub open spec fn beside(self, t: int) -> Option<usize> {
        near_from(self.marks, inside(self.duration as int, t), 0)
    }

    /// With a mark added and selected, or with the first one selected that is near.
    pub open spec fn with_added(self, t: int) -> Self {
        let at = inside(self.duration as int, t) as i64;
        match self.beside(t) {
            Some(i) => EditorView { sel: Some(i), ..self },
            None => {
                let marks = in_order(self.marks.push(at));
                EditorView { marks, sel: place_from(marks, at as int, 0), ..self }
            },
        }
    }

    /// With mark `i` deleted, and the one selected that takes its place.
    pub open spec fn without(self, i: int) -> Self {
        if i < self.marks.len() {
            let marks = self.marks.remove(i);
            EditorView {
                marks,
                sel: if marks.len() == 0 {
                    None
                } else if i < marks.len() {
                    Some(i as usize)
                } else {
                    Some((marks.len() - 1) as usize)
                },
                ..self
            }
        } else {
            self
        }
    }

    /// With the selected mark deleted.
    pub open spec fn without_selected(self) -> Self {
        match self.sel {
            Some(i) => self.without(i as int),
            None => self,
        }
    }

    /// The mark that is `step` behind the selected one, or the last one on the way.
    pub open spec fn relative(self, step: int) -> int {
        match self.sel {
            None => 0,
            Some(i) => clamped(i + step, 0, self.marks.len() - 1),
        }
    }

    /// Whether a time is shown.
    pub open spec fn shows(self, t: int) -> bool {
        self.view_start <= t <= self.view_start + self.view_span
    }

    /// With the mark selected and shown that is `step` behind the selected one.
    pub open spec fn selecting(self, step: int) -> Self {
        if self.marks.len() == 0 {
            self
        } else {
            let next = self.relative(step);
            let with = EditorView { sel: Some(next as usize), ..self };
            if self.shows(self.marks[next] as int) {
                with
            } else {
                with.centered(self.marks[next] as int, None)
            }
        }
    }

    /// Where the tracks begin and end: the beginning, each mark, and the end.
    pub open spec fn bounds(self) -> Seq<i64> {
        seq![0i64] + self.marks + seq![self.duration]
    }
}

impl View for Editor {
    type V = EditorView;

    open spec fn view(&self) -> EditorView {
        EditorView {
            duration: self.duration,
            marks: self.marks@,
            sel: self.sel,
            playhead: self.playhead,
            view_start: self.view_start,
            view_span: self.view_span,
        }
    }
}

impl Editor {
    /// The state for a recording without marks.
    pub fn new(duration: i64) -> (r: Self)
        ensures
            r@ == EditorView::fresh(duration),
            r@.selection_valid(),
            r@.view_valid(),
    {
        let (view_start, view_span) = shown(duration, 0, FIRST_SPAN as i128);
        let r = Editor { duration, marks: Vec::new(), sel: None, playhead: 0, view_start, view_span };
        assert(r@.marks =~= Seq::empty());
        r
    }

    /// Puts marks in place of those there were: inside of the recording and in order. The
    /// first one is selected.
    pub fn set_marks(&mut self, marks: Vec<i64>)
        ensures
            final(self)@ == old(self)@.with_marks(marks@),
            final(self)@.selection_valid(),
            sorted(final(self).marks@),
            final(self).marks@.to_multiset() == marks@.map_values(
                |m: i64| inside(old(self).duration as int, m as int) as i64,
            ).to_multiset(),
            final(self).marks@.len() == marks@.len(),
    {
        let mut v: Vec<i64> = Vec::new();
        let mut i: usize = 0;
        let ghost f = |m: i64| inside(self.duration as int, m as int) as i64;
        while i < marks.len()
            invariant
                i <= marks@.len(),
                v@ == marks@.take(i as int).map_values(f),
                f == (|m: i64| inside(self.duration as int, m as int) as i64),
            decreases marks@.len() - i,
        {
            v.push(self.placed(marks[i]));
            assert(marks@.take(i + 1) =~= marks@.take(i as int).push(marks@[i as int]));
            i = i + 1;
        }
        assert(marks@.take(marks@.len() as int) =~= marks@);
        self.marks = sort(&v);
        self.sel = if self.marks.len() == 0 {
            None
        } else {
            Some(0)
        };
    }

    /// Where a mark can stand that is put at `t`.
    fn placed(&self, t: i64) -> (r: i64)
        ensures
            r == inside(self.duration as int, t as int),
    {
        let last: i64 = if self.duration > MIN_GAP + MIN_GAP {
            self.duration - MIN_GAP
        } else {
            MIN_GAP
        };
        clamp(t, MIN_GAP, last)
    }

    /// Brings the part that is shown into the recording.
    pub fn clamp_view(&mut self)
        ensures
            final(self)@ == old(self)@.showing(
                old(self).view_start as int,
                old(self).view_span as int,
            ),
            final(self)@.view_valid(),
    {
        self.show(self.view_start as i128, self.view_span as i128);
    }

    /// Shows the part from `start` of length `span`, as far as it can be.
    fn show(&mut self, start: i128, span: i128)
        ensures
            final(self)@ == old(self)@.showing(start as int, span as int),
            final(self)@.view_valid(),
    {
        let (start, span) = shown(self.duration, start, span);
        self.view_start = start;
        self.view_span = span;
    }

    /// Shows what is around `t`, in a span of its own or in that there is.
    pub fn center_on(&mut self, t: i64, span: Option<i64>)
        ensures
            final(self)@ == old(self)@.centered(t as int, span),
            final(self)@.view_valid(),
    {
        let span: i64 = match span {
            Some(s) => s,
            None => self.view_span,
        };
        let half: i128 = floor_div(span as i128, 2);
        self.show(t as i128 - half, span as i128);
    }

    /// Multiplies the span that is shown by `num / den`, keeping the time `anchor` where it
    /// is on the screen.
    pub fn zoom(&mut self, num: i64, den: i64, anchor: Option<i64>)
        requires
            den > 0,
            old(self).view_span > 0,
        ensures
            final(self)@ == old(self)@.zoomed(num as int, den as int, anchor),
            final(self)@.view_valid(),
    {
        let at: i128 = match anchor {
            Some(t) => t as i128,
            None => self.view_start as i128 + (self.view_span / 2) as i128,
        };
        proof {
            let (a, b) = (self.view_span as int, num as int);
            assert(-(0x8000_0000_0000_0000 * 0x8000_0000_0000_0000) <= a * b <= 0x8000_0000_0000_0000
                * 0x8000_0000_0000_0000) by (nonlinear_arith)
                requires
                    0 <= a <= 0x8000_0000_0000_0000,
                    -0x8000_0000_0000_0000 <= b <= 0x8000_0000_0000_0000,
            ;
        }
        let wanted: i128 = floor_div(self.view_span as i128 * num as i128, den as i128);
        let (_, span) = shown(self.duration, 0, wanted);
        let before: i128 = at - self.view_start as i128;
        proof {
            let (a, b) = (before as int, span as int);
            assert(-(0xffff_ffff_ffff_ffff * 0x7fff_ffff_ffff_ffff) <= a * b <= 0xffff_ffff_ffff_ffff
                * 0x7fff_ffff_ffff_ffff) by (nonlinear_arith)
                requires
                    0 <= b <= 0x7fff_ffff_ffff_ffff,
                    -0xffff_ffff_ffff_ffff <= a <= 0xffff_ffff_ffff_ffff,
            ;
        }
        let offset: i128 = floor_div(before * span as i128, self.view_span as i128);
        proof {
            lemma_offset_bound(before as int, span as int, self.view_span as int);
        }
        self.show(at - offset, span as i128);
    }

    /// Shows the whole recording.
    pub fn zoom_all(&mut self)
        ensures
            final(self)@ == old(self)@.showing(0, old(self).duration as int),
            final(self)@.view_valid(),
            final(self).view_start == 0,
            old(self).duration >= 500_000_000 ==> final(self).view_span == old(self).duration,
            final(self).marks@ == old(self).marks@,
    {
        self.show(0, self.duration as i128);
    }

    /// Shows what is `dt` later.
    pub fn pan(&mut self, dt: i64)
        ensures
            final(self)@ == old(self)@.showing(
                old(self).view_start + dt,
                old(self).view_span as int,
            ),
            final(self)@.view_valid(),
            500_000_000 <= old(self).view_span && 0 <= old(self).view_start + dt && old(
                self,
            ).view_start + dt + old(self).view_span <= old(self).duration ==> final(self).view_start
                == old(self).view_start + dt && final(self).view_span == old(self).view_span,
            final(self).marks@ == old(self).marks@,
    {
        self.show(self.view_start as i128 + dt as i128, self.view_span as i128);
    }

    /// Between which times mark `i` can be moved.
    pub fn neighbor_limits(&self, i: usize) -> (r: (i64, i64))
        requires
            i <= self.marks@.len(),
        ensures
            r.0 == lower_limit(self.marks@, i as int),
            r.1 == upper_limit(self.duration as int, self.marks@, i as int),
    {
        let lo: i64 = if i > 0 {
            as_i64(self.marks[i - 1] as i128 + MIN_GAP as i128)
        } else {
            MIN_GAP
        };
        let n: usize = self.marks.len();
        let hi: i64 = if i < n && i + 1 < n {
            as_i64(self.marks[i + 1] as i128 - MIN_GAP as i128)
        } else {
            as_i64(self.duration as i128 - MIN_GAP as i128)
        };
        (lo, hi)
    }

    /// Moves mark `i` towards `t`, as far as its neighbours let it.
    pub fn move_marker(&mut self, i: usize, t: i64)
        requires
            i < old(self).marks@.len(),
        ensures
            final(self)@ == old(self)@.with_moved(i as int, t as int),
    {
        let (lo, hi) = self.neighbor_limits(i);
        let hi: i64 = if hi < lo {
            lo
        } else {
            hi
        };
        let to: i64 = clamp(t, lo, hi);
        self.marks.set(i, to);
    }

    /// Moves the selected mark by `delta`. Says whether there is one.
    pub fn nudge(&mut self, delta: i64) -> (r: bool)
        requires
            old(self)@.selection_valid(),
        ensures
            r == old(self).sel is Some,
            final(self)@ == old(self)@.nudged(delta as int),
    {
        match self.sel {
            Some(i) => {
                let to: i64 = as_i64(self.marks[i] as i128 + delta as i128);
                self.move_marker(i, to);
                true
            },
            None => false,
        }
    }

    /// Adds a mark and selects it, or selects the first one that is near. Says whether a
    /// mark was added.
    pub fn add_marker(&mut self, t: i64) -> (r: bool)
        ensures
            r == old(self)@.beside(t as int) is None,
            final(self)@ == old(self)@.with_added(t as int),
            final(self)@.selection_valid(),
            final(self).sel is Some,
            r ==> sorted(final(self).marks@),
            r ==> final(self).marks@.to_multiset() == old(self).marks@.push(
                inside(old(self).duration as int, t as int) as i64,
            ).to_multiset(),
            r ==> final(self).marks@[final(self).sel->0 as int] == inside(
                old(self).duration as int,
                t as int,
            ),
    {
        let at: i64 = self.placed(t);
        let least: i128 = to_seconds(NEAR);
        let mut i: usize = 0;
        while i < self.marks.len()
            invariant
                *self == *old(self),
                least == in_seconds(NEAR as int),
                -0x10_0000_0000_0000_0000_0000_0000_0000 <= least,
                at == inside(self.duration as int, t as int),
                i <= self.marks@.len(),
                near_from(self.marks@, at as int, i as int) == self@.beside(t as int),
            decreases self.marks@.len() - i,
        {
            let d: i128 = difference(self.marks[i], at);
            if -least < d && d < least {
                self.sel = Some(i);
                return false;
            }
            i = i + 1;
        }
        let ghost all = self.marks@.push(at);
        self.marks.push(at);
        self.marks = sort(&self.marks);
        proof {
            broadcast use vstd::seq_lib::group_to_multiset_ensures;

            assert(all[all.len() - 1] == at);
            assert(all.to_multiset().count(at) > 0);
            assert(self.marks@.contains(at));
        }
        let n: usize = self.marks.len();
        let mut i: usize = 0;
        while self.marks[i] != at
            invariant
                n == self.marks@.len(),
                self.marks@.contains(at),
                i < n,
                forall|j: int| 0 <= j < i ==> self.marks@[j] != at,
                place_from(self.marks@, at as int, i as int) == place_from(
                    self.marks@,
                    at as int,
                    0,
                ),
            decreases self.marks@.len() - i,
        {
            assert(i + 1 < self.marks@.len()) by {
                let k = choose|k: int| 0 <= k < self.marks@.len() && self.marks@[k] == at;
                assert(k > i);
            }
            i = i + 1;
        }
        self.sel = Some(i);
        true
    }

    /// Deletes mark `i`, and selects the one that takes its place.
    pub fn delete(&mut self, i: usize)
        ensures
            final(self)@ == old(self)@.without(i as int),
            old(self)@.selection_valid() ==> final(self)@.selection_valid(),
    {
        if i >= self.marks.len() {
            return ;
        }
        self.marks.remove(i);
        let n: usize = self.marks.len();
        self.sel = if n == 0 {
            None
        } else if i < n {
            Some(i)
        } else {
            Some(n - 1)
        };
    }

    /// Deletes the selected mark.
    pub fn delete_selected(&mut self)
        ensures
            final(self)@ == old(self)@.without_selected(),
            old(self)@.selection_valid() ==> final(self)@.selection_valid(),
    {
        if let Some(i) = self.sel {
            self.delete(i);
        }
    }

    /// Selects the mark that is `step` behind the selected one, and shows it.
    pub fn select_relative(&mut self, step: isize)
        ensures
            final(self)@ == old(self)@.selecting(step as int),
            old(self)@.selection_valid() ==> final(self)@.selection_valid(),
            old(self)@.view_valid() ==> final(self)@.view_valid(),
    {
        let n: usize = self.marks.len();
        if n == 0 {
            return ;
        }
        let next: usize = match self.sel {
            None => 0,
            Some(i) => {
                let at: i128 = i as i128 + step as i128;
                if at < 0 {
                    0
                } else if at > (n - 1) as i128 {
                    n - 1
                } else {
                    at as usize
                }
            },
        };
        self.sel = Some(next);
        let t: i64 = self.marks[next];
        if !self.is_shown(t) {
            self.center_on(t, None);
        }
    }

    /// Whether a time is shown.
    pub fn is_shown(&self, t: i64) -> (r: bool)
        ensures
            r == self@.shows(t as int),
    {
        t >= self.view_start && t as i128 <= self.view_start as i128 + self.view_span as i128
    }

    /// Where the tracks begin and end: the beginning, each mark, and the end.
    pub fn bounds(&self) -> (r: Vec<i64>)
        ensures
            r@ == self@.bounds(),
    {
        let mut r: Vec<i64> = Vec::new();
        r.push(0);
        let mut i: usize = 0;
        while i < self.marks.len()
            invariant
                i <= self.marks@.len(),
                r@ == seq![0i64] + self.marks@.take(i as int),
            decreases self.marks@.len() - i,
        {
            r.push(self.marks[i]);
            i = i + 1;
            assert(r@ =~= seq![0i64] + self.marks@.take(i as int));
        }
        assert(self.marks@.take(self.marks@.len() as int) =~= self.marks@);
        r.push(self.duration);
        assert(r@ =~= self@.bounds());
        r
    }
}

proof fn lemma_offset_bound(before: int, span: int, old_span: int)
    requires
        old_span > 0,
        0 <= span <= i64::MAX,
        -0xffff_ffff_ffff_ffff <= before <= 0xffff_ffff_ffff_ffff,
    ensures
        -0xffff_ffff_ffff_ffff * 0x7fff_ffff_ffff_ffff - 1 <= before * span / old_span
            <= 0xffff_ffff_ffff_ffff * 0x7fff_ffff_ffff_ffff,
{
    let p = before * span;
    assert(-0xffff_ffff_ffff_ffff * 0x7fff_ffff_ffff_ffff <= p <= 0xffff_ffff_ffff_ffff
        * 0x7fff_ffff_ffff_ffff) by (nonlinear_arith)
        requires
            p == before * span,
            0 <= span <= 0x7fff_ffff_ffff_ffff,
            -0xffff_ffff_ffff_ffff <= before <= 0xffff_ffff_ffff_ffff,
    ;
    let q = p / old_span;
    assert(p >= 0 ==> 0 <= q <= p) by (nonlinear_arith)
        requires
            q == p / old_span,
            old_span > 0,
    ;
    assert(p < 0 ==> p <= q <= 0) by (nonlinear_arith)
        requires
            q == p / old_span,
            old_span > 0,
    ;
}

/// The part that is shown lies inside of the recording, unless that is shorter than the
/// shortest span: then the part begins with it.
pub proof fn law_the_view_stays_inside_the_recording(duration: int, start: int, span: int)
    ensures
        duration >= MIN_SPAN ==> MIN_SPAN <= shown_span(duration, span) <= duration,
        duration >= MIN_SPAN ==> 0 <= shown_start(duration, start, span) <= duration - shown_span(
            duration,
            span,
        ),
        duration < MIN_SPAN ==> shown_span(duration, span) == MIN_SPAN && shown_start(
            duration,
            start,
            span,
        ) == 0,
{
}

/// What is shown once can be shown again: showing it changes nothing.
pub proof fn law_showing_again_changes_nothing(duration: int, start: int, span: int)
    ensures
        shown_span(duration, shown_span(duration, span)) == shown_span(duration, span),
        shown_start(duration, shown_start(duration, start, span), shown_span(duration, span))
            == shown_start(duration, start, span),
{
}

/// Zooming leaves the anchor where it is on the screen, up to a nanosecond, as long as the
/// ends of the recording do not move the view.
pub proof fn law_zooming_keeps_the_anchor(
    e: EditorView,
    num: int,
    den: int,
    anchor: Option<i64>,
)
    requires
        den > 0,
        e.view_span > 0,
        ({
            let at = e.anchor(anchor);
            let span = shown_span(e.duration as int, e.view_span * num / den);
            let start = at - (at - e.view_start) * span / e.view_span as int;
            0 <= start && start + span <= e.duration
        }),
    ensures
        ({
            let at = e.anchor(anchor);
            let after = e.zoomed(num, den, anchor);
            0 <= (at - e.view_start) * after.view_span - (at - after.view_start) * e.view_span
                < e.view_span
        }),
{
    let at = e.anchor(anchor);
    let span = shown_span(e.duration as int, e.view_span * num / den);
    let p = (at - e.view_start) * span;
    let offset = p / e.view_span as int;
    assert(e.zoomed(num, den, anchor).view_start == at - offset);
    vstd::arithmetic::div_mod::lemma_fundamental_div_mod(p, e.view_span as int);
    assert(offset * e.view_span == e.view_span * offset) by (nonlinear_arith);
}

/// Whether marks stand in order, with the least gap between them and to the ends.
pub open spec fn spaced(duration: int, marks: Seq<i64>) -> bool {
    &&& forall|i: int, j: int|
        0 <= i < j < marks.len() ==> #[trigger] marks[i] + MIN_GAP <= #[trigger] marks[j]
    &&& forall|i: int|
        0 <= i < marks.len() ==> MIN_GAP <= #[trigger] marks[i] && marks[i] <= duration - MIN_GAP
}

/// Where a moved mark comes to stand, it is the least gap behind the mark before it. It is
/// the least gap before the next one too where the two leave room.
pub proof fn law_a_moved_mark_does_not_cross_its_neighbours(
    duration: int,
    marks: Seq<i64>,
    i: int,
    t: int,
)
    requires
        0 <= i < marks.len(),
    ensures
        i > 0 && marks[i - 1] + MIN_GAP <= i64::MAX ==> moved(duration, marks, i, t) >= marks[i - 1]
            + MIN_GAP,
        0 < i && i + 1 < marks.len() && marks[i - 1] + 2 * MIN_GAP <= marks[i + 1] ==> moved(
            duration,
            marks,
            i,
            t,
        ) <= marks[i + 1] - MIN_GAP,
{
}

/// Moving a mark keeps marks apart and in order.
pub proof fn law_moving_keeps_marks_apart(e: EditorView, i: int, t: int)
    requires
        0 <= i < e.marks.len(),
        spaced(e.duration as int, e.marks),
    ensures
        spaced(e.duration as int, e.with_moved(i, t).marks),
{
    let (duration, marks) = (e.duration as int, e.marks);
    let m = moved(duration, marks, i, t);
    let after = e.with_moved(i, t).marks;
    assert(MIN_GAP <= marks[i] <= duration - MIN_GAP);
    if i > 0 {
        assert(marks[i - 1] + MIN_GAP <= marks[i]);
    }
    if i + 1 < marks.len() {
        assert(marks[i] + MIN_GAP <= marks[i + 1]);
    }
    assert(lower_limit(marks, i) <= m <= upper_limit(duration, marks, i));
    assert forall|j: int, k: int| 0 <= j < k < after.len() implies #[trigger] after[j] + MIN_GAP
        <= #[trigger] after[k] by {
        if k == i {
            assert(j == i - 1 || marks[j] + MIN_GAP <= marks[i - 1]);
        } else if j == i {
            assert(k == i + 1 || marks[i + 1] + MIN_GAP <= marks[k]);
        } else {
            assert(marks[j] + MIN_GAP <= marks[k]);
        }
    }
}

proof fn lemma_none_near(marks: Seq<i64>, t: int, i: int)
    requires
        0 <= i,
        i64::MIN <= t <= i64::MAX,
        near_from(marks, t, i) is None,
    ensures
        forall|j: int|
            i <= j < marks.len() ==> !near(#[trigger] marks[j] as int, t) && !(-MIN_GAP < marks[j]
                - t < MIN_GAP),
    decreases marks.len() - i,
{
    if i < marks.len() {
        lemma_none_near(marks, t, i + 1);
        if -MIN_GAP < marks[i] - t < MIN_GAP {
            lemma_close(marks[i] as int, t, MIN_GAP as int - 1, NEAR as int);
        }
    }
}

/// Adding a mark keeps marks apart, in a recording that has room for one.
pub proof fn law_adding_keeps_marks_apart(e: EditorView, t: int)
    requires
        e.duration >= 2 * MIN_GAP,
        spaced(e.duration as int, e.marks),
    ensures
        spaced(e.duration as int, e.with_added(t).marks),
{
    broadcast use vstd::seq_lib::group_to_multiset_ensures;

    let (duration, marks) = (e.duration as int, e.marks);
    let at = inside(duration, t) as i64;
    if e.beside(t) is None {
        lemma_none_near(marks, at as int, 0);
        let all = marks.push(at);
        let after = in_order(all);
        lemma_in_order(all);
        assert(all.no_duplicates()) by {
            assert forall|i: int, j: int|
                0 <= i < all.len() && 0 <= j < all.len() && i != j implies all[i] != all[j] by {
                if i < marks.len() {
                    assert(!near(marks[i] as int, at as int));
                }
                if j < marks.len() {
                    assert(!near(marks[j] as int, at as int));
                }
            }
        }
        all.lemma_multiset_has_no_duplicates();
        after.lemma_multiset_has_no_duplicates_conv();
        assert forall|i: int| 0 <= i < after.len() implies all.contains(#[trigger] after[i]) by {
            assert(after.contains(after[i]));
            assert(after.to_multiset().count(after[i]) > 0);
        }
        assert forall|i: int, j: int| 0 <= i < j < after.len() implies #[trigger] after[i] + MIN_GAP
            <= #[trigger] after[j] by {
            assert(all.contains(after[i]) && all.contains(after[j]));
            let a = choose|a: int| 0 <= a < all.len() && all[a] == after[i];
            let b = choose|b: int| 0 <= b < all.len() && all[b] == after[j];
            assert(after[i] <= after[j]);
            assert(after[i] != after[j]);
            if a < marks.len() {
                assert(!near(marks[a] as int, at as int));
                if b < marks.len() {
                    assert(a != b);
                    if b < a {
                        assert(marks[b] + MIN_GAP <= marks[a]);
                    } else {
                        assert(marks[a] + MIN_GAP <= marks[b]);
                    }
                }
            } else if b < marks.len() {
                assert(!near(marks[b] as int, at as int));
            }
        }
        assert forall|i: int| 0 <= i < after.len() implies MIN_GAP <= #[trigger] after[i]
            && after[i] <= duration - MIN_GAP by {
            assert(all.contains(after[i]));
            let a = choose|a: int| 0 <= a < all.len() && all[a] == after[i];
            if a < marks.len() {
                assert(MIN_GAP <= marks[a]);
            }
        }
    }
}

/// Deleting a mark keeps marks apart.
pub proof fn law_deleting_keeps_marks_apart(e: EditorView, i: int)
    requires
        0 <= i,
        spaced(e.duration as int, e.marks),
    ensures
        spaced(e.duration as int, e.without(i).marks),
{
    let (duration, marks) = (e.duration as int, e.marks);
    if i < marks.len() {
        let after = e.without(i).marks;
        assert forall|j: int, k: int| 0 <= j < k < after.len() implies #[trigger] after[j] + MIN_GAP
            <= #[trigger] after[k] by {
            let a = if j < i { j } else { j + 1 };
            let b = if k < i { k } else { k + 1 };
            assert(marks[a] + MIN_GAP <= marks[b]);
        }
        assert forall|j: int| 0 <= j < after.len() implies MIN_GAP <= #[trigger] after[j]
            && after[j] <= duration - MIN_GAP by {
            let a = if j < i { j } else { j + 1 };
            assert(MIN_GAP <= marks[a]);
        }
    }
}

/// Whatever is done to the marks, those that stand in order do so afterwards, and the marks
/// that are set do so from the start.
pub proof fn law_marks_stay_in_order(e: EditorView, marks: Seq<i64>, t: int, i: int)
    requires
        0 <= i,
        sorted(e.marks),
    ensures
        sorted(e.with_marks(marks).marks),
        sorted(e.with_added(t).marks),
        sorted(e.without(i).marks),
{
    lemma_in_order(marks.map_values(|m: i64| inside(e.duration as int, m as int) as i64));
    lemma_in_order(e.marks.push(inside(e.duration as int, t) as i64));
}

// ---------- what editing does ----------

/// How far two times lie apart.
pub open spec fn gap(a: int, b: int) -> int {
    if a < b {
        b - a
    } else {
        a - b
    }
}

/// A mark is put where it is asked for, or as near to that as a twentieth of a second from the
/// ends of the recording lets it.
pub proof fn law_a_mark_is_put_as_near_as_it_can_be(duration: int, t: int, other: int)
    ensures
        50_000_000 <= t <= duration - 50_000_000 ==> inside(duration, t) == t,
        50_000_000 <= inside(duration, t),
        duration >= 100_000_000 ==> inside(duration, t) <= duration - 50_000_000,
        duration < 100_000_000 ==> inside(duration, t) == 50_000_000,
        50_000_000 <= other <= duration - 50_000_000 ==> gap(inside(duration, t), t) <= gap(
            other,
            t,
        ),
{
}

/// Moving a mark moves that mark alone: to where it is asked for, or as near to that as a
/// twentieth of a second from its neighbours and from the ends of the recording lets it.
pub proof fn law_a_mark_moves_as_near_as_it_can(e: EditorView, i: int, t: int, other: int)
    requires
        0 <= i < e.marks.len(),
        i64::MIN <= t <= i64::MAX,
        0 <= e.duration,
        forall|j: int| 0 <= j < e.marks.len() ==> 0 <= #[trigger] e.marks[j],
    ensures
        ({
            let after = e.with_moved(i, t);
            let m = after.marks[i];
            let lo = if i == 0 {
                50_000_000
            } else {
                e.marks[i - 1] + 50_000_000
            };
            let hi = if i == e.marks.len() - 1 {
                e.duration - 50_000_000
            } else {
                e.marks[i + 1] - 50_000_000
            };
            &&& after.marks.len() == e.marks.len()
            &&& forall|j: int|
                0 <= j < e.marks.len() && j != i ==> #[trigger] after.marks[j] == e.marks[j]
            &&& lo <= hi ==> lo <= m <= hi
            &&& lo <= t <= hi ==> m == t
            &&& lo <= other <= hi ==> gap(m as int, t) <= gap(other, t)
            &&& hi < lo <= i64::MAX ==> m == lo
            &&& after == (EditorView { marks: after.marks, ..e })
        }),
{
}

/// Nudging moves the selected mark alone, by what is asked for as far as its neighbours let it.
pub proof fn law_nudging_moves_the_selected_mark(e: EditorView, delta: int)
    requires
        e.selection_valid(),
    ensures
        e.sel is None ==> e.nudged(delta) == e,
        e.sel matches Some(i) ==> {
            &&& i64::MIN <= e.marks[i as int] + delta <= i64::MAX ==> e.nudged(delta) == e.with_moved(
                i as int,
                e.marks[i as int] + delta,
            )
            &&& e.nudged(delta).sel == e.sel
            &&& forall|j: int|
                0 <= j < e.marks.len() && j != i ==> #[trigger] e.nudged(delta).marks[j]
                    == e.marks[j]
        },
{
}

/// Times that lie clearly closer than a fifth of a second are near, and times that lie clearly
/// further apart are not.
pub proof fn law_near_is_a_fifth_of_a_second(a: int, b: int)
    requires
        i64::MIN <= a <= i64::MAX,
        i64::MIN <= b <= i64::MAX,
    ensures
        gap(a, b) <= 199_990_000 ==> near(a, b),
        gap(a, b) >= 200_010_000 ==> !near(a, b),
{
    lemma_in_seconds(a);
    lemma_in_seconds(b);
    lemma_in_seconds(NEAR as int);
    lemma_signed_double(in_seconds(a) - in_seconds(b));
}

proof fn lemma_near_from(marks: Seq<i64>, t: int, i: int)
    requires
        0 <= i,
        marks.len() <= usize::MAX,
    ensures
        match near_from(marks, t, i) {
            Some(k) => i <= k < marks.len() && near(marks[k as int] as int, t) && forall|j: int|
                i <= j < k ==> !near(#[trigger] marks[j] as int, t),
            None => forall|j: int| i <= j < marks.len() ==> !near(#[trigger] marks[j] as int, t),
        },
    decreases marks.len() - i,
{
    if i < marks.len() {
        lemma_near_from(marks, t, i + 1);
    }
}

proof fn lemma_place_from(marks: Seq<i64>, t: int, i: int)
    requires
        0 <= i,
        marks.len() <= usize::MAX,
        exists|k: int| i <= k < marks.len() && #[trigger] marks[k] == t,
    ensures
        place_from(marks, t, i) matches Some(k) && i <= k < marks.len() && marks[k as int] == t,
    decreases marks.len() - i,
{
    if marks[i] != t {
        lemma_place_from(marks, t, i + 1);
    }
}

/// Adding beside a mark, closer than a fifth of a second, selects the first such mark and changes
/// nothing else.
pub proof fn law_adding_beside_a_mark_selects_it(e: EditorView, t: int, k: int)
    requires
        0 <= k < e.marks.len() <= usize::MAX,
        100_000_000 <= e.duration,
        gap(e.marks[k] as int, inside(e.duration as int, t)) <= 199_990_000,
    ensures
        e.beside(t) is Some,
        e.with_added(t).sel matches Some(i) && i <= k && gap(
            e.marks[i as int] as int,
            inside(e.duration as int, t),
        ) < 200_010_000 && forall|j: int|
            0 <= j < i ==> gap(#[trigger] e.marks[j] as int, inside(e.duration as int, t))
                > 199_990_000,
        e.with_added(t) == (EditorView { sel: e.with_added(t).sel, ..e }),
{
    let at = inside(e.duration as int, t);
    lemma_near_from(e.marks, at, 0);
    law_near_is_a_fifth_of_a_second(e.marks[k] as int, at);
    if let Some(i) = e.beside(t) {
        law_near_is_a_fifth_of_a_second(e.marks[i as int] as int, at);
        assert forall|j: int| 0 <= j < i implies gap(#[trigger] e.marks[j] as int, at)
            > 199_990_000 by {
            law_near_is_a_fifth_of_a_second(e.marks[j] as int, at);
        }
    }
}

/// Adding away from every mark puts one mark more there, in order, and selects it. The marks that
/// were there stay, and so does whatever else there is.
pub proof fn law_adding_puts_one_mark_more(e: EditorView, t: int)
    requires
        e.marks.len() < usize::MAX,
        100_000_000 <= e.duration,
        forall|k: int|
            0 <= k < e.marks.len() ==> gap(
                #[trigger] e.marks[k] as int,
                inside(e.duration as int, t),
            ) >= 200_010_000,
    ensures
        ({
            let at = inside(e.duration as int, t) as i64;
            let after = e.with_added(t);
            &&& e.beside(t) is None
            &&& after.marks.len() == e.marks.len() + 1
            &&& after.marks.to_multiset() == e.marks.to_multiset().insert(at)
            &&& forall|i: int, j: int|
                0 <= i <= j < after.marks.len() ==> #[trigger] after.marks[i]
                    <= #[trigger] after.marks[j]
            &&& after.sel matches Some(i) && i < after.marks.len() && after.marks[i as int] == at
            &&& after == (EditorView { marks: after.marks, sel: after.sel, ..e })
        }),
{
    broadcast use vstd::seq_lib::group_to_multiset_ensures;

    let at = inside(e.duration as int, t) as i64;
    lemma_near_from(e.marks, at as int, 0);
    if let Some(k) = near_from(e.marks, at as int, 0) {
        law_near_is_a_fifth_of_a_second(e.marks[k as int] as int, at as int);
    }
    let all = e.marks.push(at);
    lemma_in_order(all);
    let after = in_order(all);
    assert(after.len() == all.len()) by {
        assert(after.to_multiset().len() == all.to_multiset().len());
    }
    assert(all[all.len() - 1] == at);
    assert(all.to_multiset().count(at) > 0);
    assert(after.contains(at));
    let k = choose|k: int| 0 <= k < after.len() && #[trigger] after[k] == at;
    lemma_place_from(after, at as int, 0);
}

/// Deleting takes out the mark at that place and no other. The mark that takes its place is
/// selected, or the last one.
pub proof fn law_deleting_takes_out_one_mark(e: EditorView, i: int)
    requires
        0 <= i,
        e.marks.len() <= usize::MAX,
    ensures
        ({
            let after = e.without(i);
            &&& i >= e.marks.len() ==> after == e
            &&& i < e.marks.len() ==> {
                &&& after.marks.len() == e.marks.len() - 1
                &&& forall|j: int| 0 <= j < i ==> #[trigger] after.marks[j] == e.marks[j]
                &&& forall|j: int|
                    i <= j < after.marks.len() ==> #[trigger] after.marks[j] == e.marks[j + 1]
                &&& after.sel is None <==> e.marks.len() == 1
                &&& i < e.marks.len() - 1 ==> after.sel == Some(i as usize)
                &&& i == e.marks.len() - 1 > 0 ==> after.sel == Some((i - 1) as usize)
                &&& after == (EditorView { marks: after.marks, sel: after.sel, ..e })
            }
        }),
        e.sel is None ==> e.without_selected() == e,
        e.sel matches Some(s) ==> e.without_selected() == e.without(s as int),
{
}

/// Adding a mark and deleting it gives the marks that were there.
pub proof fn law_deleting_what_was_added_undoes_it(e: EditorView, t: int)
    requires
        e.marks.len() < usize::MAX,
        sorted(e.marks),
        e.beside(t) is None,
    ensures
        e.with_added(t).without_selected().marks == e.marks,
{
    broadcast use vstd::seq_lib::group_to_multiset_ensures;

    let at = inside(e.duration as int, t) as i64;
    let all = e.marks.push(at);
    lemma_in_order(all);
    let after = in_order(all);
    assert(after.to_multiset().len() == all.to_multiset().len());
    assert(all[all.len() - 1] == at);
    assert(all.to_multiset().count(at) > 0);
    assert(after.contains(at));
    let k = choose|k: int| 0 <= k < after.len() && #[trigger] after[k] == at;
    lemma_place_from(after, at as int, 0);
    let i = place_from(after, at as int, 0)->0 as int;
    let left = after.remove(i);
    assert(left.to_multiset() =~= e.marks.to_multiset()) by {
        assert(left.to_multiset() =~= after.to_multiset().remove(at));
    }
    assert(sorted(left));
    lemma_in_order_is_unique(e.marks, left);
    lemma_in_order_is_unique(e.marks, e.marks);
}

/// Setting marks keeps as many, each brought inside of the recording, in order, and selects the
/// first one. What is shown and the playhead stay.
pub proof fn law_setting_marks_keeps_all_of_them(e: EditorView, marks: Seq<i64>)
    ensures
        ({
            let after = e.with_marks(marks);
            &&& after.marks.len() == marks.len()
            &&& after.marks.to_multiset() == marks.map_values(
                |m: i64| inside(e.duration as int, m as int) as i64,
            ).to_multiset()
            &&& forall|i: int, j: int|
                0 <= i <= j < after.marks.len() ==> #[trigger] after.marks[i]
                    <= #[trigger] after.marks[j]
            &&& after.sel == if marks.len() > 0 {
                Some(0usize)
            } else {
                None
            }
            &&& after == (EditorView { marks: after.marks, sel: after.sel, ..e })
        }),
{
    broadcast use vstd::seq_lib::group_to_multiset_ensures;

    let placed = marks.map_values(|m: i64| inside(e.duration as int, m as int) as i64);
    lemma_in_order(placed);
    assert(in_order(placed).to_multiset().len() == placed.to_multiset().len());
}

/// Marks that are in order and have their distance to the ends are set as they are.
pub proof fn law_proper_marks_are_set_as_they_are(e: EditorView, marks: Seq<i64>)
    requires
        forall|i: int, j: int|
            0 <= i <= j < marks.len() ==> #[trigger] marks[i] <= #[trigger] marks[j],
        forall|i: int|
            0 <= i < marks.len() ==> 50_000_000 <= #[trigger] marks[i] <= e.duration - 50_000_000,
    ensures
        e.with_marks(marks).marks == marks,
{
    let placed = marks.map_values(|m: i64| inside(e.duration as int, m as int) as i64);
    assert(placed =~= marks);
    lemma_in_order_is_unique(marks, marks);
}

/// The stretch that is shown has the length that is asked for, as near as half a second and the
/// length of the recording let it, and begins where it is asked to, as near as the ends of the
/// recording let it. Nothing else changes.
pub proof fn law_what_is_shown_is_as_near_as_it_can_be(
    e: EditorView,
    start: int,
    span: int,
    other: int,
)
    requires
        500_000_000 <= e.duration,
    ensures
        ({
            let after = e.showing(start, span);
            &&& 500_000_000 <= after.view_span <= e.duration
            &&& 500_000_000 <= other <= e.duration ==> gap(after.view_span as int, span) <= gap(
                other,
                span,
            )
            &&& 0 <= after.view_start <= e.duration - after.view_span
            &&& 0 <= other <= e.duration - after.view_span ==> gap(after.view_start as int, start)
                <= gap(other, start)
            &&& after == (EditorView {
                view_start: after.view_start,
                view_span: after.view_span,
                ..e
            })
        }),
{
}

/// What is centered on is in the middle of what is shown, unless the ends of the recording are
/// in the way. It is shown at any rate, if it lies in the recording.
pub proof fn law_centering_puts_a_time_in_the_middle(e: EditorView, t: int, span: Option<i64>)
    requires
        500_000_000 <= e.duration,
        0 <= t <= e.duration,
        500_000_000 <= e.view_span <= e.duration,
        span matches Some(s) ==> 500_000_000 <= s <= e.duration,
    ensures
        ({
            let after = e.centered(t, span);
            let s = match span {
                Some(s) => s,
                None => e.view_span,
            };
            &&& after.view_span == s
            &&& after.view_start <= t <= after.view_start + after.view_span
            &&& 0 < after.view_start && after.view_start + s < e.duration ==> 0 <= 2 * after.view_start
                + s - 2 * t <= 1
            &&& after.view_start == 0 && s < e.duration ==> 2 * t <= s
            &&& 0 < after.view_start && after.view_start + s == e.duration ==> 2 * t + s >= 2
                * e.duration - 1
            &&& after == (EditorView {
                view_start: after.view_start,
                view_span: after.view_span,
                ..e
            })
        }),
{
}

/// Zooming multiplies the length that is shown, as near as half a second and the length of the
/// recording let it.
pub proof fn law_zooming_multiplies_the_span(
    e: EditorView,
    num: int,
    den: int,
    anchor: Option<i64>,
    other: int,
)
    requires
        den > 0,
        500_000_000 <= e.duration,
        500_000_000 <= e.view_span,
    ensures
        ({
            let after = e.zoomed(num, den, anchor);
            let wanted = e.view_span * num / den;
            &&& 500_000_000 <= after.view_span <= e.duration
            &&& 500_000_000 <= other <= e.duration ==> gap(after.view_span as int, wanted) <= gap(
                other,
                wanted,
            )
            &&& after == (EditorView {
                view_start: after.view_start,
                view_span: after.view_span,
                ..e
            })
        }),
{
}

/// Zooming leaves the anchor, or the middle of what is shown, where it is on the screen: if a
/// beginning in the recording does so, the stretch begins there.
pub proof fn law_zooming_leaves_the_anchor(
    e: EditorView,
    num: int,
    den: int,
    anchor: Option<i64>,
    start: int,
)
    requires
        den > 0,
        500_000_000 <= e.duration,
        500_000_000 <= e.view_span,
        ({
            let at = match anchor {
                Some(t) => t as int,
                None => e.view_start + e.view_span / 2,
            };
            let span = e.zoomed(num, den, anchor).view_span;
            &&& 0 <= (at - e.view_start) * span - (at - start) * e.view_span < e.view_span
            &&& 0 <= start <= e.duration - span
        }),
    ensures
        e.zoomed(num, den, anchor).view_start == start,
{
    let at = match anchor {
        Some(t) => t as int,
        None => e.view_start + e.view_span / 2,
    };
    let span = e.zoomed(num, den, anchor).view_span as int;
    let p = (at - e.view_start) * span;
    let d = e.view_span as int;
    assert(p == (at - start) * d + (p - (at - start) * d));
    vstd::arithmetic::div_mod::lemma_fundamental_div_mod_converse(
        p,
        d,
        at - start,
        p - (at - start) * d,
    );
}

/// Selecting goes so many marks on, to the last one on the way, or to the first mark where none
/// is selected. The mark is shown then, and what is shown moves only where it was not. The marks
/// and the playhead stay.
pub proof fn law_selecting_goes_from_mark_to_mark(e: EditorView, step: int)
    requires
        e.selection_valid(),
        e.view_valid(),
        500_000_000 <= e.duration,
        0 < e.marks.len() <= usize::MAX,
        forall|i: int| 0 <= i < e.marks.len() ==> 0 <= #[trigger] e.marks[i] <= e.duration,
    ensures
        ({
            let after = e.selecting(step);
            &&& after.sel matches Some(n) && {
                &&& n < e.marks.len()
                &&& e.sel is None ==> n == 0
                &&& e.sel matches Some(i) ==> {
                    &&& 0 <= i + step < e.marks.len() ==> n == i + step
                    &&& i + step < 0 ==> n == 0
                    &&& i + step >= e.marks.len() ==> n == e.marks.len() - 1
                }
                &&& after.view_start <= e.marks[n as int] <= after.view_start + after.view_span
                &&& e.view_start <= e.marks[n as int] <= e.view_start + e.view_span
                    ==> after.view_start == e.view_start
            }
            &&& after.view_span == e.view_span
            &&& after.marks == e.marks
            &&& after.playhead == e.playhead
            &&& after.duration == e.duration
        }),
{
}

/// A new recording has no marks, nothing is selected, the playhead is at its beginning, and its
/// first minute is shown, or all of it where it is shorter.
pub proof fn law_a_recording_is_shown_from_its_beginning(duration: i64)
    requires
        500_000_000 <= duration,
    ensures
        ({
            let e = EditorView::fresh(duration);
            &&& e.duration == duration
            &&& e.marks.len() == 0
            &&& e.sel is None
            &&& e.playhead == 0
            &&& e.view_start == 0
            &&& e.view_span == if duration < 60_000_000_000 {
                duration as int
            } else {
                60_000_000_000
            }
        }),
{
}

/// The tracks go from the beginning to the first mark, from mark to mark, and from the last mark
/// to the end.
pub proof fn law_marks_bound_the_tracks(e: EditorView)
    ensures
        e.bounds().len() == e.marks.len() + 2,
        e.bounds()[0] == 0,
        e.bounds().last() == e.duration,
        forall|i: int| 0 <= i < e.marks.len() ==> e.bounds()[i + 1] == #[trigger] e.marks[i],
{
}

/// A mark can be moved up to a twentieth of a second from its neighbours, and from the ends of the
/// recording where it has none.
pub proof fn law_neighbours_limit_a_mark(duration: int, marks: Seq<i64>, i: int)
    requires
        0 <= i < marks.len(),
        0 <= duration <= i64::MAX,
        forall|j: int|
            0 <= j < marks.len() ==> 0 <= #[trigger] marks[j] <= i64::MAX - 50_000_000,
    ensures
        lower_limit(marks, i) == 50_000_000 + (if i == 0 {
            0
        } else {
            marks[i - 1] as int
        }),
        upper_limit(duration, marks, i) == (if i == marks.len() - 1 {
            duration
        } else {
            marks[i + 1] as int
        }) - 50_000_000,
{
}

} // verus!
