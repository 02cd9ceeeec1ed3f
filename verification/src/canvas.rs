//! Where things are on the drawn waveform. Widths and positions on the screen are in parts
//! of a pixel, and positions count from the left edge.

use crate::editor::{as_time, fmt_dur, fmt_time, Editor, EditorView};
use crate::text::decimal;
use crate::text::push_large;
use crate::times::{duration_text, time_text, SECOND};
use vstd::prelude::*;

verus! {

/// Parts of a pixel.
pub const PIXEL: u32 = 256;

/// Pixels between two labels of the ruler, at least.
pub const LABEL_GAP: u32 = 90;

// ---------- positions ----------

/// The quotient, rounded down.
fn floor_div(a: i128, b: i128) -> (r: i128)
    requires
        b > 0,
        -0x1000_0000_0000_0000_0000_0000_0000 <= a <= 0x1000_0000_0000_0000_0000_0000_0000,
    ensures
        r == a / b,
        -0x1000_0000_0000_0000_0000_0000_0000 <= r <= 0x1000_0000_0000_0000_0000_0000_0000,
{
    let r: i128 = crate::editor::floor_div(a, b);
    proof {
        assert(-0x1000_0000_0000_0000_0000_0000_0000 <= r
            <= 0x1000_0000_0000_0000_0000_0000_0000) by (nonlinear_arith)
            requires
                r == a / b,
                b > 0,
                -0x1000_0000_0000_0000_0000_0000_0000 <= a <= 0x1000_0000_0000_0000_0000_0000_0000,
        ;
    }
    r
}

impl EditorView {
    /// The time at a position of a drawing of a width.
    pub open spec fn time_at(self, offset: int, width: int) -> int {
        as_time(self.view_start + offset * self.view_span / width)
    }

    /// How far a mark is drawn from a position, in parts of a part of a pixel: as many as the
    /// span that is shown has nanoseconds.
    pub open spec fn distance(self, i: int, offset: int, width: int) -> int {
        let d = (self.marks[i] - self.view_start) * width - offset * self.view_span;
        if d < 0 {
            -d
        } else {
            d
        }
    }

    /// The nearest of the first `n` marks to a position, and the first of several that are
    /// as near, where one is within the tolerance.
    pub open spec fn hit(self, n: int, offset: int, width: int, tolerance: int) -> Option<usize>
        decreases n,
    {
        if n <= 0 {
            None
        } else {
            let before = self.hit(n - 1, offset, width, tolerance);
            let d = self.distance(n - 1, offset, width);
            if d > tolerance * self.view_span {
                before
            } else {
                match before {
                    Some(i) if self.distance(i as int, offset, width) <= d => before,
                    _ => Some((n - 1) as usize),
                }
            }
        }
    }

    /// The mark at a position.
    pub open spec fn hit_at(self, offset: int, width: int, tolerance: int) -> Option<usize> {
        self.hit(self.marks.len() as int, offset, width, tolerance)
    }
}

proof fn lemma_hit(e: EditorView, n: int, offset: int, width: int, tolerance: int)
    requires
        n <= e.marks.len(),
        e.marks.len() <= usize::MAX,
    ensures
        match e.hit(n, offset, width, tolerance) {
            Some(i) => {
                &&& 0 <= i < n
                &&& e.distance(i as int, offset, width) <= tolerance * e.view_span
                &&& forall|j: int|
                    0 <= j < n ==> e.distance(i as int, offset, width) <= #[trigger] e.distance(
                        j,
                        offset,
                        width,
                    )
                &&& forall|j: int|
                    0 <= j < i ==> e.distance(i as int, offset, width) < #[trigger] e.distance(
                        j,
                        offset,
                        width,
                    )
            },
            None => forall|j: int|
                0 <= j < n ==> #[trigger] e.distance(j, offset, width) > tolerance * e.view_span,
        },
    decreases n,
{
    if n > 0 {
        lemma_hit(e, n - 1, offset, width, tolerance);
    }
}

/// The mark at a position is the nearest one, and the first of several that are as near. None
/// is hit only where all are beyond the tolerance.
pub proof fn law_the_nearest_mark_is_hit(e: EditorView, offset: int, width: int, tolerance: int)
    requires
        e.marks.len() <= usize::MAX,
    ensures
        match e.hit_at(offset, width, tolerance) {
            Some(i) => {
                &&& i < e.marks.len()
                &&& e.distance(i as int, offset, width) <= tolerance * e.view_span
                &&& forall|j: int|
                    0 <= j < e.marks.len() ==> e.distance(i as int, offset, width)
                        <= #[trigger] e.distance(j, offset, width)
                &&& forall|j: int|
                    0 <= j < i ==> e.distance(i as int, offset, width) < #[trigger] e.distance(
                        j,
                        offset,
                        width,
                    )
            },
            None => forall|j: int|
                0 <= j < e.marks.len() ==> #[trigger] e.distance(j, offset, width) > tolerance
                    * e.view_span,
        },
{
    lemma_hit(e, e.marks.len() as int, offset, width, tolerance);
}

proof fn lemma_product(a: int, b: int)
    requires
        -0x1_0000_0000_0000_0000 <= a <= 0x1_0000_0000_0000_0000,
        -0x1_0000_0000 <= b <= 0x1_0000_0000,
    ensures
        -0x100_0000_0000_0000_0000_0000_0000 <= a * b <= 0x100_0000_0000_0000_0000_0000_0000,
{
    assert(-0x100_0000_0000_0000_0000_0000_0000 <= a * b
        <= 0x100_0000_0000_0000_0000_0000_0000) by (nonlinear_arith)
        requires
            -0x1_0000_0000_0000_0000 <= a <= 0x1_0000_0000_0000_0000,
            -0x1_0000_0000 <= b <= 0x1_0000_0000,
    ;
}

impl Editor {
    /// The time at a position of a drawing of a width.
    pub fn time_at(&self, offset: i32, width: u32) -> (r: i64)
        requires
            width > 0,
        ensures
            r == self@.time_at(offset as int, width as int),
    {
        proof {
            lemma_product(self.view_span as int, offset as int);
            assert(offset * self.view_span == self.view_span * offset) by (nonlinear_arith);
        }
        let d: i128 = floor_div(offset as i128 * self.view_span as i128, width as i128);
        crate::editor::as_i64(self.view_start as i128 + d)
    }

    /// How far a mark is drawn from a position.
    fn distance(&self, i: usize, offset: i32, width: u32) -> (r: i128)
        requires
            i < self.marks@.len(),
        ensures
            r == self@.distance(i as int, offset as int, width as int),
    {
        proof {
            lemma_product(self.view_span as int, offset as int);
            assert(offset * self.view_span == self.view_span * offset) by (nonlinear_arith);
            lemma_product(self.marks@[i as int] - self.view_start, width as int);
        }
        let at: i128 = (self.marks[i] as i128 - self.view_start as i128) * width as i128;
        let d: i128 = at - offset as i128 * self.view_span as i128;
        if d < 0 {
            -d
        } else {
            d
        }
    }

    /// The mark at a position of a drawing of a width.
    pub fn hit_marker(&self, offset: i32, width: u32, tolerance: u32) -> (r: Option<usize>)
        ensures
            r == self@.hit_at(offset as int, width as int, tolerance as int),
            r matches Some(i) ==> i < self.marks@.len() && -tolerance * self.view_span <= (
            self.marks@[i as int] - self.view_start) * width - offset * self.view_span <= tolerance
                * self.view_span,
            r is None ==> forall|k: int|
                0 <= k < self.marks@.len() ==> !(-tolerance * self.view_span <= (
                #[trigger] self.marks@[k] - self.view_start) * width - offset * self.view_span
                    <= tolerance * self.view_span),
    {
        proof {
            lemma_product(self.view_span as int, tolerance as int);
            assert(tolerance * self.view_span == self.view_span * tolerance) by (nonlinear_arith);
        }
        let limit: i128 = tolerance as i128 * self.view_span as i128;
        let mut best: Option<usize> = None;
        let mut least: i128 = 0;
        let mut i: usize = 0;
        while i < self.marks.len()
            invariant
                i <= self.marks@.len(),
                limit == tolerance * self.view_span,
                best == self@.hit(i as int, offset as int, width as int, tolerance as int),
                best matches Some(k) ==> k < i && least == self@.distance(
                    k as int,
                    offset as int,
                    width as int,
                ),
            decreases self.marks@.len() - i,
        {
            let d: i128 = self.distance(i, offset, width);
            if d <= limit && (best.is_none() || d < least) {
                best = Some(i);
                least = d;
            }
            i = i + 1;
        }
        proof {
            law_a_mark_is_hit_where_it_is_drawn(
                self@,
                offset as int,
                width as int,
                tolerance as int,
            );
            assert(-tolerance * self.view_span == -(tolerance * self.view_span))
                by (nonlinear_arith);
        }
        best
    }

    /// Whether track `k` is shown, if only in part.
    pub fn track_is_shown(&self, k: usize) -> (r: bool)
        requires
            k <= self.marks@.len(),
        ensures
            r == (self@.bounds()[k + 1] >= self.view_start && self@.bounds()[k as int]
                <= self.view_start + self.view_span),
    {
        let (from, to) = self.track(k);
        to >= self.view_start && from as i128 <= self.view_start as i128 + self.view_span as i128
    }

    /// From when to when track `k` goes.
    pub fn track(&self, k: usize) -> (r: (i64, i64))
        requires
            k <= self.marks@.len(),
        ensures
            r == (self@.bounds()[k as int], self@.bounds()[k + 1]),
    {
        let from: i64 = if k == 0 {
            0
        } else {
            self.marks[k - 1]
        };
        let to: i64 = if k == self.marks.len() {
            self.duration
        } else {
            self.marks[k]
        };
        (from, to)
    }

    /// The label of track `k`.
    pub fn track_label(&self, k: usize) -> (r: String)
        requires
            k <= self.marks@.len(),
        ensures
            r@ == "Track "@ + decimal((k + 1) as nat) + "  ("@ + duration_text(
                as_time(self@.bounds()[k + 1] - self@.bounds()[k as int]),
            ) + ")"@,
    {
        let (from, to) = self.track(k);
        let length: i64 = crate::editor::as_i64(to as i128 - from as i128);
        let mut r: String = "Track ".to_owned();
        push_large(&mut r, k as u128 + 1);
        r.append("  (");
        r.append(fmt_dur(length).as_str());
        r.append(")");
        r
    }
}

// ---------- ruler ----------

/// The steps that a ruler may have.
pub open spec fn steps() -> Seq<i64> {
    seq![
        10_000_000i64,
        20_000_000,
        50_000_000,
        100_000_000,
        200_000_000,
        500_000_000,
        1_000_000_000,
        2_000_000_000,
        5_000_000_000,
        10_000_000_000,
        15_000_000_000,
        30_000_000_000,
        60_000_000_000,
        120_000_000_000,
        300_000_000_000,
        600_000_000_000,
        900_000_000_000,
        1_800_000_000_000,
    ]
}

/// Whether labels at a step have room.
pub open spec fn roomy(step: int, width: int, span: int) -> bool {
    step * width >= LABEL_GAP * PIXEL * span
}

/// The first step from place `i` on at which labels have room, or the largest one.
pub open spec fn step_from(width: int, span: int, i: int) -> i64
    decreases steps().len() - i,
{
    if i < 0 || i >= steps().len() {
        1_800_000_000_000
    } else if roomy(steps()[i] as int, width, span) {
        steps()[i]
    } else {
        step_from(width, span, i + 1)
    }
}

/// The step of a ruler.
pub fn ruler_step(width: u32, span: i64) -> (r: i64)
    requires
        span >= 0,
    ensures
        r == step_from(width as int, span as int, 0),
        r > 0,
{
    let all: Vec<i64> = vec![
        10_000_000,
        20_000_000,
        50_000_000,
        100_000_000,
        200_000_000,
        500_000_000,
        1_000_000_000,
        2_000_000_000,
        5_000_000_000,
        10_000_000_000,
        15_000_000_000,
        30_000_000_000,
        60_000_000_000,
        120_000_000_000,
        300_000_000_000,
        600_000_000_000,
        900_000_000_000,
        1_800_000_000_000,
    ];
    assert(all@ =~= steps());
    let need: i128 = LABEL_GAP as i128 * PIXEL as i128 * span as i128;
    let mut i: usize = 0;
    while i < all.len()
        invariant
            all@ == steps(),
            i <= all@.len(),
            need == LABEL_GAP * PIXEL * span,
            step_from(width as int, span as int, i as int) == step_from(
                width as int,
                span as int,
                0,
            ),
        decreases all@.len() - i,
    {
        proof {
            lemma_product(all@[i as int] as int, width as int);
        }
        if all[i] as i128 * width as i128 >= need {
            assert(all@[i as int] > 0);
            return all[i];
        }
        i = i + 1;
    }
    1_800_000_000_000
}

/// The first multiple of the step from the start on.
pub open spec fn first_tick(start: int, step: int) -> int {
    (start + step - 1) / step * step
}

/// How many multiples of the step are shown.
pub open spec fn tick_count(start: int, span: int, step: int) -> int {
    let room = start + span - first_tick(start, step);
    if room < 0 {
        0
    } else {
        room / step + 1
    }
}

/// The times at which a ruler has a label: the multiples of its step that are shown.
pub fn ruler_ticks(start: i64, span: i64, step: i64) -> (r: Vec<i64>)
    requires
        0 <= start,
        0 <= span,
        0 < step,
        start + span + step <= i64::MAX,
    ensures
        r@.len() == tick_count(start as int, span as int, step as int),
        forall|i: int|
            0 <= i < r@.len() ==> #[trigger] r@[i] == first_tick(start as int, step as int) + i
                * step,
{
    let end: i64 = start + span;
    proof {
        lemma_first_tick(start as int, step as int);
    }
    let first: i64 = (start + (step - 1)) / step * step;
    let mut r: Vec<i64> = Vec::new();
    if first > end {
        return r;
    }
    let mut t: i64 = first;
    assert(0 * step == 0) by (nonlinear_arith);
    loop
        invariant_except_break
            t <= end,
            t == first + r@.len() * step,
        invariant
            step > 0,
            0 <= first,
            end + step <= i64::MAX,
            forall|i: int| 0 <= i < r@.len() ==> #[trigger] r@[i] == first + i * step,
        ensures
            r@.len() == (end - first) / step as int + 1,
        decreases end - t,
    {
        r.push(t);
        let ghost n = r@.len() as int;
        assert((n - 1) * step + step == n * step) by (nonlinear_arith);
        if t > end - step {
            proof {
                lemma_count(end - first, step as int, n - 1);
            }
            break;
        }
        t = t + step;
    }
    r
}

proof fn lemma_first_tick(start: int, step: int)
    requires
        0 <= start,
        step > 0,
    ensures
        start <= first_tick(start, step) < start + step,
        first_tick(start, step) % step == 0,
{
    let n = start + step - 1;
    vstd::arithmetic::div_mod::lemma_fundamental_div_mod(n, step);
    assert(n / step * step == step * (n / step)) by (nonlinear_arith);
    vstd::arithmetic::div_mod::lemma_mod_multiples_basic(n / step, step);
}

proof fn lemma_count(room: int, step: int, n: int)
    requires
        step > 0,
        n >= 0,
        n * step <= room < n * step + step,
    ensures
        room / step == n,
{
    vstd::arithmetic::div_mod::lemma_fundamental_div_mod_converse(
        room,
        step,
        n,
        room - n * step,
    );
}

/// The label of a ruler at a time: with milliseconds where its step is below a second.
pub fn tick_label(step: i64, t: i64) -> (r: String)
    ensures
        r@ == if step < SECOND {
            time_text(t as int)
        } else {
            duration_text(t as int)
        },
{
    if step < SECOND {
        fmt_time(t)
    } else {
        fmt_dur(t)
    }
}

/// A ruler has a label at each multiple of its step that is shown, and nowhere else.
pub proof fn law_ticks_are_the_multiples_that_are_shown(
    start: int,
    span: int,
    step: int,
    t: int,
)
    requires
        0 <= start,
        0 <= span,
        step > 0,
    ensures
        (start <= t <= start + span && t % step == 0) <==> exists|i: int|
            0 <= i < tick_count(start, span, step) && t == #[trigger] (first_tick(start, step) + i
                * step),
{
    let first = first_tick(start, step);
    lemma_first_tick(start, step);
    let room = start + span - first;
    vstd::arithmetic::div_mod::lemma_fundamental_div_mod(first, step);
    if start <= t <= start + span && t % step == 0 {
        vstd::arithmetic::div_mod::lemma_fundamental_div_mod(t, step);
        let i = t / step - first / step;
        assert(t == first + i * step) by (nonlinear_arith)
            requires
                t == step * (t / step) + 0,
                first == step * (first / step) + 0,
                i == t / step - first / step,
        ;
        assert(i >= 0) by (nonlinear_arith)
            requires
                t == first + i * step,
                t > first - step,
                step > 0,
        ;
        assert(i <= room / step) by (nonlinear_arith)
            requires
                i * step <= room,
                step > 0,
        ;
        assert(0 <= i < tick_count(start, span, step) && t == (first_tick(start, step) + i * step));
    }
    if exists|i: int|
        0 <= i < tick_count(start, span, step) && t == #[trigger] (first_tick(start, step) + i
            * step) {
        let i = choose|i: int|
            0 <= i < tick_count(start, span, step) && t == #[trigger] (first_tick(start, step) + i
                * step);
        assert(0 <= i * step <= room) by (nonlinear_arith)
            requires
                0 <= i <= room / step,
                step > 0,
                room >= 0,
        ;
        assert(t == (first / step + i) * step) by (nonlinear_arith)
            requires
                t == first + i * step,
                first == step * (first / step) + 0,
        ;
        vstd::arithmetic::div_mod::lemma_mod_multiples_basic(first / step + i, step);
    }
}

// ---------- what is where ----------

/// How far the place where time `m` is drawn lies from a position, in parts of a part of a
/// pixel: as many as the span that is shown has nanoseconds.
pub open spec fn off(e: EditorView, m: int, offset: int, width: int) -> int {
    if (m - e.view_start) * width < offset * e.view_span {
        offset * e.view_span - (m - e.view_start) * width
    } else {
        (m - e.view_start) * width - offset * e.view_span
    }
}

/// A mark is hit exactly where one is drawn within the tolerance of the position. It is the one
/// that is drawn nearest, and the first of several that are as near.
pub proof fn law_a_mark_is_hit_where_it_is_drawn(
    e: EditorView,
    offset: int,
    width: int,
    tolerance: int,
)
    requires
        e.marks.len() <= usize::MAX,
    ensures
        match e.hit_at(offset, width, tolerance) {
            Some(i) => {
                &&& i < e.marks.len()
                &&& -tolerance * e.view_span <= (e.marks[i as int] - e.view_start) * width - offset
                    * e.view_span <= tolerance * e.view_span
                &&& forall|j: int|
                    0 <= j < e.marks.len() ==> off(e, e.marks[i as int] as int, offset, width)
                        <= off(e, #[trigger] e.marks[j] as int, offset, width)
                &&& forall|j: int|
                    0 <= j < i ==> off(e, e.marks[i as int] as int, offset, width) < off(
                        e,
                        #[trigger] e.marks[j] as int,
                        offset,
                        width,
                    )
            },
            None => forall|j: int|
                0 <= j < e.marks.len() ==> off(e, #[trigger] e.marks[j] as int, offset, width)
                    > tolerance * e.view_span,
        },
{
    lemma_hit(e, e.marks.len() as int, offset, width, tolerance);
    assert forall|j: int| 0 <= j < e.marks.len() implies off(
        e,
        #[trigger] e.marks[j] as int,
        offset,
        width,
    ) == e.distance(j, offset, width) by {}
    assert(-tolerance * e.view_span == -(tolerance * e.view_span)) by (nonlinear_arith);
    if let Some(i) = e.hit_at(offset, width, tolerance) {
        assert forall|j: int| 0 <= j < e.marks.len() implies off(
            e,
            e.marks[i as int] as int,
            offset,
            width,
        ) <= off(e, #[trigger] e.marks[j] as int, offset, width) by {
            assert(e.distance(i as int, offset, width) <= e.distance(j, offset, width));
        }
        assert forall|j: int| 0 <= j < i implies off(e, e.marks[i as int] as int, offset, width)
            < off(e, #[trigger] e.marks[j] as int, offset, width) by {
            assert(e.distance(i as int, offset, width) < e.distance(j, offset, width));
        }
    } else {
        assert forall|j: int| 0 <= j < e.marks.len() implies off(
            e,
            #[trigger] e.marks[j] as int,
            offset,
            width,
        ) > tolerance * e.view_span by {
            assert(e.distance(j, offset, width) > tolerance * e.view_span);
        }
    }
}

/// A position at which a mark is drawn hits it, or another one at the same time.
pub proof fn law_a_position_on_a_mark_hits_it(
    e: EditorView,
    k: int,
    offset: int,
    width: int,
    tolerance: int,
)
    requires
        e.marks.len() <= usize::MAX,
        0 <= k < e.marks.len(),
        width > 0,
        e.view_span > 0,
        tolerance >= 0,
        (e.marks[k] - e.view_start) * width == offset * e.view_span,
    ensures
        e.hit_at(offset, width, tolerance) matches Some(i) && i < e.marks.len() && e.marks[i as int]
            == e.marks[k],
{
    law_a_mark_is_hit_where_it_is_drawn(e, offset, width, tolerance);
    assert(off(e, e.marks[k] as int, offset, width) == 0);
    assert(tolerance * e.view_span >= 0) by (nonlinear_arith)
        requires
            tolerance >= 0,
            e.view_span > 0,
    ;
    if let Some(i) = e.hit_at(offset, width, tolerance) {
        let m = e.marks[i as int] as int;
        assert((m - e.view_start) * width == (e.marks[k] - e.view_start) * width);
        assert(m == e.marks[k]) by (nonlinear_arith)
            requires
                (m - e.view_start) * width == (e.marks[k] - e.view_start) * width,
                width > 0,
        ;
    }
}

/// The time at a position is the last one that is not drawn behind it: the left edge shows the
/// beginning of what is shown and the right edge its end.
pub proof fn law_the_time_at_a_position_is_drawn_there(e: EditorView, offset: int, width: int)
    requires
        width > 0,
        0 <= offset <= width,
        0 <= e.view_start,
        0 <= e.view_span,
        e.view_start + e.view_span <= i64::MAX,
    ensures
        (e.time_at(offset, width) - e.view_start) * width <= offset * e.view_span,
        offset * e.view_span < (e.time_at(offset, width) + 1 - e.view_start) * width,
        e.view_start <= e.time_at(offset, width) <= e.view_start + e.view_span,
        e.time_at(0, width) == e.view_start,
        e.time_at(width, width) == e.view_start + e.view_span,
{
    let (p, s) = (offset * e.view_span, e.view_span as int);
    assert(0 <= p <= s * width) by (nonlinear_arith)
        requires
            p == offset * s,
            0 <= offset <= width,
            0 <= s,
    ;
    let q = p / width;
    assert(q * width <= p < (q + 1) * width && 0 <= q <= s) by (nonlinear_arith)
        requires
            q == p / width,
            0 <= p <= s * width,
            width > 0,
    ;
    assert(0 * s / width == 0) by (nonlinear_arith)
        requires
            width > 0,
    ;
    assert(width * s / width == s) by (nonlinear_arith)
        requires
            width > 0,
    ;
}

/// The step of a ruler is one of its steps, with at least 90 pixels from one label to the next
/// and no smaller step that has as much, or half an hour where none has.
pub proof fn law_the_ruler_takes_the_smallest_step_with_room(width: int, span: int, i: int)
    requires
        0 <= i < steps().len(),
    ensures
        ({
            let r = step_from(width, span, 0);
            &&& steps().contains(r)
            &&& r * width >= 90 * 256 * span || r == 1_800_000_000_000
            &&& steps()[i] < r ==> steps()[i] * width < 90 * 256 * span
        }),
        steps().len() == 18,
        steps()[0] == 10_000_000,
        steps()[6] == 1_000_000_000,
        steps()[12] == 60_000_000_000,
        steps()[17] == 1_800_000_000_000,
        i + 1 < steps().len() ==> steps()[i] < steps()[i + 1],
        i + 1 < steps().len() ==> 2 * steps()[i + 1] <= 5 * steps()[i] || steps()[i + 1] == 2
            * steps()[i],
{
    lemma_step_from(width, span, 0);
    assert(steps()[17] == 1_800_000_000_000);
    assert(steps().contains(steps()[17]));
}

proof fn lemma_step_from(width: int, span: int, i: int)
    requires
        0 <= i <= steps().len(),
    ensures
        ({
            let r = step_from(width, span, i);
            &&& r == 1_800_000_000_000 || (exists|k: int|
                i <= k < steps().len() && #[trigger] steps()[k] == r && roomy(
                    r as int,
                    width,
                    span,
                ))
            &&& forall|k: int|
                i <= k < steps().len() && #[trigger] steps()[k] < r ==> !roomy(
                    steps()[k] as int,
                    width,
                    span,
                )
        }),
    decreases steps().len() - i,
{
    if i < steps().len() {
        lemma_step_from(width, span, i + 1);
        if roomy(steps()[i] as int, width, span) {
            assert forall|k: int| i <= k < steps().len() implies #[trigger] steps()[k]
                >= steps()[i] by {
                lemma_steps_grow(i, k);
            }
        }
    }
}

proof fn lemma_steps_grow(i: int, k: int)
    requires
        0 <= i <= k < steps().len(),
    ensures
        steps()[i] <= steps()[k],
    decreases k - i,
{
    if i < k {
        lemma_steps_grow(i, k - 1);
        assert(steps()[k - 1] <= steps()[k]);
    }
}

/// Positions beyond the edges have times too: those that would be drawn there.
pub proof fn law_times_go_on_beyond_the_edges(e: EditorView, offset: int, width: int)
    requires
        width > 0,
        -0x4000_0000_0000_0000 <= e.view_start <= 0x3fff_ffff_ffff_ffff,
        -0x4000_0000_0000_0000 * width <= offset * e.view_span <= 0x3fff_ffff_ffff_ffff * width,
    ensures
        (e.time_at(offset, width) - e.view_start) * width <= offset * e.view_span,
        offset * e.view_span < (e.time_at(offset, width) + 1 - e.view_start) * width,
{
    let p = offset * e.view_span;
    let q = p / width;
    assert(q * width <= p < (q + 1) * width && -0x4000_0000_0000_0000 <= q
        <= 0x3fff_ffff_ffff_ffff) by (nonlinear_arith)
        requires
            q == p / width,
            -0x4000_0000_0000_0000 * width <= p <= 0x3fff_ffff_ffff_ffff * width,
            width > 0,
    ;
}

} // verus!
