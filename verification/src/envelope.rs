//! The outline of a recording at 500 bins per second, for fast drawing at any zoom.

use vstd::prelude::*;

verus! {

/// Bins per second.
pub const RATE: usize = 500;

/// Samples in a bin, at 16000 samples per second.
pub const BIN: usize = 32;

/// Nanoseconds in a bin.
pub const BIN_TIME: i64 = 2_000_000;

/// The amplitude 1, in the units of `Envelope::gain_ref`.
pub const FULL_SCALE: u32 = 32_768_000;

/// The sample behind bin `i`.
pub open spec fn bin_end(len: int, i: int) -> int {
    if (i + 1) * BIN > len {
        len
    } else {
        (i + 1) * BIN
    }
}

/// How many bins there are: one for every `BIN` samples, and one for what is left.
pub open spec fn bin_count(len: int) -> int {
    (len + BIN - 1) / BIN as int
}

/// Whether `m` is the least of the numbers from `from` up to `to`.
pub open spec fn is_least(s: Seq<i16>, from: int, to: int, m: i16) -> bool {
    &&& exists|i: int| from <= i < to && #[trigger] s[i] == m
    &&& forall|i: int| from <= i < to ==> m <= #[trigger] s[i]
}

/// Whether `m` is the greatest of the numbers from `from` up to `to`.
pub open spec fn is_greatest(s: Seq<i16>, from: int, to: int, m: i16) -> bool {
    &&& exists|i: int| from <= i < to && #[trigger] s[i] == m
    &&& forall|i: int| from <= i < to ==> m >= #[trigger] s[i]
}

/// How far the outline of a bin goes from silence.
pub open spec fn swing(lo: int, hi: int) -> int {
    let a = if lo < 0 {
        -lo
    } else {
        lo
    };
    let b = if hi < 0 {
        -hi
    } else {
        hi
    };
    if a < b {
        b
    } else {
        a
    }
}

/// How many of the first `n` bins swing no further than `v`.
pub open spec fn within(lo: Seq<i16>, hi: Seq<i16>, n: int, v: int) -> int
    decreases n,
{
    if n <= 0 {
        0
    } else if swing(lo[n - 1] as int, hi[n - 1] as int) <= v {
        within(lo, hi, n - 1, v) + 1
    } else {
        within(lo, hi, n - 1, v)
    }
}

/// Whether `v` is the swing in place `idx` when the bins are ordered by their swing.
pub open spec fn ranked(lo: Seq<i16>, hi: Seq<i16>, idx: int, v: int) -> bool {
    within(lo, hi, lo.len() as int, v - 1) <= idx < within(lo, hi, lo.len() as int, v)
}

/// Whether `g` is the amplitude that should fill a display: the swing that 999 of 1000 bins
/// stay within, but at least a thousandth, and the full amplitude where there are no bins.
pub open spec fn fills(lo: Seq<i16>, hi: Seq<i16>, g: int) -> bool {
    if lo.len() == 0 {
        g == FULL_SCALE
    } else {
        exists|v: int| #[trigger]
            ranked(lo, hi, (lo.len() - 1) * 999 / 1000, v) && g == if v * 1000 < FULL_SCALE / 1000 {
                (FULL_SCALE / 1000) as int
            } else {
                v * 1000
            }
    }
}

proof fn lemma_within_grows(lo: Seq<i16>, hi: Seq<i16>, n: int, v: int, w: int)
    requires
        v <= w,
    ensures
        0 <= within(lo, hi, n, v) <= within(lo, hi, n, w),
        n >= 0 ==> within(lo, hi, n, w) <= n,
    decreases n,
{
    if n > 0 {
        lemma_within_grows(lo, hi, n - 1, v, w);
    }
}

proof fn lemma_within_all(lo: Seq<i16>, hi: Seq<i16>, n: int)
    requires
        n >= 0,
    ensures
        within(lo, hi, n, 32768) == n,
        within(lo, hi, n, -1) == 0,
    decreases n,
{
    if n > 0 {
        lemma_within_all(lo, hi, n - 1);
    }
}

/// The least and the greatest sample of every bin.
pub struct Envelope {
    /// The least samples.
    pub lo: Vec<i16>,
    /// The greatest samples.
    pub hi: Vec<i16>,
    /// The amplitude that should fill the height of a display, in 32768000ths.
    pub gain_ref: u32,
}

impl Envelope {
    /// Whether there is a least and a greatest sample for every bin, and the amplitude is
    /// that of the bins.
    pub open spec fn valid(&self) -> bool {
        self.lo@.len() == self.hi@.len() && fills(self.lo@, self.hi@, self.gain_ref as int)
    }

    /// The envelope of samples.
    pub fn from_samples(samples: &[i16]) -> (r: Self)
        ensures
            r.valid(),
            r.lo@.len() == bin_count(samples@.len() as int),
            forall|i: int|
                0 <= i < r.lo@.len() ==> is_least(
                    samples@,
                    i * BIN,
                    bin_end(samples@.len() as int, i),
                    #[trigger] r.lo@[i],
                ),
            forall|i: int|
                0 <= i < r.hi@.len() ==> is_greatest(
                    samples@,
                    i * BIN,
                    bin_end(samples@.len() as int, i),
                    #[trigger] r.hi@[i],
                ),
    {
        let mut lo: Vec<i16> = Vec::new();
        let mut hi: Vec<i16> = Vec::new();
        let len: usize = samples.len();
        let mut from: usize = 0;
        while from < len
            invariant
                len == samples@.len(),
                from <= len,
                lo@.len() == hi@.len(),
                from == if lo@.len() * BIN > len {
                    len as int
                } else {
                    lo@.len() * BIN
                },
                (lo@.len() - 1) * BIN < len,
                forall|i: int|
                    0 <= i < lo@.len() ==> is_least(
                        samples@,
                        i * BIN,
                        bin_end(len as int, i),
                        #[trigger] lo@[i],
                    ),
                forall|i: int|
                    0 <= i < hi@.len() ==> is_greatest(
                        samples@,
                        i * BIN,
                        bin_end(len as int, i),
                        #[trigger] hi@[i],
                    ),
            decreases len - from,
        {
            let to: usize = if len - from < BIN {
                len
            } else {
                from + BIN
            };
            let (l, h) = extremes(samples, samples, from, to);
            lo.push(l);
            hi.push(h);
            from = to;
        }
        let gain_ref: u32 = gain_of(&lo, &hi);
        Envelope { lo, hi, gain_ref }
    }

    /// The bin at a time.
    pub open spec fn bin_at(&self, t: int) -> int {
        if t < 0 {
            0
        } else if t / BIN_TIME as int > self.lo@.len() - 1 {
            self.lo@.len() - 1
        } else {
            t / BIN_TIME as int
        }
    }

    /// The bin behind those that a column takes which ends at a time: that in which the time
    /// lies belongs to the next column. The recording ends in its last bin, so a column that
    /// ends there takes that one too.
    pub open spec fn bin_behind(&self, t: int) -> int {
        if t < 0 {
            0
        } else if t > (self.lo@.len() - 1) * BIN_TIME {
            self.lo@.len() as int
        } else {
            t / BIN_TIME as int
        }
    }

    /// The first bin of column `k` of `width` columns from `t0` to `t1`.
    pub open spec fn column_start(&self, t0: int, t1: int, width: int, k: int) -> int {
        self.bin_at(column_time(t0, t1, width, k))
    }

    /// The bin behind column `k`, which has one bin at least.
    pub open spec fn column_end(&self, t0: int, t1: int, width: int, k: int) -> int {
        let start = self.column_start(t0, t1, width, k);
        let next = self.bin_behind(column_time(t0, t1, width, k + 1));
        if next > start {
            next
        } else {
            start + 1
        }
    }

    fn bin_index(&self, t: i64) -> (r: usize)
        requires
            self.lo@.len() > 0,
        ensures
            r == self.bin_at(t as int),
            r < self.lo@.len(),
    {
        let last: usize = self.lo.len() - 1;
        if t < 0 {
            0
        } else if (t / BIN_TIME) as u64 > last as u64 {
            last
        } else {
            (t / BIN_TIME) as usize
        }
    }

    fn end_index(&self, t: i64) -> (r: usize)
        requires
            self.lo@.len() > 0,
        ensures
            r == self.bin_behind(t as int),
            r <= self.lo@.len(),
    {
        let len: usize = self.lo.len();
        if t < 0 {
            return 0;
        }
        let at: u64 = (t / BIN_TIME) as u64;
        let last: u64 = (len - 1) as u64;
        if at > last || (at == last && t % BIN_TIME > 0) {
            len
        } else {
            at as usize
        }
    }

    /// The least and the greatest sample of each of `width` columns from `t0` to `t1`
    /// nanoseconds.
    pub fn columns(&self, t0: i64, t1: i64, width: usize) -> (r: Vec<(i16, i16)>)
        requires
            self.valid(),
        ensures
            r@.len() == if self.lo@.len() == 0 {
                0
            } else {
                width as int
            },
            forall|k: int|
                0 <= k < r@.len() ==> {
                    let start = self.column_start(t0 as int, t1 as int, width as int, k);
                    let end = self.column_end(t0 as int, t1 as int, width as int, k);
                    &&& is_least(self.lo@, start, end, (#[trigger] r@[k]).0)
                    &&& is_greatest(self.hi@, start, end, r@[k].1)
                },
    {
        let n: usize = self.lo.len();
        let mut r: Vec<(i16, i16)> = Vec::new();
        if n == 0 {
            return r;
        }
        let mut k: usize = 0;
        while k < width
            invariant
                n == self.lo@.len() == self.hi@.len(),
                n > 0,
                k <= width,
                r@.len() == k,
                forall|i: int|
                    0 <= i < r@.len() ==> {
                        let start = self.column_start(t0 as int, t1 as int, width as int, i);
                        let end = self.column_end(t0 as int, t1 as int, width as int, i);
                        &&& is_least(self.lo@, start, end, (#[trigger] r@[i]).0)
                        &&& is_greatest(self.hi@, start, end, r@[i].1)
                    },
            decreases width - k,
        {
            let start: usize = self.bin_index(time_of_column(t0, t1, width, k));
            let next: usize = self.end_index(time_of_column(t0, t1, width, k + 1));
            let end: usize = if next > start {
                next
            } else {
                start + 1
            };
            r.push(extremes(&self.lo, &self.hi, start, end));
            k = k + 1;
        }
        r
    }
}

/// The time at which column `k` of `width` columns from `t0` to `t1` begins.
pub open spec fn column_time(t0: int, t1: int, width: int, k: int) -> int {
    t0 + (t1 - t0) * k / width
}

fn time_of_column(t0: i64, t1: i64, width: usize, k: usize) -> (r: i64)
    requires
        k <= width,
        width > 0,
    ensures
        r == column_time(t0 as int, t1 as int, width as int, k as int),
{
    let d: i128 = t1 as i128 - t0 as i128;
    let forward: bool = d >= 0;
    let size: u128 = if forward {
        d as u128
    } else {
        (-d) as u128
    };
    proof {
        assert(size * k <= 0xffff_ffff_ffff_ffff * 0xffff_ffff_ffff_ffff) by (nonlinear_arith)
            requires
                0 <= size <= 0xffff_ffff_ffff_ffff,
                0 <= k <= 0xffff_ffff_ffff_ffff,
        ;
    }
    let product: u128 = size * k as u128;
    let whole: u128 = product / width as u128;
    let part: u128 = product % width as u128;
    proof {
        lemma_column(size as int, width as int, k as int);
        assert(d * k == if forward {
            size * k
        } else {
            -(size * k)
        }) by (nonlinear_arith)
            requires
                d == if forward {
                    size as int
                } else {
                    -size
                },
        ;
    }
    if forward {
        (t0 as i128 + whole as i128) as i64
    } else if part == 0 {
        (t0 as i128 - whole as i128) as i64
    } else {
        (t0 as i128 - whole as i128 - 1) as i64
    }
}

proof fn lemma_column(size: int, width: int, k: int)
    requires
        0 <= k <= width,
        width > 0,
        size >= 0,
    ensures
        0 <= size * k / width <= size,
        size * k % width != 0 ==> size * k / width < size,
        (-(size * k)) / width == if size * k % width == 0 {
            -(size * k / width)
        } else {
            -(size * k / width) - 1
        },
{
    let p = size * k;
    let q = p / width;
    let m = p % width;
    assert(p <= size * width && p >= 0) by (nonlinear_arith)
        requires
            p == size * k,
            0 <= k <= width,
            size >= 0,
    ;
    vstd::arithmetic::div_mod::lemma_fundamental_div_mod(p, width);
    assert(0 <= q <= size && (m != 0 ==> q < size)) by (nonlinear_arith)
        requires
            p == width * q + m,
            0 <= m < width,
            0 <= p <= size * width,
            width > 0,
    ;
    if m == 0 {
        assert(-p == (-q) * width + 0) by (nonlinear_arith)
            requires
                p == width * q + m,
                m == 0,
        ;
        vstd::arithmetic::div_mod::lemma_fundamental_div_mod_converse(-p, width, -q, 0);
    } else {
        assert(-p == (-q - 1) * width + (width - m)) by (nonlinear_arith)
            requires
                p == width * q + m,
        ;
        vstd::arithmetic::div_mod::lemma_fundamental_div_mod_converse(-p, width, -q - 1, width - m);
    }
}

/// The least of the numbers of `a` and the greatest of those of `b`, from `from` up to `to`.
fn extremes(a: &[i16], b: &[i16], from: usize, to: usize) -> (r: (i16, i16))
    requires
        from < to,
        to <= a@.len(),
        to <= b@.len(),
    ensures
        is_least(a@, from as int, to as int, r.0),
        is_greatest(b@, from as int, to as int, r.1),
{
    let mut least: i16 = a[from];
    let mut greatest: i16 = b[from];
    let mut i: usize = from + 1;
    while i < to
        invariant
            from < i <= to,
            to <= a@.len(),
            to <= b@.len(),
            is_least(a@, from as int, i as int, least),
            is_greatest(b@, from as int, i as int, greatest),
        decreases to - i,
    {
        if a[i] < least {
            least = a[i];
        }
        if b[i] > greatest {
            greatest = b[i];
        }
        i = i + 1;
    }
    (least, greatest)
}

/// How many of the bins swing no further than `v`.
fn count_within(lo: &Vec<i16>, hi: &Vec<i16>, v: i32) -> (r: usize)
    requires
        lo@.len() == hi@.len(),
        v >= 0,
    ensures
        r == within(lo@, hi@, lo@.len() as int, v as int),
{
    let mut r: usize = 0;
    let mut i: usize = 0;
    while i < lo.len()
        invariant
            lo@.len() == hi@.len(),
            v >= 0,
            i <= lo@.len(),
            r <= i,
            r == within(lo@, hi@, i as int, v as int),
        decreases lo@.len() - i,
    {
        let l: i32 = lo[i] as i32;
        let h: i32 = hi[i] as i32;
        if -v <= l && l <= v && -v <= h && h <= v {
            r = r + 1;
        }
        i = i + 1;
    }
    r
}

/// The amplitude that should fill a display.
fn gain_of(lo: &Vec<i16>, hi: &Vec<i16>) -> (r: u32)
    requires
        lo@.len() == hi@.len(),
    ensures
        fills(lo@, hi@, r as int),
{
    let n: usize = lo.len();
    if n == 0 {
        return FULL_SCALE;
    }
    let idx: usize = ((n - 1) as u128 * 999 / 1000) as usize;
    let mut a: i32 = 0;
    let mut b: i32 = 32768;
    proof {
        lemma_within_all(lo@, hi@, n as int);
    }
    while a < b
        invariant
            n == lo@.len() == hi@.len(),
            idx < n,
            0 <= a <= b <= 32768,
            within(lo@, hi@, n as int, a - 1) <= idx < within(lo@, hi@, n as int, b as int),
        decreases b - a,
    {
        let mid: i32 = a + (b - a) / 2;
        if count_within(lo, hi, mid) > idx {
            b = mid;
        } else {
            a = mid + 1;
        }
    }
    assert(ranked(lo@, hi@, idx as int, a as int));
    if a * 1000 < 32768 {
        32768
    } else {
        (a * 1000) as u32
    }
}

/// No sample goes beyond the bounds of its bin.
pub proof fn law_the_outline_holds_every_sample(
    s: Seq<i16>,
    lo: Seq<i16>,
    hi: Seq<i16>,
    i: int,
)
    requires
        lo.len() == hi.len() == bin_count(s.len() as int),
        forall|k: int|
            0 <= k < lo.len() ==> is_least(
                s,
                k * BIN,
                bin_end(s.len() as int, k),
                #[trigger] lo[k],
            ),
        forall|k: int|
            0 <= k < hi.len() ==> is_greatest(
                s,
                k * BIN,
                bin_end(s.len() as int, k),
                #[trigger] hi[k],
            ),
        0 <= i < s.len(),
    ensures
        lo[i / BIN as int] <= s[i] <= hi[i / BIN as int],
{
    let k = i / BIN as int;
    assert(0 <= k < lo.len());
    assert(is_least(s, k * BIN, bin_end(s.len() as int, k), lo[k]));
    assert(is_greatest(s, k * BIN, bin_end(s.len() as int, k), hi[k]));
}

/// Columns of a stretch of time follow each other without a gap: no bin between them is
/// left out. Where the stretch goes up to the end of the recording, which lies in its last
/// bin, the last column takes that bin in.
pub proof fn law_columns_leave_no_gap(e: Envelope, t0: int, t1: int, width: int, k: int)
    requires
        t0 <= t1,
        0 <= k < width,
        e.lo@.len() > 0,
    ensures
        e.column_start(t0, t1, width, k) <= e.column_start(t0, t1, width, k + 1)
            <= e.column_end(t0, t1, width, k),
        e.column_start(t0, t1, width, 0) == e.bin_at(t0),
        e.column_start(t0, t1, width, width) == e.bin_at(t1),
        t1 > (e.lo@.len() - 1) * BIN_TIME ==> e.column_end(t0, t1, width, width - 1)
            == e.lo@.len(),
{
    let d = t1 - t0;
    assert(d * k / width <= d * (k + 1) / width) by (nonlinear_arith)
        requires
            d >= 0,
            width > 0,
    ;
    assert(d * 0 / width == 0) by (nonlinear_arith)
        requires
            width > 0,
    ;
    assert(d * width / width == d) by (nonlinear_arith)
        requires
            width > 0,
    ;
}

/// There is just one amplitude that should fill a display.
pub proof fn law_the_gain_is_determined(lo: Seq<i16>, hi: Seq<i16>, g: int, h: int)
    requires
        fills(lo, hi, g),
        fills(lo, hi, h),
    ensures
        g == h,
{
    if lo.len() > 0 {
        let n = lo.len() as int;
        let idx = (lo.len() - 1) * 999 / 1000;
        let v = choose|v: int| #[trigger]
            ranked(lo, hi, idx, v) && g == if v * 1000 < FULL_SCALE / 1000 {
                (FULL_SCALE / 1000) as int
            } else {
                v * 1000
            };
        let w = choose|v: int| #[trigger]
            ranked(lo, hi, idx, v) && h == if v * 1000 < FULL_SCALE / 1000 {
                (FULL_SCALE / 1000) as int
            } else {
                v * 1000
            };
        if v < w {
            lemma_within_grows(lo, hi, n, v, w - 1);
        }
        if w < v {
            lemma_within_grows(lo, hi, n, w, v - 1);
        }
    }
}

/// There is a bin for every 32 samples that begin, at 16000 samples per second 500 in a second.
/// Each but the last holds 32 samples, and the last one the rest.
pub proof fn law_bins_hold_32_samples(len: int, i: int)
    requires
        0 <= len,
        0 <= i < bin_count(len),
    ensures
        32 * (bin_count(len) - 1) < len <= 32 * bin_count(len),
        bin_end(len, i) == if i < bin_count(len) - 1 {
            32 * i + 32
        } else {
            len
        },
        32 * i < bin_end(len, i) <= len,
        bin_count(0) == 0,
        BIN * RATE == 16000,
        BIN_TIME * RATE == 1_000_000_000,
{
}

/// The bounds of a bin are those of its samples: they are reached by one of them each, and not
/// gone beyond by any.
pub proof fn law_bins_reach_as_far_as_their_samples(s: Seq<i16>, i: int, lo: i16, hi: i16)
    requires
        0 <= i < bin_count(s.len() as int),
        is_least(s, i * BIN, bin_end(s.len() as int, i), lo),
        is_greatest(s, i * BIN, bin_end(s.len() as int, i), hi),
    ensures
        forall|k: int|
            32 * i <= k < 32 * i + 32 && k < s.len() ==> lo <= #[trigger] s[k] && s[k] <= hi,
        exists|k: int| 32 * i <= k < 32 * i + 32 && k < s.len() && #[trigger] s[k] == lo,
        exists|k: int| 32 * i <= k < 32 * i + 32 && k < s.len() && #[trigger] s[k] == hi,
{
    law_bins_hold_32_samples(s.len() as int, i);
}

/// Columns begin one behind the other at equal distances, up to a nanosecond: the first where the
/// stretch of time begins, and what would be the next one behind the last where it ends.
pub proof fn law_columns_are_equally_wide(t0: int, t1: int, width: int, k: int)
    requires
        0 <= k <= width,
        0 < width,
    ensures
        (column_time(t0, t1, width, k) - t0) * width <= (t1 - t0) * k,
        (t1 - t0) * k < (column_time(t0, t1, width, k) - t0) * width + width,
        column_time(t0, t1, width, 0) == t0,
        column_time(t0, t1, width, width) == t1,
{
    let d = t1 - t0;
    vstd::arithmetic::div_mod::lemma_fundamental_div_mod(d * k, width);
    let q = d * k / width;
    assert(width * q == q * width) by (nonlinear_arith);
    assert(d * 0 / width == 0) by (nonlinear_arith)
        requires
            width > 0,
    ;
    assert(d * width / width == d) by (nonlinear_arith)
        requires
            width > 0,
    ;
}

/// A column takes the bin of every time in it, and none of a time outside of it, but for the one
/// in which it begins and for those at the ends of the recording.
pub proof fn law_a_column_takes_the_bins_of_its_times(
    e: Envelope,
    t0: int,
    t1: int,
    width: int,
    k: int,
    t: int,
)
    requires
        0 <= k < width,
        e.lo@.len() > 0,
        t0 <= t1,
    ensures
        ({
            let (from, to) = (column_time(t0, t1, width, k), column_time(t0, t1, width, k + 1));
            let (start, end) = (
                e.column_start(t0, t1, width, k),
                e.column_end(t0, t1, width, k),
            );
            &&& 0 <= start < end <= e.lo@.len()
            &&& 0 <= from <= t < to && t < 2_000_000 * e.lo@.len() && to % 2_000_000 == 0 ==> start
                <= t / 2_000_000 < end
            &&& 0 <= from < 2_000_000 * e.lo@.len() ==> 2_000_000 * start <= from < 2_000_000 * start
                + 2_000_000
            &&& 0 <= to <= 2_000_000 * (e.lo@.len() - 1) && end > start + 1 ==> 2_000_000 * end <= to
                < 2_000_000 * end + 2_000_000
        }),
{
}

/// A bin swings no further than a number where neither its least nor its greatest sample does.
/// One bin more counts where it does not.
pub proof fn law_bins_are_counted_by_their_swing(lo: Seq<i16>, hi: Seq<i16>, n: int, v: int)
    requires
        0 <= n,
    ensures
        within(lo, hi, 0, v) == 0,
        within(lo, hi, n + 1, v) == within(lo, hi, n, v) + (if -v <= lo[n] <= v && -v <= hi[n]
            <= v {
            1int
        } else {
            0
        }),
{
}

/// The gain is the swing of a bin that all but one in a thousand bins stay within, and no smaller
/// one has so many, or a thousandth of the full amplitude where that is more.
pub proof fn law_the_gain_fits_all_but_one_in_a_thousand(lo: Seq<i16>, hi: Seq<i16>, g: int)
    requires
        fills(lo, hi, g),
        lo.len() > 0,
    ensures
        g >= 32_768,
        g % 1000 == 0 || g == 32_768,
        1000 * within(lo, hi, lo.len() as int, g / 1000) > 999 * (lo.len() - 1),
        g > 32_768 ==> 1000 * within(lo, hi, lo.len() as int, g / 1000 - 1) <= 999 * (lo.len() - 1),
{
    let idx = (lo.len() - 1) * 999 / 1000;
    let v = choose|v: int| #[trigger]
        ranked(lo, hi, idx, v) && g == if v * 1000 < FULL_SCALE / 1000 {
            (FULL_SCALE / 1000) as int
        } else {
            v * 1000
        };
    let n = lo.len() as int;
    if v * 1000 < 32_768 {
        lemma_within_grows(lo, hi, n, v, 32);
    }
    assert(within(lo, hi, n, g / 1000) > idx);
}

} // verus!
