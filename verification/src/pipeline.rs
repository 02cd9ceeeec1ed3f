//! From scores and samples to places where a track may end.

use crate::detect::{
    find_peaks, law_picked_peaks_are_apart, picked, sample_at, sample_index, snap_around,
    snapped_around,
};
use crate::doubles::{
    double, in_seconds, lemma_double_of_a_fraction, lemma_in_seconds, lemma_rounded_even,
    lemma_signed_double, rounded_even, seconds_of, times_in, DIGITS, PARTS,
};
use crate::times::SECOND;
use vstd::prelude::*;

verus! {

/// Samples per second.
pub const SAMPLE_RATE: usize = 16000;

/// A place where a track may end.
pub struct Candidate {
    /// Where the score peaks, in nanoseconds.
    pub raw: i64,
    /// The score there, a double given by its bits.
    pub score: u64,
    /// The quiet spot beside it, in nanoseconds.
    pub snapped: i64,
}

/// The lengths of time over which the sound before and after a place are held against each
/// other, in nanoseconds: 8, 15 and 25 seconds.
pub open spec fn scales() -> Seq<i64> {
    seq![8_000_000_000i64, 15_000_000_000, 25_000_000_000]
}

/// The lengths of time over which places are judged, unless others are asked for.
pub fn default_scales() -> (r: Vec<i64>)
    ensures
        r@ == scales(),
        r@.len() == 3,
        r@[0] == 8_000_000_000,
        r@[1] == 15_000_000_000,
        r@[2] == 25_000_000_000,
{
    let r: Vec<i64> = vec![8_000_000_000, 15_000_000_000, 25_000_000_000];
    assert(r@ =~= scales());
    r
}

/// How many embeddings a length of time is: to the nearest, and at least one.
pub open spec fn window_of(scale: int, hop: int) -> int {
    let n = times_in(in_seconds(scale), in_seconds(hop));
    if scale <= 0 || n < 1 {
        1
    } else if n > u64::MAX {
        u64::MAX as int
    } else {
        n
    }
}

/// How many embeddings a length of time is: to the nearest, and at least one.
pub fn scale_window(scale: i64, hop: i64) -> (r: u64)
    requires
        hop > 0,
    ensures
        r == window_of(scale as int, hop as int),
{
    if scale <= 0 {
        return 1;
    }
    let n: u64 = seconds_of(scale as u64).times_in(seconds_of(hop as u64));
    if n < 1 {
        1
    } else {
        n
    }
}

/// The sample at embedding `p`: the product of the doubles gives the seconds.
pub open spec fn sample_of_place(p: int, hop: int) -> int {
    sample_at(SAMPLE_RATE as int, double(in_seconds(hop) * p, 1))
}

/// The sample at embedding `p`.
fn place_sample(p: usize, hop: i64) -> (r: u128)
    requires
        hop > 0,
        p * hop <= i64::MAX,
    ensures
        r == sample_of_place(p as int, hop as int),
        r <= 0x100_0000_0000_0000_0000_0000_0000,
{
    let seconds = seconds_of(hop as u64).times(p as u64);
    proof {
        let x = in_seconds(hop as int);
        lemma_in_seconds(hop as int);
        let n = x * p;
        assert(x <= 0x20_0000_0000_0000 * hop);
        assert(0 <= n <= 0x20_0000_0000_0000 * i64::MAX) by (nonlinear_arith)
            requires
                n == x * p,
                0 <= x <= 0x20_0000_0000_0000 * hop,
                0 <= p,
                p * hop <= i64::MAX,
        ;
        lemma_signed_double(n);
    }
    sample_index(SAMPLE_RATE, seconds)
}

/// How many embeddings two places lie apart at least, where a track has at least the length:
/// as many as the length takes, and at least one.
pub open spec fn least_distance(min_track_length: int, hop: int) -> int {
    if min_track_length < hop {
        1
    } else {
        (min_track_length + hop - 1) / hop
    }
}

/// The places where a track may end: the peaks of the score, and the quiet spots beside them.
/// The scores and the sensitivity are doubles, given by their bits, and the times are
/// nanoseconds.
pub fn find_candidates(
    score: &[u64],
    hop: i64,
    samples: &[i16],
    sensitivity: u64,
    min_track_length: i64,
    snap_window: i64,
) -> (r: Vec<Candidate>)
    requires
        hop > 0,
        score@.len() * hop <= i64::MAX,
    ensures
        exists|peaks: Seq<usize>|
            {
                &&& #[trigger] picked(
                    score@,
                    sensitivity,
                    least_distance(min_track_length as int, hop as int),
                    peaks,
                )
                &&& r@.len() == peaks.len()
                &&& forall|i: int|
                    0 <= i < r@.len() ==> {
                        let c = #[trigger] r@[i];
                        &&& c.raw == peaks[i] * hop
                        &&& c.score == score@[peaks[i] as int]
                        &&& snapped_around(
                            samples@,
                            SAMPLE_RATE as int,
                            sample_of_place(peaks[i] as int, hop as int),
                            c.raw as int,
                            snap_window as int,
                            c.snapped as int,
                        )
                    }
            },
        forall|i: int, j: int|
            0 <= i < j < r@.len() ==> (#[trigger] r@[j]).raw - (#[trigger] r@[i]).raw
                >= min_track_length,
{
    let apart: u64 = if min_track_length < hop {
        1
    } else {
        ((min_track_length as u64) + (hop as u64 - 1)) / (hop as u64)
    };
    let n: usize = score.len();
    let distance: usize = if apart > usize::MAX as u64 {
        usize::MAX
    } else {
        apart as usize
    };
    let peaks = find_peaks(score, sensitivity, distance);
    proof {
        lemma_far_distances(
            score@,
            sensitivity,
            distance as int,
            least_distance(min_track_length as int, hop as int),
            peaks@,
        );
    }
    let mut r: Vec<Candidate> = Vec::new();
    let mut i: usize = 0;
    while i < peaks.len()
        invariant
            hop > 0,
            i <= peaks@.len(),
            score@.len() * hop <= i64::MAX,
            picked(score@, sensitivity, distance as int, peaks@),
            r@.len() == i,
            forall|k: int|
                0 <= k < i ==> {
                    let c = #[trigger] r@[k];
                    &&& c.raw == peaks@[k] * hop
                    &&& c.score == score@[peaks@[k] as int]
                    &&& snapped_around(
                        samples@,
                        SAMPLE_RATE as int,
                        sample_of_place(peaks@[k] as int, hop as int),
                        c.raw as int,
                        snap_window as int,
                        c.snapped as int,
                    )
                },
        decreases peaks@.len() - i,
    {
        let p: usize = peaks[i];
        proof {
            assert(peaks@.contains(p));
            assert(p < score@.len());
            assert(0 <= p * hop <= score@.len() * hop) by (nonlinear_arith)
                requires
                    0 <= p <= score@.len(),
                    hop > 0,
            ;
        }
        let raw: i64 = (p as i128 * hop as i128) as i64;
        let to: i64 = snap_around(
            samples,
            SAMPLE_RATE,
            place_sample(p, hop),
            raw,
            snap_window,
        );
        r.push(Candidate { raw, score: score[p], snapped: to });
        i = i + 1;
    }
    proof {
        assert forall|i: int, j: int| 0 <= i < j < r@.len() implies (#[trigger] r@[j]).raw - (
        #[trigger] r@[i]).raw >= min_track_length by {
            assert(peaks@.contains(peaks@[i]) && peaks@.contains(peaks@[j]));
            assert(peaks@[i] < peaks@[j]);
            law_candidates_lie_apart(
                score@,
                sensitivity,
                hop as int,
                min_track_length as int,
                peaks@,
                peaks@[i],
                peaks@[j],
            );
        }
    }
    r
}

/// A distance that is as far as positions can lie apart is as good as any further one.
proof fn lemma_far_distances(x: Seq<u64>, min_height: u64, a: int, b: int, s: Seq<usize>)
    requires
        picked(x, min_height, a, s),
        a == b || (a == usize::MAX && a < b),
        x.len() <= usize::MAX,
    ensures
        picked(x, min_height, b, s),
{
}

/// The places that are found lie apart by the length that a track has at least, and by one
/// embedding.
pub proof fn law_candidates_lie_apart(
    score: Seq<u64>,
    sensitivity: u64,
    hop: int,
    min_track_length: int,
    peaks: Seq<usize>,
    p: usize,
    q: usize,
)
    requires
        hop > 0,
        picked(score, sensitivity, least_distance(min_track_length, hop), peaks),
        peaks.contains(p),
        peaks.contains(q),
        p < q,
    ensures
        q * hop - p * hop >= min_track_length,
        q * hop - p * hop >= hop,
{
    let d = least_distance(min_track_length, hop);
    law_picked_peaks_are_apart(score, sensitivity, d, peaks, p, q);
    assert(q * hop - p * hop >= d * hop) by (nonlinear_arith)
        requires
            q - p >= d,
            hop > 0,
    ;
    if min_track_length >= hop {
        let n = min_track_length + hop - 1;
        vstd::arithmetic::div_mod::lemma_fundamental_div_mod(n, hop);
        assert(d * hop == hop * (n / hop)) by (nonlinear_arith)
            requires
                d == n / hop,
        ;
    } else {
        assert(1 * hop == hop);
    }
}

/// The least distance is the first number of embeddings that takes the length of a track, and
/// one at least.
pub proof fn law_the_least_distance_is_no_greater_than_it_has_to_be(
    min_track_length: int,
    hop: int,
)
    requires
        hop > 0,
    ensures
        ({
            let d = least_distance(min_track_length, hop);
            &&& d >= 1
            &&& d * hop >= min_track_length
            &&& d > 1 ==> (d - 1) * hop < min_track_length
        }),
{
    let d = least_distance(min_track_length, hop);
    if min_track_length >= hop {
        let n = min_track_length + hop - 1;
        vstd::arithmetic::div_mod::lemma_fundamental_div_mod(n, hop);
        assert(d * hop == hop * d && (d - 1) * hop == hop * d - hop) by (nonlinear_arith);
        assert(d >= 1) by (nonlinear_arith)
            requires
                hop * d + n % hop == n,
                0 <= n % hop < hop,
                n >= hop,
        ;
    } else {
        assert(1 * hop == hop);
    }
}

/// A window is as many embeddings as come nearest to the length of time, up to what doubles are
/// off, the 49th binary digit: it is half an embedding longer or shorter at most.
pub proof fn law_a_window_is_as_long_as_its_scale(scale: int, hop: int)
    requires
        0 < hop <= scale <= i64::MAX,
        scale <= 0x1_0000_0000 * hop,
    ensures
        ({
            let w = window_of(scale, hop);
            &&& w >= 1
            &&& (2 * w * hop - 2 * scale - hop) * 0x2_0000_0000_0000 <= scale
            &&& (2 * scale - 2 * w * hop - hop) * 0x2_0000_0000_0000 <= scale
        }),
        window_of(hop, hop) == 1,
{
    lemma_window(scale, hop);
    lemma_window(hop, hop);
    let w = window_of(hop, hop);
    assert(w == 1) by (nonlinear_arith)
        requires
            w >= 1,
            (2 * w * hop - 2 * hop - hop) * 0x2_0000_0000_0000 <= hop,
            hop > 0,
    ;
}

proof fn lemma_window(scale: int, hop: int)
    requires
        0 < hop <= scale <= i64::MAX,
        scale <= 0x1_0000_0000 * hop,
    ensures
        ({
            let w = window_of(scale, hop);
            &&& w >= 1
            &&& (2 * w * hop - 2 * scale - hop) * 0x2_0000_0000_0000 <= scale
            &&& (2 * scale - 2 * w * hop - hop) * 0x2_0000_0000_0000 <= scale
        }),
{
    let (a, b) = (in_seconds(scale), in_seconds(hop));
    lemma_in_seconds(scale);
    lemma_in_seconds(hop);
    let num = a * PARTS;
    assert(b > 0);
    assert(0x10_0000_0000_0000 * b <= num);
    lemma_double_of_a_fraction(num, b);
    let x = double(num, b);
    assert(x >= 0) by (nonlinear_arith)
        requires
            -num <= (x * b - num) * 0x20_0000_0000_0000,
            b > 0,
            num > 0,
    ;
    lemma_rounded_even(x, PARTS as int);
    let w = rounded_even(x, PARTS as int);
    let (v, y, z) = (x * b, w * b, w * hop);
    let c = w * PARTS - x;
    assert(-(PARTS * b) <= 2 * (y * PARTS - v) <= PARTS * b) by (nonlinear_arith)
        requires
            v == x * b,
            y == w * b,
            c == w * PARTS - x,
            -PARTS <= 2 * c <= PARTS,
            b > 0,
    ;
    let (f, g) = (b * SECOND - hop * PARTS, hop * PARTS);
    assert(-g <= f * DIGITS <= g);
    assert(-(z * PARTS) <= (y * SECOND - z * PARTS) * DIGITS <= z * PARTS) by (nonlinear_arith)
        requires
            f == b * SECOND - g,
            g == hop * PARTS,
            y == w * b,
            z == w * hop,
            -g <= f * DIGITS <= g,
            w >= 0,
    ;
    assert(z <= 3 * scale);
    assert(2 * scale - 2 * z - hop <= scale / 0x2_0000_0000_0000);
    assert(w >= 1) by (nonlinear_arith)
        requires
            z == w * hop,
            z > 0,
            hop > 0,
    ;
    assert(w <= 0x3_0000_0000) by (nonlinear_arith)
        requires
            z == w * hop,
            z <= 0x3_0000_0000 * hop,
            hop > 0,
    ;
    assert(2 * w * hop == 2 * z) by (nonlinear_arith)
        requires
            z == w * hop,
    ;
}

/// The sample at an embedding is the last one that begins before it, up to what doubles are off:
/// the 50th binary digit.
pub proof fn law_embeddings_have_their_samples(p: int, hop: int)
    requires
        0 <= p,
        0 < hop,
    ensures
        ({
            let n = sample_of_place(p, hop);
            let t = p * hop * 16000;
            &&& 0 <= n
            &&& (n * 1_000_000_000 - t) * 0x4_0000_0000_0000 <= t
            &&& (t - n * 1_000_000_000 - 1_000_000_000) * 0x4_0000_0000_0000 <= t
        }),
{
    let b = in_seconds(hop);
    lemma_in_seconds(hop);
    let y = b * p;
    let z = p * hop;
    let (f, g) = (b * SECOND - hop * PARTS, hop * PARTS);
    assert(-g <= f * DIGITS <= g);
    assert(-(z * PARTS) <= (y * SECOND - z * PARTS) * DIGITS <= z * PARTS && 0 <= z)
        by (nonlinear_arith)
        requires
            f == b * SECOND - g,
            g == hop * PARTS,
            y == b * p,
            z == p * hop,
            -g <= f * DIGITS <= g,
            p >= 0,
            hop > 0,
    ;
    lemma_signed_double(y);
    let x = double(y, 1);
    lemma_signed_double(x * SAMPLE_RATE);
    let d = double(x * SAMPLE_RATE, 1);
    let n = sample_of_place(p, hop);
    assert(n == d / PARTS as int);
    assert(p * hop * 16000 == 16000 * z) by (nonlinear_arith)
        requires
            z == p * hop,
    ;
}

} // verus!
