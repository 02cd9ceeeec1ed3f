//! Finding song changes: peaks of a score, and the quiet spot beside a peak.

use crate::doubles::{
    double, in_seconds, lemma_in_seconds, lemma_signed_double, seconds_of, Double, DIGITS, PARTS,
};
use crate::order::{
    below, is_below, is_level, is_nan, key_of, law_keys_order_as_values, level, order_key, pair_le,
    pairs_sorted, sort_pairs, value_of,
};
use crate::times::as_time;
use vstd::arithmetic::power2::{lemma_pow2_pos, pow2};
use vstd::prelude::*;

verus! {

// ---------- novelty ----------

/// The embeddings whose sound is held against each other at a place: those from `from` up to
/// `at`, and those from `at` up to `to`.
#[derive(Debug, Clone, Copy, PartialEq, Eq, Structural)]
pub struct Sides {
    pub from: usize,
    pub at: usize,
    pub to: usize,
}

/// What is held against each other at place `i` of `n`, `window` embeddings to each side.
/// `None` at the ends, where there are not as many.
pub fn sides(n: usize, window: usize, i: usize) -> (r: Option<Sides>)
    ensures
        match r {
            Some(s) => s.from == i - window && s.at == i && s.to == i + window && window <= i < n
                - window,
            None => !(window <= i < n - window),
        },
{
    if window <= i && i < n && n - i > window {
        Some(Sides { from: i - window, at: i, to: i + window })
    } else {
        None
    }
}

// ---------- peaks ----------

/// Whether `x` rises to a level stretch from `l` to `r` and falls behind it.
pub open spec fn plateau(x: Seq<u64>, l: int, r: int) -> bool {
    &&& 1 <= l <= r
    &&& r + 1 < x.len()
    &&& forall|i: int| l <= i <= r ==> level(#[trigger] x[i], x[l])
    &&& below(x[l - 1], x[l])
    &&& below(x[r + 1], x[l])
}

/// Whether `p` is the middle of a plateau, rounded down.
pub open spec fn is_peak(x: Seq<u64>, p: int) -> bool {
    exists|l: int, r: int| #[trigger] plateau(x, l, r) && p == (l + r) / 2
}

/// Whether `p` is a peak of at least the least height.
pub open spec fn candidate(x: Seq<u64>, min_height: u64, p: int) -> bool {
    is_peak(x, p) && !below(x[p], min_height) && !is_nan(min_height)
}

/// Whether the peak at `q` goes before that at `p`: it is higher, or as high and later.
pub open spec fn outranks(x: Seq<u64>, q: int, p: int) -> bool {
    key_of(x[q]) > key_of(x[p]) || (key_of(x[q]) == key_of(x[p]) && q > p)
}

/// How far two positions lie apart.
pub open spec fn apart(p: int, q: int) -> int {
    if p < q {
        q - p
    } else {
        p - q
    }
}

/// Whether positions increase.
pub open spec fn increasing(s: Seq<usize>) -> bool {
    forall|i: int, j: int| 0 <= i < j < s.len() ==> #[trigger] s[i] < #[trigger] s[j]
}

/// Whether `s` holds exactly the candidates that stay at least `distance` away from every
/// peak of `s` that goes before them.
pub open spec fn picked(x: Seq<u64>, min_height: u64, distance: int, s: Seq<usize>) -> bool {
    &&& increasing(s)
    &&& forall|p: usize| #[trigger]
        s.contains(p) <==> {
            &&& candidate(x, min_height, p as int)
            &&& forall|q: usize| #[trigger]
                s.contains(q) && outranks(x, q as int, p as int) ==> apart(p as int, q as int)
                    >= distance
        }
}

/// All peaks of at least the least height, in order.
fn candidates(x: &[u64], min_height: u64) -> (r: Vec<usize>)
    ensures
        increasing(r@),
        forall|p: usize| #[trigger] r@.contains(p) <==> candidate(x@, min_height, p as int),
{
    let mut r: Vec<usize> = Vec::new();
    let n: usize = x.len();
    if n < 3 || order_key(min_height).is_none() {
        return r;
    }
    let last: usize = n - 1;
    let mut i: usize = 1;
    while i < last
        invariant
            x@.len() == n,
            last == n - 1,
            1 <= i,
            i <= n,
            !is_nan(min_height),
            increasing(r@),
            forall|k: int|
                0 <= k < r@.len() ==> #[trigger] r@[k] < i && candidate(
                    x@,
                    min_height,
                    r@[k] as int,
                ),
            forall|l: int, e: int|
                #[trigger] plateau(x@, l, e) && l < i && !below(x@[(l + e) / 2], min_height)
                    ==> r@.contains(((l + e) / 2) as usize),
        decreases n - i,
    {
        let mut next: usize = i;
        if is_below(x[i - 1], x[i]) {
            let mut ahead: usize = i + 1;
            while ahead < last && is_level(x[ahead], x[i])
                invariant
                    x@.len() == n,
                    last == n - 1,
                    1 <= i < ahead <= last,
                    !is_nan(x@[i as int]),
                    forall|k: int| i <= k < ahead ==> level(#[trigger] x@[k], x@[i as int]),
                decreases last - ahead,
            {
                ahead = ahead + 1;
            }
            proof {
                assert forall|e: int| #[trigger] plateau(x@, i as int, e) implies e == ahead - 1 by {
                    if e < ahead - 1 {
                        assert(level(x@[e + 1], x@[i as int]));
                    }
                    if e > ahead - 1 {
                        assert(level(x@[ahead as int], x@[i as int]));
                    }
                }
            }
            if is_below(x[ahead], x[i]) {
                assert(plateau(x@, i as int, ahead - 1));
                let p: usize = i + (ahead - 1 - i) / 2;
                assert(p == (i + (ahead - 1)) / 2);
                assert(is_peak(x@, p as int));
                let ghost before = r@;
                if !is_below(x[p], min_height) {
                    r.push(p);
                    assert(forall|q: usize| before.contains(q) ==> r@.contains(q)) by {
                        assert forall|q: usize| before.contains(q) implies r@.contains(q) by {
                            let k = choose|k: int| 0 <= k < before.len() && before[k] == q;
                            assert(r@[k] == q);
                        }
                    }
                    assert(r@[r@.len() - 1] == p);
                }
                next = ahead;
                assert forall|l: int, e: int|
                    #[trigger] plateau(x@, l, e) && l < ahead + 1 && !below(x@[(l + e) / 2], min_height)
                    implies r@.contains(((l + e) / 2) as usize) by {
                    if l >= i {
                        if l > i {
                            assert(l - 1 < ahead);
                            assert(level(x@[l - 1], x@[i as int]));
                            if l < ahead {
                                assert(level(x@[l], x@[i as int]));
                            }
                        }
                        assert(l == i);
                    }
                }
            }
        }
        i = next + 1;
    }
    proof {
        assert forall|p: usize| r@.contains(p) == candidate(x@, min_height, p as int) by {
            if candidate(x@, min_height, p as int) {
                let (l, e) = choose|l: int, e: int| #[trigger] plateau(x@, l, e) && p == (l + e) / 2;
                assert(plateau(x@, l, e));
            }
        }
    }
    r
}

/// Strikes out every position that is closer than `distance` to the position at `j`.
fn suppress(peaks: &Vec<usize>, kept: Vec<bool>, j: usize, distance: usize) -> (r: Vec<bool>)
    requires
        increasing(peaks@),
        kept@.len() == peaks@.len(),
        j < peaks@.len(),
    ensures
        r@.len() == kept@.len(),
        forall|i: int|
            0 <= i < r@.len() ==> #[trigger] r@[i] == (kept@[i] && (i == j || apart(
                peaks@[i] as int,
                peaks@[j as int] as int,
            ) >= distance)),
{
    let ghost before = kept@;
    let mut r = kept;
    let n: usize = peaks.len();
    let mut k: usize = j;
    while k > 0 && peaks[j] - peaks[k - 1] < distance
        invariant
            increasing(peaks@),
            r@.len() == before.len() == peaks@.len(),
            k <= j < peaks@.len(),
            forall|i: int| k <= i < j ==> peaks@[j as int] - #[trigger] peaks@[i] < distance,
            forall|i: int|
                0 <= i < r@.len() ==> #[trigger] r@[i] == (before[i] && !(k <= i < j)),
        decreases k,
    {
        k = k - 1;
        r.set(k, false);
    }
    let ghost left = k as int;
    assert forall|i: int| 0 <= i < j implies (left <= i <==> peaks@[j as int] - #[trigger] peaks@[i]
        < distance) by {
        if i < left {
            assert(peaks@[i] <= peaks@[left - 1]);
        }
    }
    let mut k: usize = j + 1;
    while k < n && peaks[k] - peaks[j] < distance
        invariant
            increasing(peaks@),
            n == peaks@.len(),
            r@.len() == before.len() == peaks@.len(),
            left <= j < k <= n,
            forall|i: int| j < i < k ==> #[trigger] peaks@[i] - peaks@[j as int] < distance,
            forall|i: int|
                0 <= i < r@.len() ==> #[trigger] r@[i] == (before[i] && !(left <= i < j) && !(j < i
                    < k)),
        decreases n - k,
    {
        r.set(k, false);
        k = k + 1;
    }
    assert forall|i: int| j < i < n implies (i < k <==> #[trigger] peaks@[i] - peaks@[j as int]
        < distance) by {
        if i >= k {
            assert(peaks@[k as int] <= peaks@[i]);
        }
    }
    r
}

/// Whether the place `i` of `peaks` may be kept, given those in `order` from `t` on that
/// were decided on and go before it.
spec fn undisturbed(
    x: Seq<u64>,
    peaks: Seq<usize>,
    kept: Seq<bool>,
    order: Seq<(i64, usize)>,
    t: int,
    distance: int,
    i: int,
) -> bool {
    forall|m: int|
        t <= m < order.len() && kept[(#[trigger] order[m]).1 as int] && outranks(
            x,
            peaks[order[m].1 as int] as int,
            peaks[i] as int,
        ) ==> apart(peaks[i] as int, peaks[order[m].1 as int] as int) >= distance
}

/// Whether the place `i` stands in the order.
spec fn seen(order: Seq<(i64, usize)>, i: int) -> bool {
    exists|m: int| 0 <= m < order.len() && (#[trigger] order[m]).1 == i
}

/// One step of the thinning: deciding on the place at `t - 1` of the order.
proof fn lemma_thinning_step(
    x: Seq<u64>,
    peaks: Seq<usize>,
    kept: Seq<bool>,
    after: Seq<bool>,
    order: Seq<(i64, usize)>,
    t: int,
    distance: int,
)
    requires
        increasing(peaks),
        kept.len() == peaks.len(),
        after.len() == peaks.len(),
        order.len() == peaks.len(),
        pairs_sorted(order),
        0 < t <= order.len(),
        forall|m: int|
            0 <= m < order.len() ==> (#[trigger] order[m]).1 < peaks.len() && order[m].0 == key_of(
                x[peaks[order[m].1 as int] as int],
            ),
        forall|i: int| 0 <= i < peaks.len() ==> #[trigger] seen(order, i),
        forall|i: int|
            0 <= i < peaks.len() ==> #[trigger] kept[i] == undisturbed(
                x,
                peaks,
                kept,
                order,
                t,
                distance,
                i,
            ),
        ({
            let j = order[t - 1].1 as int;
            if kept[j] {
                forall|i: int|
                    0 <= i < after.len() ==> #[trigger] after[i] == (kept[i] && (i == j || apart(
                        peaks[i] as int,
                        peaks[j] as int,
                    ) >= distance))
            } else {
                after == kept
            }
        }),
    ensures
        forall|i: int|
            0 <= i < peaks.len() ==> #[trigger] after[i] == undisturbed(
                x,
                peaks,
                after,
                order,
                t - 1,
                distance,
                i,
            ),
{
    let j = order[t - 1].1 as int;
    assert forall|m: int| t <= m < order.len() && kept[j] && kept[(#[trigger] order[m]).1 as int]
        implies after[order[m].1 as int] by {
        let k = order[m].1 as int;
        assert(pair_le(order[t - 1], order[m]));
        if k != j {
            assert(outranks(x, peaks[k] as int, peaks[j] as int));
            assert(undisturbed(x, peaks, kept, order, t, distance, j));
        }
    }
    assert forall|i: int| 0 <= i < peaks.len() implies #[trigger] after[i] == undisturbed(
        x,
        peaks,
        after,
        order,
        t - 1,
        distance,
        i,
    ) by {
        assert(kept[i] == undisturbed(x, peaks, kept, order, t, distance, i));
        if after[i] {
            assert forall|m: int|
                t - 1 <= m < order.len() && after[(#[trigger] order[m]).1 as int] && outranks(
                    x,
                    peaks[order[m].1 as int] as int,
                    peaks[i] as int,
                ) implies apart(peaks[i] as int, peaks[order[m].1 as int] as int) >= distance by {
                if m == t - 1 {
                    assert(i != j);
                }
            }
        } else if kept[i] {
            assert(kept[j]);
            assert(i != j);
            assert(apart(peaks[i] as int, peaks[j] as int) < distance);
            assert(after[j]);
            if !outranks(x, peaks[j] as int, peaks[i] as int) {
                assert(peaks[i] != peaks[j]);
                assert(outranks(x, peaks[i] as int, peaks[j] as int));
                assert(seen(order, i));
                let m = choose|m: int| 0 <= m < order.len() && (#[trigger] order[m]).1 == i;
                if m < t {
                    assert(pair_le(order[m], order[t - 1]));
                    assert(false);
                }
                assert(after[order[m].1 as int]);
            }
            assert(order[t - 1].1 == j);
            assert(!undisturbed(x, peaks, after, order, t - 1, distance, i));
        } else {
            let m = choose|m: int|
                t <= m < order.len() && kept[(#[trigger] order[m]).1 as int] && outranks(
                    x,
                    peaks[order[m].1 as int] as int,
                    peaks[i] as int,
                ) && apart(peaks[i] as int, peaks[order[m].1 as int] as int) < distance;
            assert(after[order[m].1 as int]);
        }
    }
}

/// The places of peaks from the lowest to the highest, and among equally high ones from
/// the first to the last.
fn by_height(x: &[u64], peaks: &Vec<usize>) -> (r: Vec<(i64, usize)>)
    requires
        forall|i: int|
            0 <= i < peaks@.len() ==> (#[trigger] peaks@[i]) < x@.len() && !is_nan(
                x@[peaks@[i] as int],
            ),
    ensures
        r@.len() == peaks@.len(),
        pairs_sorted(r@),
        forall|m: int|
            0 <= m < r@.len() ==> (#[trigger] r@[m]).1 < peaks@.len() && r@[m].0 == key_of(
                x@[peaks@[r@[m].1 as int] as int],
            ),
        forall|i: int| 0 <= i < peaks@.len() ==> #[trigger] seen(r@, i),
{
    let mut pairs: Vec<(i64, usize)> = Vec::new();
    let mut i: usize = 0;
    while i < peaks.len()
        invariant
            i <= peaks@.len(),
            pairs@.len() == i,
            forall|k: int|
                0 <= k < peaks@.len() ==> (#[trigger] peaks@[k]) < x@.len() && !is_nan(
                    x@[peaks@[k] as int],
                ),
            forall|k: int|
                0 <= k < i ==> #[trigger] pairs@[k] == (
                    key_of(x@[peaks@[k] as int]) as i64,
                    k as usize,
                ) && pairs@[k].0 == key_of(x@[peaks@[k] as int]),
        decreases peaks@.len() - i,
    {
        if let Some(key) = order_key(x[peaks[i]]) {
            pairs.push((key, i));
        }
        i = i + 1;
    }
    let ghost before = pairs@;
    let n: usize = peaks.len();
    let r = sort_pairs(pairs);
    proof {
        broadcast use vstd::seq_lib::group_to_multiset_ensures;

        assert forall|m: int| 0 <= m < r@.len() implies (#[trigger] r@[m]).1 < peaks@.len()
            && r@[m].0 == key_of(x@[peaks@[r@[m].1 as int] as int]) by {
            assert(r@.contains(r@[m]));
            assert(before.to_multiset().contains(r@[m]));
            assert(before.contains(r@[m]));
        }
        assert forall|k: int| 0 <= k < peaks@.len() implies #[trigger] seen(r@, k) by {
            assert(before.contains(before[k]));
            assert(r@.to_multiset().contains(before[k]));
            assert(r@.contains(before[k]));
            let m = choose|m: int| 0 <= m < r@.len() && r@[m] == before[k];
            assert(r@[m].1 == k);
        }
    }
    r
}

/// The positions of the peaks of `x` of at least `min_height`, thinned so that no two lie
/// closer than `distance`: the highest stay. The numbers are doubles, given by their bits.
pub fn find_peaks(x: &[u64], min_height: u64, distance: usize) -> (r: Vec<usize>)
    ensures
        picked(x@, min_height, distance as int, r@),
{
    let peaks = candidates(x, min_height);
    proof {
        assert forall|i: int| 0 <= i < peaks@.len() implies (#[trigger] peaks@[i]) < x@.len()
            && !is_nan(x@[peaks@[i] as int]) by {
            assert(peaks@.contains(peaks@[i]));
            let (l, e) = choose|l: int, e: int| #[trigger] plateau(x@, l, e) && peaks@[i] == (l + e) / 2;
            assert(level(x@[peaks@[i] as int], x@[l]));
        }
    }
    let order = by_height(x, &peaks);
    let n: usize = peaks.len();
    let mut kept: Vec<bool> = Vec::new();
    while kept.len() < n
        invariant
            kept@.len() <= n,
            forall|i: int| 0 <= i < kept@.len() ==> kept@[i],
        decreases n - kept@.len(),
    {
        kept.push(true);
    }
    let mut t: usize = n;
    while t > 0
        invariant
            t <= n,
            n == peaks@.len() == order@.len() == kept@.len(),
            increasing(peaks@),
            pairs_sorted(order@),
            forall|m: int|
                0 <= m < order@.len() ==> (#[trigger] order@[m]).1 < peaks@.len() && order@[m].0
                    == key_of(x@[peaks@[order@[m].1 as int] as int]),
            forall|i: int| 0 <= i < peaks@.len() ==> #[trigger] seen(order@, i),
            forall|i: int|
                0 <= i < peaks@.len() ==> #[trigger] kept@[i] == undisturbed(
                    x@,
                    peaks@,
                    kept@,
                    order@,
                    t as int,
                    distance as int,
                    i,
                ),
        decreases t,
    {
        let ghost before = kept@;
        let j: usize = order[t - 1].1;
        if kept[j] {
            kept = suppress(&peaks, kept, j, distance);
        }
        proof {
            lemma_thinning_step(
                x@,
                peaks@,
                before,
                kept@,
                order@,
                t as int,
                distance as int,
            );
        }
        t = t - 1;
    }
    let mut r: Vec<usize> = Vec::new();
    let mut i: usize = 0;
    while i < n
        invariant
            i <= n,
            n == peaks@.len() == kept@.len(),
            increasing(peaks@),
            increasing(r@),
            forall|k: int| 0 <= k < r@.len() ==> stays(peaks@, kept@, i as int, #[trigger] r@[k]),
            forall|m: int| 0 <= m < i && kept@[m] ==> r@.contains(#[trigger] peaks@[m]),
        decreases n - i,
    {
        let ghost before = r@;
        assert forall|k: int| 0 <= k < r@.len() implies stays(
            peaks@,
            kept@,
            i + 1,
            #[trigger] r@[k],
        ) by {
            let m = choose|m: int| 0 <= m < i && kept@[m] && #[trigger] peaks@[m] == r@[k];
            assert(peaks@[m] == r@[k]);
        }
        if kept[i] {
            assert forall|k: int| 0 <= k < r@.len() implies #[trigger] r@[k] < peaks@[i as int] by {
                let m = choose|m: int| 0 <= m < i && kept@[m] && #[trigger] peaks@[m] == r@[k];
                assert(peaks@[m] == r@[k]);
            }
            r.push(peaks[i]);
            assert(r@[r@.len() - 1] == peaks@[i as int]);
            assert forall|m: int| 0 <= m < i + 1 && kept@[m] implies r@.contains(#[trigger] peaks@[m]) by {
                if m < i {
                    let k = choose|k: int| 0 <= k < before.len() && before[k] == peaks@[m];
                    assert(r@[k] == peaks@[m]);
                }
            }
        }
        i = i + 1;
    }
    proof {
        lemma_picked(x@, min_height, distance as int, peaks@, kept@, order@, r@);
    }
    r
}

/// Whether `p` stands in one of the first `n` places and is kept there.
spec fn stays(peaks: Seq<usize>, kept: Seq<bool>, n: int, p: usize) -> bool {
    exists|m: int| 0 <= m < n && kept[m] && #[trigger] peaks[m] == p
}

/// What is kept when the thinning is over is what is to be picked.
proof fn lemma_picked(
    x: Seq<u64>,
    min_height: u64,
    distance: int,
    peaks: Seq<usize>,
    kept: Seq<bool>,
    order: Seq<(i64, usize)>,
    r: Seq<usize>,
)
    requires
        increasing(peaks),
        increasing(r),
        kept.len() == peaks.len(),
        order.len() == peaks.len(),
        forall|p: usize| #[trigger] peaks.contains(p) <==> candidate(x, min_height, p as int),
        forall|m: int| 0 <= m < order.len() ==> (#[trigger] order[m]).1 < peaks.len(),
        forall|i: int| 0 <= i < peaks.len() ==> #[trigger] seen(order, i),
        forall|i: int|
            0 <= i < peaks.len() ==> #[trigger] kept[i] == undisturbed(
                x,
                peaks,
                kept,
                order,
                0,
                distance,
                i,
            ),
        forall|k: int|
            0 <= k < r.len() ==> stays(peaks, kept, peaks.len() as int, #[trigger] r[k]),
        forall|m: int| 0 <= m < peaks.len() && kept[m] ==> r.contains(#[trigger] peaks[m]),
    ensures
        picked(x, min_height, distance, r),
{
    assert forall|p: usize| #[trigger]
        r.contains(p) <==> {
            &&& candidate(x, min_height, p as int)
            &&& forall|q: usize| #[trigger]
                r.contains(q) && outranks(x, q as int, p as int) ==> apart(p as int, q as int)
                    >= distance
        } by {
        if candidate(x, min_height, p as int) {
            assert(peaks.contains(p));
            let i = choose|i: int| 0 <= i < peaks.len() && peaks[i] == p;
            if r.contains(p) {
                let k = choose|k: int| 0 <= k < r.len() && r[k] == p;
                assert(r[k] == p);
                let m = choose|m: int|
                    0 <= m < peaks.len() && kept[m] && #[trigger] peaks[m] == r[k];
                assert(m == i);
                assert forall|q: usize| #[trigger]
                    r.contains(q) && outranks(x, q as int, p as int) implies apart(
                    p as int,
                    q as int,
                ) >= distance by {
                    let kq = choose|k: int| 0 <= k < r.len() && r[k] == q;
                    assert(r[kq] == q);
                    let mq = choose|m: int|
                        0 <= m < peaks.len() && kept[m] && #[trigger] peaks[m] == r[kq];
                    assert(seen(order, mq));
                    let o = choose|o: int| 0 <= o < order.len() && (#[trigger] order[o]).1 == mq;
                    assert(undisturbed(x, peaks, kept, order, 0, distance, i));
                    assert(kept[order[o].1 as int]);
                }
            } else {
                assert(!kept[i]);
                let m = choose|m: int|
                    0 <= m < order.len() && kept[(#[trigger] order[m]).1 as int] && outranks(
                        x,
                        peaks[order[m].1 as int] as int,
                        peaks[i] as int,
                    ) && apart(peaks[i] as int, peaks[order[m].1 as int] as int) < distance;
                assert(r.contains(peaks[order[m].1 as int]));
            }
        } else if r.contains(p) {
            let k = choose|k: int| 0 <= k < r.len() && r[k] == p;
            assert(r[k] == p);
            let m = choose|m: int| 0 <= m < peaks.len() && kept[m] && #[trigger] peaks[m] == r[k];
            assert(peaks.contains(p));
        }
    }
}

/// Peaks that were picked lie at least the distance apart.
pub proof fn law_picked_peaks_are_apart(
    x: Seq<u64>,
    min_height: u64,
    distance: int,
    s: Seq<usize>,
    p: usize,
    q: usize,
)
    requires
        picked(x, min_height, distance, s),
        s.contains(p),
        s.contains(q),
        p != q,
    ensures
        apart(p as int, q as int) >= distance,
{
    if outranks(x, q as int, p as int) {
    } else {
        assert(outranks(x, p as int, q as int));
    }
}

/// A peak of sufficient height that was not picked lies closer than the distance to a
/// picked one that is at least as high.
pub proof fn law_a_dropped_peak_has_a_higher_one_beside_it(
    x: Seq<u64>,
    min_height: u64,
    distance: int,
    s: Seq<usize>,
    p: usize,
)
    requires
        picked(x, min_height, distance, s),
        candidate(x, min_height, p as int),
        !s.contains(p),
    ensures
        exists|q: usize| #[trigger]
            s.contains(q) && key_of(x[q as int]) >= key_of(x[p as int]) && apart(
                p as int,
                q as int,
            ) < distance,
{
}

proof fn lemma_picks_agree(
    x: Seq<u64>,
    min_height: u64,
    distance: int,
    a: Seq<usize>,
    b: Seq<usize>,
    p: usize,
)
    requires
        picked(x, min_height, distance, a),
        picked(x, min_height, distance, b),
        p < x.len(),
    ensures
        a.contains(p) == b.contains(p),
    decreases 0x8000_0000_0000_0000 - key_of(x[p as int]), x.len() - p,
{
    if a.contains(p) != b.contains(p) {
        let (s, o) = if a.contains(p) {
            (a, b)
        } else {
            (b, a)
        };
        assert(s.contains(p) && !o.contains(p));
        let q = choose|q: usize| #[trigger]
            o.contains(q) && outranks(x, q as int, p as int) && apart(p as int, q as int)
                < distance;
        assert(candidate(x, min_height, q as int));
        lemma_picks_agree(x, min_height, distance, a, b, q);
        assert(s.contains(q));
    }
}

proof fn lemma_increasing_alike(a: Seq<usize>, b: Seq<usize>)
    requires
        increasing(a),
        increasing(b),
        forall|p: usize| a.contains(p) == b.contains(p),
    ensures
        a == b,
    decreases a.len(),
{
    if a.len() == 0 {
        if b.len() > 0 {
            assert(b.contains(b[0]));
            assert(a.contains(b[0]));
        }
    } else {
        assert(a.contains(a.last()));
        assert(b.contains(a.last()));
        let i = choose|i: int| 0 <= i < b.len() && b[i] == a.last();
        assert(b.contains(b.last()));
        assert(a.contains(b.last()));
        let j = choose|j: int| 0 <= j < a.len() && a[j] == b.last();
        assert(a.last() == b.last());
        let (c, d) = (a.drop_last(), b.drop_last());
        assert forall|p: usize| c.contains(p) == d.contains(p) by {
            assert(a.contains(p) == b.contains(p));
            if c.contains(p) {
                let k = choose|k: int| 0 <= k < c.len() && c[k] == p;
                assert(a[k] == p);
                let m = choose|m: int| 0 <= m < b.len() && b[m] == p;
                assert(d[m] == p);
            }
            if d.contains(p) {
                let k = choose|k: int| 0 <= k < d.len() && d[k] == p;
                assert(b[k] == p);
                let m = choose|m: int| 0 <= m < a.len() && a[m] == p;
                assert(c[m] == p);
            }
        }
        lemma_increasing_alike(c, d);
        assert(a =~= c.push(a.last()));
        assert(b =~= d.push(b.last()));
    }
}

/// There is just one choice of peaks.
pub proof fn law_picking_is_determined(
    x: Seq<u64>,
    min_height: u64,
    distance: int,
    a: Seq<usize>,
    b: Seq<usize>,
)
    requires
        picked(x, min_height, distance, a),
        picked(x, min_height, distance, b),
    ensures
        a == b,
{
    assert forall|p: usize| a.contains(p) == b.contains(p) by {
        if p < x.len() {
            lemma_picks_agree(x, min_height, distance, a, b, p);
        }
    }
    lemma_increasing_alike(a, b);
}

// ---------- quiet spots ----------

/// Samples in the frame whose energy is looked at.
pub const FRAME: usize = 1024;

/// Samples from one frame to the next.
pub const HOP: usize = 256;

/// The sum of the squares of the samples from `lo` up to `hi`.
pub open spec fn energy(s: Seq<i16>, lo: int, hi: int) -> int
    decreases hi - lo,
{
    if lo >= hi {
        0
    } else {
        energy(s, lo, hi - 1) + s[hi - 1] * s[hi - 1]
    }
}

/// The energy of frame `k` of the samples from `start` to `end`. The frame lies around its
/// centre, and what lies outside of the range is silent.
pub open spec fn frame_energy(s: Seq<i16>, start: int, end: int, k: int) -> int {
    let centre = start + k * HOP;
    let lo = if centre - FRAME / 2 < start {
        start
    } else {
        centre - FRAME / 2
    };
    let hi = if centre + FRAME / 2 > end {
        end
    } else {
        centre + FRAME / 2
    };
    energy(s, lo, hi)
}

/// Whether `k` is the first of the quietest frames of the samples from `start` to `end`.
pub open spec fn quietest(s: Seq<i16>, start: int, end: int, k: int) -> bool {
    &&& 0 <= k <= (end - start) / HOP as int
    &&& forall|j: int|
        0 <= j <= (end - start) / HOP as int ==> frame_energy(s, start, end, k)
            <= #[trigger] frame_energy(s, start, end, j)
    &&& forall|j: int|
        0 <= j < k ==> frame_energy(s, start, end, k) < #[trigger] frame_energy(s, start, end, j)
}

/// The sample at a number of seconds, which is a double and counts from 0 on: their product, as
/// a double, without what lies behind the point.
pub open spec fn sample_at(sr: int, seconds: int) -> int {
    if seconds < 0 {
        0
    } else {
        double(seconds * sr, 1) / PARTS as int
    }
}

/// The first sample of the search around a sample.
pub open spec fn search_start(sr: int, centre: int, window: int) -> int {
    let start = centre - sample_at(sr, in_seconds(window));
    if start < 0 {
        0
    } else {
        start
    }
}

/// The sample behind the search around a sample.
pub open spec fn search_end(len: int, sr: int, centre: int, window: int) -> int {
    let end = centre + sample_at(sr, in_seconds(window));
    if end > len {
        len
    } else {
        end
    }
}

/// Whether `r` is the time that `t` moves to, whose sample is `centre`: the centre of the quietest
/// frame around it, or `t` itself where less than a tenth of a second can be searched.
pub open spec fn snapped_around(
    s: Seq<i16>,
    sr: int,
    centre: int,
    t: int,
    window: int,
    r: int,
) -> bool {
    let start = search_start(sr, centre, window);
    let end = search_end(s.len() as int, sr, centre, window);
    if end <= start || end - start < sr / 10 {
        r == t
    } else {
        exists|k: int| #[trigger]
            quietest(s, start, end, k) && r == as_time((start + k * HOP) * 1_000_000_000 / sr)
    }
}

/// Whether `r` is the time that `t` moves to.
pub open spec fn snapped(s: Seq<i16>, sr: int, t: int, window: int, r: int) -> bool {
    snapped_around(s, sr, sample_at(sr, in_seconds(t)), t, window, r)
}

proof fn lemma_square(v: i16)
    ensures
        0 <= v * v <= 0x4000_0000,
{
    assert(0 <= v * v <= 0x4000_0000) by (nonlinear_arith)
        requires
            -0x8000 <= v <= 0x7fff,
    ;
}

proof fn lemma_energy_splits(s: Seq<i16>, lo: int, mid: int, hi: int)
    requires
        lo <= mid <= hi,
    ensures
        energy(s, lo, hi) == energy(s, lo, mid) + energy(s, mid, hi),
        energy(s, mid, hi) >= 0,
    decreases hi - mid,
{
    if mid < hi {
        lemma_energy_splits(s, lo, mid, hi - 1);
        lemma_square(s[hi - 1]);
    }
}

/// The sums of the squares of the samples from `start` on, up to each place.
fn cumulated(s: &[i16], start: usize, end: usize) -> (r: Vec<u128>)
    requires
        start <= end <= s@.len(),
    ensures
        r@.len() == end - start + 1,
        forall|i: int| 0 <= i <= end - start ==> #[trigger] r@[i] == energy(s@, start as int, start + i),
{
    let mut r: Vec<u128> = Vec::new();
    r.push(0);
    let mut i: usize = start;
    let mut sum: u128 = 0;
    while i < end
        invariant
            start <= i <= end <= s@.len(),
            r@.len() == i - start + 1,
            sum == energy(s@, start as int, i as int),
            sum <= (i - start) * 0x4000_0000,
            forall|k: int| 0 <= k <= i - start ==> #[trigger] r@[k] == energy(s@, start as int, start + k),
        decreases end - i,
    {
        let v: i32 = s[i] as i32;
        proof {
            lemma_square(s@[i as int]);
        }
        let square: i32 = v * v;
        sum = sum + square as u128;
        r.push(sum);
        i = i + 1;
    }
    r
}

/// The first of the quietest frames of the samples from `start` to `end`.
pub fn quietest_frame(s: &[i16], start: usize, end: usize) -> (k: usize)
    requires
        start <= end <= s@.len(),
    ensures
        quietest(s@, start as int, end as int, k as int),
{
    let sums = cumulated(s, start, end);
    let len: usize = end - start;
    let last: usize = len / HOP;
    let mut best: usize = 0;
    let mut least: u128 = 0;
    let mut k: usize = 0;
    loop
        invariant_except_break
            k <= last,
            best <= k,
            k > 0 ==> best < k && least == frame_energy(s@, start as int, end as int, best as int),
            forall|j: int|
                0 <= j < k ==> least <= #[trigger] frame_energy(s@, start as int, end as int, j),
            forall|j: int|
                0 <= j < best ==> least < #[trigger] frame_energy(s@, start as int, end as int, j),
        invariant
            start <= end <= s@.len(),
            len == end - start,
            last == len / HOP,
            sums@.len() == len + 1,
            forall|i: int| 0 <= i <= len ==> #[trigger] sums@[i] == energy(s@, start as int, start + i),
        ensures
            quietest(s@, start as int, end as int, best as int),
        decreases last - k,
    {
        let centre: usize = k * HOP;
        let lo: usize = if centre < FRAME / 2 {
            0
        } else {
            centre - FRAME / 2
        };
        let hi: usize = if FRAME / 2 > len - centre {
            len
        } else {
            centre + FRAME / 2
        };
        proof {
            lemma_energy_splits(s@, start as int, start + lo, start + hi);
        }
        let e: u128 = sums[hi] - sums[lo];
        assert(e == frame_energy(s@, start as int, end as int, k as int));
        if k == 0 || e < least {
            least = e;
            best = k;
        }
        if k == last {
            break;
        }
        k = k + 1;
    }
    best
}

/// The sample at a number of seconds.
pub fn sample_index(sr: usize, seconds: Double) -> (r: u128)
    requires
        seconds.valid(),
        seconds.zeros <= 1000,
        seconds.parts() <= 0x80_0000_0000_0000_0000_0000_0000_0000,
    ensures
        r == sample_at(sr as int, seconds.parts()),
        r <= 0x100_0000_0000_0000_0000_0000_0000,
{
    proof {
        lemma_pow2_pos(seconds.zeros as nat);
        assert(0 <= seconds.parts()) by (nonlinear_arith)
            requires
                seconds.parts() == seconds.digits * pow2(seconds.zeros as nat),
                pow2(seconds.zeros as nat) > 0,
        ;
        let n = seconds.parts() * sr;
        assert(0 <= n <= 0x80_0000_0000_0000_0000_0000_0000_0000 * 0x1_0000_0000_0000_0000)
            by (nonlinear_arith)
            requires
                n == seconds.parts() * sr,
                0 <= seconds.parts() <= 0x80_0000_0000_0000_0000_0000_0000_0000,
                0 <= sr <= 0x1_0000_0000_0000_0000,
        ;
        lemma_signed_double(n);
    }
    seconds.times(sr as u64).whole()
}

fn sample_of(sr: usize, t: i64) -> (r: u128)
    ensures
        r == sample_at(sr as int, in_seconds(t as int)),
        r <= 0x100_0000_0000_0000_0000_0000_0000,
{
    proof {
        lemma_in_seconds(t as int);
    }
    if t < 0 {
        proof {
            if in_seconds(t as int) >= 0 {
                assert(false);
            }
        }
        0
    } else {
        sample_index(sr, seconds_of(t as u64))
    }
}

/// The time near `t` at which the quietest frame has its centre: the place to cut. Times are
/// in nanoseconds, and the search goes `window` to both sides.
pub fn snap_to_energy_minimum(samples: &[i16], sr: usize, t: i64, window: i64) -> (r: i64)
    ensures
        snapped(samples@, sr as int, t as int, window as int, r as int),
{
    snap_around(samples, sr, sample_of(sr, t), t, window)
}

/// The time near `t` at which the quietest frame has its centre, where `centre` is the sample
/// at `t`.
pub fn snap_around(samples: &[i16], sr: usize, centre: u128, t: i64, window: i64) -> (r: i64)
    requires
        centre <= 0x100_0000_0000_0000_0000_0000_0000,
    ensures
        snapped_around(samples@, sr as int, centre as int, t as int, window as int, r as int),
{
    let half: u128 = sample_of(sr, window);
    proof {
        if sr == 0 {
            assert(in_seconds(window as int) * 0 == 0);
            lemma_signed_double(0);
            assert(half == 0);
        }
    }
    let len: usize = samples.len();
    let start: u128 = if centre < half {
        0
    } else {
        centre - half
    };
    let end: u128 = if centre + half > len as u128 {
        len as u128
    } else {
        centre + half
    };
    if end <= start || end - start < (sr / 10) as u128 {
        return t;
    }
    let k: usize = quietest_frame(samples, start as usize, end as usize);
    let at: u128 = start + k as u128 * HOP as u128;
    assert(k * HOP <= end - start);
    let r: u128 = at * 1_000_000_000 / sr as u128;
    if r > i64::MAX as u128 {
        i64::MAX
    } else {
        r as i64
    }
}

/// The sample at a time is off from what the time gives by less than a sample and by what
/// doubles are off.
proof fn lemma_sample_at(sr: int, t: int)
    requires
        sr > 0,
        t >= 0,
    ensures
        0 <= sample_at(sr, in_seconds(t)),
        (sample_at(sr, in_seconds(t)) * 1_000_000_000 - t * sr) * 0x8_0000_0000_0000 <= t * sr,
        (t * sr - sample_at(sr, in_seconds(t)) * 1_000_000_000 - 1_000_000_000) * 0x8_0000_0000_0000
            <= t * sr,
{
    lemma_in_seconds(t);
    let x = in_seconds(t);
    let (n, a) = (x * sr, t * sr);
    let (e, f) = (x * 1_000_000_000, t * PARTS);
    assert(0 <= f);
    assert(-f <= (e - f) * DIGITS <= f);
    assert(0 <= x);
    assert(0 <= n && 0 <= a) by (nonlinear_arith)
        requires
            n == x * sr,
            a == t * sr,
            x >= 0,
            t >= 0,
            sr > 0,
    ;
    assert(-(a * PARTS) <= (n * 1_000_000_000 - a * PARTS) * DIGITS <= a * PARTS) by (nonlinear_arith)
        requires
            n == x * sr,
            a == t * sr,
            sr > 0,
            e == x * 1_000_000_000,
            f == t * PARTS,
            -f <= (e - f) * DIGITS <= f,
    ;
    lemma_signed_double(n);
    let y = double(n, 1);
    assert(-n <= (y - n) * DIGITS <= n);
    assert(sample_at(sr, x) == y / PARTS as int);
}

/// A time moves by no more than the window, but for less than a sample and a nanosecond that
/// rounding down may add on the left, and for what doubles are off on both sides: the 51st binary
/// digit.
pub proof fn law_snapping_stays_in_the_window(
    s: Seq<i16>,
    sr: int,
    t: int,
    window: int,
    r: int,
)
    requires
        sr > 0,
        0 <= t <= i64::MAX,
        window >= 0,
        snapped(s, sr, t, window, r),
    ensures
        (r - t - window) * 0x8_0000_0000_0000 <= t + window,
        ((t - window - r) * sr - 1_000_000_000 - sr) * 0x8_0000_0000_0000 < (t + window) * sr,
{
    let centre = sample_at(sr, in_seconds(t));
    let start = search_start(sr, centre, window);
    let end = search_end(s.len() as int, sr, centre, window);
    lemma_sample_at(sr, t);
    lemma_sample_at(sr, window);
    let (a, b) = (t * sr, window * sr);
    assert((t - window - r) * sr == a - b - r * sr && (t + window) * sr == a + b && 0 <= a && 0
        <= b) by (nonlinear_arith)
        requires
            a == t * sr,
            b == window * sr,
            t >= 0,
            window >= 0,
            sr > 0,
    ;
    if end <= start || end - start < sr / 10 {
        assert(a == r * sr);
    } else {
        let k = choose|k: int| #[trigger]
            quietest(s, start, end, k) && r == as_time((start + k * HOP) * 1_000_000_000 / sr);
        let at = start + k * HOP;
        assert(start <= at <= end);
        let n = at * 1_000_000_000;
        let q = n / sr;
        assert(q * sr <= n < q * sr + sr && 0 <= q) by (nonlinear_arith)
            requires
                q == n / sr,
                n >= 0,
                sr > 0,
        ;
        assert((n - a - b) * 0x8_0000_0000_0000 <= a + b);
        assert((q - t - window) * 0x8_0000_0000_0000 <= t + window) by (nonlinear_arith)
            requires
                (n - a - b) * 0x8_0000_0000_0000 <= a + b,
                q * sr <= n,
                a == t * sr,
                b == window * sr,
                sr > 0,
        ;
        assert(r <= q);
        if r < q {
            assert(r == i64::MAX);
            assert(a <= r * sr) by (nonlinear_arith)
                requires
                    a == t * sr,
                    t <= r,
                    sr > 0,
            ;
        }
    }
}

/// There is just one time to move to.
pub proof fn law_snapping_is_determined(
    s: Seq<i16>,
    sr: int,
    centre: int,
    t: int,
    window: int,
    a: int,
    b: int,
)
    requires
        snapped_around(s, sr, centre, t, window, a),
        snapped_around(s, sr, centre, t, window, b),
    ensures
        a == b,
{
    let start = search_start(sr, centre, window);
    let end = search_end(s.len() as int, sr, centre, window);
    if end <= start || end - start < sr / 10 {
    } else {
        let j = choose|k: int| #[trigger]
            quietest(s, start, end, k) && a == as_time((start + k * HOP) * 1_000_000_000 / sr);
        let k = choose|k: int| #[trigger]
            quietest(s, start, end, k) && b == as_time((start + k * HOP) * 1_000_000_000 / sr);
        assert(frame_energy(s, start, end, j) <= frame_energy(s, start, end, k));
        assert(frame_energy(s, start, end, k) <= frame_energy(s, start, end, j));
        assert(j == k);
    }
}

// ---------- what peaks and quiet spots are ----------

/// A peak that was picked is the middle of a stretch of equal scores that is higher than the
/// scores on both sides, and it is as high as it has to be.
pub proof fn law_picked_peaks_rise_and_fall(
    x: Seq<u64>,
    min_height: u64,
    distance: int,
    s: Seq<usize>,
    p: usize,
)
    requires
        picked(x, min_height, distance, s),
        s.contains(p),
    ensures
        exists|l: int, r: int|
            {
                &&& 1 <= l <= p <= r < x.len() - 1
                &&& p - l <= r - p <= p - l + 1
                &&& forall|i: int| l <= i <= r ==> value_of(#[trigger] x[i]) == value_of(x[p as int])
                &&& #[trigger] value_of(x[l - 1]) < value_of(x[p as int])
                &&& #[trigger] value_of(x[r + 1]) < value_of(x[p as int])
            },
        value_of(x[p as int]) >= value_of(min_height),
{
    assert(candidate(x, min_height, p as int));
    let (l, r) = choose|l: int, r: int| #[trigger] plateau(x, l, r) && p == (l + r) / 2;
    assert(l <= p <= r);
    assert(level(x[p as int], x[l]));
    law_keys_order_as_values(x[l - 1], x[l]);
    law_keys_order_as_values(x[r + 1], x[l]);
    law_keys_order_as_values(x[p as int], x[l]);
    law_keys_order_as_values(x[p as int], min_height);
    assert forall|i: int| l <= i <= r implies value_of(#[trigger] x[i]) == value_of(x[p as int]) by {
        assert(level(x[i], x[l]));
        law_keys_order_as_values(x[i], x[l]);
    }
    assert(value_of(x[l - 1]) < value_of(x[p as int]) && value_of(x[r + 1]) < value_of(
        x[p as int],
    ));
}

/// A score that is higher than the ones beside it, as high as it has to be, and higher than all
/// others within the distance is picked.
pub proof fn law_a_score_that_stands_out_is_picked(
    x: Seq<u64>,
    min_height: u64,
    distance: int,
    s: Seq<usize>,
    p: usize,
)
    requires
        picked(x, min_height, distance, s),
        0 < p < x.len() - 1,
        x.len() <= usize::MAX,
        forall|i: int| 0 <= i < x.len() ==> !is_nan(#[trigger] x[i]),
        !is_nan(min_height),
        value_of(x[p - 1]) < value_of(x[p as int]),
        value_of(x[p + 1]) < value_of(x[p as int]),
        value_of(x[p as int]) >= value_of(min_height),
        forall|q: int|
            0 <= q < x.len() && q != p && -distance < q - p < distance ==> value_of(#[trigger] x[q])
                < value_of(x[p as int]),
    ensures
        s.contains(p),
{
    let at = p as int;
    law_keys_order_as_values(x[at - 1], x[at]);
    law_keys_order_as_values(x[at + 1], x[at]);
    law_keys_order_as_values(x[at], min_height);
    assert(plateau(x, at, at));
    assert(is_peak(x, at));
    assert(candidate(x, min_height, at));
    assert forall|q: usize| #[trigger] s.contains(q) && outranks(x, q as int, at) implies apart(
        at,
        q as int,
    ) >= distance by {
        law_picked_peaks_rise_and_fall(x, min_height, distance, s, q);
        assert(q < x.len());
        law_keys_order_as_values(x[q as int], x[at]);
    }
}

/// Energy is the sum of the squares of the samples.
pub proof fn law_energy_adds_up_squares(s: Seq<i16>, lo: int, mid: int, hi: int)
    requires
        lo <= mid <= hi,
    ensures
        energy(s, lo, hi) == energy(s, lo, mid) + energy(s, mid, hi),
        energy(s, lo, lo) == 0,
        energy(s, lo, lo + 1) == s[lo] * s[lo],
        energy(s, lo, hi) >= 0,
{
    lemma_energy_splits(s, lo, mid, hi);
    lemma_energy_splits(s, lo, lo, hi);
    reveal_with_fuel(energy, 2);
}

/// The energy of the 1024 samples around sample `c`, as far as they lie from `start` to `end`.
pub open spec fn around(s: Seq<i16>, start: int, end: int, c: int) -> int {
    energy(
        s,
        if c - 512 > start {
            c - 512
        } else {
            start
        },
        if c + 512 < end {
            c + 512
        } else {
            end
        },
    )
}

/// Whether sample `at` is one of those from `start` to `end` in steps of 256, the 1024 samples
/// around it are as quiet as those around any of them, and louder around those before it.
pub open spec fn nowhere_quieter(s: Seq<i16>, start: int, end: int, at: int) -> bool {
    &&& start <= at <= end
    &&& (at - start) % 256 == 0
    &&& forall|c: int|
        start <= c <= end && (c - start) % 256 == 0 ==> around(s, start, end, at)
            <= #[trigger] around(s, start, end, c)
    &&& forall|c: int|
        start <= c < at && (c - start) % 256 == 0 ==> around(s, start, end, at)
            < #[trigger] around(s, start, end, c)
}

/// The whole window is searched on both sides of a sample, as far as the recording goes, in steps
/// of 256 samples from its beginning on: nowhere there are the 1024 samples quieter than at the
/// place that is found, and before it they are louder.
pub proof fn law_the_whole_window_is_searched(
    s: Seq<i16>,
    sr: int,
    centre: int,
    t: int,
    window: int,
    r: int,
    start: int,
    end: int,
)
    requires
        sr > 0,
        centre >= 0,
        window >= 0,
        snapped_around(s, sr, centre, t, window, r),
        start == if centre > sample_at(sr, in_seconds(window)) {
            centre - sample_at(sr, in_seconds(window))
        } else {
            0
        },
        end == if centre + sample_at(sr, in_seconds(window)) < s.len() {
            centre + sample_at(sr, in_seconds(window))
        } else {
            s.len() as int
        },
    ensures
        end - start < sr / 10 || end <= start ==> r == t,
        end > start && end - start >= sr / 10 ==> exists|at: int| #[trigger]
            nowhere_quieter(s, start, end, at) && r == as_time(at * 1_000_000_000 / sr),
{
    assert(search_start(sr, centre, window) == start);
    assert(search_end(s.len() as int, sr, centre, window) == end);
    if end > start && end - start >= sr / 10 {
        let k = choose|k: int| #[trigger]
            quietest(s, start, end, k) && r == as_time((start + k * HOP) * 1_000_000_000 / sr);
        let at = start + k * HOP;
        assert(around(s, start, end, at) == frame_energy(s, start, end, k));
        assert forall|c: int| start <= c <= end && (c - start) % 256 == 0 implies {
            let e = #[trigger] around(s, start, end, c);
            around(s, start, end, at) <= e && (c < at ==> around(s, start, end, at) < e)
        } by {
            let j = (c - start) / 256;
            assert(c == start + j * HOP);
            assert(around(s, start, end, c) == frame_energy(s, start, end, j));
            assert(frame_energy(s, start, end, k) <= frame_energy(s, start, end, j));
            if c < at {
                assert(j < k);
                assert(frame_energy(s, start, end, k) < frame_energy(s, start, end, j));
            }
        }
        assert(nowhere_quieter(s, start, end, at));
    }
}

/// The sample at a time is the last one that begins before it, up to what doubles are off: the
/// 51st binary digit. Before the beginning it is the first one.
pub proof fn law_the_sample_at_a_time(sr: int, t: int)
    requires
        sr > 0,
    ensures
        t < 0 ==> sample_at(sr, in_seconds(t)) == 0,
        t >= 0 ==> {
            let n = sample_at(sr, in_seconds(t));
            &&& 0 <= n
            &&& (n * 1_000_000_000 - t * sr) * 0x8_0000_0000_0000 <= t * sr
            &&& (t * sr - n * 1_000_000_000 - 1_000_000_000) * 0x8_0000_0000_0000 <= t * sr
        },
{
    if t < 0 {
        lemma_in_seconds(t);
    } else {
        lemma_sample_at(sr, t);
    }
}

/// Where there is a quieter moment within the window of a time, the time does not stay where it
/// is loud: if the window holds 1280 samples of silence that lie inside of the recording, the time
/// moves to where the 1024 samples around it are silent.
pub proof fn law_silence_in_the_window_is_found(
    s: Seq<i16>,
    sr: int,
    t: int,
    window: int,
    r: int,
    from: int,
)
    requires
        sr > 0,
        t >= 0,
        window >= 0,
        snapped(s, sr, t, window, r),
        ({
            let centre = sample_at(sr, in_seconds(t));
            let half = sample_at(sr, in_seconds(window));
            &&& 0 <= from && centre - half <= from
            &&& from + 1280 <= s.len() && from + 1280 <= centre + half
            &&& 2 * half >= sr / 10 && centre >= half && centre + half <= s.len()
        }),
        forall|i: int| from <= i < from + 1280 ==> #[trigger] s[i] == 0,
    ensures
        exists|at: int|
            0 <= at <= s.len() && r == as_time(at * 1_000_000_000 / sr) && #[trigger] around(
                s,
                sample_at(sr, in_seconds(t)) - sample_at(sr, in_seconds(window)),
                sample_at(sr, in_seconds(t)) + sample_at(sr, in_seconds(window)),
                at,
            ) == 0,
{
    let centre = sample_at(sr, in_seconds(t));
    let half = sample_at(sr, in_seconds(window));
    let (start, end) = (centre - half, centre + half);
    law_the_whole_window_is_searched(s, sr, centre, t, window, r, start, end);
    let at = choose|at: int| #[trigger]
        nowhere_quieter(s, start, end, at) && r == as_time(at * 1_000_000_000 / sr);
    let c = start + (from + 512 - start + 255) / 256 * 256;
    assert(from + 512 <= c <= from + 767);
    assert((c - start) % 256 == 0);
    lemma_silence(s, c - 512, c + 512);
    assert(around(s, start, end, c) == 0);
    let lo = if at - 512 > start {
        at - 512
    } else {
        start
    };
    let hi = if at + 512 < end {
        at + 512
    } else {
        end
    };
    lemma_energy_splits(s, lo, lo, hi);
    assert(around(s, start, end, at) <= around(s, start, end, c));
}

proof fn lemma_silence(s: Seq<i16>, lo: int, hi: int)
    requires
        forall|i: int| lo <= i < hi ==> #[trigger] s[i] == 0,
    ensures
        energy(s, lo, hi) == 0,
    decreases hi - lo,
{
    if lo < hi {
        lemma_silence(s, lo, hi - 1);
        assert(s[hi - 1] == 0);
    }
}

/// Peaks that were picked lie the distance apart, counted in places.
pub proof fn law_picked_peaks_keep_their_distance(
    x: Seq<u64>,
    min_height: u64,
    distance: int,
    s: Seq<usize>,
    i: int,
    j: int,
)
    requires
        picked(x, min_height, distance, s),
        0 <= i < j < s.len(),
    ensures
        s[i] < s[j],
        s[j] - s[i] >= distance,
{
    assert(s.contains(s[i]) && s.contains(s[j]));
    law_picked_peaks_are_apart(x, min_height, distance, s, s[i], s[j]);
}

proof fn lemma_one_plateau(x: Seq<u64>, l: int, r: int, a: int, b: int)
    requires
        plateau(x, l, r),
        plateau(x, a, b),
        a <= r,
        l <= b,
    ensures
        a == l,
        b == r,
{
    if a > l {
        assert(level(x[a - 1], x[l]) && level(x[a], x[l]));
    }
    if a < l {
        assert(level(x[l - 1], x[a]) && level(x[l], x[a]));
    }
    if b < r {
        assert(level(x[b + 1], x[l]) && level(x[b], x[l]));
    }
    if b > r {
        assert(level(x[r + 1], x[a]) && level(x[r], x[a]));
    }
}

/// The middle of a stretch of equal scores that is higher than what is beside it, as high as it
/// has to be, and higher than all else within the distance is picked.
pub proof fn law_a_stretch_that_stands_out_is_picked(
    x: Seq<u64>,
    min_height: u64,
    distance: int,
    s: Seq<usize>,
    l: int,
    r: int,
    p: usize,
)
    requires
        picked(x, min_height, distance, s),
        1 <= l <= r < x.len() - 1,
        p == (l + r) / 2,
        x.len() <= usize::MAX,
        forall|i: int| 0 <= i < x.len() ==> !is_nan(#[trigger] x[i]),
        !is_nan(min_height),
        forall|i: int| l <= i <= r ==> value_of(#[trigger] x[i]) == value_of(x[p as int]),
        value_of(x[l - 1]) < value_of(x[p as int]),
        value_of(x[r + 1]) < value_of(x[p as int]),
        value_of(x[p as int]) >= value_of(min_height),
        forall|q: int|
            0 <= q < x.len() && !(l <= q <= r) && -distance < q - p < distance ==> value_of(
                #[trigger] x[q],
            ) < value_of(x[p as int]),
    ensures
        s.contains(p),
{
    let at = p as int;
    assert forall|i: int| l <= i <= r implies level(#[trigger] x[i], x[l]) by {
        law_keys_order_as_values(x[i], x[l]);
        assert(value_of(x[i]) == value_of(x[at]) && value_of(x[l]) == value_of(x[at]));
    }
    assert(value_of(x[l]) == value_of(x[at]));
    law_keys_order_as_values(x[l - 1], x[l]);
    law_keys_order_as_values(x[r + 1], x[l]);
    law_keys_order_as_values(x[at], min_height);
    assert(plateau(x, l, r));
    assert(is_peak(x, at));
    assert(candidate(x, min_height, at));
    assert forall|q: usize| #[trigger] s.contains(q) && outranks(x, q as int, at) implies apart(
        at,
        q as int,
    ) >= distance by {
        let k = q as int;
        assert(candidate(x, min_height, k));
        let (a, b) = choose|a: int, b: int| #[trigger] plateau(x, a, b) && k == (a + b) / 2;
        law_keys_order_as_values(x[k], x[at]);
        if l <= k <= r {
            lemma_one_plateau(x, l, r, a, b);
        }
    }
}

/// The quietest frame is the first of those in steps of 256 samples around which no 1024 samples
/// are quieter.
pub proof fn law_the_quietest_frame(s: Seq<i16>, start: int, end: int, k: int)
    requires
        start <= end,
        quietest(s, start, end, k),
    ensures
        nowhere_quieter(s, start, end, start + 256 * k),
{
    let at = start + 256 * k;
    assert(around(s, start, end, at) == frame_energy(s, start, end, k));
    assert forall|c: int| start <= c <= end && (c - start) % 256 == 0 implies {
        let e = #[trigger] around(s, start, end, c);
        around(s, start, end, at) <= e && (c < at ==> around(s, start, end, at) < e)
    } by {
        let j = (c - start) / 256;
        assert(c == start + j * HOP);
        assert(around(s, start, end, c) == frame_energy(s, start, end, j));
        assert(frame_energy(s, start, end, k) <= frame_energy(s, start, end, j));
        if c < at {
            assert(frame_energy(s, start, end, k) < frame_energy(s, start, end, j));
        }
    }
}

} // verus!
