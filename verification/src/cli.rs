//! What the command-line program reads and prints.

use crate::order::{in_order, sort, sorted};
use crate::pipeline::Candidate;
use crate::text::{
    char_from, chars_of, decimal, decimal_text, find_char, padded, part, pow10, push_decimal,
    push_large, push_padded, push_right, right_aligned, trim, trimmed,
};
use crate::doubles::{
    difference, in_seconds, lemma_rounded_even, lemma_signed_double, round_even, rounded_even,
    seconds_between, signed_double, to_double, to_seconds, PARTS,
};
use crate::times::{field_time, read_field};
use vstd::prelude::*;

verus! {

// ---------- numbers ----------

/// The size of a number.
pub open spec fn size(n: int) -> int {
    if n < 0 {
        -n
    } else {
        n
    }
}

/// `n / one` with `places` digits behind the point.
pub open spec fn fixed(n: int, one: int, places: nat) -> Seq<char> {
    let q = rounded_even(size(n) * pow10(places), one);
    let whole = decimal((q / pow10(places) as int) as nat);
    let sign = if n < 0 {
        seq!['-']
    } else {
        Seq::empty()
    };
    if places == 0 {
        sign + whole
    } else {
        sign + whole + seq!['.'] + padded((q % pow10(places) as int) as nat, places)
    }
}

/// The seconds of a time with `places` digits behind the point.
pub open spec fn seconds(t: int, places: nat) -> Seq<char> {
    fixed(in_seconds(t), PARTS as int, places)
}

/// The seconds from `start` to `end`, with one digit behind the point.
pub open spec fn seconds_from(start: int, end: int) -> Seq<char> {
    fixed(seconds_between(end, start), PARTS as int, 1)
}

/// The minutes of a time with one digit behind the point. A minute is a sixtieth of the double
/// of the seconds, as a double, which the smallest times need a 64th of a part for.
pub open spec fn minutes(t: int) -> Seq<char> {
    fixed(signed_double(64 * in_seconds(t), 60), 64 * PARTS, 1)
}

fn power_of_ten(n: usize) -> (r: u64)
    requires
        n <= 3,
    ensures
        r == pow10(n as nat),
        0 < r <= 1000,
{
    let mut r: u64 = 1;
    let mut i: usize = 0;
    reveal_with_fuel(pow10, 4);
    while i < n
        invariant
            i <= n <= 3,
            r == pow10(i as nat),
            r > 0,
        decreases n - i,
    {
        proof {
            reveal_with_fuel(pow10, 4);
        }
        r = r * 10;
        i = i + 1;
    }
    proof {
        assert(n == 0 || n == 1 || n == 2 || n == 3);
    }
    r
}

/// `n / one` with `places` digits behind the point.
fn fixed_text(n: i128, one: u128, places: usize) -> (r: String)
    requires
        places <= 3,
        -0x41_0000_0000_0000_0000_0000_0000_0000 <= n,
        n <= 0x41_0000_0000_0000_0000_0000_0000_0000,
        one >= PARTS,
    ensures
        r@ == fixed(n as int, one as int, places as nat),
{
    let power: u128 = power_of_ten(places) as u128;
    let n_size: u128 = if n < 0 {
        (-n) as u128
    } else {
        n as u128
    };
    proof {
        assert(n_size * power <= n_size * 1000) by (nonlinear_arith)
            requires
                power <= 1000,
        ;
    }
    let rounded: u128 = round_even(n_size * power, one);
    let whole: u128 = rounded / power;
    let rest: u128 = rounded % power;
    proof {
        lemma_whole_fits(n_size as int, one as int, power as int);
    }
    let mut r = String::new();
    if n < 0 {
        r.push('-');
    }
    push_decimal(&mut r, whole as u64);
    if places > 0 {
        r.push('.');
        push_padded(&mut r, rest as u64, places);
    }
    assert(r@ =~= fixed(n as int, one as int, places as nat));
    r
}

proof fn lemma_whole_fits(n: int, one: int, power: int)
    requires
        0 <= n <= 0x41_0000_0000_0000_0000_0000_0000_0000,
        one >= PARTS,
        0 < power <= 1000,
    ensures
        0 <= rounded_even(n * power, one) / power <= u64::MAX,
{
    let most = n * power;
    assert(0 <= most <= n * 1000) by (nonlinear_arith)
        requires
            most == n * power,
            0 <= n,
            0 < power <= 1000,
    ;
    lemma_rounded_even(most, one);
    assert(most / one <= most / PARTS as int) by (nonlinear_arith)
        requires
            0 <= most,
            one >= PARTS,
            PARTS > 0,
    ;
    let r = rounded_even(most, one);
    assert(0 <= r / power <= r) by (nonlinear_arith)
        requires
            0 <= r,
            0 < power,
    ;
}

/// The seconds of a time with `places` digits behind the point.
pub fn seconds_text(t: i64, places: usize) -> (r: String)
    requires
        places <= 3,
    ensures
        r@ == seconds(t as int, places as nat),
{
    fixed_text(to_seconds(t), PARTS, places)
}

/// The seconds from `start` to `end`, with one digit behind the point.
pub fn seconds_from_text(start: i64, end: i64) -> (r: String)
    ensures
        r@ == seconds_from(start as int, end as int),
{
    fixed_text(difference(end, start), PARTS, 1)
}

/// The minutes of a time with one digit behind the point.
pub fn minutes_text(t: i64) -> (r: String)
    ensures
        r@ == minutes(t as int),
{
    fixed_text(to_double(64 * to_seconds(t), 60), 64 * PARTS, 1)
}

// ---------- arguments ----------

/// The times that the fields from `i` on give, which commas part. `None` where one is no
/// number.
pub open spec fn listed(s: Seq<char>, i: int) -> Option<Seq<int>>
    decreases s.len() - i,
{
    let end = char_from(s, ',', i);
    match field_time(trimmed(s.subrange(i, end))) {
        Some(t) => if i <= end < s.len() {
            match listed(s, end + 1) {
                Some(rest) => Some(seq![t] + rest),
                None => None,
            }
        } else {
            Some(seq![t])
        },
        None => None,
    }
}

/// The lengths of time in a list of seconds that commas part.
pub fn parse_scales(text: &str) -> (r: Option<Vec<i64>>)
    ensures
        match r {
            Some(v) => listed(text@, 0) == Some(v@.map_values(|t: i64| t as int)),
            None => listed(text@, 0) is None,
        },
{
    let s = chars_of(text);
    let mut r: Vec<i64> = Vec::new();
    let mut i: usize = 0;
    let ghost wide = |t: i64| t as int;
    assert(r@.map_values(wide) =~= Seq::<int>::empty());
    loop
        invariant
            s@ == text@,
            i <= s@.len(),
            wide == (|t: i64| t as int),
            match listed(s@, i as int) {
                Some(rest) => listed(text@, 0) == Some(r@.map_values(wide) + rest),
                None => listed(text@, 0) is None,
            },
        decreases s@.len() - i,
    {
        let end: usize = find_char(&s, ',', i);
        let (a, b) = trim(&s, i, end);
        let field = part(&s, a, b);
        match read_field(&field) {
            None => {
                return None;
            },
            Some(t) => {
                let ghost before = r@;
                r.push(t);
                proof {
                    assert(r@.map_values(wide) =~= before.map_values(wide) + seq![t as int]);
                    if end < s@.len() {
                        if let Some(rest) = listed(s@, end + 1) {
                            assert(before.map_values(wide) + (seq![t as int] + rest)
                                =~= r@.map_values(wide) + rest);
                        }
                    }
                }
            },
        }
        if end == s.len() {
            return Some(r);
        }
        i = end + 1;
    }
}

/// The places where the recording is cut: the quiet spots of the candidates, in order.
pub fn split_points(candidates: &Vec<Candidate>) -> (r: Vec<i64>)
    ensures
        r@ == in_order(candidates@.map_values(|c: Candidate| c.snapped)),
        sorted(r@),
        r@.to_multiset() == candidates@.map_values(|c: Candidate| c.snapped).to_multiset(),
        r@.len() == candidates@.len(),
{
    let mut v: Vec<i64> = Vec::new();
    let mut i: usize = 0;
    let ghost f = |c: Candidate| c.snapped;
    while i < candidates.len()
        invariant
            i <= candidates@.len(),
            f == (|c: Candidate| c.snapped),
            v@ == candidates@.take(i as int).map_values(f),
        decreases candidates@.len() - i,
    {
        v.push(candidates[i].snapped);
        assert(candidates@.take(i + 1) =~= candidates@.take(i as int).push(candidates@[i as int]));
        assert(v@ =~= candidates@.take(i + 1).map_values(f));
        i = i + 1;
    }
    assert(candidates@.take(candidates@.len() as int) =~= candidates@);
    sort(&v)
}

// ---------- lines ----------

/// How long the recording is.
pub open spec fn duration_line(t: int) -> Seq<char> {
    "Duration: "@ + seconds(t, 1) + "s ("@ + minutes(t) + " min)"@
}

/// Track `i` of a recording, from `start` to `end`.
pub open spec fn track_line(i: int, start: int, end: int) -> Seq<char> {
    "  track "@ + right_aligned(decimal(i as nat), 2) + ": "@ + right_aligned(
        seconds(start, 3),
        9,
    ) + "s - "@ + right_aligned(seconds(end, 3), 9) + "s  ("@ + right_aligned(
        seconds_from(start, end),
        6,
    ) + "s)"@
}

/// That a track is being written.
pub open spec fn writing_line(name: Seq<char>, start: int, end: int) -> Seq<char> {
    "Writing "@ + name + "  ["@ + seconds(start, 1) + "s - "@ + seconds(end, 1) + "s]  ("@
        + seconds_from(start, end) + "s)"@
}

/// How often the recording is cut.
pub open spec fn cuts_line(splits: nat) -> Seq<char> {
    "Using "@ + decimal(splits) + " split points -> "@ + decimal(splits + 1) + " tracks"@
}

/// Says how long the recording is.
pub fn duration_text(t: i64) -> (r: String)
    ensures
        r@ == duration_line(t as int),
{
    let mut r: String = "Duration: ".to_owned();
    r.append(seconds_text(t, 1).as_str());
    r.append("s (");
    r.append(minutes_text(t).as_str());
    r.append(" min)");
    r
}

/// Says where track `i` lies.
pub fn track_text(i: u64, start: i64, end: i64) -> (r: String)
    ensures
        r@ == track_line(i as int, start as int, end as int),
{
    let mut r: String = "  track ".to_owned();
    push_right(&mut r, decimal_text(i).as_str(), 2);
    r.append(": ");
    push_right(&mut r, seconds_text(start, 3).as_str(), 9);
    r.append("s - ");
    push_right(&mut r, seconds_text(end, 3).as_str(), 9);
    r.append("s  (");
    push_right(&mut r, seconds_from_text(start, end).as_str(), 6);
    r.append("s)");
    r
}

/// Says that a track is being written.
pub fn writing_text(name: &str, start: i64, end: i64) -> (r: String)
    ensures
        r@ == writing_line(name@, start as int, end as int),
{
    let mut r: String = "Writing ".to_owned();
    r.append(name);
    r.append("  [");
    r.append(seconds_text(start, 1).as_str());
    r.append("s - ");
    r.append(seconds_text(end, 1).as_str());
    r.append("s]  (");
    r.append(seconds_from_text(start, end).as_str());
    r.append("s)");
    r
}

/// Says how often the recording is cut.
pub fn cuts_text(splits: usize) -> (r: String)
    ensures
        r@ == cuts_line(splits as nat),
{
    let mut r: String = "Using ".to_owned();
    push_decimal(&mut r, splits as u64);
    r.append(" split points -> ");
    push_large(&mut r, splits as u128 + 1);
    r.append(" tracks");
    r
}

/// A list of seconds without a comma is one number. A comma parts the first number from the list
/// of the others.
pub proof fn law_commas_part_the_numbers(s: Seq<char>, i: int, comma: int)
    requires
        0 <= i <= comma <= s.len(),
        forall|k: int| i <= k < comma ==> #[trigger] s[k] != ',',
        comma < s.len() ==> s[comma] == ',',
    ensures
        ({
            let first = field_time(trimmed(s.subrange(i, comma)));
            &&& first is None ==> listed(s, i) is None
            &&& comma == s.len() ==> (first matches Some(t) ==> listed(s, i) == Some(seq![t]))
            &&& comma < s.len() && listed(s, comma + 1) is None ==> listed(s, i) is None
            &&& comma < s.len() ==> (listed(s, comma + 1) matches Some(rest) ==> (
            first matches Some(t) ==> listed(s, i) == Some(seq![t] + rest)))
        }),
{
    lemma_comma_at(s, i, comma);
}

proof fn lemma_comma_at(s: Seq<char>, i: int, comma: int)
    requires
        0 <= i <= comma <= s.len(),
        forall|k: int| i <= k < comma ==> #[trigger] s[k] != ',',
        comma < s.len() ==> s[comma] == ',',
    ensures
        char_from(s, ',', i) == comma,
    decreases comma - i,
{
    if i < comma {
        assert(s[i] != ',');
        lemma_comma_at(s, i + 1, comma);
    }
}

/// The lines for a recording and its tracks.
pub proof fn law_lines_hold_their_times(
    t: int,
    i: nat,
    start: int,
    end: int,
    name: Seq<char>,
    splits: nat,
)
    ensures
        duration_line(t) == "Duration: "@ + seconds(t, 1) + "s ("@ + minutes(t) + " min)"@,
        track_line(i as int, start, end) == "  track "@ + right_aligned(decimal(i), 2) + ": "@
            + right_aligned(seconds(start, 3), 9) + "s - "@ + right_aligned(seconds(end, 3), 9)
            + "s  ("@ + right_aligned(seconds_from(start, end), 6) + "s)"@,
        writing_line(name, start, end) == "Writing "@ + name + "  ["@ + seconds(start, 1) + "s - "@
            + seconds(end, 1) + "s]  ("@ + seconds_from(start, end) + "s)"@,
        cuts_line(splits) == "Using "@ + decimal(splits) + " split points -> "@ + decimal(
            splits + 1,
        ) + " tracks"@,
        seconds_from(start, start) == fixed(0, PARTS as int, 1),
{
    lemma_signed_double(0);
}

} // verus!
