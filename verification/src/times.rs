//! Times as text. A time is a number of nanoseconds.

use crate::big::{lemma_two_limbs, size_of, times_plus, Big};
use crate::decimals::{
    after_sign, billionths, is_digit, lemma_number_of_both, lemma_pow10_adds, lemma_pow10_grows, number_of,
    read_billionths, read_word, run_end, scaled, word_of, Number, Reading, Word,
};
use crate::doubles::{
    in_seconds, lemma_in_seconds, lemma_rounded_even, round_even, rounded_even, to_seconds, DIGITS,
    PARTS,
};
use crate::text::{
    char_from, chars_of, decimal, find_char, is_left, law_decimals_are_plain, law_padded_reads_back,
    law_trimming_takes_white_space_off_the_ends, lemma_decimal_len, number, padded, part, pow10,
    push_decimal, push_padded, trim, trimmed,
};
use vstd::arithmetic::div_mod::lemma_fundamental_div_mod;
use vstd::arithmetic::power2::{
    lemma2_to64, lemma2_to64_rest, lemma_pow2_adds, lemma_pow2_pos, lemma_pow2_strictly_increases,
    pow2,
};
use vstd::prelude::*;

verus! {

/// Nanoseconds in a second.
pub const SECOND: i64 = 1_000_000_000;

/// Nanoseconds in a minute.
pub const MINUTE: i64 = 60_000_000_000;

/// Nanoseconds in a millisecond.
pub const MILLISECOND: i64 = 1_000_000;

// ---------- range ----------

/// A number brought into the range from `lo` to `hi`.
pub open spec fn clamped(x: int, lo: int, hi: int) -> int {
    if x < lo {
        lo
    } else if x > hi {
        hi
    } else {
        x
    }
}

/// The nearest number that a time can hold.
pub open spec fn as_time(x: int) -> int {
    clamped(x, i64::MIN as int, i64::MAX as int)
}

/// The nearest number that a time can hold.
pub fn as_i64(x: i128) -> (r: i64)
    ensures
        r == as_time(x as int),
{
    if x < i64::MIN as i128 {
        i64::MIN
    } else if x > i64::MAX as i128 {
        i64::MAX
    } else {
        x as i64
    }
}

// ---------- writing ----------

/// The time, or the beginning where it is before it.
pub open spec fn not_negative(t: int) -> int {
    if t < 0 {
        0
    } else {
        t
    }
}

/// The whole minutes of a time.
pub open spec fn whole_minutes(t: int) -> int {
    in_seconds(not_negative(t)) / (60 * PARTS)
}

/// What a time has beside its whole minutes, to the nearest millisecond, and to the even one of
/// two that are as near.
pub open spec fn milliseconds(t: int) -> int {
    rounded_even(in_seconds(not_negative(t)) % (60 * PARTS) * 1000, PARTS as int)
}

/// Minutes, seconds and milliseconds: `3:02.500`.
pub open spec fn time_text(t: int) -> Seq<char> {
    let ms = milliseconds(t);
    decimal(whole_minutes(t) as nat) + seq![':'] + padded((ms / 1000) as nat, 2) + seq!['.']
        + padded((ms % 1000) as nat, 3)
}

/// Minutes and seconds, to the nearest second: `2:27`.
pub open spec fn duration_text(t: int) -> Seq<char> {
    let seconds = (in_seconds(not_negative(t)) + PARTS / 2) / PARTS as int;
    decimal((seconds / 60) as nat) + seq![':'] + padded((seconds % 60) as nat, 2)
}

/// The time as minutes, seconds and milliseconds.
pub fn fmt_time(t: i64) -> (r: String)
    ensures
        r@ == time_text(t as int),
{
    let seconds: u128 = shown_seconds(t);
    let ms: u128 = round_even(seconds % (60 * PARTS) * 1000, PARTS);
    proof {
        lemma_milliseconds(t as int);
    }
    let mut r = String::new();
    push_decimal(&mut r, (seconds / (60 * PARTS)) as u64);
    r.push(':');
    push_padded(&mut r, (ms / 1000) as u64, 2);
    r.push('.');
    push_padded(&mut r, (ms % 1000) as u64, 3);
    proof {
        assert(r@ =~= time_text(t as int));
    }
    r
}

/// The seconds of a time that is shown, as a double.
fn shown_seconds(t: i64) -> (r: u128)
    ensures
        r == in_seconds(not_negative(t as int)),
        r <= 0x10_0000_0000_0000_0000_0000_0000_0000,
{
    let t: i64 = if t < 0 {
        0
    } else {
        t
    };
    proof {
        lemma_in_seconds(t as int);
    }
    to_seconds(t) as u128
}

proof fn lemma_milliseconds(t: int)
    ensures
        0 <= milliseconds(t) <= 60_000,
        0 <= whole_minutes(t),
{
    lemma_in_seconds(not_negative(t));
    lemma_rounded_even(in_seconds(not_negative(t)) % (60 * PARTS) * 1000, PARTS as int);
}

/// The length of time as minutes and seconds.
pub fn fmt_dur(t: i64) -> (r: String)
    ensures
        r@ == duration_text(t as int),
{
    let seconds: u64 = ((shown_seconds(t) + PARTS / 2) / PARTS) as u64;
    let mut r = String::new();
    push_decimal(&mut r, seconds / 60);
    r.push(':');
    push_padded(&mut r, seconds % 60, 2);
    assert(r@ =~= duration_text(t as int));
    r
}

// ---------- reading ----------

/// What no double of seconds reaches: halfway from the greatest one to the power of two behind
/// it.
pub open spec fn double_limit() -> int {
    (pow2(54) - 1) * pow2(970)
}

/// Whether a double can hold a number of seconds, which is given in nanoseconds.
pub open spec fn is_finite(t: int) -> bool {
    -double_limit() * SECOND < t < double_limit() * SECOND
}

/// The seconds that a field stands for, as the nearest time: cut off behind the nanoseconds.
/// What is infinite is as far off as a time can be, and what is no number counts for nothing.
/// `None` where the field is neither a number nor one in words.
pub open spec fn field_time(s: Seq<char>) -> Option<int> {
    match (number_of(s), word_of(s)) {
        (Some(n), _) => Some(as_time(billionths(n))),
        (None, Some(Word::Infinite(negative))) => Some(
            if negative {
                i64::MIN as int
            } else {
                i64::MAX as int
            },
        ),
        (None, Some(Word::NotANumber)) => Some(0),
        (None, None) => None,
    }
}

/// The nanoseconds that the fields from `i` on give: each is added to sixty times what came
/// before it. `None` where a field is no number, or where a double of seconds could not hold it
/// or what comes out.
pub open spec fn clock(total: int, s: Seq<char>, i: int) -> Option<int>
    decreases s.len() - i,
{
    let end = char_from(s, ':', i);
    match number_of(trimmed(s.subrange(i, end))) {
        Some(n) => {
            let sum = total * 60 + billionths(n);
            if !is_finite(billionths(n)) || !is_finite(total * 60) || !is_finite(sum) {
                None
            } else if i <= end < s.len() {
                clock(sum, s, end + 1)
            } else {
                Some(sum)
            }
        },
        None => None,
    }
}

/// The time that a text stands for.
pub open spec fn text_time(s: Seq<char>) -> Option<int> {
    match clock(0, trimmed(s), 0) {
        Some(t) => Some(as_time(t)),
        None => None,
    }
}

proof fn lemma_limit()
    ensures
        double_limit() * SECOND <= pow10(430),
        double_limit() * SECOND >= 0x1_0000_0000_0000_0000,
        pow2(54) == 0x40_0000_0000_0000,
{
    lemma2_to64();
    lemma2_to64_rest();
    lemma_pow2_adds(54, 970);
    lemma_pow2_adds(1024, 6);
    lemma_powers(103);
    lemma_pow10_adds(412, 9);
    lemma_pow10_grows(421, 430);
    assert(pow10(9) == 1_000_000_000) by {
        reveal_with_fuel(pow10, 10);
    }
    let (a, b) = (pow2(54) as int, pow2(970) as int);
    lemma_pow2_pos(970);
    lemma_pow2_strictly_increases(54, 970);
    assert((a - 1) * b <= a * b) by (nonlinear_arith)
        requires
            b > 0,
    ;
    assert((a - 1) * b >= a - 1) by (nonlinear_arith)
        requires
            b >= 1,
            a >= 1,
    ;
}

/// Ten bits are no more than four digits.
proof fn lemma_powers(i: nat)
    ensures
        pow2(10 * i) <= pow10(4 * i),
    decreases i,
{
    lemma2_to64();
    if i == 0 {
        assert(pow10(0) == 1);
    } else {
        let m = (i - 1) as nat;
        lemma_powers(m);
        lemma_pow2_adds(10, 10 * m);
        lemma_pow10_adds(4, 4 * m);
        assert(pow10(4) == 10_000) by {
            reveal_with_fuel(pow10, 5);
        }
        let (a, b) = (pow2(10 * m) as int, pow10(4 * m) as int);
        assert(1024 * a <= 10_000 * b) by (nonlinear_arith)
            requires
                0 <= a <= b,
        ;
        assert(10 + 10 * m == 10 * i);
        assert(4 + 4 * m == 4 * i);
    }
}

/// What no double of seconds reaches, in nanoseconds.
fn limit() -> (r: Vec<u32>)
    ensures
        size_of(r@) == double_limit() * SECOND,
{
    let mut v: Vec<u32> = vec![0xffff_ffff, 0x003f_ffff];
    proof {
        lemma2_to64();
        lemma_limit();
        lemma_two_limbs(v@);
        assert(size_of(v@) == pow2(54) - 1);
        assert((pow2(54) - 1) * 1 == pow2(54) - 1);
    }
    let mut i: u32 = 0;
    while i < 97
        invariant
            i <= 97,
            size_of(v@) == (pow2(54) - 1) * pow2(10 * i as nat),
        decreases 97 - i,
    {
        proof {
            lemma2_to64();
            lemma_pow2_adds(10 * i as nat, 10);
            let (a, b) = (pow2(54) - 1, pow2(10 * i as nat) as int);
            assert(a * (b * 1024) == a * b * 1024 + 0) by (nonlinear_arith);
            assert(10 * i as nat + 10 == 10 * (i + 1) as nat);
        }
        v = times_plus(&v, 1024, 0);
        i = i + 1;
    }
    times_plus(&v, 1_000_000_000, 0)
}

/// What a field of a duration says in seconds, if it is a number.
pub fn read_field(s: &Vec<char>) -> (r: Option<i64>)
    ensures
        match r {
            Some(t) => field_time(s@) == Some(t as int),
            None => field_time(s@) is None,
        },
{
    match read_billionths(s) {
        Reading::Exact(b) => Some(b.to_time()),
        Reading::TooLarge(negative) => {
            proof {
                lemma_limit();
            }
            if negative {
                Some(i64::MIN)
            } else {
                Some(i64::MAX)
            }
        },
        Reading::NoNumber => match read_word(s) {
            Some(Word::Infinite(true)) => Some(i64::MIN),
            Some(Word::Infinite(false)) => Some(i64::MAX),
            Some(Word::NotANumber) => Some(0),
            None => None,
        },
    }
}

/// The time that a text stands for: `3:02.500`, `1:03:02.5` or plain seconds.
pub fn parse_time(text: &str) -> (r: Option<i64>)
    ensures
        match r {
            Some(t) => text_time(text@) == Some(t as int),
            None => text_time(text@) is None,
        },
{
    let all = chars_of(text);
    let (from, to) = trim(&all, 0, all.len());
    assert(all@.subrange(0, all@.len() as int) =~= all@);
    let s = part(&all, from, to);
    let most = limit();
    let mut total = Big::zero();
    let mut i: usize = 0;
    loop
        invariant
            s@ == trimmed(text@),
            i <= s@.len(),
            size_of(most@) == double_limit() * SECOND,
            clock(total@, s@, i as int) == clock(0, s@, 0),
        decreases s@.len() - i,
    {
        let end: usize = find_char(&s, ':', i);
        let (a, b) = trim(&s, i, end);
        let field = part(&s, a, b);
        let t = match read_billionths(&field) {
            Reading::Exact(t) => t,
            Reading::TooLarge(_) => {
                proof {
                    lemma_limit();
                }
                return None;
            },
            Reading::NoNumber => {
                return None;
            },
        };
        let before = total.times(60);
        let sum = before.plus(&t);
        if !t.is_within(&most) || !before.is_within(&most) || !sum.is_within(&most) {
            return None;
        }
        total = sum;
        if end == s.len() {
            return Some(total.to_time());
        }
        i = end + 1;
    }
}

/// Whether all characters are digits, and there is one.
spec fn all_digits(s: Seq<char>) -> bool {
    s.len() > 0 && forall|k: int| 0 <= k < s.len() ==> is_digit(#[trigger] s[k])
}

proof fn lemma_decimal_is_digits(n: nat)
    ensures
        all_digits(decimal(n)),
    decreases n,
{
    if n >= 10 {
        lemma_decimal_is_digits(n / 10);
    }
}

proof fn lemma_padded(n: nat, width: nat)
    requires
        width >= 1,
        n < pow10(width),
    ensures
        all_digits(padded(n, width)),
        padded(n, width).len() == width,
        number(padded(n, width)) == n,
{
    lemma_decimal_is_digits(n);
    lemma_decimal_len(n, width);
    law_padded_reads_back(n, width);
}

/// Digits end where they are known to.
proof fn lemma_run_end_at(s: Seq<char>, i: int, end: int)
    requires
        0 <= i <= end <= s.len(),
        forall|k: int| i <= k < end ==> is_digit(#[trigger] s[k]),
        end < s.len() ==> !is_digit(s[end]),
    ensures
        run_end(s, i) == end,
    decreases end - i,
{
    if i < end {
        assert(is_digit(s[i]));
        lemma_run_end_at(s, i + 1, end);
    }
}

proof fn lemma_colon_at(s: Seq<char>, i: int, end: int)
    requires
        0 <= i <= end <= s.len(),
        forall|k: int| i <= k < end ==> #[trigger] s[k] != ':',
        end < s.len() ==> s[end] == ':',
    ensures
        char_from(s, ':', i) == end,
    decreases end - i,
{
    if i < end {
        assert(s[i] != ':');
        lemma_colon_at(s, i + 1, end);
    }
}

/// Whole seconds in a field.
proof fn lemma_whole_field(s: Seq<char>)
    requires
        all_digits(s),
    ensures
        number_of(s) == Some(Number { negative: false, digits: s, exponent: 0 }),
        trimmed(s) == s,
{
    assert(is_digit(s[0]) && is_digit(s[s.len() - 1]));
    lemma_run_end_at(s, 0, s.len() as int);
    assert(s.subrange(0, s.len() as int) + s.subrange(s.len() as int, s.len() as int) =~= s);
}

/// Seconds with a fraction in a field.
proof fn lemma_fraction_field(a: Seq<char>, b: Seq<char>)
    requires
        all_digits(a),
        all_digits(b),
    ensures
        ({
            let s = a + seq!['.'] + b;
            &&& number_of(s) == Some(
                Number { negative: false, digits: a + b, exponent: -(b.len() as int) },
            )
            &&& trimmed(s) == s
        }),
{
    let s = a + seq!['.'] + b;
    let n = s.len() as int;
    let m = a.len() as int;
    assert forall|k: int| 0 <= k < m implies is_digit(#[trigger] s[k]) by {
        assert(s[k] == a[k]);
    }
    assert forall|k: int| m < k < n implies is_digit(#[trigger] s[k]) by {
        assert(s[k] == b[k - m - 1]);
    }
    assert(s[m] == '.');
    assert(is_digit(s[0]) && is_digit(s[n - 1]));
    lemma_run_end_at(s, 0, m);
    lemma_run_end_at(s, m + 1, n);
    assert(s.subrange(0, m) + s.subrange(m + 1, n) =~= a + b);
}

/// What is written of a time is off from it by half a millisecond at most, and by what its
/// seconds are off from it.
proof fn lemma_written(t: int)
    requires
        0 <= t <= i64::MAX,
    ensures
        t - 501_024 <= milliseconds(t) * MILLISECOND + whole_minutes(t) * MINUTE <= t + 501_024,
{
    lemma_in_seconds(t);
    let x = in_seconds(t);
    let rest = x % (60 * PARTS);
    lemma_rounded_even(rest * 1000, PARTS as int);
    lemma_fundamental_div_mod(x, 60 * PARTS);
    let (m, ms) = (whole_minutes(t), milliseconds(t));
    let p = PARTS as int;
    assert(x == 60 * p * m + rest);
    assert((ms * 1_000_000 + m * 60_000_000_000) * p - x * 1_000_000_000 == (ms * p - rest * 1000)
        * 1_000_000) by (nonlinear_arith)
        requires
            x == 60 * p * m + rest,
    ;
}

/// Reading a written time gives the minutes and milliseconds that were written. They are off
/// from the time by half a millisecond at most, and by what its seconds are off as a double.
pub proof fn law_reading_gives_what_was_written(t: int)
    requires
        0 <= t <= i64::MAX,
    ensures
        text_time(time_text(t)) == Some(
            as_time(milliseconds(t) * MILLISECOND + whole_minutes(t) * MINUTE),
        ),
        t - 501_024 <= text_time(time_text(t))->0 <= t + 501_024,
{
    let m = whole_minutes(t);
    let ms = milliseconds(t);
    lemma_milliseconds(t);
    lemma_written(t);
    reveal_with_fuel(pow10, 10);
    let a = decimal(m as nat);
    let b = padded((ms / 1000) as nat, 2);
    let c = padded((ms % 1000) as nat, 3);
    lemma_decimal_is_digits(m as nat);
    law_padded_reads_back(m as nat, 0);
    assert(padded(m as nat, 0) =~= a);
    lemma_padded((ms / 1000) as nat, 2);
    lemma_padded((ms % 1000) as nat, 3);
    let tail = b + seq!['.'] + c;
    let s = a + seq![':'] + tail;
    assert(time_text(t) =~= s);
    let n = s.len() as int;
    assert(s[0] == a[0] && is_digit(a[0]));
    assert(s[n - 1] == c[c.len() - 1] && is_digit(c[c.len() - 1]));
    assert(trimmed(s) == s);
    let k = a.len() as int;
    assert forall|i: int| 0 <= i < k implies #[trigger] s[i] != ':' by {
        assert(is_digit(a[i]));
    }
    assert(s[k] == ':');
    lemma_colon_at(s, 0, k);
    assert(s.subrange(0, k) =~= a);
    lemma_whole_field(a);
    assert(scaled(a, 9) == m * 1_000_000_000);
    lemma_limit();
    assert forall|i: int| k + 1 <= i < n implies #[trigger] s[i] != ':' by {
        assert(s[i] == tail[i - k - 1]);
        let j = i - k - 1;
        if j < 2 {
            assert(is_digit(b[j]));
        } else if j > 2 {
            assert(is_digit(c[j - 3]));
        }
    }
    lemma_colon_at(s, k + 1, n);
    assert(s.subrange(k + 1, n) =~= tail);
    lemma_fraction_field(b, c);
    lemma_number_of_both(b, c);
    assert(pow10(c.len()) == 1000);
    assert(number(b) * 1000 == ms / 1000 * 1000);
    assert(number(b + c) == ms);
    assert(scaled(b + c, 6) == ms * 1_000_000);
    reveal_with_fuel(clock, 2);
}

// ---------- what times as text are ----------

/// A number of seconds is that time, a text of minutes and seconds counts the minutes by sixty
/// seconds, and one of hours, minutes and seconds the hours by sixty minutes.
pub proof fn law_clocks_count_by_sixty(h: nat, m: nat, s: nat, ms: nat)
    requires
        h < 0x1_0000_0000,
        m < 100,
        s < 100,
        ms < 1000,
    ensures
        text_time(decimal(h)) == Some(as_time(h as int * 1_000_000_000)),
        text_time(
            decimal(h) + seq![':'] + (padded(m, 2) + seq![':'] + (padded(s, 2) + seq!['.'] + padded(
                ms,
                3,
            ))),
        ) == Some(as_time((h as int * 3600 + m * 60 + s) * 1_000_000_000 + ms * 1_000_000)),
{
    reveal_with_fuel(pow10, 10);
    reveal_with_fuel(clock, 4);
    lemma_limit();
    let (a, b) = (decimal(h), padded(m, 2));
    let (c, d) = (padded(s, 2), padded(ms, 3));
    lemma_decimal_is_digits(h);
    law_padded_reads_back(h, 0);
    assert(padded(h, 0) =~= a);
    lemma_padded(m, 2);
    lemma_padded(s, 2);
    lemma_padded(ms, 3);
    lemma_whole_field(a);
    lemma_whole_field(b);
    lemma_fraction_field(c, d);
    lemma_number_of_both(c, d);
    assert(pow10(d.len()) == 1000);
    assert(scaled(a, 9) == h * 1_000_000_000);
    assert(scaled(b, 9) == m * 1_000_000_000);
    assert(scaled(c + d, 6) == (s * 1000 + ms) * 1_000_000);
    // One field.
    assert forall|i: int| 0 <= i < a.len() implies #[trigger] a[i] != ':' by {
        assert(is_digit(a[i]));
    }
    lemma_colon_at(a, 0, a.len() as int);
    assert(a.subrange(0, a.len() as int) =~= a);
    // Three fields.
    let e = c + seq!['.'] + d;
    let f = b + seq![':'] + e;
    let t = a + seq![':'] + f;
    let n = t.len() as int;
    let k = a.len() as int;
    assert(t[0] == a[0] && is_digit(a[0]));
    assert(t[n - 1] == d[d.len() - 1] && is_digit(d[d.len() - 1]));
    assert(trimmed(t) == t);
    assert(forall|i: int| 0 <= i < k ==> #[trigger] t[i] == a[i]);
    lemma_colon_at(t, 0, k);
    assert(t.subrange(0, k) =~= a);
    assert forall|i: int| k + 1 <= i < k + 3 implies #[trigger] t[i] != ':' by {
        assert(t[i] == b[i - k - 1]);
        assert(is_digit(b[i - k - 1]));
    }
    assert(t[k + 3] == ':');
    lemma_colon_at(t, k + 1, k + 3);
    assert(t.subrange(k + 1, k + 3) =~= b);
    assert forall|i: int| k + 4 <= i < n implies #[trigger] t[i] != ':' by {
        let j = i - k - 4;
        assert(t[i] == e[j]);
        if j < 2 {
            assert(is_digit(c[j]));
        } else if j > 2 {
            assert(is_digit(d[j - 3]));
        }
    }
    lemma_colon_at(t, k + 4, n);
    assert(t.subrange(k + 4, n) =~= e);
    let x = h as int * 1_000_000_000 * 60 + m * 1_000_000_000;
    assert(is_finite(h as int * 1_000_000_000));
    assert(is_finite(h as int * 1_000_000_000 * 60));
    assert(is_finite(x));
    assert(is_finite(x * 60));
}

/// A text without a digit is no time.
pub proof fn law_a_time_has_digits(s: Seq<char>)
    requires
        forall|i: int| 0 <= i < s.len() ==> !('0' <= #[trigger] s[i] <= '9'),
    ensures
        text_time(s) is None,
{
    law_trimming_takes_white_space_off_the_ends(s);
    let t = trimmed(s);
    let (a, b) = choose|a: int, b: int| #[trigger] is_left(s, a, b);
    assert forall|i: int| 0 <= i < t.len() implies !is_digit(#[trigger] t[i]) by {
        assert(t[i] == s[a + i]);
    }
    let end = char_from(t, ':', 0);
    lemma_char_from(t, ':', 0);
    let f = t.subrange(0, end);
    assert forall|i: int| 0 <= i < f.len() implies !is_digit(#[trigger] f[i]) by {
        assert(f[i] == t[i]);
    }
    law_trimming_takes_white_space_off_the_ends(f);
    let g = trimmed(f);
    let (c, d) = choose|a: int, b: int| #[trigger] is_left(f, a, b);
    assert forall|i: int| 0 <= i < g.len() implies !is_digit(#[trigger] g[i]) by {
        assert(g[i] == f[c + i]);
    }
    lemma_no_digits(g);
    reveal_with_fuel(clock, 2);
}

proof fn lemma_char_from(s: Seq<char>, c: char, i: int)
    requires
        0 <= i <= s.len(),
    ensures
        i <= char_from(s, c, i) <= s.len(),
    decreases s.len() - i,
{
    if i < s.len() && s[i] != c {
        lemma_char_from(s, c, i + 1);
    }
}

proof fn lemma_no_digits(s: Seq<char>)
    requires
        forall|i: int| 0 <= i < s.len() ==> !is_digit(#[trigger] s[i]),
    ensures
        number_of(s) is None,
{
    let from = after_sign(s, 0);
    assert(run_end(s, from) == from);
    let behind = if from < s.len() && s[from] == '.' {
        from + 1
    } else {
        from
    };
    assert(run_end(s, behind) == behind);
}

/// A length of time is written with whole seconds, of which there are less than sixty beside the
/// minutes, and two digits for them. It is off from the length by half a second at most, and by
/// what its seconds are off as a double.
pub proof fn law_lengths_are_written_to_the_nearest_second(t: int)
    requires
        0 <= t <= i64::MAX,
    ensures
        ({
            let s = duration_text(t);
            let n = s.len() as int;
            let minutes = number(s.take(n - 3));
            let seconds = number(s.skip(n - 2));
            &&& n >= 4
            &&& s[n - 3] == ':'
            &&& 0 <= seconds < 60
            &&& t - 500_001_024 <= (60 * minutes + seconds) * 1_000_000_000 <= t + 500_001_024
        }),
{
    lemma_in_seconds(t);
    let x = in_seconds(t);
    let k = (x + PARTS / 2) / PARTS as int;
    assert(x >= 0);
    assert(k >= 0);
    let (a, b) = (decimal((k / 60) as nat), padded((k % 60) as nat, 2));
    reveal_with_fuel(pow10, 3);
    lemma_padded((k % 60) as nat, 2);
    law_padded_reads_back((k / 60) as nat, 0);
    assert(padded((k / 60) as nat, 0) =~= a);
    law_decimals_are_plain((k / 60) as nat);
    let s = duration_text(t);
    let n = s.len() as int;
    assert(s.take(n - 3) =~= a);
    assert(s.skip(n - 2) =~= b);
}

/// A time is written with two digits for the seconds and three for the milliseconds, of which
/// there are a minute at most, and no other colon or point.
pub proof fn law_times_are_written_with_milliseconds(t: int)
    ensures
        ({
            let s = time_text(t);
            let n = s.len() as int;
            &&& n >= 8
            &&& s[n - 7] == ':'
            &&& s[n - 4] == '.'
            &&& number(s.subrange(n - 6, n - 4)) * 1000 + number(s.skip(n - 3)) <= 60_000
            &&& forall|i: int|
                0 <= i < n && i != n - 7 && i != n - 4 ==> '0' <= #[trigger] s[i] <= '9'
        }),
        t < 0 ==> time_text(t) == time_text(0) && duration_text(t) == duration_text(0),
{
    lemma_milliseconds(t);
    let ms = milliseconds(t);
    let m = whole_minutes(t) as nat;
    let (a, b, c) = (decimal(m), padded((ms / 1000) as nat, 2), padded((ms % 1000) as nat, 3));
    reveal_with_fuel(pow10, 4);
    lemma_padded((ms / 1000) as nat, 2);
    lemma_padded((ms % 1000) as nat, 3);
    law_decimals_are_plain(m);
    let s = time_text(t);
    let n = s.len() as int;
    assert(s.subrange(n - 6, n - 4) =~= b);
    assert(s.skip(n - 3) =~= c);
    assert forall|i: int| 0 <= i < n && i != n - 7 && i != n - 4 implies '0' <= #[trigger] s[i]
        <= '9' by {
        if i < a.len() {
            assert(s[i] == a[i]);
        } else if i < n - 4 {
            assert(s[i] == b[i - a.len() - 1]);
            assert(is_digit(b[i - a.len() - 1]));
        } else {
            assert(s[i] == c[i - (n - 3)]);
            assert(is_digit(c[i - (n - 3)]));
        }
    }
}

/// What a time cannot hold becomes the nearest one that it can.
pub proof fn law_times_are_as_near_as_they_can_be(x: int)
    ensures
        -0x8000_0000_0000_0000 <= x <= 0x7fff_ffff_ffff_ffff ==> as_time(x) == x,
        x > 0x7fff_ffff_ffff_ffff ==> as_time(x) == 0x7fff_ffff_ffff_ffff,
        x < -0x8000_0000_0000_0000 ==> as_time(x) == -0x8000_0000_0000_0000,
{
}

/// A field is the number that it spells, in nanoseconds, and what is infinite is as far off as a
/// time can be. What spells neither is none.
pub proof fn law_fields_are_numbers_of_seconds(s: Seq<char>)
    ensures
        number_of(s) matches Some(n) ==> field_time(s) == Some(as_time(billionths(n))),
        number_of(s) is None && word_of(s) is None ==> field_time(s) is None,
        number_of(s) is None ==> (word_of(s) matches Some(Word::Infinite(negative)) ==> field_time(
            s,
        ) == Some(
            if negative {
                -0x8000_0000_0000_0000
            } else {
                0x7fff_ffff_ffff_ffff
            },
        )),
{
}

} // verus!
