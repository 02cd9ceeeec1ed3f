//! Decimal numbers as text, read exactly.

use crate::big::{is_zero, size_of, times_plus, Big};
use crate::text::{chars_of, number, part, pow10};
use crate::times::clamped;
use vstd::prelude::*;

verus! {

/// Whether a character is a decimal digit.
pub open spec fn is_digit(c: char) -> bool {
    '0' <= c <= '9'
}

/// Where the digits from `i` on end.
pub open spec fn run_end(s: Seq<char>, i: int) -> int
    decreases s.len() - i,
{
    if 0 <= i < s.len() && is_digit(s[i]) {
        run_end(s, i + 1)
    } else {
        i
    }
}

/// Where the digits begin from `i` on, behind a sign if there is one.
pub open spec fn after_sign(s: Seq<char>, i: int) -> int {
    if i < s.len() && (s[i] == '+' || s[i] == '-') {
        i + 1
    } else {
        i
    }
}

/// A decimal number: its sign, its digits, and the power of ten of the last of them.
pub ghost struct Number {
    pub negative: bool,
    pub digits: Seq<char>,
    pub exponent: int,
}

/// The number behind an `e` at `i - 1`, which goes to the end.
pub open spec fn exponent_at(s: Seq<char>, i: int) -> Option<int> {
    let from = after_sign(s, i);
    if from < s.len() && run_end(s, from) == s.len() {
        let n = number(s.subrange(from, s.len() as int));
        Some(
            if s[i] == '-' {
                -n
            } else {
                n
            },
        )
    } else {
        None
    }
}

/// The decimal number that `s` is: a sign, digits with a point somewhere, and an exponent,
/// of which the digits alone must be there.
pub open spec fn number_of(s: Seq<char>) -> Option<Number> {
    let from = after_sign(s, 0);
    let whole = run_end(s, from);
    let point = whole < s.len() && s[whole] == '.';
    let behind = if point {
        whole + 1
    } else {
        whole
    };
    let end = run_end(s, behind);
    let digits = s.subrange(from, whole) + s.subrange(behind, end);
    let negative = from > 0 && s[0] == '-';
    if digits.len() == 0 {
        None
    } else if end == s.len() {
        Some(Number { negative, digits, exponent: behind - end })
    } else if s[end] == 'e' || s[end] == 'E' {
        match exponent_at(s, end + 1) {
            Some(e) => Some(Number { negative, digits, exponent: e + behind - end }),
            None => None,
        }
    } else {
        None
    }
}

/// The number of the digits times the power of ten, rounded down.
pub open spec fn scaled(digits: Seq<char>, e: int) -> int {
    if e >= 0 {
        number(digits) * pow10(e as nat)
    } else {
        number(digits) / pow10((-e) as nat) as int
    }
}

/// A number in billionths, cut off behind them.
pub open spec fn billionths(n: Number) -> int {
    if n.negative {
        -scaled(n.digits, n.exponent + 9)
    } else {
        scaled(n.digits, n.exponent + 9)
    }
}

/// Digits that a number has at most which is read exactly.
pub const MOST_DIGITS: i128 = 430;

proof fn lemma_number_not_negative(digits: Seq<char>)
    requires
        forall|k: int| 0 <= k < digits.len() ==> is_digit(#[trigger] digits[k]),
    ensures
        number(digits) >= 0,
    decreases digits.len(),
{
    if digits.len() > 0 {
        lemma_number_not_negative(digits.drop_last());
    }
}

/// Dividing by a power of ten drops digits.
proof fn lemma_dropping_digits(digits: Seq<char>, k: nat)
    requires
        forall|k: int| 0 <= k < digits.len() ==> is_digit(#[trigger] digits[k]),
    ensures
        number(digits) / pow10(k) as int == if k <= digits.len() {
            number(digits.take(digits.len() - k))
        } else {
            0
        },
    decreases k,
{
    lemma_number_not_negative(digits);
    if k == 0 {
        assert(pow10(k) == 1);
        assert(number(digits) / 1 == number(digits));
        assert(digits.take(digits.len() - k) =~= digits);
        assert(number(digits) / pow10(k) as int == number(digits.take(digits.len() - k)));
    } else {
        lemma_pow10_positive((k - 1) as nat);
        let p = pow10((k - 1) as nat) as int;
        vstd::arithmetic::div_mod::lemma_div_denominator(number(digits), 10, p);
        assert(number(digits) / pow10(k) as int == number(digits) / 10 / p);
        if digits.len() == 0 {
            assert(0int / p == 0) by (nonlinear_arith)
                requires
                    p > 0,
            ;
        } else {
            let short = digits.drop_last();
            assert(is_digit(digits[digits.len() - 1]));
            lemma_dropping_digits(short, (k - 1) as nat);
            assert(number(digits) / 10 == number(short));
            if k <= digits.len() {
                assert(short.take(short.len() - (k - 1)) =~= digits.take(digits.len() - k));
            }
            assert(number(short) / p == number(digits) / pow10(k) as int);
        }
    }
}

proof fn lemma_pow10_positive(k: nat)
    ensures
        pow10(k) > 0,
    decreases k,
{
    if k > 0 {
        lemma_pow10_positive((k - 1) as nat);
    }
}

/// Where the digits from `i` on end.
fn digits_end(s: &Vec<char>, i: usize) -> (r: usize)
    requires
        i <= s@.len(),
    ensures
        r == run_end(s@, i as int),
        i <= r <= s@.len(),
        forall|k: int| i <= k < r ==> is_digit(#[trigger] s@[k]),
{
    let mut r: usize = i;
    while r < s.len() && '0' <= s[r] && s[r] <= '9'
        invariant
            i <= r <= s@.len(),
            run_end(s@, r as int) == run_end(s@, i as int),
            forall|k: int| i <= k < r ==> is_digit(#[trigger] s@[k]),
        decreases s@.len() - r,
    {
        r = r + 1;
    }
    r
}

/// Where the digits begin from `i` on.
fn skip_sign(s: &Vec<char>, i: usize) -> (r: usize)
    requires
        i <= s@.len(),
    ensures
        r == after_sign(s@, i as int),
        i <= r <= s@.len(),
{
    if i < s.len() && (s[i] == '+' || s[i] == '-') {
        i + 1
    } else {
        i
    }
}

/// The value of a digit.
fn digit_value(c: char) -> (r: u8)
    requires
        is_digit(c),
    ensures
        r == c as int - '0' as int,
        r < 10,
{
    (c as u32 - '0' as u32) as u8
}

/// An exponent beyond which no number of digits makes up for it.
pub const FAR: i128 = 1_000_000_000_000_000_000_000_000_000_000;

/// The number of the digits from `from` to the end, but no more than `FAR`.
fn exponent_size(s: &Vec<char>, from: usize) -> (r: i128)
    requires
        from <= s@.len(),
        forall|k: int| from <= k < s@.len() ==> is_digit(#[trigger] s@[k]),
    ensures
        r == if number(s@.subrange(from as int, s@.len() as int)) > FAR {
            FAR as int
        } else {
            number(s@.subrange(from as int, s@.len() as int))
        },
        0 <= r <= FAR,
{
    let mut r: i128 = 0;
    let mut i: usize = from;
    while i < s.len()
        invariant
            from <= i <= s@.len(),
            forall|k: int| from <= k < s@.len() ==> is_digit(#[trigger] s@[k]),
            r == if number(s@.subrange(from as int, i as int)) > FAR {
                FAR as int
            } else {
                number(s@.subrange(from as int, i as int))
            },
            0 <= r <= FAR,
        decreases s@.len() - i,
    {
        let d: u8 = digit_value(s[i]);
        proof {
            let next = s@.subrange(from as int, i + 1);
            assert(next.drop_last() =~= s@.subrange(from as int, i as int));
            assert(number(next) == 10 * number(s@.subrange(from as int, i as int)) + d);
        }
        r = r * 10 + d as i128;
        if r > FAR {
            r = FAR;
        }
        i = i + 1;
    }
    r
}

proof fn lemma_scaled_grows(n: int, a: int, b: int)
    requires
        n > 0,
        0 <= a <= b,
    ensures
        0 < n * pow10(a as nat) <= n * pow10(b as nat),
    decreases b - a,
{
    lemma_pow10_positive(a as nat);
    let p = pow10(a as nat) as int;
    assert(n * p > 0) by (nonlinear_arith)
        requires
            n > 0,
            p > 0,
    ;
    if a < b {
        lemma_scaled_grows(n, a + 1, b);
        assert(pow10((a + 1) as nat) == 10 * p);
        assert(n * (10 * p) == 10 * (n * p)) by (nonlinear_arith);
    }
}

pub proof fn lemma_number_of_both(a: Seq<char>, b: Seq<char>)
    ensures
        number(a + b) == number(a) * pow10(b.len()) + number(b),
    decreases b.len(),
{
    if b.len() == 0 {
        assert(a + b =~= a);
        assert(number(a) * 1 == number(a));
    } else {
        let s = b.drop_last();
        lemma_number_of_both(a, s);
        assert((a + b).drop_last() =~= a + s);
        let p = pow10(s.len()) as int;
        assert(number(a) * (10 * p) == 10 * (number(a) * p)) by (nonlinear_arith);
    }
}

proof fn lemma_number_below(digits: Seq<char>)
    requires
        forall|k: int| 0 <= k < digits.len() ==> is_digit(#[trigger] digits[k]),
    ensures
        0 <= number(digits) < pow10(digits.len()),
    decreases digits.len(),
{
    if digits.len() > 0 {
        lemma_number_below(digits.drop_last());
    }
}

proof fn lemma_number_from(digits: Seq<char>)
    requires
        digits.len() > 0,
        forall|k: int| 0 <= k < digits.len() ==> is_digit(#[trigger] digits[k]),
        digits[0] != '0',
    ensures
        number(digits) >= pow10((digits.len() - 1) as nat),
    decreases digits.len(),
{
    let init = digits.drop_last();
    if init.len() == 0 {
        assert(number(init) == 0);
        assert(is_digit(digits[0]));
    } else {
        lemma_number_from(init);
    }
}

proof fn lemma_number_of_zeros(digits: Seq<char>)
    requires
        forall|k: int| 0 <= k < digits.len() ==> #[trigger] digits[k] == '0',
    ensures
        number(digits) == 0,
    decreases digits.len(),
{
    if digits.len() > 0 {
        lemma_number_of_zeros(digits.drop_last());
    }
}

pub proof fn lemma_pow10_adds(a: nat, b: nat)
    ensures
        pow10(a + b) == pow10(a) * pow10(b),
    decreases b,
{
    if b == 0 {
        assert(pow10(a) * 1 == pow10(a));
    } else {
        lemma_pow10_adds(a, (b - 1) as nat);
        let (p, q) = (pow10(a) as int, pow10((b - 1) as nat) as int);
        assert(p * (10 * q) == 10 * (p * q)) by (nonlinear_arith);
    }
}

pub proof fn lemma_pow10_grows(a: nat, b: nat)
    requires
        a <= b,
    ensures
        pow10(a) <= pow10(b),
    decreases b - a,
{
    if a < b {
        lemma_pow10_grows(a, (b - 1) as nat);
        lemma_pow10_positive((b - 1) as nat);
    }
}

/// How many digits a number has in front of the point says whether it is too large.
proof fn lemma_finite(digits: Seq<char>, zeros: int, e: int)
    requires
        forall|k: int| 0 <= k < digits.len() ==> is_digit(#[trigger] digits[k]),
        0 <= zeros <= digits.len(),
        forall|k: int| 0 <= k < zeros ==> #[trigger] digits[k] == '0',
        zeros < digits.len() ==> digits[zeros] != '0',
    ensures
        scaled(digits, e) < pow10(430) <==> zeros == digits.len() || digits.len() - zeros + e
            <= 430,
{
    let front = digits.take(zeros);
    let rest = digits.skip(zeros);
    assert(front + rest =~= digits);
    lemma_number_of_both(front, rest);
    lemma_number_of_zeros(front);
    assert(0 * pow10(rest.len()) == 0);
    let n = number(digits);
    assert(n == number(rest));
    let k = rest.len() as int;
    lemma_number_below(rest);
    lemma_pow10_positive(430);
    let most = pow10(430) as int;
    if k == 0 {
        if e >= 0 {
            assert(n * pow10(e as nat) == 0) by (nonlinear_arith)
                requires
                    n == 0,
            ;
        } else {
            lemma_pow10_positive((-e) as nat);
            let p = pow10((-e) as nat) as int;
            assert(0int / p == 0) by (nonlinear_arith)
                requires
                    p > 0,
            ;
        }
    } else {
        assert(rest[0] == digits[zeros]);
        lemma_number_from(rest);
        if e >= 0 {
            let p = pow10(e as nat) as int;
            lemma_pow10_positive(e as nat);
            if k + e <= 430 {
                lemma_pow10_adds(k as nat, e as nat);
                lemma_pow10_grows((k + e) as nat, 430);
                let q = pow10(k as nat) as int;
                assert(n * p < q * p) by (nonlinear_arith)
                    requires
                        n < q,
                        p > 0,
                ;
            } else {
                lemma_pow10_adds((k - 1) as nat, e as nat);
                lemma_pow10_grows(430, (k - 1 + e) as nat);
                let q = pow10((k - 1) as nat) as int;
                assert(n * p >= q * p) by (nonlinear_arith)
                    requires
                        n >= q,
                        p > 0,
                ;
            }
        } else {
            let p = pow10((-e) as nat) as int;
            lemma_pow10_positive((-e) as nat);
            lemma_pow10_adds(430, (-e) as nat);
            let limit = pow10((430 - e) as nat) as int;
            assert(limit == most * p);
            if k <= 430 - e {
                lemma_pow10_grows(k as nat, (430 - e) as nat);
                assert(n / p < most) by (nonlinear_arith)
                    requires
                        0 <= n < most * p,
                        p > 0,
                ;
            } else {
                lemma_pow10_grows((430 - e) as nat, (k - 1) as nat);
                assert(n / p >= most) by (nonlinear_arith)
                    requires
                        n >= most * p,
                        p > 0,
                ;
            }
        }
    }
}

/// Whether two exponents give the same number, or both one with too many digits.
#[verifier::opaque]
spec fn alike(digits: Seq<char>, a: int, b: int) -> bool {
    ||| scaled(digits, a + 9) == scaled(digits, b + 9)
    ||| scaled(digits, a + 9) >= pow10(430) && scaled(digits, b + 9) >= pow10(430)
}

/// Beyond `FAR` the exponent does not matter any more.
proof fn lemma_far_exponents(digits: Seq<char>, places: int, n: int, negative: bool)
    requires
        forall|k: int| 0 <= k < digits.len() ==> is_digit(#[trigger] digits[k]),
        digits.len() <= usize::MAX,
        0 <= places <= usize::MAX,
        n > FAR,
    ensures
        !negative ==> alike(digits, n - places, FAR - places),
        negative ==> alike(digits, -n - places, -FAR - places),
{
    reveal(alike);
    assert(usize::MAX <= 0xffff_ffff_ffff_ffff);
    if negative {
        lemma_dropping_digits(digits, (n + places - 9) as nat);
        lemma_dropping_digits(digits, (FAR + places - 9) as nat);
    } else {
        lemma_number_not_negative(digits);
        let v = number(digits);
        let (a, b) = (n - places + 9, FAR - places + 9);
        if v == 0 {
            assert(v * pow10(a as nat) == 0 && v * pow10(b as nat) == 0) by (nonlinear_arith)
                requires
                    v == 0,
            ;
        } else {
            lemma_scaled_grows(v, 430, a);
            lemma_scaled_grows(v, 430, b);
            lemma_pow10_positive(430);
            assert(v * pow10(430) >= pow10(430)) by (nonlinear_arith)
                requires
                    v >= 1,
                    pow10(430) > 0,
            ;
        }
    }
}

/// Whether digits times a power of ten have few enough digits in front of the point.
fn few_digits(digits: &Vec<char>, e: i128) -> (r: bool)
    requires
        forall|k: int| 0 <= k < digits@.len() ==> is_digit(#[trigger] digits@[k]),
        -2 * FAR <= e <= 2 * FAR,
    ensures
        r == (scaled(digits@, e as int) < pow10(430)),
{
    let n: usize = digits.len();
    let mut zeros: usize = 0;
    while zeros < n && digits[zeros] == '0'
        invariant
            zeros <= n,
            n == digits@.len(),
            forall|k: int| 0 <= k < zeros ==> #[trigger] digits@[k] == '0',
        decreases n - zeros,
    {
        zeros = zeros + 1;
    }
    proof {
        lemma_finite(digits@, zeros as int, e as int);
    }
    zeros == n || (n - zeros) as i128 + e <= MOST_DIGITS
}

/// The exponent that stands behind an `e` at `i - 1`, but no further from zero than `FAR`.
fn read_exponent(s: &Vec<char>, i: usize) -> (r: Option<i128>)
    requires
        i <= s@.len(),
    ensures
        match (exponent_at(s@, i as int), r) {
            (Some(n), Some(e)) => e == clamped(n, -FAR as int, FAR as int),
            (None, None) => true,
            _ => false,
        },
{
    let n: usize = s.len();
    let first: usize = skip_sign(s, i);
    if first == n || digits_end(s, first) != n {
        return None;
    }
    let size: i128 = exponent_size(s, first);
    proof {
        lemma_number_not_negative(s@.subrange(first as int, n as int));
    }
    if s[i] == '-' {
        Some(-size)
    } else {
        Some(size)
    }
}

/// The parts of a decimal number: whether it is negative, its digits, and an exponent that
/// is as good as the one it has.
fn read_number(s: &Vec<char>) -> (r: Option<(bool, Vec<char>, i128)>)
    ensures
        match (number_of(s@), r) {
            (Some(n), Some(p)) => {
                &&& n.negative == p.0
                &&& n.digits == p.1@
                &&& forall|k: int| 0 <= k < p.1@.len() ==> is_digit(#[trigger] p.1@[k])
                &&& -2 * FAR + 9 <= p.2 <= 2 * FAR - 9
                &&& alike(p.1@, n.exponent, p.2 as int)
            },
            (None, None) => true,
            _ => false,
        },
{
    let n: usize = s.len();
    let from: usize = skip_sign(s, 0);
    let whole: usize = digits_end(s, from);
    let behind: usize = if whole < n && s[whole] == '.' {
        whole + 1
    } else {
        whole
    };
    let end: usize = digits_end(s, behind);
    let mut digits = part(s, from, whole);
    let mut fraction = part(s, behind, end);
    digits.append(&mut fraction);
    let count: usize = digits.len();
    if count == 0 {
        return None;
    }
    let negative: bool = from > 0 && s[0] == '-';
    let places: i128 = (end - behind) as i128;
    if end == n {
        proof {
            reveal(alike);
        }
        return Some((negative, digits, -places));
    }
    if s[end] != 'e' && s[end] != 'E' {
        return None;
    }
    match read_exponent(s, end + 1) {
        None => None,
        Some(size) => {
            proof {
                let written = exponent_at(s@, end + 1)->0;
                if written > FAR {
                    lemma_far_exponents(digits@, places as int, written, false);
                } else if written < -FAR {
                    lemma_far_exponents(digits@, places as int, -written, true);
                } else {
                    reveal(alike);
                }
            }
            Some((negative, digits, size - places))
        },
    }
}

/// The number of the digits times a power of ten, where it has not too many digits.
fn big_of(digits: &Vec<char>, e: i128) -> (r: Option<Vec<u32>>)
    requires
        forall|k: int| 0 <= k < digits@.len() ==> is_digit(#[trigger] digits@[k]),
        -2 * FAR <= e <= 2 * FAR,
    ensures
        match r {
            Some(v) => size_of(v@) == scaled(digits@, e as int) && scaled(digits@, e as int)
                < pow10(430),
            None => scaled(digits@, e as int) >= pow10(430),
        },
{
    if !few_digits(digits, e) {
        return None;
    }
    let n: usize = digits.len();
    let count: usize = if e >= 0 {
        n
    } else if -e > n as i128 {
        0
    } else {
        (n as i128 + e) as usize
    };
    let mut v: Vec<u32> = Vec::new();
    let mut i: usize = 0;
    assert(number(digits@.take(0)) == 0);
    while i < count
        invariant
            i <= count <= digits@.len(),
            forall|k: int| 0 <= k < digits@.len() ==> is_digit(#[trigger] digits@[k]),
            size_of(v@) == number(digits@.take(i as int)),
        decreases count - i,
    {
        let d: u8 = digit_value(digits[i]);
        proof {
            assert(digits@.take(i + 1).drop_last() =~= digits@.take(i as int));
        }
        v = times_plus(&v, 10, d as u32);
        i = i + 1;
    }
    if e < 0 {
        proof {
            lemma_dropping_digits(digits@, (-e) as nat);
        }
        return Some(v);
    }
    assert(digits@.take(n as int) =~= digits@);
    let ghost whole = number(digits@);
    if is_zero(&v) {
        assert(whole * pow10(e as nat) == 0) by (nonlinear_arith)
            requires
                whole == 0,
        ;
        return Some(v);
    }
    let mut j: i128 = 0;
    assert(whole * 1 == whole);
    while j < e
        invariant
            0 <= j <= e,
            size_of(v@) == whole * pow10(j as nat),
        decreases e - j,
    {
        proof {
            let p = pow10(j as nat) as int;
            assert(pow10((j + 1) as nat) == 10 * p);
            assert(whole * (10 * p) == (whole * p) * 10 + 0) by (nonlinear_arith);
        }
        v = times_plus(&v, 10, 0);
        j = j + 1;
    }
    Some(v)
}

/// What a text is as a number.
pub enum Reading {
    /// It is none.
    NoNumber,
    /// It is one of too many digits, of which the sign is known.
    TooLarge(bool),
    /// It is this one, in billionths.
    Exact(Big),
}

/// The number that a text is, in billionths.
pub fn read_billionths(s: &Vec<char>) -> (r: Reading)
    ensures
        match (number_of(s@), r) {
            (None, Reading::NoNumber) => true,
            (Some(n), Reading::TooLarge(negative)) => n.negative == negative && scaled(
                n.digits,
                n.exponent + 9,
            ) >= pow10(430),
            (Some(n), Reading::Exact(b)) => b@ == billionths(n),
            _ => false,
        },
{
    match read_number(s) {
        None => Reading::NoNumber,
        Some((negative, digits, e)) => {
            proof {
                reveal(alike);
            }
            match big_of(&digits, e + 9) {
                None => Reading::TooLarge(negative),
                Some(size) => Reading::Exact(Big { negative, size }),
            }
        },
    }
}

// ---------- numbers in words ----------

/// The capital of a small letter that the words are made of.
pub open spec fn capital(c: char) -> char {
    if c == 'a' {
        'A'
    } else if c == 'f' {
        'F'
    } else if c == 'i' {
        'I'
    } else if c == 'n' {
        'N'
    } else if c == 't' {
        'T'
    } else if c == 'y' {
        'Y'
    } else {
        c
    }
}

fn capital_of(c: char) -> (r: char)
    ensures
        r == capital(c),
{
    if c == 'a' {
        'A'
    } else if c == 'f' {
        'F'
    } else if c == 'i' {
        'I'
    } else if c == 'n' {
        'N'
    } else if c == 't' {
        'T'
    } else if c == 'y' {
        'Y'
    } else {
        c
    }
}

/// Whether a text is a word in small letters, whatever the case of its own letters.
pub open spec fn spells(s: Seq<char>, word: Seq<char>) -> bool {
    &&& s.len() == word.len()
    &&& forall|i: int|
        0 <= i < s.len() ==> (#[trigger] s[i] == word[i] || s[i] == capital(word[i]))
}

/// A number that is written as a word.
#[derive(Debug, Clone, Copy, PartialEq, Eq, Structural)]
pub enum Word {
    /// More than any number, or less than any.
    Infinite(bool),
    /// No number.
    NotANumber,
}

/// The word that a text is, behind a sign.
pub open spec fn word_of(s: Seq<char>) -> Option<Word> {
    let from = after_sign(s, 0);
    let rest = s.skip(from);
    if spells(rest, "inf"@) || spells(rest, "infinity"@) {
        Some(Word::Infinite(from > 0 && s[0] == '-'))
    } else if spells(rest, "nan"@) {
        Some(Word::NotANumber)
    } else {
        None
    }
}

fn is_spelled(s: &Vec<char>, from: usize, word: &str) -> (r: bool)
    requires
        from <= s@.len(),
    ensures
        r == spells(s@.skip(from as int), word@),
{
    let w = chars_of(word);
    let rest = part(s, from, s.len());
    assert(rest@ =~= s@.skip(from as int));
    if rest.len() != w.len() {
        return false;
    }
    let mut i: usize = 0;
    while i < w.len()
        invariant
            i <= w@.len(),
            w@ == word@,
            rest@ == s@.skip(from as int),
            rest@.len() == w@.len(),
            forall|k: int|
                0 <= k < i ==> (#[trigger] rest@[k] == w@[k] || rest@[k] == capital(w@[k])),
        decreases w@.len() - i,
    {
        if rest[i] != w[i] && rest[i] != capital_of(w[i]) {
            assert(!(rest@[i as int] == w@[i as int] || rest@[i as int] == capital(
                w@[i as int],
            )));
            return false;
        }
        i = i + 1;
    }
    true
}

/// The word that a text is, behind a sign.
pub fn read_word(s: &Vec<char>) -> (r: Option<Word>)
    ensures
        r == word_of(s@),
{
    let from: usize = skip_sign(s, 0);
    if is_spelled(s, from, "inf") || is_spelled(s, from, "infinity") {
        Some(Word::Infinite(from > 0 && s[0] == '-'))
    } else if is_spelled(s, from, "nan") {
        Some(Word::NotANumber)
    } else {
        None
    }
}

// ---------- what numbers are ----------

proof fn lemma_digits_end(s: Seq<char>, i: int, end: int)
    requires
        0 <= i <= end <= s.len(),
        forall|k: int| i <= k < end ==> is_digit(#[trigger] s[k]),
        end < s.len() ==> !is_digit(s[end]),
    ensures
        run_end(s, i) == end,
    decreases end - i,
{
    if i < end {
        assert(is_digit(s[i]));
        lemma_digits_end(s, i + 1, end);
    }
}

/// What a sign, digits, a point and digits are, whatever follows them that is no digit.
#[verifier::spinoff_prover]
proof fn lemma_number_parts(sign: Seq<char>, a: Seq<char>, b: Seq<char>, power: Seq<char>)
    requires
        sign == Seq::<char>::empty() || sign == seq!['+'] || sign == seq!['-'],
        forall|i: int| 0 <= i < a.len() ==> '0' <= #[trigger] a[i] <= '9',
        forall|i: int| 0 <= i < b.len() ==> '0' <= #[trigger] b[i] <= '9',
        power.len() > 0 ==> !is_digit(power[0]),
    ensures
        ({
            let s = sign + a + seq!['.'] + b + power;
            let from = sign.len() as int;
            let whole = from + a.len();
            let end = whole + 1 + b.len();
            &&& after_sign(s, 0) == from
            &&& run_end(s, from) == whole
            &&& s[whole] == '.'
            &&& run_end(s, whole + 1) == end
            &&& s.subrange(from, whole) == a
            &&& s.subrange(whole + 1, end) == b
            &&& (from > 0 && s[0] == '-') == (sign == seq!['-'])
        }),
{
    let s = sign + a + seq!['.'] + b + power;
    let from = sign.len() as int;
    let whole = from + a.len();
    let end = whole + 1 + b.len();
    assert(s[whole] == '.');
    if from == 0 {
        if a.len() > 0 {
            assert(s[0] == a[0]);
        }
    } else {
        assert(s[0] == sign[0]);
        assert(seq!['+'][0] == '+' && seq!['-'][0] == '-');
    }
    assert forall|k: int| from <= k < whole implies is_digit(#[trigger] s[k]) by {
        assert(s[k] == a[k - from]);
    }
    lemma_digits_end(s, from, whole);
    assert forall|k: int| whole + 1 <= k < end implies is_digit(#[trigger] s[k]) by {
        assert(s[k] == b[k - whole - 1]);
    }
    if power.len() > 0 {
        assert(s[end] == power[0]);
    }
    lemma_digits_end(s, whole + 1, end);
    assert(s.subrange(from, whole) =~= a);
    assert(s.subrange(whole + 1, end) =~= b);
}

/// Digits, a point and digits are a number, with a sign in front if it is there: the digits on
/// both sides of the point as one number, ten times less for each one behind it.
#[verifier::spinoff_prover]
pub proof fn law_digits_are_numbers(sign: Seq<char>, a: Seq<char>, b: Seq<char>)
    requires
        sign == Seq::<char>::empty() || sign == seq!['+'] || sign == seq!['-'],
        forall|i: int| 0 <= i < a.len() ==> '0' <= #[trigger] a[i] <= '9',
        forall|i: int| 0 <= i < b.len() ==> '0' <= #[trigger] b[i] <= '9',
        a.len() + b.len() > 0,
    ensures
        number_of(sign + a + seq!['.'] + b) == Some(
            Number { negative: sign == seq!['-'], digits: a + b, exponent: -b.len() },
        ),
{
    let none = Seq::<char>::empty();
    lemma_number_parts(sign, a, b, none);
    assert(sign + a + seq!['.'] + b + none =~= sign + a + seq!['.'] + b);
}

/// Behind a number an `e`, a minus sign if it is there, and digits make it ten times more, or ten
/// times less, as often as the digits say.
#[verifier::spinoff_prover]
pub proof fn law_powers_of_ten_follow_an_e(
    sign: Seq<char>,
    a: Seq<char>,
    b: Seq<char>,
    minus: bool,
    digits: Seq<char>,
)
    requires
        sign == Seq::<char>::empty() || sign == seq!['+'] || sign == seq!['-'],
        forall|i: int| 0 <= i < a.len() ==> '0' <= #[trigger] a[i] <= '9',
        forall|i: int| 0 <= i < b.len() ==> '0' <= #[trigger] b[i] <= '9',
        a.len() + b.len() > 0,
        digits.len() > 0,
        forall|i: int| 0 <= i < digits.len() ==> '0' <= #[trigger] digits[i] <= '9',
    ensures
        ({
            let e = if minus {
                seq!['e', '-']
            } else {
                seq!['e']
            };
            number_of(sign + a + seq!['.'] + b + (e + digits)) == Some(
                Number {
                    negative: sign == seq!['-'],
                    digits: a + b,
                    exponent: (if minus {
                        -number(digits)
                    } else {
                        number(digits)
                    }) - b.len(),
                },
            )
        }),
{
    let e = if minus {
        seq!['e', '-']
    } else {
        seq!['e']
    };
    let power = e + digits;
    assert(power[0] == 'e');
    lemma_number_parts(sign, a, b, power);
    let s = sign + a + seq!['.'] + b + power;
    let end = sign.len() as int + a.len() + 1 + b.len();
    let n = s.len() as int;
    let d = n - digits.len();
    assert(s[end] == power[0]);
    assert(s[end + 1] == power[1]);
    if minus {
        assert(power[1] == '-');
    } else {
        assert(power[1] == digits[0]);
    }
    assert(after_sign(s, end + 1) == d);
    assert(s.subrange(d, n) =~= digits);
    assert forall|k: int| d <= k < n implies is_digit(#[trigger] s[k]) by {
        assert(s[k] == digits[k - d]);
    }
    lemma_digits_end(s, d, n);
}

proof fn lemma_run_is_digits(s: Seq<char>, i: int)
    requires
        0 <= i <= s.len(),
    ensures
        i <= run_end(s, i) <= s.len(),
        forall|k: int| i <= k < run_end(s, i) ==> is_digit(#[trigger] s[k]),
    decreases s.len() - i,
{
    if i < s.len() && is_digit(s[i]) {
        lemma_run_is_digits(s, i + 1);
    }
}

/// A number is made of digits, signs, a point and an `e`, and of nothing else.
pub proof fn law_other_characters_are_in_no_number(s: Seq<char>, i: int)
    requires
        0 <= i < s.len(),
        !('0' <= s[i] <= '9'),
        s[i] != '+',
        s[i] != '-',
        s[i] != '.',
        s[i] != 'e',
        s[i] != 'E',
    ensures
        number_of(s) is None,
{
    let from = after_sign(s, 0);
    lemma_run_is_digits(s, from);
    let whole = run_end(s, from);
    let behind = if whole < s.len() && s[whole] == '.' {
        whole + 1
    } else {
        whole
    };
    lemma_run_is_digits(s, behind);
    let end = run_end(s, behind);
    if end < s.len() {
        let at = after_sign(s, end + 1);
        if at <= s.len() {
            lemma_run_is_digits(s, at);
        }
    }
    assert(!is_digit(s[i]));
}

/// A number in billionths is that of its digits, ten times as great for each power of ten, and cut
/// off behind the billionths. A negative number is the same with the other sign.
pub proof fn law_billionths_count_from_the_exponent(digits: Seq<char>, e: int)
    ensures
        e == -9 ==> billionths(Number { negative: false, digits, exponent: e }) == number(digits),
        e >= -9 ==> billionths(Number { negative: false, digits, exponent: e + 1 }) == 10
            * billionths(Number { negative: false, digits, exponent: e }),
        e < -9 && (forall|i: int| 0 <= i < digits.len() ==> '0' <= #[trigger] digits[i] <= '9')
            ==> billionths(Number { negative: false, digits, exponent: e }) == billionths(
            Number { negative: false, digits, exponent: e + 1 },
        ) / 10,
        billionths(Number { negative: true, digits, exponent: e }) == -billionths(
            Number { negative: false, digits, exponent: e },
        ),
{
    reveal_with_fuel(pow10, 2);
    let x = number(digits);
    if e == -9 {
        assert(x * 1 == x);
    }
    if e < -9 && (forall|i: int| 0 <= i < digits.len() ==> '0' <= #[trigger] digits[i] <= '9') {
        let k = (-(e + 1 + 9)) as nat;
        lemma_number_not_negative(digits);
        assert(pow10(k + 1) == 10 * pow10(k));
        assert(pow10(k) > 0) by {
            lemma_pow10_grows(0, k);
        }
        vstd::arithmetic::div_mod::lemma_div_denominator(x, pow10(k) as int, 10);
        assert(pow10(k) as int * 10 == pow10(k + 1));
        assert((-(e + 9)) as nat == k + 1);
        if k == 0 {
            assert(x / 1 == x && x * 1 == x);
        }
    }
    if e >= -9 {
        let k = (e + 9) as nat;
        assert(pow10(k + 1) == 10 * pow10(k));
        assert(x * (10 * pow10(k)) == 10 * (x * pow10(k))) by (nonlinear_arith);
        assert((e + 1 + 9) as nat == k + 1);
    }
}

} // verus!
