//! Seconds as doubles. A double is given as a whole number of parts, `PARTS` of which make one
//! second, so that what is shown of a time, and what is decided by a difference of two times, is
//! what doubles give.

use crate::times::SECOND;
use vstd::arithmetic::div_mod::{
    lemma_div_denominator, lemma_fundamental_div_mod, lemma_fundamental_div_mod_converse,
};
use vstd::arithmetic::power2::{
    lemma2_to64, lemma2_to64_rest, lemma_pow2_adds, lemma_pow2_pos, lemma_pow2_strictly_increases,
    pow2,
};
use vstd::prelude::*;

verus! {

/// Parts in a second: every double next to a whole number of nanoseconds is a whole number of
/// them.
pub const PARTS: u128 = 0x4_0000_0000_0000_0000_0000;

/// What the digits of a double stay below.
pub const DIGITS: u128 = 0x20_0000_0000_0000;

// ---------- rounding ----------

/// The number of units nearest to `n`, and the even one of two that are as near.
pub open spec fn rounded_even(n: int, unit: int) -> int {
    let q = n / unit;
    let m = n % unit;
    if 2 * m < unit || (2 * m == unit && q % 2 == 0) {
        q
    } else {
        q + 1
    }
}

/// The number of units nearest to `n`, and the even one of two that are as near.
pub fn round_even(n: u128, unit: u128) -> (r: u128)
    requires
        0 < unit,
        n < u128::MAX,
    ensures
        r == rounded_even(n as int, unit as int),
{
    let q: u128 = n / unit;
    let m: u128 = n % unit;
    proof {
        assert(q <= n) by (nonlinear_arith)
            requires
                q == n / unit,
                unit >= 1,
        ;
    }
    if m < unit - m || (m == unit - m && q % 2 == 0) {
        q
    } else {
        q + 1
    }
}

/// Rounding moves a number by half a unit at most.
pub proof fn lemma_rounded_even(n: int, unit: int)
    requires
        0 <= n,
        0 < unit,
    ensures
        -unit <= 2 * (rounded_even(n, unit) * unit - n) <= unit,
        0 <= rounded_even(n, unit),
        n / unit <= rounded_even(n, unit) <= n / unit + 1,
{
    lemma_fundamental_div_mod(n, unit);
    let q = n / unit;
    let r = rounded_even(n, unit);
    assert(q >= 0) by (nonlinear_arith)
        requires
            q == n / unit,
            n >= 0,
            unit > 0,
    ;
    assert((q + 1) * unit == q * unit + unit) by (nonlinear_arith);
    assert(unit * q == q * unit) by (nonlinear_arith);
    assert(r == q || r == q + 1);
}

/// Rounding does not depend on what both numbers are counted in.
proof fn lemma_rounded_even_scaled(n: int, unit: int, c: int)
    requires
        0 <= n,
        0 < unit,
        0 < c,
    ensures
        (n * c) / (unit * c) == n / unit,
        rounded_even(n * c, unit * c) == rounded_even(n, unit),
{
    let q = n / unit;
    let m = n % unit;
    lemma_fundamental_div_mod(n, unit);
    assert(n * c == q * (unit * c) + m * c) by (nonlinear_arith)
        requires
            n == unit * q + m,
    ;
    assert(0 <= m * c < unit * c) by (nonlinear_arith)
        requires
            0 <= m < unit,
            0 < c,
    ;
    lemma_fundamental_div_mod_converse(n * c, unit * c, q, m * c);
    assert(2 * m < unit ==> 2 * (m * c) < unit * c) by (nonlinear_arith)
        requires
            0 < c,
    ;
    assert(2 * m == unit ==> 2 * (m * c) == unit * c) by (nonlinear_arith);
    assert(2 * m > unit ==> 2 * (m * c) > unit * c) by (nonlinear_arith)
        requires
            0 < c,
    ;
}

// ---------- doubles ----------

/// How far apart doubles are, in parts, from `n` parts on to the next power of two. Whatever is
/// smaller than the seconds of a nanosecond counts in whole parts.
pub open spec fn step(n: int) -> int
    decreases n,
{
    if n < DIGITS {
        1
    } else {
        2 * step(n / 2)
    }
}

/// The double nearest to `num / den` parts, and the even one of two that are as near.
pub open spec fn double(num: int, den: int) -> int {
    let unit = step(num / den);
    rounded_even(num, den * unit) * unit
}

/// The double nearest to `num / den` parts, whatever the sign of `num` is.
pub open spec fn signed_double(num: int, den: int) -> int {
    if num < 0 {
        -double(-num, den)
    } else {
        double(num, den)
    }
}

/// The seconds of a time, as a double.
pub open spec fn in_seconds(t: int) -> int {
    signed_double(t * PARTS, SECOND as int)
}

/// The seconds from `b` to `a`: the difference of two doubles, as a double.
pub open spec fn seconds_between(a: int, b: int) -> int {
    signed_double(in_seconds(a) - in_seconds(b), 1)
}

proof fn lemma_step(n: int)
    requires
        0 <= n,
    ensures
        1 <= step(n),
        n >= DIGITS ==> step(n) * 0x10_0000_0000_0000 <= n,
        n < DIGITS ==> step(n) == 1,
    decreases n,
{
    if n >= DIGITS {
        lemma_step(n / 2);
    }
}

/// Rounding to a double makes a number no more than about twice as great.
proof fn lemma_double(num: int, den: int)
    requires
        0 <= num,
        0 < den,
    ensures
        0 <= double(num, den),
        num / den < DIGITS ==> double(num, den) <= num / den + 1,
        double(num, den) <= 2 * (num / den) + 1,
{
    let n = num / den;
    assert(n >= 0) by (nonlinear_arith)
        requires
            n == num / den,
            num >= 0,
            den > 0,
    ;
    lemma_step(n);
    let unit = step(n);
    let q = num / (den * unit);
    assert(den * unit > 0) by (nonlinear_arith)
        requires
            den > 0,
            unit > 0,
    ;
    lemma_rounded_even(num, den * unit);
    lemma_div_denominator(num, den, unit);
    assert(q == n / unit);
    let r = rounded_even(num, den * unit);
    assert(q * unit <= n) by (nonlinear_arith)
        requires
            q == n / unit,
            unit > 0,
            n >= 0,
    ;
    assert(0 <= r * unit <= q * unit + unit) by (nonlinear_arith)
        requires
            0 <= r <= q + 1,
            unit > 0,
    ;
}

/// A double that is not negative: some binary digits, and how many zeros stand behind them.
#[derive(Clone, Copy)]
pub struct Double {
    pub digits: u64,
    pub zeros: u32,
}

impl Double {
    /// How many parts the double is.
    pub open spec fn parts(self) -> int {
        self.digits * pow2(self.zeros as nat)
    }

    /// Whether there are not more digits than a double has.
    pub open spec fn valid(self) -> bool {
        self.digits <= DIGITS
    }

    /// How many parts the double is, where that fits.
    pub fn value(self) -> (r: u128)
        requires
            self.parts() <= u128::MAX,
        ensures
            r == self.parts(),
    {
        if self.digits == 0 {
            assert(0 * pow2(self.zeros as nat) == 0);
            return 0;
        }
        let mut r: u128 = self.digits as u128;
        let mut i: u32 = 0;
        proof {
            lemma2_to64();
        }
        while i < self.zeros
            invariant
                i <= self.zeros,
                self.digits > 0,
                r == self.digits * pow2(i as nat),
                self.digits * pow2(self.zeros as nat) <= u128::MAX,
            decreases self.zeros - i,
        {
            proof {
                lemma2_to64();
                lemma_pow2_adds(i as nat, 1);
                let (k, p, q) = (self.digits as int, pow2((i + 1) as nat), pow2(self.zeros as nat));
                if i + 1 < self.zeros {
                    lemma_pow2_strictly_increases((i + 1) as nat, self.zeros as nat);
                }
                assert(k * p <= k * q) by (nonlinear_arith)
                    requires
                        p <= q,
                        k > 0,
                ;
                assert(k * (pow2(i as nat) * 2) == 2 * (k * pow2(i as nat))) by (nonlinear_arith);
            }
            r = r * 2;
            i = i + 1;
        }
        r
    }

    /// The whole seconds of the double.
    pub fn whole(self) -> (r: u128)
        requires
            self.parts() / PARTS as int <= u128::MAX,
        ensures
            r == self.parts() / PARTS as int,
    {
        proof {
            lemma_parts();
        }
        if self.zeros <= 82 {
            let rest: Double = Double { digits: 1, zeros: 82 - self.zeros };
            proof {
                let (c, d) = (pow2(self.zeros as nat) as int, pow2(rest.zeros as nat) as int);
                lemma_pow2_adds(self.zeros as nat, rest.zeros as nat);
                lemma_pow2_pos(self.zeros as nat);
                lemma_pow2_pos(rest.zeros as nat);
                assert(1 * d == d);
                assert(d <= c * d) by (nonlinear_arith)
                    requires
                        c >= 1,
                        d >= 1,
                ;
                assert(d * c == c * d) by (nonlinear_arith);
                lemma_rounded_even_scaled(self.digits as int, d, c);
            }
            self.digits as u128 / rest.value()
        } else {
            let more: Double = Double { digits: self.digits, zeros: self.zeros - 82 };
            proof {
                let (k, c, d) = (self.digits as int, pow2(more.zeros as nat) as int, PARTS as int);
                lemma_pow2_adds(more.zeros as nat, 82);
                assert(k * (c * d) == (k * c) * d + 0) by (nonlinear_arith);
                lemma_fundamental_div_mod_converse(k * (c * d), d, k * c, 0);
            }
            more.value()
        }
    }

    /// The double as many times, as a double.
    pub fn times(self, n: u64) -> (r: Double)
        requires
            self.valid(),
            self.zeros <= 1000,
        ensures
            r.valid(),
            r.parts() == double(self.parts() * n, 1),
            r.zeros <= self.zeros + 128,
    {
        proof {
            assert(self.digits * n <= DIGITS * 0x1_0000_0000_0000_0000) by (nonlinear_arith)
                requires
                    self.digits <= DIGITS,
                    n <= 0x1_0000_0000_0000_0000,
            ;
        }
        let m: u128 = self.digits as u128 * n as u128;
        let r = nearest(m, 1);
        proof {
            let (k, c, d) = (
                r.digits as int,
                pow2(r.zeros as nat) as int,
                pow2(self.zeros as nat) as int,
            );
            lemma_pow2_adds(r.zeros as nat, self.zeros as nat);
            lemma_double_shifted(m as int, self.zeros as nat);
            assert(k * (c * d) == (k * c) * d) by (nonlinear_arith);
            assert((self.digits * d) * n == m * d) by (nonlinear_arith)
                requires
                    m == self.digits * n,
            ;
        }
        Double { digits: r.digits, zeros: r.zeros + self.zeros }
    }
}

/// A double with zeros behind it is a double.
proof fn lemma_double_shifted(m: int, e: nat)
    requires
        0 <= m,
    ensures
        double(m * pow2(e), 1) == double(m, 1) * pow2(e),
    decreases e,
{
    lemma2_to64();
    if e == 0 {
        assert(m * 1 == m);
    } else {
        let d = (e - 1) as nat;
        let n = m * pow2(d);
        lemma_double_shifted(m, d);
        lemma_pow2_adds(d, 1);
        lemma_pow2_pos(d);
        assert(m * (pow2(d) * 2) == 2 * n && 0 <= n) by (nonlinear_arith)
            requires
                n == m * pow2(d),
                m >= 0,
                pow2(d) > 0,
        ;
        assert(n / 1 == n && (2 * n) / 1 == 2 * n);
        lemma_step(n);
        lemma_rounded_even_scaled(n, step(n), 2);
        assert(double(2 * n, 1) == 2 * double(n, 1)) by {
            if 2 * n < DIGITS {
                lemma_rounded_even(n, 1);
                lemma_rounded_even(2 * n, 1);
            } else {
                assert((2 * n) / 2 == n);
                assert(step(2 * n) == step(n) * 2);
                assert(rounded_even(n, step(n)) * (step(n) * 2) == 2 * (rounded_even(n, step(n))
                    * step(n))) by (nonlinear_arith);
            }
        }
        assert(2 * (double(m, 1) * pow2(d)) == double(m, 1) * (pow2(d) * 2)) by (nonlinear_arith);
    }
}

/// The double nearest to `num / den` parts.
fn nearest(num: u128, den: u128) -> (r: Double)
    requires
        0 < den,
        num <= 0x3f00_0000_0000_0000_0000_0000_0000_0000,
    ensures
        r.valid(),
        r.zeros <= 128,
        r.parts() == double(num as int, den as int),
        r.parts() <= 2 * (num as int / den as int) + 1,
        num as int / den as int <= num,
{
    let ghost n = num as int / den as int;
    let mut m: u128 = num / den;
    let mut unit: u128 = 1;
    let mut zeros: u32 = 0;
    proof {
        lemma_quotient(num as int, den as int);
        lemma_step(n);
        lemma2_to64();
        lemma2_to64_rest();
        assert(n / 1 == n);
    }
    while m >= DIGITS
        invariant
            0 < den,
            n == num as int / den as int,
            0 <= n <= 0x3f00_0000_0000_0000_0000_0000_0000_0000,
            0 < unit,
            unit == pow2(zeros as nat),
            zeros <= 128,
            zeros == 128 ==> unit > n,
            step(n) == unit * step(m as int),
            m == n / unit as int,
            m * unit <= n,
        decreases m,
    {
        proof {
            assert(step(m as int) == 2 * step(m as int / 2));
            assert(unit * (2 * step(m as int / 2)) == (unit * 2) * step(m as int / 2))
                by (nonlinear_arith);
            assert((m as int / 2) * (unit * 2) <= m * unit) by (nonlinear_arith)
                requires
                    2 * (m as int / 2) <= m,
                    unit > 0,
            ;
            assert(2 * unit <= m * unit) by (nonlinear_arith)
                requires
                    m >= 2,
                    unit > 0,
            ;
            lemma_div_denominator(n, unit as int, 2);
            lemma_pow2_adds(zeros as nat, 1);
            lemma2_to64();
            lemma2_to64_rest();
            if zeros == 127 {
                lemma_pow2_adds(64, 64);
                assert(0x1_0000_0000_0000_0000int * 0x1_0000_0000_0000_0000int > n);
            }
        }
        m = m / 2;
        unit = unit * 2;
        zeros = zeros + 1;
    }
    proof {
        assert(unit * 1 == unit);
        lemma_double(num as int, den as int);
        assert(unit * den <= num || unit == 1) by {
            if n >= DIGITS {
                lemma_step(n);
                assert(unit <= n);
                assert(unit * den <= n * den) by (nonlinear_arith)
                    requires
                        unit <= n,
                        den > 0,
                ;
                lemma_fundamental_div_mod(num as int, den as int);
                assert(n * den == den * n) by (nonlinear_arith);
            }
        }
        assert(den * unit == unit * den) by (nonlinear_arith);
        assert(1 * den == den);
        assert(0 < unit * den) by (nonlinear_arith)
            requires
                unit > 0,
                den > 0,
        ;
        lemma_rounded_even(num as int, den * unit);
        lemma_div_denominator(num as int, den as int, unit as int);
    }
    let k: u128 = round_even(num, den * unit);
    Double { digits: k as u64, zeros }
}

/// Where doubles are a power of two apart.
proof fn lemma_step_is_power(n: int, e: nat)
    requires
        0x10_0000_0000_0000 * pow2(e) <= n < DIGITS * pow2(e),
    ensures
        step(n) == pow2(e),
    decreases e,
{
    lemma2_to64();
    if e == 0 {
        assert(n < DIGITS);
    } else {
        let d = (e - 1) as nat;
        lemma_pow2_adds(1, d);
        assert(pow2(e) == 2 * pow2(d));
        lemma2_to64();
        lemma_pow2_pos(d);
        assert(n >= DIGITS);
        lemma_step_is_power(n / 2, d);
    }
}

/// The nearest double, found with as many binary digits behind the point as it has.
proof fn lemma_seconds(t: int, e: nat)
    requires
        0 < t,
        e <= 82,
        SECOND * 0x10_0000_0000_0000 <= t * pow2(e) < SECOND * DIGITS,
    ensures
        double(t * PARTS, SECOND as int) == rounded_even(t * pow2(e), SECOND as int) * pow2(
            (82 - e) as nat,
        ),
{
    let d = (82 - e) as nat;
    let (p, c) = (pow2(e) as int, pow2(d) as int);
    lemma_pow2_adds(e, d);
    lemma_parts();
    lemma_pow2_pos(d);
    let n = t * p;
    assert(t * PARTS == n * c) by (nonlinear_arith)
        requires
            PARTS == p * c,
            n == t * p,
    ;
    let num = n * c;
    let one = SECOND as int;
    assert(0x10_0000_0000_0000 * c <= num / one < DIGITS * c) by (nonlinear_arith)
        requires
            one * 0x10_0000_0000_0000 <= n < one * DIGITS,
            num == n * c,
            one > 0,
            c > 0,
    ;
    lemma_step_is_power(num / one, d);
    lemma_rounded_even_scaled(n, one, c);
}

proof fn lemma_parts()
    ensures
        pow2(82) == PARTS,
        pow2(52) == 0x10_0000_0000_0000,
{
    lemma2_to64();
    lemma2_to64_rest();
    lemma_pow2_adds(41, 41);
    assert(0x200_0000_0000int * 0x200_0000_0000int == PARTS) by (nonlinear_arith);
}

/// The seconds of a time that is not negative, as a double.
pub fn seconds_of(t: u64) -> (r: Double)
    requires
        t <= 0x8000_0000_0000_0000,
    ensures
        r.valid(),
        r.zeros <= 63,
        t > 0 ==> r.digits >= 0x10_0000_0000_0000,
        r.parts() == in_seconds(t as int),
        r.parts() <= 0x10_0000_0000_0000_0000_0000_0000_0000,
{
    if t == 0 {
        proof {
            assert(0 * PARTS == 0);
            assert(0int / SECOND as int == 0);
            assert(step(0) == 1);
            lemma2_to64();
        }
        return Double { digits: 0, zeros: 0 };
    }
    let least: u128 = 0x10_0000_0000_0000 * SECOND as u128;
    let mut n: u128 = t as u128;
    let mut e: u32 = 0;
    proof {
        lemma2_to64();
        assert(t * 1 == t);
    }
    while n < least
        invariant
            least == 0x10_0000_0000_0000 * SECOND,
            0 < t <= 0x8000_0000_0000_0000,
            e <= 82,
            n == t * pow2(e as nat),
            n >= pow2(e as nat),
            n < 2 * least,
        decreases 82 - e,
    {
        proof {
            lemma2_to64();
            lemma_parts();
            lemma_pow2_adds(e as nat, 1);
            assert(t * (pow2(e as nat) * 2) == 2 * (t * pow2(e as nat))) by (nonlinear_arith);
        }
        n = n * 2;
        e = e + 1;
    }
    let k: u128 = round_even(n, SECOND as u128);
    proof {
        lemma_seconds(t as int, e as nat);
        lemma_rounded_even(n as int, SECOND as int);
        assert(0x10_0000_0000_0000 <= k <= DIGITS);
        lemma2_to64();
        lemma2_to64_rest();
        assert(e >= 19) by {
            if e < 19 {
                if e < 18 {
                    lemma_pow2_strictly_increases(e as nat, 18);
                }
                assert(t * pow2(e as nat) <= 0x8000_0000_0000_0000 * pow2(18)) by (nonlinear_arith)
                    requires
                        0 < t <= 0x8000_0000_0000_0000,
                        pow2(e as nat) <= pow2(18),
                ;
            }
        }
        let c = pow2((82 - e) as nat);
        if e > 19 {
            lemma_pow2_strictly_increases((82 - e) as nat, 63);
        }
        assert(k * c <= DIGITS * 0x8000_0000_0000_0000) by (nonlinear_arith)
            requires
                k <= DIGITS,
                c <= 0x8000_0000_0000_0000,
        ;
    }
    Double { digits: k as u64, zeros: 82 - e }
}

/// The seconds of a time, as a double.
pub fn to_seconds(t: i64) -> (r: i128)
    ensures
        r == in_seconds(t as int),
        -0x10_0000_0000_0000_0000_0000_0000_0000 <= r,
        r <= 0x10_0000_0000_0000_0000_0000_0000_0000,
{
    if t < 0 {
        let size: u64 = (-(t as i128)) as u64;
        assert(-(t * PARTS) == size * PARTS);
        -(seconds_of(size).value() as i128)
    } else {
        seconds_of(t as u64).value() as i128
    }
}

/// The double nearest to `num / den` parts, whatever the sign of `num` is.
pub fn to_double(num: i128, den: u128) -> (r: i128)
    requires
        0 < den,
        -0x3f00_0000_0000_0000_0000_0000_0000_0000 <= num,
        num <= 0x3f00_0000_0000_0000_0000_0000_0000_0000,
    ensures
        r == signed_double(num as int, den as int),
        num >= 0 ==> 0 <= r <= 2 * (num as int / den as int) + 1,
        num < 0 ==> -2 * (-num as int / den as int) - 1 <= r <= 0,
{
    if num < 0 {
        let size: u128 = (-num) as u128;
        proof {
            lemma_quotient(size as int, den as int);
        }
        -(nearest(size, den).value() as i128)
    } else {
        proof {
            lemma_quotient(num as int, den as int);
        }
        nearest(num as u128, den).value() as i128
    }
}

proof fn lemma_quotient(n: int, d: int)
    requires
        0 <= n,
        0 < d,
    ensures
        0 <= n / d <= n,
{
    assert(0 <= n / d <= n) by (nonlinear_arith)
        requires
            0 <= n,
            0 < d,
    ;
}

/// The seconds from `b` to `a`: the difference of two doubles, as a double.
pub fn difference(a: i64, b: i64) -> (r: i128)
    ensures
        r == seconds_between(a as int, b as int),
        -0x41_0000_0000_0000_0000_0000_0000_0000 <= r,
        r <= 0x41_0000_0000_0000_0000_0000_0000_0000,
{
    to_double(to_seconds(a) - to_seconds(b), 1)
}

/// The seconds of a time are off from it by one part in `DIGITS` at most.
pub proof fn lemma_in_seconds(t: int)
    ensures
        t >= 0 ==> -t * PARTS <= (in_seconds(t) * SECOND - t * PARTS) * DIGITS <= t * PARTS,
        t < 0 ==> t * PARTS <= (in_seconds(t) * SECOND - t * PARTS) * DIGITS <= -t * PARTS,
{
    let size = if t < 0 {
        -t
    } else {
        t
    };
    let num = size * PARTS;
    let one = SECOND as int;
    let n = num / one;
    lemma_step(n);
    let unit = step(n);
    if size > 0 {
        assert(n >= 0x10_0000_0000_0000);
        assert(unit * 0x10_0000_0000_0000 <= n);
        lemma_rounded_even(num, one * unit);
        let r = rounded_even(num, one * unit);
        assert(r * (one * unit) == one * (r * unit)) by (nonlinear_arith);
        assert(double(num, one) == r * unit);
    } else {
        assert(rounded_even(0, one) == 0);
        assert(0 * unit == 0);
    }
}

/// A number is off from its double by one part in `DIGITS` at most.
pub proof fn lemma_signed_double(n: int)
    ensures
        n >= 0 ==> -n <= (signed_double(n, 1) - n) * DIGITS <= n,
        n < 0 ==> n <= (signed_double(n, 1) - n) * DIGITS <= -n,
{
    let size = if n < 0 {
        -n
    } else {
        n
    };
    assert(size / 1 == size);
    lemma_step(size);
    lemma_rounded_even(size, step(size));
}

/// Times that lie close together do so as doubles.
pub proof fn lemma_close(a: int, b: int, most: int, limit: int)
    requires
        i64::MIN <= a <= i64::MAX,
        i64::MIN <= b <= i64::MAX,
        -most <= a - b <= most,
        0 <= most <= i64::MAX,
        2 * most + 10_000 <= limit <= i64::MAX,
    ensures
        -in_seconds(limit) < seconds_between(a, b) < in_seconds(limit),
{
    lemma_in_seconds(a);
    lemma_in_seconds(b);
    lemma_in_seconds(limit);
    let n = in_seconds(a) - in_seconds(b);
    let size = if n < 0 {
        -n
    } else {
        n
    };
    lemma_double(size, 1);
    assert(size / 1 == size);
}

// ---------- quotients ----------

/// How often `b` parts go into `a` parts: the quotient of two doubles, as a double, to the
/// nearest whole number.
pub open spec fn times_in(a: int, b: int) -> int {
    rounded_even(double(a * PARTS, b), PARTS as int)
}

/// The double next to a fraction is twice as much where the fraction is.
proof fn lemma_double_doubled(num: int, den: int)
    requires
        0 <= num,
        0 < den,
        0x10_0000_0000_0000 * den <= num,
    ensures
        double(2 * num, den) == 2 * double(num, den),
{
    let n = num / den;
    let twice = (2 * num) / den;
    assert(twice >= DIGITS) by (nonlinear_arith)
        requires
            twice == (2 * num) / den,
            0x10_0000_0000_0000 * den <= num,
            den > 0,
            DIGITS == 0x20_0000_0000_0000,
    ;
    lemma_div_denominator(2 * num, den, 2);
    lemma_div_denominator(2 * num, 2, den);
    assert(den * 2 == 2 * den);
    assert((2 * num) / 2 == num);
    assert(twice / 2 == n);
    assert(step(twice) == 2 * step(n));
    assert(0 <= n) by (nonlinear_arith)
        requires
            n == num / den,
            num >= 0,
            den > 0,
    ;
    lemma_step(n);
    let u = step(n);
    assert(0 < den * u) by (nonlinear_arith)
        requires
            den > 0,
            u > 0,
    ;
    lemma_rounded_even_scaled(num, den * u, 2);
    let r = rounded_even(num, den * u);
    assert(den * (2 * u) == (den * u) * 2 && r * (2 * u) == 2 * (r * u)) by (nonlinear_arith);
}

/// The double next to a fraction has zeros behind it where the fraction is so many times as much.
proof fn lemma_double_grown(num: int, den: int, e: nat)
    requires
        0 <= num,
        0 < den,
        0x10_0000_0000_0000 * den <= num,
    ensures
        double(num * pow2(e), den) == double(num, den) * pow2(e),
    decreases e,
{
    lemma2_to64();
    if e == 0 {
        assert(num * 1 == num);
    } else {
        let d = (e - 1) as nat;
        let n = num * pow2(d);
        lemma_double_grown(num, den, d);
        lemma_pow2_adds(d, 1);
        lemma_pow2_pos(d);
        assert(num * (pow2(d) * 2) == 2 * n && num <= n) by (nonlinear_arith)
            requires
                n == num * pow2(d),
                num >= 0,
                pow2(d) >= 1,
        ;
        lemma_double_doubled(n, den);
        let x = double(num, den);
        assert(2 * (x * pow2(d)) == x * (pow2(d) * 2)) by (nonlinear_arith);
    }
}

/// The double next to a fraction does not depend on what both numbers are counted in.
proof fn lemma_double_scaled(num: int, den: int, c: int)
    requires
        0 <= num,
        0 < den,
        0 < c,
    ensures
        double(num * c, den * c) == double(num, den),
{
    let n = num / den;
    lemma_rounded_even_scaled(num, den, c);
    lemma_quotient(num, den);
    lemma_step(n);
    let u = step(n);
    assert(0 < den * u && (den * c) * u == (den * u) * c) by (nonlinear_arith)
        requires
            den > 0,
            u > 0,
    ;
    lemma_rounded_even_scaled(num, den * u, c);
}

impl Double {
    /// How often `other` goes into the double: their quotient, as a double, to the nearest whole
    /// number, or the greatest number there is.
    pub fn times_in(self, other: Double) -> (r: u64)
        requires
            0x10_0000_0000_0000 <= self.digits <= DIGITS,
            0x10_0000_0000_0000 <= other.digits <= DIGITS,
            self.zeros <= 63,
            other.zeros <= 63,
        ensures
            r == if times_in(self.parts(), other.parts()) > u64::MAX {
                u64::MAX as int
            } else {
                times_in(self.parts(), other.parts())
            },
    {
        let num: u128 = self.digits as u128 * DIGITS;
        let (a, b) = (self.zeros, other.zeros);
        proof {
            lemma_parts();
            lemma2_to64();
            lemma2_to64_rest();
            lemma_pow2_pos(a as nat);
            lemma_pow2_pos(b as nat);
        }
        let ghost (j, k) = (self.digits as int, other.digits as int);
        let ghost (p, q) = (pow2(a as nat) as int, pow2(b as nat) as int);
        if a + 29 < b {
            proof {
                let n = (j * p) * PARTS;
                let d = k * q;
                lemma_pow2_adds((a + 30) as nat, (b - a - 30) as nat);
                lemma_pow2_adds(a as nat, 30);
                lemma_pow2_pos((b - a - 30) as nat);
                assert(q >= p * 0x4000_0000) by (nonlinear_arith)
                    requires
                        q == (p * 0x4000_0000) * pow2((b - a - 30) as nat),
                        pow2((b - a - 30) as nat) >= 1,
                        p >= 1,
                ;
                lemma_small_quotient(j, k, p, q);
                lemma_quotient(n, d);
                lemma_double(n, d);
                lemma_rounded_even(double(n, d), PARTS as int);
            }
            return 0;
        }
        let e: u32 = a + 29 - b;
        let x = nearest(num, other.digits as u128);
        proof {
            let c = pow2(e as nat) as int;
            lemma_pow2_adds(a as nat, 29);
            lemma_pow2_adds(e as nat, b as nat);
            assert((j * p) * PARTS == ((j * DIGITS) * c) * q) by (nonlinear_arith)
                requires
                    PARTS == 0x2000_0000 * DIGITS,
                    p * 0x2000_0000 == c * q,
            ;
            assert(0x10_0000_0000_0000 * k <= j * DIGITS);
            lemma_double_grown(num as int, k, e as nat);
            assert(0 <= num * c) by (nonlinear_arith)
                requires
                    c >= 0,
            ;
            lemma_double_scaled(num * c, k, q);
            assert(double(self.parts() * PARTS, other.parts()) == x.parts() * c);
            let (g, h) = (x.digits as int, pow2(x.zeros as nat) as int);
            lemma_pow2_adds(x.zeros as nat, e as nat);
            assert(g * (h * c) == (g * h) * c) by (nonlinear_arith);
        }
        Double { digits: x.digits, zeros: x.zeros + e }.nearest_whole()
    }

    /// The seconds of the double to the nearest whole number, or the greatest number there is.
    fn nearest_whole(self) -> (r: u64)
        requires
            self.valid(),
            self.zeros <= 1000,
        ensures
            r == if rounded_even(self.parts(), PARTS as int) > u64::MAX {
                u64::MAX as int
            } else {
                rounded_even(self.parts(), PARTS as int)
            },
    {
        proof {
            lemma_parts();
            lemma2_to64();
            lemma2_to64_rest();
        }
        if self.digits == 0 {
            assert(0 * pow2(self.zeros as nat) == 0);
            return 0;
        }
        if self.zeros <= 82 {
            let rest: Double = Double { digits: 1, zeros: 82 - self.zeros };
            proof {
                let (c, d) = (pow2(self.zeros as nat) as int, pow2(rest.zeros as nat) as int);
                lemma_pow2_adds(self.zeros as nat, rest.zeros as nat);
                lemma_pow2_pos(self.zeros as nat);
                lemma_pow2_pos(rest.zeros as nat);
                assert(1 * d == d);
                assert(d <= c * d) by (nonlinear_arith)
                    requires
                        c >= 1,
                        d >= 1,
                ;
                assert(d * c == c * d) by (nonlinear_arith);
                lemma_rounded_even_scaled(self.digits as int, d, c);
                lemma_rounded_even(self.digits as int, d);
                lemma_quotient(self.digits as int, d);
            }
            return round_even(self.digits as u128, rest.value()) as u64;
        }
        proof {
            let (k, c, d) = (
                self.digits as int,
                pow2((self.zeros - 82) as nat) as int,
                PARTS as int,
            );
            lemma_pow2_adds((self.zeros - 82) as nat, 82);
            assert(k * (c * d) == (k * c) * d + 0) by (nonlinear_arith);
            lemma_fundamental_div_mod_converse(k * (c * d), d, k * c, 0);
            if self.zeros >= 146 {
                lemma_pow2_adds(64, (self.zeros - 146) as nat);
                lemma_pow2_pos((self.zeros - 146) as nat);
                assert(k * c > u64::MAX) by (nonlinear_arith)
                    requires
                        k >= 1,
                        c == 0x1_0000_0000_0000_0000 * pow2((self.zeros - 146) as nat),
                        pow2((self.zeros - 146) as nat) >= 1,
                ;
            } else {
                if self.zeros < 145 {
                    lemma_pow2_strictly_increases((self.zeros - 82) as nat, 63);
                }
                assert(k * c <= DIGITS * 0x8000_0000_0000_0000) by (nonlinear_arith)
                    requires
                        0 <= k <= DIGITS,
                        0 <= c <= 0x8000_0000_0000_0000,
                ;
            }
        }
        if self.zeros >= 146 {
            return u64::MAX;
        }
        let whole: u128 = Double { digits: self.digits, zeros: self.zeros - 82 }.value();
        if whole > u64::MAX as u128 {
            u64::MAX
        } else {
            whole as u64
        }
    }
}

/// A quotient of doubles that are far apart is small.
proof fn lemma_small_quotient(j: int, k: int, p: int, q: int)
    requires
        0x10_0000_0000_0000 <= j <= DIGITS,
        0x10_0000_0000_0000 <= k <= DIGITS,
        1 <= p,
        q >= p * 0x4000_0000,
    ensures
        0 < k * q,
        0 <= (j * p) * PARTS,
        (j * p) * PARTS / (k * q) <= 0x80_0000_0000_0000,
{
    let n = (j * p) * PARTS;
    let d = k * q;
    assert(d >= 0x10_0000_0000_0000 * (p * 0x4000_0000)) by (nonlinear_arith)
        requires
            d == k * q,
            k >= 0x10_0000_0000_0000,
            q >= p * 0x4000_0000,
            p >= 1,
    ;
    assert(0 <= j * p <= DIGITS * p) by (nonlinear_arith)
        requires
            0 <= j <= DIGITS,
            p >= 1,
    ;
    assert(n <= 0x80_0000_0000_0000 * d);
    assert(n / d <= 0x80_0000_0000_0000) by (nonlinear_arith)
        requires
            n <= 0x80_0000_0000_0000 * d,
            d > 0,
            n >= 0,
    ;
}

// ---------- what doubles are ----------

/// Doubles lie one part apart below 2 to the 53rd, and twice as far apart in twice the distance.
pub proof fn law_doubles_lie_further_apart_further_out(n: int)
    requires
        0 <= n,
    ensures
        n < 0x20_0000_0000_0000 ==> step(n) == 1,
        n >= 0x10_0000_0000_0000 ==> step(2 * n) == 2 * step(n) && step(2 * n + 1) == 2 * step(n),
        n >= 0x10_0000_0000_0000 ==> 0x10_0000_0000_0000 * step(n) <= n < 0x20_0000_0000_0000
            * step(n),
    decreases n,
{
    if n >= DIGITS {
        law_doubles_lie_further_apart_further_out(n / 2);
    }
}

/// No double lies nearer to a fraction than the one that is taken for it, and of two that lie as
/// near it is the one with an even last digit.
pub proof fn law_the_nearest_double_is_taken(num: int, den: int, other: int)
    requires
        0 <= num,
        0 < den,
    ensures
        ({
            let unit = step(num / den);
            let x = double(num, den);
            let d = x * den - num;
            let e = (other * unit) * den - num;
            &&& x == x / unit * unit
            &&& (if d < 0 {
                -d
            } else {
                d
            }) <= (if e < 0 {
                -e
            } else {
                e
            })
            &&& x != other * unit && (d == -e) ==> (x / unit) % 2 == 0
        }),
{
    let n = num / den;
    lemma_quotient(num, den);
    lemma_step(n);
    let u = step(n);
    let v = den * u;
    assert(0 < v) by (nonlinear_arith)
        requires
            v == den * u,
            den > 0,
            u > 0,
    ;
    let k = rounded_even(num, v);
    lemma_rounded_even(num, v);
    assert((k * u) * den == k * v && (other * u) * den == other * v) by (nonlinear_arith)
        requires
            v == den * u,
    ;
    assert((k * u) / u == k) by (nonlinear_arith)
        requires
            u > 0,
    ;
    let q = num / v;
    lemma_fundamental_div_mod(num, v);
    assert(v * q == q * v && (q + 1) * v == q * v + v) by (nonlinear_arith);
    assert(other <= q ==> other * v <= q * v) by (nonlinear_arith)
        requires
            v > 0,
    ;
    assert(other >= q + 1 ==> other * v >= (q + 1) * v) by (nonlinear_arith)
        requires
            v > 0,
    ;
    if k * u != other * u && k * v - num == -(other * v - num) {
        assert(k != other);
        assert(other <= q - 1 ==> other * v <= q * v - v) by (nonlinear_arith)
            requires
                v > 0,
        ;
        assert(other >= q + 2 ==> other * v >= q * v + v + v) by (nonlinear_arith)
            requires
                v > 0,
        ;
        assert(other == q || other == q + 1);
    }
}

/// The double of a fraction that is not too small is off from it by one part in `DIGITS` at most.
pub proof fn lemma_double_of_a_fraction(num: int, den: int)
    requires
        0 < den,
        0x10_0000_0000_0000 * den <= num,
    ensures
        -num <= (double(num, den) * den - num) * DIGITS <= num,
{
    let n = num / den;
    assert(n >= 0x10_0000_0000_0000 && n * den <= num) by (nonlinear_arith)
        requires
            n == num / den,
            0x10_0000_0000_0000 * den <= num,
            den > 0,
    ;
    lemma_step(n);
    let u = step(n);
    let v = den * u;
    assert(0 < v && 0x10_0000_0000_0000 * v <= num) by (nonlinear_arith)
        requires
            v == den * u,
            den > 0,
            u > 0,
            u * 0x10_0000_0000_0000 <= n,
            n * den <= num,
    ;
    lemma_rounded_even(num, v);
    let k = rounded_even(num, v);
    assert((k * u) * den == k * v) by (nonlinear_arith)
        requires
            v == den * u,
    ;
}

} // verus!
