//! Whole numbers of any size. The size of a number is held in limbs of 32 bits, the lowest
//! first.

use crate::times::as_time;
use vstd::prelude::*;

verus! {

/// What a limb counts from one to the next.
pub const BASE: u64 = 0x1_0000_0000;

/// What a limb at a place counts.
pub open spec fn weight(i: int) -> int
    decreases i,
{
    if i <= 0 {
        1
    } else {
        BASE * weight(i - 1)
    }
}

/// The limb at a place; there are none but zeros behind the last.
pub open spec fn limb(s: Seq<u32>, i: int) -> int {
    if 0 <= i < s.len() {
        s[i] as int
    } else {
        0
    }
}

/// The number that the first `i` limbs hold.
pub open spec fn low(s: Seq<u32>, i: int) -> int
    decreases i,
{
    if i <= 0 {
        0
    } else {
        low(s, i - 1) + limb(s, i - 1) * weight(i - 1)
    }
}

/// The number that limbs hold.
pub open spec fn size_of(s: Seq<u32>) -> int {
    low(s, s.len() as int)
}

proof fn lemma_weight(i: int)
    ensures
        weight(i) >= 1,
    decreases i,
{
    if i > 0 {
        lemma_weight(i - 1);
    }
}

proof fn lemma_weight_grows(i: int, j: int)
    requires
        i <= j,
    ensures
        weight(i) <= weight(j),
    decreases j,
{
    lemma_weight(i);
    if i < j && j > 0 {
        lemma_weight_grows(i, j - 1);
        lemma_weight(j - 1);
    }
}

proof fn lemma_low_bound(s: Seq<u32>, i: int)
    ensures
        0 <= low(s, i) < weight(i),
    decreases i,
{
    lemma_weight(i);
    if i > 0 {
        lemma_low_bound(s, i - 1);
        let (l, w) = (limb(s, i - 1), weight(i - 1));
        assert(0 <= l * w && l * w + w <= BASE * w) by (nonlinear_arith)
            requires
                0 <= l,
                l + 1 <= BASE,
                w >= 1,
        ;
    }
}

proof fn lemma_low_grows(s: Seq<u32>, i: int, j: int)
    requires
        i <= j,
    ensures
        low(s, i) <= low(s, j),
    decreases j,
{
    if i < j && j > 0 {
        lemma_low_grows(s, i, j - 1);
        lemma_weight(j - 1);
        let (l, w) = (limb(s, j - 1), weight(j - 1));
        assert(l * w >= 0) by (nonlinear_arith)
            requires
                l >= 0,
                w >= 1,
        ;
    }
}

proof fn lemma_low_beyond(s: Seq<u32>, i: int)
    requires
        i >= s.len(),
    ensures
        low(s, i) == size_of(s),
    decreases i,
{
    if i > s.len() {
        lemma_low_beyond(s, i - 1);
        assert(0 * weight(i - 1) == 0);
    }
}

proof fn lemma_low_same(s: Seq<u32>, t: Seq<u32>, i: int)
    requires
        i <= s.len(),
        i <= t.len(),
        forall|k: int| 0 <= k < i ==> s[k] == t[k],
    ensures
        low(s, i) == low(t, i),
    decreases i,
{
    if i > 0 {
        lemma_low_same(s, t, i - 1);
    }
}

proof fn lemma_push(s: Seq<u32>, d: u32)
    ensures
        size_of(s.push(d)) == size_of(s) + d * weight(s.len() as int),
{
    lemma_low_same(s, s.push(d), s.len() as int);
}

/// The number times `m`, and `a`.
pub fn times_plus(v: &Vec<u32>, m: u32, a: u32) -> (r: Vec<u32>)
    ensures
        size_of(r@) == size_of(v@) * m + a,
{
    let mut r: Vec<u32> = Vec::new();
    let mut carry: u64 = a as u64;
    let mut i: usize = 0;
    assert(low(v@, 0) * m == 0) by (nonlinear_arith)
        requires
            low(v@, 0) == 0,
    ;
    while i < v.len()
        invariant
            i <= v@.len(),
            r@.len() == i,
            carry < BASE,
            size_of(r@) + carry * weight(i as int) == low(v@, i as int) * m + a,
        decreases v@.len() - i,
    {
        let limb_here: u32 = v[i];
        assert(limb_here * m <= 0xffff_ffff * 0xffff_ffff) by (nonlinear_arith)
            requires
                0 <= limb_here <= 0xffff_ffff,
                0 <= m <= 0xffff_ffff,
        ;
        let x: u64 = limb_here as u64 * m as u64 + carry;
        let d: u32 = (x % BASE) as u32;
        let next: u64 = x / BASE;
        proof {
            lemma_push(r@, d);
            let w = weight(i as int);
            let (l, n, c) = (limb_here as int, next as int, carry as int);
            assert(x == next * BASE + d);
            assert((size_of(r@) + d * w) + n * (BASE * w) == (low(v@, i as int) + l * w) * m + a)
                by (nonlinear_arith)
                requires
                    size_of(r@) + c * w == low(v@, i as int) * m + a,
                    l * m + c == n * BASE + d,
            ;
        }
        r.push(d);
        carry = next;
        i = i + 1;
    }
    if carry > 0 {
        proof {
            lemma_push(r@, carry as u32);
        }
        r.push(carry as u32);
    } else {
        assert(0 * weight(i as int) == 0);
    }
    r
}

fn limb_at(v: &Vec<u32>, i: usize) -> (r: u64)
    ensures
        r == limb(v@, i as int),
        r < BASE,
{
    if i < v.len() {
        v[i] as u64
    } else {
        0
    }
}

fn longer(a: &Vec<u32>, b: &Vec<u32>) -> (r: usize)
    ensures
        r >= a@.len(),
        r >= b@.len(),
{
    if a.len() < b.len() {
        b.len()
    } else {
        a.len()
    }
}

/// The sum of two numbers.
pub fn sum(a: &Vec<u32>, b: &Vec<u32>) -> (r: Vec<u32>)
    ensures
        size_of(r@) == size_of(a@) + size_of(b@),
{
    let n: usize = longer(a, b);
    let mut r: Vec<u32> = Vec::new();
    let mut carry: u64 = 0;
    let mut i: usize = 0;
    while i < n
        invariant
            i <= n,
            r@.len() == i,
            carry <= 1,
            size_of(r@) + carry * weight(i as int) == low(a@, i as int) + low(b@, i as int),
        decreases n - i,
    {
        let x: u64 = limb_at(a, i) + limb_at(b, i) + carry;
        let d: u32 = (x % BASE) as u32;
        let next: u64 = x / BASE;
        proof {
            lemma_push(r@, d);
            let w = weight(i as int);
            let (p, q) = (limb(a@, i as int), limb(b@, i as int));
            let (n, c) = (next as int, carry as int);
            assert(x == next * BASE + d);
            assert((size_of(r@) + d * w) + n * (BASE * w) == (low(a@, i as int) + p * w) + (low(
                b@,
                i as int,
            ) + q * w)) by (nonlinear_arith)
                requires
                    size_of(r@) + c * w == low(a@, i as int) + low(b@, i as int),
                    p + q + c == n * BASE + d,
            ;
        }
        r.push(d);
        carry = next;
        i = i + 1;
    }
    proof {
        lemma_low_beyond(a@, n as int);
        lemma_low_beyond(b@, n as int);
        lemma_push(r@, carry as u32);
    }
    r.push(carry as u32);
    r
}

/// The difference of two numbers.
pub fn difference(a: &Vec<u32>, b: &Vec<u32>) -> (r: Vec<u32>)
    requires
        size_of(a@) >= size_of(b@),
    ensures
        size_of(r@) == size_of(a@) - size_of(b@),
{
    let n: usize = longer(a, b);
    let mut r: Vec<u32> = Vec::new();
    let mut borrow: u64 = 0;
    let mut i: usize = 0;
    while i < n
        invariant
            i <= n,
            r@.len() == i,
            borrow <= 1,
            size_of(r@) - borrow * weight(i as int) == low(a@, i as int) - low(b@, i as int),
        decreases n - i,
    {
        let x: u64 = BASE + limb_at(a, i) - limb_at(b, i) - borrow;
        let d: u32 = (x % BASE) as u32;
        let next: u64 = 1 - x / BASE;
        proof {
            lemma_push(r@, d);
            let w = weight(i as int);
            let (p, q) = (limb(a@, i as int), limb(b@, i as int));
            let (n, c) = (next as int, borrow as int);
            assert((size_of(r@) + d * w) - n * (BASE * w) == (low(a@, i as int) + p * w) - (low(
                b@,
                i as int,
            ) + q * w)) by (nonlinear_arith)
                requires
                    size_of(r@) - c * w == low(a@, i as int) - low(b@, i as int),
                    p - q - c == d - n * BASE,
            ;
        }
        r.push(d);
        borrow = next;
        i = i + 1;
    }
    proof {
        lemma_low_beyond(a@, n as int);
        lemma_low_beyond(b@, n as int);
        lemma_low_bound(r@, n as int);
        lemma_weight(n as int);
        assert(1 * weight(n as int) == weight(n as int));
        assert(0 * weight(n as int) == 0);
    }
    r
}

/// Whether one number is less than another.
pub fn is_less(a: &Vec<u32>, b: &Vec<u32>) -> (r: bool)
    ensures
        r == (size_of(a@) < size_of(b@)),
{
    let mut i: usize = longer(a, b);
    proof {
        lemma_low_beyond(a@, i as int);
        lemma_low_beyond(b@, i as int);
    }
    while i > 0
        invariant
            size_of(a@) - low(a@, i as int) == size_of(b@) - low(b@, i as int),
        decreases i,
    {
        let x: u64 = limb_at(a, i - 1);
        let y: u64 = limb_at(b, i - 1);
        if x != y {
            proof {
                let w = weight(i - 1);
                let (p, q) = (x as int, y as int);
                lemma_low_bound(a@, i - 1);
                lemma_low_bound(b@, i - 1);
                lemma_weight(i - 1);
                assert(p < q ==> p * w + w <= q * w) by (nonlinear_arith)
                    requires
                        w >= 1,
                ;
                assert(q < p ==> q * w + w <= p * w) by (nonlinear_arith)
                    requires
                        w >= 1,
                ;
            }
            return x < y;
        }
        i = i - 1;
    }
    false
}

/// Whether a number is zero.
pub fn is_zero(v: &Vec<u32>) -> (r: bool)
    ensures
        r == (size_of(v@) == 0),
{
    let mut i: usize = 0;
    while i < v.len()
        invariant
            i <= v@.len(),
            low(v@, i as int) == 0,
        decreases v@.len() - i,
    {
        if v[i] != 0 {
            proof {
                lemma_low_grows(v@, i + 1, v@.len() as int);
                lemma_weight(i as int);
                let (l, w) = (v@[i as int] as int, weight(i as int));
                assert(l * w >= 1) by (nonlinear_arith)
                    requires
                        l >= 1,
                        w >= 1,
                ;
            }
            return false;
        }
        assert(0 * weight(i as int) == 0);
        i = i + 1;
    }
    true
}

/// A whole number.
pub struct Big {
    pub negative: bool,
    pub size: Vec<u32>,
}

impl View for Big {
    type V = int;

    open spec fn view(&self) -> int {
        if self.negative {
            -size_of(self.size@)
        } else {
            size_of(self.size@)
        }
    }
}

impl Big {
    /// Nothing.
    pub fn zero() -> (r: Self)
        ensures
            r@ == 0,
    {
        Big { negative: false, size: Vec::new() }
    }

    /// The number times `m`.
    pub fn times(&self, m: u32) -> (r: Self)
        ensures
            r@ == self@ * m,
    {
        let size = times_plus(&self.size, m, 0);
        proof {
            let s = size_of(self.size@);
            assert((-s) * m == -(s * m)) by (nonlinear_arith);
        }
        Big { negative: self.negative, size }
    }

    /// The sum of two numbers.
    pub fn plus(&self, other: &Self) -> (r: Self)
        ensures
            r@ == self@ + other@,
    {
        if self.negative == other.negative {
            Big { negative: self.negative, size: sum(&self.size, &other.size) }
        } else if is_less(&self.size, &other.size) {
            Big { negative: other.negative, size: difference(&other.size, &self.size) }
        } else {
            Big { negative: self.negative, size: difference(&self.size, &other.size) }
        }
    }

    /// Whether the number lies between a limit and its negative.
    pub fn is_within(&self, limit: &Vec<u32>) -> (r: bool)
        ensures
            r == (-size_of(limit@) < self@ < size_of(limit@)),
    {
        proof {
            lemma_low_bound(self.size@, self.size@.len() as int);
        }
        is_less(&self.size, limit)
    }

    /// The nearest time.
    pub fn to_time(&self) -> (r: i64)
        ensures
            r == as_time(self@),
    {
        match bits_of(&self.size) {
            Some(bits) if bits < 0x8000_0000_0000_0000 => if self.negative {
                -(bits as i64)
            } else {
                bits as i64
            },
            _ => if self.negative {
                i64::MIN
            } else {
                i64::MAX
            },
        }
    }
}

/// What two limbs hold.
pub proof fn lemma_two_limbs(s: Seq<u32>)
    ensures
        low(s, 2) == limb(s, 0) + limb(s, 1) * BASE,
        weight(2) == 0x1_0000_0000_0000_0000,
{
    assert(low(s, 0) == 0 && weight(0) == 1);
    assert(low(s, 1) == limb(s, 0) * 1);
    assert(weight(1) == BASE * weight(0));
    assert(low(s, 2) == low(s, 1) + limb(s, 1) * weight(1));
    assert(weight(2) == BASE * weight(1));
}

/// The number, where 64 bits hold it.
fn bits_of(v: &Vec<u32>) -> (r: Option<u64>)
    ensures
        match r {
            Some(bits) => size_of(v@) == bits,
            None => size_of(v@) >= 0x1_0000_0000_0000_0000,
        },
{
    proof {
        lemma_two_limbs(v@);
    }
    let n: usize = v.len();
    let mut i: usize = 2;
    while i < n
        invariant
            n == v@.len(),
            2 <= i,
            i <= n || i == 2,
            low(v@, i as int) == low(v@, 2),
            weight(2) == 0x1_0000_0000_0000_0000,
        decreases n - i,
    {
        if v[i] != 0 {
            proof {
                lemma_low_grows(v@, i + 1, n as int);
                lemma_low_bound(v@, i as int);
                lemma_weight_grows(2, i as int);
                let (l, w) = (v@[i as int] as int, weight(i as int));
                assert(l * w >= w) by (nonlinear_arith)
                    requires
                        l >= 1,
                        w >= 1,
                ;
            }
            return None;
        }
        assert(0 * weight(i as int) == 0);
        i = i + 1;
    }
    let bits: u64 = limb_at(v, 0) + limb_at(v, 1) * BASE;
    proof {
        lemma_low_beyond(v@, i as int);
        lemma_two_limbs(v@);
    }
    Some(bits)
}

} // verus!
