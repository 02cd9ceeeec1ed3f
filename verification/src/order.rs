//! Ordering: sorting, and integers that are ordered as floating-point numbers are.

use vstd::prelude::*;

verus! {

// ---------- sorting ----------

/// Pairs in lexicographic order.
pub open spec fn pair_le(a: (i64, usize), b: (i64, usize)) -> bool {
    a.0 < b.0 || (a.0 == b.0 && a.1 <= b.1)
}

/// Whether pairs stand in order.
pub open spec fn pairs_sorted(s: Seq<(i64, usize)>) -> bool {
    forall|i: int, j: int| 0 <= i <= j < s.len() ==> pair_le(#[trigger] s[i], #[trigger] s[j])
}

/// Puts two sorted runs together into one.
fn merge(a: &Vec<(i64, usize)>, b: &Vec<(i64, usize)>) -> (r: Vec<(i64, usize)>)
    requires
        pairs_sorted(a@),
        pairs_sorted(b@),
    ensures
        pairs_sorted(r@),
        r@.to_multiset() == a@.to_multiset().add(b@.to_multiset()),
        r@.len() == a@.len() + b@.len(),
{
    let mut r: Vec<(i64, usize)> = Vec::new();
    let mut i: usize = 0;
    let mut j: usize = 0;
    proof {
        broadcast use vstd::seq_lib::group_to_multiset_ensures;

        assert(a@.take(0) =~= Seq::empty());
        assert(b@.take(0) =~= Seq::empty());
        assert(r@.to_multiset() =~= a@.take(0).to_multiset().add(b@.take(0).to_multiset()));
    }
    while i < a.len() || j < b.len()
        invariant
            pairs_sorted(a@),
            pairs_sorted(b@),
            i <= a@.len(),
            j <= b@.len(),
            r@.len() == i + j,
            pairs_sorted(r@),
            r@.to_multiset() == a@.take(i as int).to_multiset().add(
                b@.take(j as int).to_multiset(),
            ),
            forall|k: int, l: int|
                0 <= k < r@.len() && i <= l < a@.len() ==> pair_le(
                    #[trigger] r@[k],
                    #[trigger] a@[l],
                ),
            forall|k: int, l: int|
                0 <= k < r@.len() && j <= l < b@.len() ==> pair_le(
                    #[trigger] r@[k],
                    #[trigger] b@[l],
                ),
        decreases a@.len() - i + b@.len() - j,
    {
        let from_a: bool = if i == a.len() {
            false
        } else if j == b.len() {
            true
        } else {
            a[i].0 < b[j].0 || (a[i].0 == b[j].0 && a[i].1 <= b[j].1)
        };
        if from_a {
            r.push(a[i]);
            proof {
                broadcast use vstd::seq_lib::group_to_multiset_ensures;

                assert(a@.take(i + 1) =~= a@.take(i as int).push(a@[i as int]));
                assert(r@.to_multiset() =~= a@.take(i + 1).to_multiset().add(
                    b@.take(j as int).to_multiset(),
                ));
            }
            i = i + 1;
        } else {
            r.push(b[j]);
            proof {
                broadcast use vstd::seq_lib::group_to_multiset_ensures;

                assert(b@.take(j + 1) =~= b@.take(j as int).push(b@[j as int]));
                assert(r@.to_multiset() =~= a@.take(i as int).to_multiset().add(
                    b@.take(j + 1).to_multiset(),
                ));
            }
            j = j + 1;
        }
    }
    assert(a@.take(a@.len() as int) =~= a@);
    assert(b@.take(b@.len() as int) =~= b@);
    r
}

/// Sorts pairs.
pub fn sort_pairs(v: Vec<(i64, usize)>) -> (r: Vec<(i64, usize)>)
    ensures
        pairs_sorted(r@),
        r@.to_multiset() == v@.to_multiset(),
        r@.len() == v@.len(),
    decreases v@.len(),
{
    if v.len() < 2 {
        return v;
    }
    let ghost all = v@;
    let half: usize = v.len() / 2;
    let mut left = v;
    let right = left.split_off(half);
    proof {
        broadcast use vstd::seq_lib::group_to_multiset_ensures;

        vstd::seq_lib::lemma_multiset_commutative(left@, right@);
        assert(left@ + right@ =~= all);
    }
    let left = sort_pairs(left);
    let right = sort_pairs(right);
    merge(&left, &right)
}

/// Whether numbers stand in order.
pub open spec fn sorted(s: Seq<i64>) -> bool {
    forall|i: int, j: int| 0 <= i <= j < s.len() ==> #[trigger] s[i] <= #[trigger] s[j]
}

/// The place in sorted numbers before which all are at most `v`, and behind which all
/// are greater.
pub fn place_for(s: &Vec<i64>, v: i64) -> (r: usize)
    requires
        sorted(s@),
    ensures
        r <= s@.len(),
        forall|i: int| 0 <= i < r ==> s@[i] <= v,
        forall|i: int| r <= i < s@.len() ==> s@[i] > v,
{
    let mut lo: usize = 0;
    let mut hi: usize = s.len();
    while lo < hi
        invariant
            sorted(s@),
            lo <= hi <= s@.len(),
            forall|i: int| 0 <= i < lo ==> s@[i] <= v,
            forall|i: int| hi <= i < s@.len() ==> s@[i] > v,
        decreases hi - lo,
    {
        let mid: usize = lo + (hi - lo) / 2;
        if s[mid] <= v {
            lo = mid + 1;
        } else {
            hi = mid;
        }
    }
    lo
}

/// The same numbers in order.
pub open spec fn in_order(s: Seq<i64>) -> Seq<i64> {
    s.sort_by(|a: i64, b: i64| a <= b)
}

/// Numbers in order are the same numbers, and in order.
pub proof fn lemma_in_order(s: Seq<i64>)
    ensures
        sorted(in_order(s)),
        in_order(s).to_multiset() == s.to_multiset(),
        in_order(s).len() == s.len(),
{
    broadcast use vstd::seq_lib::group_to_multiset_ensures;

    let leq = |a: i64, b: i64| a <= b;
    s.lemma_sort_by_ensures(leq);
    let r = in_order(s);
    assert(r.to_multiset().len() == s.to_multiset().len());
    assert forall|i: int, j: int| 0 <= i <= j < r.len() implies #[trigger] r[i] <= #[trigger] r[j] by {
        assert(i == j || leq(r[i], r[j]));
    }
}

/// There is just one order for numbers.
pub proof fn lemma_in_order_is_unique(s: Seq<i64>, r: Seq<i64>)
    requires
        sorted(r),
        r.to_multiset() == s.to_multiset(),
    ensures
        r == in_order(s),
{
    let leq = |a: i64, b: i64| a <= b;
    s.lemma_sort_by_ensures(leq);
    vstd::seq_lib::lemma_sorted_unique(r, in_order(s), leq);
}

/// Sorts numbers.
pub fn sort(v: &Vec<i64>) -> (r: Vec<i64>)
    ensures
        r@ == in_order(v@),
        sorted(r@),
        r@.to_multiset() == v@.to_multiset(),
        r@.len() == v@.len(),
{
    let mut r: Vec<i64> = Vec::new();
    let mut i: usize = 0;
    assert(v@.take(0) =~= r@);
    while i < v.len()
        invariant
            i <= v@.len(),
            sorted(r@),
            r@.len() == i,
            r@.to_multiset() == v@.take(i as int).to_multiset(),
        decreases v@.len() - i,
    {
        let at: usize = place_for(&r, v[i]);
        let ghost before = r@;
        r.insert(at, v[i]);
        proof {
            broadcast use vstd::seq_lib::group_to_multiset_ensures;

            assert(v@.take(i + 1) =~= v@.take(i as int).push(v@[i as int]));
            assert(r@.remove(at as int) =~= before);
            assert(r@.contains(r@[at as int]));
            assert(r@.to_multiset() =~= before.to_multiset().insert(v@[i as int]));
        }
        i = i + 1;
    }
    assert(v@.take(v@.len() as int) =~= v@);
    proof {
        lemma_in_order_is_unique(v@, r@);
    }
    r
}

// ---------- floating-point numbers ----------

/// The bits of a double without its sign.
pub open spec fn magnitude(bits: u64) -> int {
    bits as int % 0x8000_0000_0000_0000
}

/// Whether the bits are those of no number.
pub open spec fn is_nan(bits: u64) -> bool {
    magnitude(bits) > 0x7ff0_0000_0000_0000
}

/// An integer that is ordered as the double with these bits is.
pub open spec fn key_of(bits: u64) -> int {
    if bits < 0x8000_0000_0000_0000 {
        magnitude(bits)
    } else {
        -magnitude(bits)
    }
}

/// An integer that is ordered as the double with these bits is, or `None` for no number.
pub fn order_key(bits: u64) -> (r: Option<i64>)
    ensures
        match r {
            Some(key) => !is_nan(bits) && key == key_of(bits),
            None => is_nan(bits),
        },
{
    if bits < 0x8000_0000_0000_0000 {
        if bits > 0x7ff0_0000_0000_0000 {
            None
        } else {
            Some(bits as i64)
        }
    } else {
        let m: u64 = bits - 0x8000_0000_0000_0000;
        if m > 0x7ff0_0000_0000_0000 {
            None
        } else {
            Some(-(m as i64))
        }
    }
}

/// Whether one double is less than another.
pub open spec fn below(a: u64, b: u64) -> bool {
    !is_nan(a) && !is_nan(b) && key_of(a) < key_of(b)
}

/// Whether two doubles are equal.
pub open spec fn level(a: u64, b: u64) -> bool {
    !is_nan(a) && !is_nan(b) && key_of(a) == key_of(b)
}

/// Whether one double is less than another.
pub fn is_below(a: u64, b: u64) -> (r: bool)
    ensures
        r == below(a, b),
{
    match (order_key(a), order_key(b)) {
        (Some(m), Some(n)) => m < n,
        _ => false,
    }
}

/// Whether two doubles are equal.
pub fn is_level(a: u64, b: u64) -> (r: bool)
    ensures
        r == level(a, b),
{
    match (order_key(a), order_key(b)) {
        (Some(m), Some(n)) => m == n,
        _ => false,
    }
}

/// The value of a double without its sign, in units of the smallest positive double. The
/// lowest 52 bits are the fraction; the bits above them are the exponent, and a fraction
/// under a non-zero exponent has one more leading bit. An infinity is taken as the first
/// power of two that is too large.
pub open spec fn units(m: int) -> int {
    let exponent = m / 0x10_0000_0000_0000;
    let fraction = m % 0x10_0000_0000_0000;
    if exponent == 0 {
        fraction
    } else {
        (0x10_0000_0000_0000 + fraction) * vstd::arithmetic::power2::pow2((exponent - 1) as nat)
    }
}

/// The value of the double with these bits, in units of the smallest positive double.
pub open spec fn value_of(bits: u64) -> int {
    if bits < 0x8000_0000_0000_0000 {
        units(magnitude(bits))
    } else {
        -units(magnitude(bits))
    }
}

proof fn lemma_units_step(m: int)
    requires
        0 <= m,
    ensures
        units(m) < units(m + 1),
        0 <= units(m),
{
    let c = 0x10_0000_0000_0000int;
    let e = m / c;
    let f = m % c;
    if e == 0 {
        if f == c - 1 {
            assert((m + 1) / c == 1 && (m + 1) % c == 0);
            vstd::arithmetic::power2::lemma2_to64();
        } else {
            assert((m + 1) / c == 0 && (m + 1) % c == f + 1);
        }
    } else {
        let p = vstd::arithmetic::power2::pow2((e - 1) as nat) as int;
        assert(p > 0) by {
            vstd::arithmetic::power2::lemma_pow2_pos((e - 1) as nat);
        }
        assert(0 <= (c + f) * p) by (nonlinear_arith)
            requires
                p > 0,
                c + f >= 0,
        ;
        if f == c - 1 {
            assert((m + 1) / c == e + 1 && (m + 1) % c == 0);
            vstd::arithmetic::power2::lemma_pow2_unfold(e as nat);
            let q = vstd::arithmetic::power2::pow2(e as nat) as int;
            assert(q == 2 * p);
            assert((c + f) * p < (c + 0) * q) by (nonlinear_arith)
                requires
                    q == 2 * p,
                    p > 0,
                    f == c - 1,
                    c > 0,
            ;
        } else {
            assert((m + 1) / c == e && (m + 1) % c == f + 1);
            assert((c + f) * p < (c + (f + 1)) * p) by (nonlinear_arith)
                requires
                    p > 0,
            ;
        }
    }
}

proof fn lemma_units_monotone(a: int, b: int)
    requires
        0 <= a <= b,
    ensures
        0 <= units(a),
        units(a) <= units(b),
        a < b ==> units(a) < units(b),
    decreases b - a,
{
    lemma_units_step(a);
    if a < b {
        lemma_units_monotone(a, b - 1);
        lemma_units_step(b - 1);
    }
}

/// The keys of two doubles compare as the doubles do.
pub proof fn law_keys_order_as_values(a: u64, b: u64)
    requires
        !is_nan(a),
        !is_nan(b),
    ensures
        key_of(a) < key_of(b) <==> value_of(a) < value_of(b),
        key_of(a) == key_of(b) <==> value_of(a) == value_of(b),
{
    let (m, n) = (magnitude(a), magnitude(b));
    lemma_units_monotone(0, m);
    lemma_units_monotone(0, n);
    if m <= n {
        lemma_units_monotone(m, n);
    } else {
        lemma_units_monotone(n, m);
    }
}

/// Doubles are ordered as their bits are where they are positive, against their bits where they
/// are negative, and the negative ones come first. The two zeros are equal.
pub proof fn law_doubles_are_ordered_by_their_bits(a: u64, b: u64)
    requires
        !is_nan(a),
        !is_nan(b),
    ensures
        a < 0x8000_0000_0000_0000 && b < 0x8000_0000_0000_0000 ==> (below(a, b) <==> a < b),
        a >= 0x8000_0000_0000_0000 && b >= 0x8000_0000_0000_0000 ==> (below(a, b) <==> a > b),
        a >= 0x8000_0000_0000_0000 && b < 0x8000_0000_0000_0000 ==> (below(a, b) <==> a
            > 0x8000_0000_0000_0000 || b > 0),
        a < 0x8000_0000_0000_0000 && b >= 0x8000_0000_0000_0000 ==> !below(a, b),
        level(a, b) <==> !below(a, b) && !below(b, a),
{
}

/// No number is below or equal to what is no number: a greater exponent than any has, and a
/// fraction.
pub proof fn law_no_number_is_not_compared(a: u64, b: u64)
    requires
        a as int % 0x8000_0000_0000_0000 > 0x7ff0_0000_0000_0000,
    ensures
        is_nan(a),
        !below(a, b),
        !below(b, a),
        !level(a, b),
{
}

/// Ordering numbers keeps each as often as it is there, from the least to the greatest.
pub proof fn law_ordering_keeps_the_numbers(s: Seq<i64>, i: int, j: int)
    requires
        0 <= i <= j < s.len(),
    ensures
        in_order(s).len() == s.len(),
        in_order(s).to_multiset() == s.to_multiset(),
        in_order(s)[i] <= in_order(s)[j],
{
    lemma_in_order(s);
}

} // verus!
