//! Little-endian numbers.

use vstd::prelude::*;

verus! {

/// The number that bytes spell, least significant byte first.
pub open spec fn le(bytes: Seq<u8>) -> nat
    decreases bytes.len(),
{
    if bytes.len() == 0 {
        0
    } else {
        bytes[0] as nat + 256 * le(bytes.drop_first())
    }
}

/// The `n` bytes that spell `value` (its low part, where it needs more).
pub open spec fn le_bytes(value: nat, n: nat) -> Seq<u8>
    decreases n,
{
    if n == 0 {
        Seq::empty()
    } else {
        seq![(value % 256) as u8] + le_bytes(value / 256, (n - 1) as nat)
    }
}

/// The number of texts of `n` bytes.
pub open spec fn pow256(n: nat) -> nat
    decreases n,
{
    if n == 0 {
        1
    } else {
        256 * pow256((n - 1) as nat)
    }
}

/// `n` bytes spell a number below `256^n`.
pub proof fn lemma_le_bound(bytes: Seq<u8>)
    ensures
        le(bytes) < pow256(bytes.len()),
    decreases bytes.len(),
{
    if bytes.len() > 0 {
        lemma_le_bound(bytes.drop_first());
    }
}

pub proof fn lemma_pow256_values()
    ensures
        pow256(0) == 1,
        pow256(1) == 0x100,
        pow256(2) == 0x1_0000,
        pow256(3) == 0x100_0000,
        pow256(4) == 0x1_0000_0000,
        pow256(5) == 0x100_0000_0000,
        pow256(6) == 0x1_0000_0000_0000,
        pow256(7) == 0x100_0000_0000_0000,
        pow256(8) == 0x1_0000_0000_0000_0000,
{
    reveal_with_fuel(pow256, 9);
}

/// Writing a number that fits and reading it back gives the number.
pub proof fn lemma_le_round_trip(value: nat, n: nat)
    requires
        value < pow256(n),
    ensures
        le_bytes(value, n).len() == n,
        le(le_bytes(value, n)) == value,
    decreases n,
{
    if n > 0 {
        assert(value / 256 < pow256((n - 1) as nat));
        lemma_le_round_trip(value / 256, (n - 1) as nat);
        assert(le_bytes(value, n).drop_first() =~= le_bytes(value / 256, (n - 1) as nat));
    }
}

/// Reads a number of at most eight bytes.
pub fn read_le(bytes: &[u8]) -> (r: u64)
    requires
        bytes@.len() <= 8,
    ensures
        r == le(bytes@),
{
    let mut v: u64 = 0;
    let mut i: usize = bytes.len();
    assert(bytes@.subrange(i as int, bytes@.len() as int) =~= Seq::<u8>::empty());
    while i > 0
        invariant
            i <= bytes@.len() <= 8,
            v == le(bytes@.subrange(i as int, bytes@.len() as int)),
        decreases i,
    {
        let ghost tail = bytes@.subrange(i as int, bytes@.len() as int);
        let ghost longer = bytes@.subrange(i - 1, bytes@.len() as int);
        proof {
            lemma_le_bound(longer);
            lemma_pow256_values();
            assert(longer.drop_first() =~= tail);
            assert(longer[0] == bytes@[i - 1]);
            assert(pow256(longer.len()) <= pow256(8));
        }
        i = i - 1;
        v = bytes[i] as u64 + 256 * v;
    }
    assert(bytes@.subrange(0, bytes@.len() as int) =~= bytes@);
    v
}

/// Appends the eight bytes of a number.
pub fn push_le(out: &mut Vec<u8>, value: u64)
    ensures
        final(out)@ == old(out)@ + le_bytes(value as nat, 8),
{
    push_le_n(out, value, 8);
}

/// Appends the low `n` bytes of a number.
pub fn push_le_n(out: &mut Vec<u8>, value: u64, n: usize)
    ensures
        final(out)@ == old(out)@ + le_bytes(value as nat, n as nat),
{
    let mut rest: u64 = value;
    let mut left: usize = n;
    let ghost start = out@;
    while left > 0
        invariant
            left <= n,
            start + le_bytes(value as nat, n as nat) == out@ + le_bytes(rest as nat, left as nat),
        decreases left,
    {
        let b: u8 = (rest % 256) as u8;
        let ghost before = out@;
        out.push(b);
        proof {
            assert(before + le_bytes(rest as nat, left as nat) =~= out@ + le_bytes(
                (rest / 256) as nat,
                (left - 1) as nat,
            ));
        }
        rest = rest / 256;
        left = left - 1;
    }
    assert(out@ + le_bytes(rest as nat, 0) =~= out@);
}

/// The signed number whose two's complement in `pow256(n)` values is `raw`.
pub open spec fn signed(raw: nat, n: nat) -> int {
    if raw < pow256(n) / 2 {
        raw as int
    } else {
        raw - pow256(n)
    }
}

/// Reinterprets four bytes' worth of number as signed.
pub fn to_i32(raw: u32) -> (r: i32)
    ensures
        r == signed(raw as nat, 4),
{
    proof {
        lemma_pow256_values();
    }
    if raw < 0x8000_0000 {
        raw as i32
    } else {
        (raw as i64 - 0x1_0000_0000) as i32
    }
}

/// Reinterprets eight bytes' worth of number as signed.
pub fn to_i64(raw: u64) -> (r: i64)
    ensures
        r == signed(raw as nat, 8),
{
    proof {
        lemma_pow256_values();
    }
    if raw < 0x8000_0000_0000_0000 {
        raw as i64
    } else {
        (raw as i128 - 0x1_0000_0000_0000_0000) as i64
    }
}

/// Of the bytes of a number the first counts one by one, the second in 256s, and so on.
pub proof fn law_bytes_count_from_the_least(a: u8, b: u8, c: u8, d: u8, more: Seq<u8>)
    ensures
        le(seq![a]) == a,
        le(seq![a, b]) == a + 0x100 * b,
        le(seq![a, b, c, d]) == a + 0x100 * b + 0x1_0000 * c + 0x100_0000 * d,
        le(seq![a] + more) == a + 0x100 * le(more),
        le(Seq::empty()) == 0,
{
    reveal_with_fuel(le, 5);
    assert((seq![a] + more).drop_first() =~= more);
    assert(seq![a].drop_first() =~= Seq::<u8>::empty());
    assert(seq![a, b].drop_first() =~= seq![b]);
    assert(seq![b].drop_first() =~= Seq::<u8>::empty());
    assert(seq![a, b, c, d].drop_first() =~= seq![b, c, d]);
    assert(seq![b, c, d].drop_first() =~= seq![c, d]);
    assert(seq![c, d].drop_first() =~= seq![d]);
    assert(seq![d].drop_first() =~= Seq::<u8>::empty());
}

/// The numbers of four and of eight bytes whose highest bit is set are negative: they are less by
/// as many numbers as there are of these bytes.
pub proof fn law_the_highest_bit_is_the_sign(raw: nat)
    ensures
        raw < 0x8000_0000 ==> signed(raw, 4) == raw,
        0x8000_0000 <= raw < 0x1_0000_0000 ==> signed(raw, 4) == raw - 0x1_0000_0000,
        raw < 0x8000_0000_0000_0000 ==> signed(raw, 8) == raw,
        0x8000_0000_0000_0000 <= raw < 0x1_0000_0000_0000_0000 ==> signed(raw, 8) == raw
            - 0x1_0000_0000_0000_0000,
{
    lemma_pow256_values();
}

} // verus!
