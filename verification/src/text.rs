//! Strings: the few operations of std that the library builds on, and the
//! number formats it prints.

use vstd::prelude::*;
use vstd::utf8::decode_utf8;
use vstd::utf8::valid_utf8;

verus! {

/// Appends one character.
///
/// `String::push` is claimed to leave the old text in place and put `c` behind it.
pub assume_specification[ String::push ](s: &mut String, c: char)
    ensures
        final(s)@ == old(s)@.push(c),
;

/// The error of a failed UTF-8 decoding.
#[verifier::external_type_specification]
#[verifier::external_body]
pub struct ExFromUtf8Error(std::string::FromUtf8Error);

/// Decodes UTF-8.
///
/// `String::from_utf8` is claimed to succeed exactly on well-formed UTF-8 and
/// then to give the characters that the bytes encode.
pub assume_specification[ String::from_utf8 ](bytes: Vec<u8>) -> (r: Result<
    String,
    std::string::FromUtf8Error,
>)
    ensures
        r is Ok <==> valid_utf8(bytes@),
        r matches Ok(s) ==> s@ == decode_utf8(bytes@),
;

/// The text that `String::from_utf8_lossy` makes of arbitrary bytes.
pub uninterp spec fn lossy_utf8(bytes: Seq<u8>) -> Seq<char>;

/// Decodes bytes, putting replacement characters where they are no UTF-8.
///
/// `String::from_utf8_lossy` is claimed to depend on the bytes alone, and to be
/// plain decoding where the bytes are well-formed UTF-8. Which replacement
/// characters stand for malformed bytes is left to the name.
#[verifier::external_body]
pub(crate) fn utf8_lossy(bytes: &[u8]) -> (r: String)
    ensures
        r@ == lossy_utf8(bytes@),
        valid_utf8(bytes@) ==> r@ == decode_utf8(bytes@),
{
    String::from_utf8_lossy(bytes).into_owned()
}

/// The text that bytes are read as: the characters that they encode where they are well-formed
/// UTF-8, and what is left to the name otherwise.
pub open spec fn read_as(bytes: Seq<u8>) -> Seq<char> {
    if valid_utf8(bytes) {
        decode_utf8(bytes)
    } else {
        lossy_utf8(bytes)
    }
}

/// Whether two texts hold the same characters.
pub fn same_text(a: &String, b: &str) -> (r: bool)
    ensures
        r == (a@ == b@),
{
    *a == b.to_owned()
}

/// The characters of a text.
pub fn chars_of(s: &str) -> (r: Vec<char>)
    ensures
        r@ == s@,
{
    let mut out: Vec<char> = Vec::new();
    for c in it: s.chars()
        invariant
            out@.len() == it.index(),
            it.seq() == s@,
            out@ == s@.take(it.index()),
    {
        out.push(c);
        assert(out@ =~= s@.take(it.index() + 1));
    }
    assert(s@.take(s@.len() as int) =~= s@);
    out
}

/// Appends the characters `from..to`.
pub fn push_chars(out: &mut String, chars: &Vec<char>, from: usize, to: usize)
    requires
        from <= to <= chars@.len(),
    ensures
        final(out)@ == old(out)@ + chars@.subrange(from as int, to as int),
{
    let mut i: usize = from;
    assert(chars@.subrange(from as int, from as int) =~= Seq::empty());
    assert(out@ + chars@.subrange(from as int, from as int) =~= out@);
    while i < to
        invariant
            from <= i <= to <= chars@.len(),
            out@ == old(out)@ + chars@.subrange(from as int, i as int),
        decreases to - i,
    {
        out.push(chars[i]);
        i = i + 1;
        assert(out@ =~= old(out)@ + chars@.subrange(from as int, i as int));
    }
}

/// The text that the characters `from..to` make.
pub fn text_of(chars: &Vec<char>, from: usize, to: usize) -> (r: String)
    requires
        from <= to <= chars@.len(),
    ensures
        r@ == chars@.subrange(from as int, to as int),
{
    let mut out = String::new();
    push_chars(&mut out, chars, from, to);
    assert(out@ =~= chars@.subrange(from as int, to as int));
    out
}

// ---------- white space ----------

/// Unicode's `White_Space` property.
pub open spec fn white_space(c: char) -> bool {
    let v = c as u32;
    ||| 9 <= v <= 13
    ||| v == 0x20
    ||| v == 0x85
    ||| v == 0xa0
    ||| v == 0x1680
    ||| 0x2000 <= v <= 0x200a
    ||| v == 0x2028
    ||| v == 0x2029
    ||| v == 0x202f
    ||| v == 0x205f
    ||| v == 0x3000
}

/// Whether a character is white space.
pub fn is_white_space(c: char) -> (r: bool)
    ensures
        r == white_space(c),
{
    let v: u32 = c as u32;
    (9 <= v && v <= 13) || v == 0x20 || v == 0x85 || v == 0xa0 || v == 0x1680 || (0x2000 <= v && v
        <= 0x200a) || v == 0x2028 || v == 0x2029 || v == 0x202f || v == 0x205f || v == 0x3000
}

/// A text without the white space at its two ends.
pub open spec fn trimmed(s: Seq<char>) -> Seq<char>
    decreases s.len(),
{
    if s.len() == 0 {
        s
    } else if white_space(s[0]) {
        trimmed(s.drop_first())
    } else if white_space(s.last()) {
        trimmed(s.drop_last())
    } else {
        s
    }
}

/// Where a text begins and ends without the white space at its two ends.
pub fn trim(chars: &Vec<char>, from: usize, to: usize) -> (r: (usize, usize))
    requires
        from <= to <= chars@.len(),
    ensures
        from <= r.0 <= r.1 <= to,
        chars@.subrange(r.0 as int, r.1 as int) == trimmed(chars@.subrange(from as int, to as int)),
{
    let mut a: usize = from;
    let mut b: usize = to;
    while a < b && is_white_space(chars[a])
        invariant
            from <= a <= b == to <= chars@.len(),
            trimmed(chars@.subrange(a as int, b as int)) == trimmed(
                chars@.subrange(from as int, to as int),
            ),
        decreases b - a,
    {
        assert(chars@.subrange(a as int, b as int).drop_first() =~= chars@.subrange(
            a + 1,
            b as int,
        ));
        a = a + 1;
    }
    while a < b && is_white_space(chars[b - 1])
        invariant
            from <= a <= b <= to <= chars@.len(),
            a < b ==> !white_space(chars@[a as int]),
            trimmed(chars@.subrange(a as int, b as int)) == trimmed(
                chars@.subrange(from as int, to as int),
            ),
        decreases b - a,
    {
        assert(chars@.subrange(a as int, b as int).drop_last() =~= chars@.subrange(
            a as int,
            b - 1,
        ));
        b = b - 1;
    }
    (a, b)
}

// ---------- numbers ----------

/// A digit of a base up to sixteen.
pub open spec fn digit(d: nat) -> char {
    if d < 10 {
        ('0' as u32 + d) as char
    } else {
        ('a' as u32 + d - 10) as char
    }
}

fn digit_char(d: u8) -> (r: char)
    requires
        d < 16,
    ensures
        r == digit(d as nat),
{
    if d < 10 {
        (48 + d) as char
    } else {
        (87 + d) as char
    }
}

/// A number in decimal.
pub open spec fn decimal(n: nat) -> Seq<char>
    decreases n,
{
    if n < 10 {
        seq![digit(n)]
    } else {
        decimal(n / 10).push(digit(n % 10))
    }
}

/// A number in decimal, filled up with zeros in front to at least `width` digits.
pub open spec fn padded(n: nat, width: nat) -> Seq<char> {
    zeros(missing(decimal(n).len(), width)) + decimal(n)
}

/// How much a text of `len` characters lacks to be `width` long.
pub open spec fn missing(len: nat, width: nat) -> nat {
    if len < width {
        (width - len) as nat
    } else {
        0
    }
}

/// That many zeros.
pub open spec fn zeros(n: nat) -> Seq<char> {
    Seq::new(n, |i: int| '0')
}

/// The low `n` hexadecimal digits of a number.
pub open spec fn hex(value: nat, n: nat) -> Seq<char>
    decreases n,
{
    if n == 0 {
        Seq::empty()
    } else {
        hex(value / 16, (n - 1) as nat).push(digit(value % 16))
    }
}

/// Ten to the power of `n`.
pub open spec fn pow10(n: nat) -> nat
    decreases n,
{
    if n == 0 {
        1
    } else {
        10 * pow10((n - 1) as nat)
    }
}

/// A number below `10^k` has at most `k` digits.
pub proof fn lemma_decimal_len(n: nat, k: nat)
    requires
        n < pow10(k),
        k >= 1,
    ensures
        1 <= decimal(n).len() <= k,
    decreases k,
{
    if n >= 10 {
        if k == 1 {
            reveal_with_fuel(pow10, 2);
        }
        lemma_decimal_len(n / 10, (k - 1) as nat);
    }
}

/// A 64-bit number has at most twenty digits.
pub proof fn lemma_decimal_len_u64(n: u64)
    ensures
        1 <= decimal(n as nat).len() <= 20,
{
    reveal_with_fuel(pow10, 21);
    lemma_decimal_len(n as nat, 20);
}

/// The number of decimal digits.
pub fn decimal_len(n: u64) -> (r: usize)
    ensures
        r == decimal(n as nat).len(),
    decreases n,
{
    if n < 10 {
        1
    } else {
        proof {
            lemma_decimal_len_u64(n);
        }
        1 + decimal_len(n / 10)
    }
}

/// Appends a number in decimal.
pub fn push_decimal(out: &mut String, n: u64)
    ensures
        final(out)@ == old(out)@ + decimal(n as nat),
    decreases n,
{
    if n >= 10 {
        push_decimal(out, n / 10);
    }
    out.push(digit_char((n % 10) as u8));
    assert(out@ =~= old(out)@ + decimal(n as nat));
}

/// Appends a number in decimal, filled up with zeros in front to at least `width` digits.
pub fn push_padded(out: &mut String, n: u64, width: usize)
    ensures
        final(out)@ == old(out)@ + padded(n as nat, width as nat),
{
    let len: usize = decimal_len(n);
    let fill: usize = if len < width {
        width - len
    } else {
        0
    };
    let mut i: usize = 0;
    assert(out@ + zeros(0) =~= out@);
    while i < fill
        invariant
            i <= fill,
            out@ == old(out)@ + zeros(i as nat),
        decreases fill - i,
    {
        out.push('0');
        i = i + 1;
        assert(out@ =~= old(out)@ + zeros(i as nat));
    }
    push_decimal(out, n);
    assert(out@ =~= old(out)@ + padded(n as nat, width as nat));
}

/// Appends the low `n` hexadecimal digits of a number.
pub fn push_hex(out: &mut String, value: u64, n: usize)
    ensures
        final(out)@ == old(out)@ + hex(value as nat, n as nat),
    decreases n,
{
    if n > 0 {
        push_hex(out, value / 16, n - 1);
        out.push(digit_char((value % 16) as u8));
    }
    assert(out@ =~= old(out)@ + hex(value as nat, n as nat));
}

/// Different numbers of `n` hexadecimal digits look different.
pub proof fn lemma_hex_injective(a: nat, b: nat, n: nat)
    requires
        a < pow16(n),
        b < pow16(n),
        hex(a, n) == hex(b, n),
    ensures
        a == b,
    decreases n,
{
    if n > 0 {
        let x = hex(a / 16, (n - 1) as nat);
        let y = hex(b / 16, (n - 1) as nat);
        assert(hex(a, n).drop_last() =~= x);
        assert(hex(b, n).drop_last() =~= y);
        assert(hex(a, n).last() == digit(a % 16));
        assert(hex(b, n).last() == digit(b % 16));
        lemma_digit_injective(a % 16, b % 16);
        lemma_hex_injective(a / 16, b / 16, (n - 1) as nat);
    }
}

proof fn lemma_digit_injective(a: nat, b: nat)
    requires
        a < 16,
        b < 16,
        digit(a) == digit(b),
    ensures
        a == b,
{
}

/// Sixteen to the power of `n`.
pub open spec fn pow16(n: nat) -> nat
    decreases n,
{
    if n == 0 {
        1
    } else {
        16 * pow16((n - 1) as nat)
    }
}

/// The number that decimal digits spell.
pub open spec fn number(digits: Seq<char>) -> int
    decreases digits.len(),
{
    if digits.len() == 0 {
        0
    } else {
        10 * number(digits.drop_last()) + (digits.last() as int - '0' as int)
    }
}

/// Reading a number back from its decimal digits gives the number, whatever zeros stand
/// in front.
pub proof fn law_padded_reads_back(n: nat, width: nat)
    ensures
        number(padded(n, width)) == n,
{
    lemma_zeros_read_back(missing(decimal(n).len(), width), n);
}

proof fn lemma_zeros_read_back(k: nat, n: nat)
    ensures
        number(zeros(k) + decimal(n)) == n,
    decreases n,
{
    let s = zeros(k) + decimal(n);
    if n < 10 {
        assert(s.drop_last() =~= zeros(k));
        lemma_zeros_are_zero(k);
    } else {
        assert(s.drop_last() =~= zeros(k) + decimal(n / 10));
        assert(s.last() == digit(n % 10));
        lemma_zeros_read_back(k, n / 10);
    }
}

proof fn lemma_zeros_are_zero(k: nat)
    ensures
        number(zeros(k)) == 0,
    decreases k,
{
    if k > 0 {
        assert(zeros(k).drop_last() =~= zeros((k - 1) as nat));
        lemma_zeros_are_zero((k - 1) as nat);
    }
}

// ---------- upper and lower case ----------

/// The text that `str::to_lowercase` makes of a text.
pub uninterp spec fn lower_case(s: Seq<char>) -> Seq<char>;

/// A text in lower case.
///
/// `str::to_lowercase` is claimed to depend on the characters alone; which
/// characters it maps to which is left to the name.
#[verifier::external_body]
pub(crate) fn to_lower_case(s: &str) -> (r: String)
    ensures
        r@ == lower_case(s@),
{
    s.to_lowercase()
}

/// Whether a text begins with another.
pub fn starts_with(s: &Vec<char>, head: &Vec<char>) -> (r: bool)
    ensures
        r == head@.is_prefix_of(s@),
{
    if head.len() > s.len() {
        return false;
    }
    let mut i: usize = 0;
    while i < head.len()
        invariant
            head@.len() <= s@.len(),
            i <= head@.len(),
            forall|k: int| 0 <= k < i ==> head@[k] == s@[k],
        decreases head@.len() - i,
    {
        if head[i] != s[i] {
            assert(s@.subrange(0, head@.len() as int)[i as int] != head@[i as int]);
            return false;
        }
        i = i + 1;
    }
    assert(s@.subrange(0, head@.len() as int) =~= head@);
    true
}

/// Whether a text ends with another.
pub fn ends_with(s: &Vec<char>, end: &Vec<char>) -> (r: bool)
    ensures
        r == end@.is_suffix_of(s@),
{
    if end.len() > s.len() {
        return false;
    }
    let len: usize = s.len();
    let from: usize = len - end.len();
    let mut i: usize = 0;
    while i < end.len()
        invariant
            from + end@.len() == len == s@.len(),
            i <= end@.len(),
            forall|k: int| 0 <= k < i ==> end@[k] == s@[from + k],
        decreases end@.len() - i,
    {
        if end[i] != s[from + i] {
            assert(s@.subrange(from as int, s@.len() as int)[i as int] != end@[i as int]);
            return false;
        }
        i = i + 1;
    }
    assert(s@.subrange(from as int, s@.len() as int) =~= end@);
    true
}

// ---------- fields and columns ----------

/// Where the first `c` from `i` on is, or the end.
pub open spec fn char_from(s: Seq<char>, c: char, i: int) -> int
    decreases s.len() - i,
{
    if 0 <= i < s.len() && s[i] != c {
        char_from(s, c, i + 1)
    } else {
        i
    }
}

/// Where the first `c` from `i` on is, or the end.
pub fn find_char(s: &Vec<char>, c: char, i: usize) -> (r: usize)
    requires
        i <= s@.len(),
    ensures
        r == char_from(s@, c, i as int),
        i <= r <= s@.len(),
{
    let mut r: usize = i;
    while r < s.len() && s[r] != c
        invariant
            i <= r <= s@.len(),
            char_from(s@, c, r as int) == char_from(s@, c, i as int),
        decreases s@.len() - r,
    {
        r = r + 1;
    }
    r
}

/// The characters from `from` up to `to`.
pub fn part(s: &Vec<char>, from: usize, to: usize) -> (r: Vec<char>)
    requires
        from <= to <= s@.len(),
    ensures
        r@ == s@.subrange(from as int, to as int),
{
    let mut r: Vec<char> = Vec::new();
    let mut i: usize = from;
    while i < to
        invariant
            from <= i <= to <= s@.len(),
            r@ == s@.subrange(from as int, i as int),
        decreases to - i,
    {
        r.push(s[i]);
        i = i + 1;
        assert(r@ =~= s@.subrange(from as int, i as int));
    }
    r
}

/// That many spaces.
pub open spec fn spaces(n: nat) -> Seq<char> {
    Seq::new(n, |i: int| ' ')
}

/// A text, filled up with spaces in front to at least `width` characters.
pub open spec fn right_aligned(s: Seq<char>, width: nat) -> Seq<char> {
    spaces(missing(s.len(), width)) + s
}

/// A text, filled up with spaces behind to at least `width` characters.
pub open spec fn left_aligned(s: Seq<char>, width: nat) -> Seq<char> {
    s + spaces(missing(s.len(), width))
}

fn push_spaces(out: &mut String, n: usize)
    ensures
        final(out)@ == old(out)@ + spaces(n as nat),
    decreases n,
{
    if n > 0 {
        push_spaces(out, n - 1);
        out.push(' ');
    }
    assert(out@ =~= old(out)@ + spaces(n as nat));
}

/// How much a text lacks to be `width` long.
fn lacking(s: &str, width: usize) -> (r: usize)
    ensures
        r == missing(s@.len(), width as nat),
{
    let len: usize = chars_of(s).len();
    if len < width {
        width - len
    } else {
        0
    }
}

/// Appends a text that ends `width` characters further on, at least.
pub fn push_right(out: &mut String, s: &str, width: usize)
    ensures
        final(out)@ == old(out)@ + right_aligned(s@, width as nat),
{
    push_spaces(out, lacking(s, width));
    out.append(s);
    assert(out@ =~= old(out)@ + right_aligned(s@, width as nat));
}

/// Appends a text and fills it up to `width` characters.
pub fn push_left(out: &mut String, s: &str, width: usize)
    ensures
        final(out)@ == old(out)@ + left_aligned(s@, width as nat),
{
    out.append(s);
    push_spaces(out, lacking(s, width));
    assert(out@ =~= old(out)@ + left_aligned(s@, width as nat));
}

/// Appends the decimal digits of a large number.
pub fn push_large(out: &mut String, n: u128)
    ensures
        final(out)@ == old(out)@ + decimal(n as nat),
    decreases n,
{
    if n >= 10 {
        push_large(out, n / 10);
    }
    out.push(digit_char((n % 10) as u8));
    assert(out@ =~= old(out)@ + decimal(n as nat));
}

/// The decimal digits of a number.
pub fn decimal_text(n: u64) -> (r: String)
    ensures
        r@ == decimal(n as nat),
{
    let mut r = String::new();
    push_decimal(&mut r, n);
    assert(r@ =~= decimal(n as nat));
    r
}

// ---------- what texts are ----------

/// Whether the characters from `a` to `b` are what is left of a text, all before and behind them
/// being white space.
pub open spec fn is_left(s: Seq<char>, a: int, b: int) -> bool {
    &&& 0 <= a <= b <= s.len()
    &&& trimmed(s) == s.subrange(a, b)
    &&& forall|i: int| 0 <= i < a ==> white_space(#[trigger] s[i])
    &&& forall|i: int| b <= i < s.len() ==> white_space(#[trigger] s[i])
}

/// Trimming takes white space off both ends, all of it and nothing else.
pub proof fn law_trimming_takes_white_space_off_the_ends(s: Seq<char>)
    ensures
        exists|a: int, b: int| #[trigger] is_left(s, a, b),
        trimmed(s).len() > 0 ==> !white_space(trimmed(s)[0]) && !white_space(trimmed(s).last()),
        trimmed(trimmed(s)) == trimmed(s),
    decreases s.len(),
{
    let (a, b) = lemma_left(s);
    lemma_trimmed_ends(s);
    assert(is_left(s, a, b));
}

proof fn lemma_trimmed_ends(s: Seq<char>)
    ensures
        trimmed(s).len() > 0 ==> !white_space(trimmed(s)[0]) && !white_space(trimmed(s).last()),
        trimmed(trimmed(s)) == trimmed(s),
    decreases s.len(),
{
    if s.len() > 0 {
        if white_space(s[0]) {
            lemma_trimmed_ends(s.drop_first());
        } else if white_space(s.last()) {
            lemma_trimmed_ends(s.drop_last());
        }
    }
}

#[verifier::spinoff_prover]
proof fn lemma_left(s: Seq<char>) -> (r: (int, int))
    ensures
        is_left(s, r.0, r.1),
    decreases s.len(),
{
    if s.len() == 0 {
        assert(s.subrange(0, 0) =~= s);
        (0, 0)
    } else if white_space(s[0]) {
        let t = s.drop_first();
        let (a, b) = lemma_left(t);
        lemma_left_of_rest(s, t, 1, a, b);
        (a + 1, b + 1)
    } else if white_space(s.last()) {
        let t = s.drop_last();
        let (a, b) = lemma_left(t);
        lemma_left_of_rest(s, t, 0, a, b);
        (a, b)
    } else {
        assert(s.subrange(0, s.len() as int) =~= s);
        (0, s.len() as int)
    }
}

proof fn lemma_left_of_rest(s: Seq<char>, t: Seq<char>, k: int, a: int, b: int)
    requires
        s.len() > 0,
        k == 1 && t == s.drop_first() && white_space(s[0]) || k == 0 && t == s.drop_last()
            && white_space(s.last()),
        trimmed(s) == trimmed(t),
        is_left(t, a, b),
    ensures
        is_left(s, a + k, b + k),
{
    assert(s.subrange(a + k, b + k) =~= t.subrange(a, b));
    assert forall|i: int| 0 <= i < a + k implies white_space(#[trigger] s[i]) by {
        if i >= k {
            assert(t[i - k] == s[i]);
        }
    }
    assert forall|i: int| b + k <= i < s.len() implies white_space(#[trigger] s[i]) by {
        if i - k < t.len() {
            assert(t[i - k] == s[i]);
        }
    }
}

/// Blanks, tabs and the ends of lines are white space. No other character that can be printed in
/// ASCII is.
pub proof fn law_blanks_are_white_space(c: char)
    ensures
        c == ' ' || c == '\t' || c == '\n' || c == '\r' ==> white_space(c),
        '!' <= c <= '~' ==> !white_space(c),
        '0' <= c <= '9' || 'a' <= c <= 'z' || 'A' <= c <= 'Z' ==> !white_space(c),
{
}

/// A number in decimal is made of digits, does not begin with a zero unless it is zero, and reads
/// as the number.
pub proof fn law_decimals_are_plain(n: nat)
    ensures
        decimal(n).len() > 0,
        forall|i: int| 0 <= i < decimal(n).len() ==> '0' <= #[trigger] decimal(n)[i] <= '9',
        n > 0 ==> decimal(n)[0] != '0',
        number(decimal(n)) == n,
    decreases n,
{
    law_padded_reads_back(n, 0);
    assert(padded(n, 0) =~= decimal(n));
    if n >= 10 {
        law_decimals_are_plain(n / 10);
    }
}

/// Of digits the last counts one by one, and all others ten times as much as without it.
pub proof fn law_digits_count_by_tens(digits: Seq<char>, d: nat)
    requires
        d < 10,
    ensures
        number(digits.push(('0' as u32 + d) as char)) == 10 * number(digits) + d,
        number(Seq::empty()) == 0,
{
    assert(digits.push(('0' as u32 + d) as char).drop_last() =~= digits);
}

/// A text that is brought to a width has blanks in front of it, or behind it, as many as it lacks,
/// and is left as it is where it lacks none.
pub proof fn law_aligned_texts_have_their_width(s: Seq<char>, width: nat)
    ensures
        right_aligned(s, width).len() == if s.len() < width {
            width
        } else {
            s.len()
        },
        left_aligned(s, width).len() == right_aligned(s, width).len(),
        s.is_prefix_of(left_aligned(s, width)),
        s.is_suffix_of(right_aligned(s, width)),
        forall|i: int|
            s.len() <= i < left_aligned(s, width).len() ==> #[trigger] left_aligned(s, width)[i]
                == ' ',
        forall|i: int|
            0 <= i < right_aligned(s, width).len() - s.len() ==> #[trigger] right_aligned(
                s,
                width,
            )[i] == ' ',
{
    let r = right_aligned(s, width);
    let l = left_aligned(s, width);
    assert(l.take(s.len() as int) =~= s);
    assert(r.skip(r.len() - s.len()) =~= s);
}

} // verus!
