//! The file that keeps the embeddings of a recording, so that they are computed once.

use crate::bytes::{
    le, le_bytes, lemma_le_round_trip, lemma_pow256_values, push_le, push_le_n, read_le,
};
use crate::text::{hex, lemma_hex_injective, pow16, push_hex};
use vstd::prelude::*;
use vstd::slice::slice_subrange;
use vstd::string::StringSliceAdditionalSpecFns;

verus! {

// ---------- contents ----------

/// Embeddings of a recording: `n` rows of `dim` numbers, a row for every `hop` seconds. The
/// numbers are given by their bits.
pub struct Embeddings {
    pub data: Vec<u32>,
    pub n: usize,
    pub dim: usize,
    pub hop: u64,
}

/// Why embeddings cannot be saved.
#[derive(Debug, Clone, Copy, PartialEq, Eq, Structural)]
pub enum CacheError {
    /// The buffer does not hold `n` rows of `dim` numbers.
    WrongSize,
}

/// What such a file begins with.
pub open spec fn magic() -> Seq<u8> {
    seq![0x56u8, 0x47, 0x47, 0x43, 0x41, 0x43, 0x48, 0x31]
}

/// Bytes in front of the numbers.
pub const HEADER: usize = 48;

/// Numbers of four bytes each, one behind the other.
pub open spec fn words(data: Seq<u32>) -> Seq<u8>
    decreases data.len(),
{
    if data.len() == 0 {
        Seq::empty()
    } else {
        words(data.drop_last()) + le_bytes(data.last() as nat, 4)
    }
}

/// What stands in front of the numbers. The key says which state of which file they are of.
pub open spec fn header(key: (u64, u64), n: usize, dim: usize, hop: u64) -> Seq<u8> {
    magic() + le_bytes(key.0 as nat, 8) + le_bytes(key.1 as nat, 8) + le_bytes(n as nat, 8)
        + le_bytes(dim as nat, 8) + le_bytes(hop as nat, 8)
}

/// The file for embeddings.
pub open spec fn encoded(key: (u64, u64), e: &Embeddings) -> Seq<u8> {
    header(key, e.n, e.dim, e.hop) + words(e.data@)
}

/// The number of eight bytes at `at`.
pub open spec fn long_at(bytes: Seq<u8>, at: int) -> nat {
    le(bytes.subrange(at, at + 8))
}

/// The number of four bytes at `at`.
pub open spec fn word_at(bytes: Seq<u8>, at: int) -> nat {
    le(bytes.subrange(at, at + 4))
}

/// Whether bytes are a file for a key: with the right beginning, the key, and as many
/// numbers as it announces.
pub open spec fn holds(bytes: Seq<u8>, key: (u64, u64)) -> bool {
    &&& bytes.len() >= HEADER
    &&& bytes.take(8) == magic()
    &&& long_at(bytes, 8) == key.0
    &&& long_at(bytes, 16) == key.1
    &&& long_at(bytes, 24) <= usize::MAX
    &&& long_at(bytes, 32) <= usize::MAX
    &&& bytes.len() == HEADER + long_at(bytes, 24) * long_at(bytes, 32) * 4
}

/// Whether embeddings are those of a file.
pub open spec fn decodes(bytes: Seq<u8>, e: &Embeddings) -> bool {
    &&& e.n == long_at(bytes, 24)
    &&& e.dim == long_at(bytes, 32)
    &&& e.hop == long_at(bytes, 40)
    &&& e.data@.len() == e.n * e.dim
    &&& forall|i: int| 0 <= i < e.data@.len() ==> #[trigger] e.data@[i] == word_at(bytes, HEADER + 4 * i)
}

/// Whether there is room for `n` rows of `dim` numbers in `len` places, exactly.
fn is_product(n: usize, dim: usize, len: usize) -> (r: bool)
    ensures
        r == (n * dim == len),
{
    proof {
        assert(n * dim <= 0xffff_ffff_ffff_ffff * 0xffff_ffff_ffff_ffff) by (nonlinear_arith)
            requires
                0 <= n <= 0xffff_ffff_ffff_ffff,
                0 <= dim <= 0xffff_ffff_ffff_ffff,
        ;
    }
    n as u128 * dim as u128 == len as u128
}

/// The bytes of the file for embeddings.
pub fn save(key: (u64, u64), e: &Embeddings) -> (r: Result<Vec<u8>, CacheError>)
    ensures
        match r {
            Ok(bytes) => e.data@.len() == e.n * e.dim && bytes@ == encoded(key, e),
            Err(error) => e.data@.len() != e.n * e.dim && error == CacheError::WrongSize,
        },
{
    if !is_product(e.n, e.dim, e.data.len()) {
        return Err(CacheError::WrongSize);
    }
    let mut out: Vec<u8> = vec![0x56, 0x47, 0x47, 0x43, 0x41, 0x43, 0x48, 0x31];
    push_le(&mut out, key.0);
    push_le(&mut out, key.1);
    push_le(&mut out, e.n as u64);
    push_le(&mut out, e.dim as u64);
    push_le(&mut out, e.hop);
    assert(out@ == header(key, e.n, e.dim, e.hop));
    let mut i: usize = 0;
    assert(e.data@.take(0) =~= Seq::empty());
    while i < e.data.len()
        invariant
            i <= e.data@.len(),
            out@ == header(key, e.n, e.dim, e.hop) + words(e.data@.take(i as int)),
        decreases e.data@.len() - i,
    {
        push_le_n(&mut out, e.data[i] as u64, 4);
        proof {
            let next = e.data@.take(i + 1);
            assert(next.drop_last() =~= e.data@.take(i as int));
            assert(out@ =~= header(key, e.n, e.dim, e.hop) + words(next));
        }
        i = i + 1;
    }
    assert(e.data@.take(e.data@.len() as int) =~= e.data@);
    Ok(out)
}

fn read_long(bytes: &[u8], at: usize) -> (r: u64)
    requires
        at + 8 <= bytes@.len(),
    ensures
        r == long_at(bytes@, at as int),
{
    let len: usize = bytes.len();
    assert(at + 8 <= len);
    read_le(slice_subrange(bytes, at, at + 8))
}

fn has_magic(bytes: &[u8]) -> (r: bool)
    requires
        bytes@.len() >= 8,
    ensures
        r == (bytes@.take(8) == magic()),
{
    let r: bool = bytes[0] == 0x56 && bytes[1] == 0x47 && bytes[2] == 0x47 && bytes[3] == 0x43
        && bytes[4] == 0x41 && bytes[5] == 0x43 && bytes[6] == 0x48 && bytes[7] == 0x31;
    proof {
        let head = bytes@.take(8);
        if r {
            assert(head =~= magic());
        } else {
            assert(forall|i: int| 0 <= i < 8 ==> head[i] == bytes@[i]);
        }
    }
    r
}

/// The embeddings that a file holds, if it is one for the key.
pub fn load(bytes: &[u8], key: (u64, u64)) -> (r: Option<Embeddings>)
    ensures
        match r {
            Some(e) => holds(bytes@, key) && decodes(bytes@, &e),
            None => !holds(bytes@, key),
        },
{
    let len: usize = bytes.len();
    if len < HEADER || !has_magic(bytes) {
        return None;
    }
    if read_long(bytes, 8) != key.0 || read_long(bytes, 16) != key.1 {
        return None;
    }
    let n: u64 = read_long(bytes, 24);
    let dim: u64 = read_long(bytes, 32);
    let hop: u64 = read_long(bytes, 40);
    if n > usize::MAX as u64 || dim > usize::MAX as u64 {
        return None;
    }
    let rest: usize = len - HEADER;
    if rest % 4 != 0 || !is_product(n as usize, dim as usize, rest / 4) {
        assert(!holds(bytes@, key));
        return None;
    }
    let mut data: Vec<u32> = Vec::new();
    let mut at: usize = HEADER;
    while at < len
        invariant
            len == bytes@.len(),
            rest == len - HEADER,
            rest % 4 == 0,
            HEADER <= at <= len,
            at == HEADER + 4 * data@.len(),
            forall|i: int|
                0 <= i < data@.len() ==> #[trigger] data@[i] == word_at(bytes@, HEADER + 4 * i),
        decreases len - at,
    {
        let raw: u64 = read_le(slice_subrange(bytes, at, at + 4));
        proof {
            crate::bytes::lemma_le_bound(bytes@.subrange(at as int, at + 4));
            lemma_pow256_values();
        }
        data.push(raw as u32);
        at = at + 4;
    }
    Some(Embeddings { data, n: n as usize, dim: dim as usize, hop })
}

/// Whether the file at a place was read, and is one for the key.
pub open spec fn hit(content: Option<Vec<u8>>, key: (u64, u64)) -> bool {
    content matches Some(bytes) && holds(bytes@, key)
}

/// The embeddings of the first of the files that is one for the key.
pub fn load_for(contents: &Vec<Option<Vec<u8>>>, key: (u64, u64)) -> (r: Option<Embeddings>)
    ensures
        match r {
            Some(e) => exists|i: int|
                0 <= i < contents@.len() && hit(#[trigger] contents@[i], key) && decodes(
                    contents@[i]->0@,
                    &e,
                ) && forall|j: int| 0 <= j < i ==> !hit(#[trigger] contents@[j], key),
            None => forall|i: int| 0 <= i < contents@.len() ==> !hit(#[trigger] contents@[i], key),
        },
{
    let mut i: usize = 0;
    while i < contents.len()
        invariant
            i <= contents@.len(),
            forall|j: int| 0 <= j < i ==> !hit(#[trigger] contents@[j], key),
        decreases contents@.len() - i,
    {
        if let Some(bytes) = &contents[i] {
            if let Some(e) = load(bytes, key) {
                assert(hit(contents@[i as int], key));
                return Some(e);
            }
        }
        i = i + 1;
    }
    None
}

/// What to do about saving.
#[derive(Debug, Clone, Copy, PartialEq, Eq, Structural)]
pub enum SaveStep {
    /// Write the file to the place of this number.
    Try(usize),
    /// All places have failed.
    Failed,
    /// There is no place.
    NoPlace,
}

/// What to do about saving to one of some places, the first of which have failed.
pub fn save_step(places: usize, failed: usize) -> (r: SaveStep)
    ensures
        r == if failed < places {
            SaveStep::Try(failed)
        } else if places == 0 {
            SaveStep::NoPlace
        } else {
            SaveStep::Failed
        },
{
    if failed < places {
        SaveStep::Try(failed)
    } else if places == 0 {
        SaveStep::NoPlace
    } else {
        SaveStep::Failed
    }
}

// ---------- laws of the contents ----------

proof fn lemma_words_len(data: Seq<u32>)
    ensures
        words(data).len() == 4 * data.len(),
    decreases data.len(),
{
    if data.len() > 0 {
        lemma_words_len(data.drop_last());
        lemma_pow256_values();
        lemma_le_round_trip(data.last() as nat, 4);
    }
}

proof fn lemma_word_reads_back(data: Seq<u32>, i: int)
    requires
        0 <= i < data.len(),
    ensures
        word_at(words(data), 4 * i) == data[i],
    decreases data.len(),
{
    let init = data.drop_last();
    lemma_words_len(data);
    lemma_words_len(init);
    lemma_pow256_values();
    lemma_le_round_trip(data.last() as nat, 4);
    if i == data.len() - 1 {
        assert(words(data).subrange(4 * i, 4 * i + 4) =~= le_bytes(data.last() as nat, 4));
    } else {
        lemma_word_reads_back(init, i);
        assert(words(data).subrange(4 * i, 4 * i + 4) =~= words(init).subrange(4 * i, 4 * i + 4));
    }
}

proof fn lemma_header(key: (u64, u64), n: usize, dim: usize, hop: u64)
    ensures
        ({
            let h = header(key, n, dim, hop);
            &&& h.len() == HEADER
            &&& h.take(8) == magic()
            &&& long_at(h, 8) == key.0
            &&& long_at(h, 16) == key.1
            &&& long_at(h, 24) == n
            &&& long_at(h, 32) == dim
            &&& long_at(h, 40) == hop
        }),
{
    lemma_pow256_values();
    lemma_le_round_trip(key.0 as nat, 8);
    lemma_le_round_trip(key.1 as nat, 8);
    lemma_le_round_trip(n as nat, 8);
    lemma_le_round_trip(dim as nat, 8);
    lemma_le_round_trip(hop as nat, 8);
    let h = header(key, n, dim, hop);
    assert(h.take(8) =~= magic());
    assert(h.subrange(8, 16) =~= le_bytes(key.0 as nat, 8));
    assert(h.subrange(16, 24) =~= le_bytes(key.1 as nat, 8));
    assert(h.subrange(24, 32) =~= le_bytes(n as nat, 8));
    assert(h.subrange(32, 40) =~= le_bytes(dim as nat, 8));
    assert(h.subrange(40, 48) =~= le_bytes(hop as nat, 8));
}

/// The header of a file is that of the embeddings.
proof fn lemma_encoded_header(key: (u64, u64), e: &Embeddings)
    ensures
        ({
            let b = encoded(key, e);
            &&& b.len() == HEADER + 4 * e.data@.len()
            &&& b.take(8) == magic()
            &&& long_at(b, 8) == key.0
            &&& long_at(b, 16) == key.1
            &&& long_at(b, 24) == e.n
            &&& long_at(b, 32) == e.dim
            &&& long_at(b, 40) == e.hop
        }),
{
    let b = encoded(key, e);
    let h = header(key, e.n, e.dim, e.hop);
    lemma_header(key, e.n, e.dim, e.hop);
    lemma_words_len(e.data@);
    assert(b.take(8) =~= h.take(8));
    assert(b.subrange(8, 16) =~= h.subrange(8, 16));
    assert(b.subrange(16, 24) =~= h.subrange(16, 24));
    assert(b.subrange(24, 32) =~= h.subrange(24, 32));
    assert(b.subrange(32, 40) =~= h.subrange(32, 40));
    assert(b.subrange(40, 48) =~= h.subrange(40, 48));
}

/// What is saved for a key is loaded for it, and gives the same embeddings.
pub proof fn law_what_is_saved_is_loaded(key: (u64, u64), e: Embeddings, r: Embeddings)
    requires
        e.data@.len() == e.n * e.dim,
    ensures
        holds(encoded(key, &e), key),
        decodes(encoded(key, &e), &r) ==> r.data@ == e.data@ && r.n == e.n && r.dim == e.dim
            && r.hop == e.hop,
{
    let b = encoded(key, &e);
    lemma_encoded_header(key, &e);
    if decodes(b, &r) {
        lemma_words_len(e.data@);
        let h = header(key, e.n, e.dim, e.hop);
        lemma_header(key, e.n, e.dim, e.hop);
        assert forall|i: int| 0 <= i < e.data@.len() implies r.data@[i] == e.data@[i] by {
            lemma_word_reads_back(e.data@, i);
            assert(b.subrange(HEADER + 4 * i, HEADER + 4 * i + 4) =~= words(e.data@).subrange(
                4 * i,
                4 * i + 4,
            ));
        }
        assert(r.data@ =~= e.data@);
    }
}

/// What is saved for one key is not loaded for another: not when the recording has changed,
/// and not when it has another length.
pub proof fn law_another_key_misses(key: (u64, u64), other: (u64, u64), e: Embeddings)
    requires
        key != other,
    ensures
        !holds(encoded(key, &e), other),
{
    lemma_encoded_header(key, &e);
}

/// A file of which the end is missing is not loaded.
pub proof fn law_a_cut_off_file_misses(key: (u64, u64), e: Embeddings, m: int)
    requires
        e.data@.len() == e.n * e.dim,
        0 <= m < encoded(key, &e).len(),
    ensures
        !holds(encoded(key, &e).take(m), key),
{
    let b = encoded(key, &e);
    let cut = b.take(m);
    lemma_encoded_header(key, &e);
    if m >= HEADER {
        assert(cut.subrange(24, 32) =~= b.subrange(24, 32));
        assert(cut.subrange(32, 40) =~= b.subrange(32, 40));
    }
}

// ---------- places ----------

/// The start of the hash.
pub const FNV_BASIS: u64 = 0xcbf2_9ce4_8422_2325;

/// The factor of the hash.
pub const FNV_PRIME: u64 = 0x100_0000_01b3;

/// One step of the hash.
pub open spec fn fnv_step(h: u64, b: u8) -> u64 {
    ((h ^ (b as u64)) * FNV_PRIME % 0x1_0000_0000_0000_0000) as u64
}

/// The FNV-1a hash of bytes.
pub open spec fn fnv1a(bytes: Seq<u8>) -> u64
    decreases bytes.len(),
{
    if bytes.len() == 0 {
        FNV_BASIS
    } else {
        fnv_step(fnv1a(bytes.drop_last()), bytes.last())
    }
}

/// The FNV-1a hash of bytes.
pub fn hash(bytes: &[u8]) -> (r: u64)
    ensures
        r == fnv1a(bytes@),
{
    let mut h: u64 = FNV_BASIS;
    let mut i: usize = 0;
    assert(bytes@.take(0) =~= Seq::empty());
    while i < bytes.len()
        invariant
            i <= bytes@.len(),
            h == fnv1a(bytes@.take(i as int)),
        decreases bytes@.len() - i,
    {
        proof {
            assert(bytes@.take(i + 1).drop_last() =~= bytes@.take(i as int));
        }
        let x: u64 = h ^ (bytes[i] as u64);
        let product: u128 = x as u128 * FNV_PRIME as u128;
        h = (product % 0x1_0000_0000_0000_0000) as u64;
        i = i + 1;
    }
    assert(bytes@.take(bytes@.len() as int) =~= bytes@);
    h
}

/// The name of the file for the recording at a path.
pub open spec fn name_for(path: Seq<u8>) -> Seq<char> {
    "vggish_cache_"@ + hex(fnv1a(path) as nat, 16) + ".bin"@
}

/// The name of the file for the recording at a path.
pub fn file_name_for(path: &str) -> (r: String)
    ensures
        r@ == name_for(path.spec_bytes()),
{
    let mut r: String = "vggish_cache_".to_owned();
    push_hex(&mut r, hash(path.as_bytes()), 16);
    r.append(".bin");
    r
}

/// The characters of texts.
pub open spec fn texts(s: Seq<String>) -> Seq<Seq<char>> {
    s.map_values(|t: String| t@)
}

/// The folder for data of a user, as the folders that lead there.
pub open spec fn user_folder(local: Option<String>, home: Option<String>) -> Option<Seq<Seq<char>>> {
    match (local, home) {
        (Some(base), _) => Some(seq![base@, "radio-track-splitter"@]),
        (None, Some(base)) => Some(seq![base@, ".cache"@, "radio-track-splitter"@]),
        (None, None) => None,
    }
}

/// The places for the file of a recording, best first: beside the program, then in the
/// folder for data of the user. Each is given as the folders that lead there and the name.
pub open spec fn places(
    path: Seq<u8>,
    beside: Option<String>,
    local: Option<String>,
    home: Option<String>,
) -> Seq<Seq<Seq<char>>> {
    let first = match beside {
        Some(folder) => seq![seq![folder@, name_for(path)]],
        None => Seq::empty(),
    };
    match user_folder(local, home) {
        Some(folders) => first.push(folders.push(name_for(path))),
        None => first,
    }
}

/// The places for the file of the recording at a path, where `beside` is the folder of the
/// program, `local` that for local data and `home` that of the user.
pub fn locations(
    path: &str,
    beside: Option<String>,
    local: Option<String>,
    home: Option<String>,
) -> (r: Vec<Vec<String>>)
    ensures
        r@.map_values(|p: Vec<String>| texts(p@)) == places(path.spec_bytes(), beside, local, home),
{
    let mut r: Vec<Vec<String>> = Vec::new();
    let ghost wanted = places(path.spec_bytes(), beside, local, home);
    let ghost name = name_for(path.spec_bytes());
    if let Some(folder) = beside {
        let mut parts: Vec<String> = Vec::new();
        parts.push(folder);
        parts.push(file_name_for(path));
        assert(texts(parts@) =~= seq![folder@, name]);
        r.push(parts);
    }
    let mut parts: Vec<String> = Vec::new();
    match (local, home) {
        (Some(base), _) => {
            parts.push(base);
        },
        (None, Some(base)) => {
            parts.push(base);
            parts.push(".cache".to_owned());
        },
        (None, None) => {
            assert(r@.map_values(|p: Vec<String>| texts(p@)) =~= wanted);
            return r;
        },
    }
    parts.push("radio-track-splitter".to_owned());
    parts.push(file_name_for(path));
    proof {
        let folders = user_folder(local, home)->0;
        assert(texts(parts@) =~= folders.push(name));
    }
    r.push(parts);
    assert(r@.map_values(|p: Vec<String>| texts(p@)) =~= wanted);
    r
}

// ---------- laws of the places ----------

/// Two recordings have the same file name exactly when the hashes of their paths agree.
pub proof fn law_names_agree_as_hashes_do(a: Seq<u8>, b: Seq<u8>)
    ensures
        name_for(a) == name_for(b) <==> fnv1a(a) == fnv1a(b),
{
    if name_for(a) == name_for(b) {
        let (x, y) = (hex(fnv1a(a) as nat, 16), hex(fnv1a(b) as nat, 16));
        let k = "vggish_cache_"@.len() as int;
        lemma_hex_len(fnv1a(a) as nat, 16);
        lemma_hex_len(fnv1a(b) as nat, 16);
        assert(name_for(a).subrange(k, k + 16) =~= x);
        assert(name_for(b).subrange(k, k + 16) =~= y);
        reveal_with_fuel(pow16, 17);
        lemma_hex_injective(fnv1a(a) as nat, fnv1a(b) as nat, 16);
    }
}

proof fn lemma_hex_len(value: nat, n: nat)
    ensures
        hex(value, n).len() == n,
    decreases n,
{
    if n > 0 {
        lemma_hex_len(value / 16, (n - 1) as nat);
    }
}

/// The factor can be undone: multiplying by its inverse gives the number back.
proof fn lemma_factor_is_undone(x: u64, y: u64)
    requires
        x * FNV_PRIME % 0x1_0000_0000_0000_0000 == y * FNV_PRIME % 0x1_0000_0000_0000_0000,
    ensures
        x == y,
{
    let m = 0x1_0000_0000_0000_0000int;
    let inverse = 0xce96_5057_aff6_957bint;
    let p = FNV_PRIME as int;
    assert(p * inverse % m == 1);
    lemma_undone(x as int, p, inverse, m);
    lemma_undone(y as int, p, inverse, m);
}

proof fn lemma_undone(x: int, p: int, inverse: int, m: int)
    requires
        0 <= x < m,
        m > 1,
        p * inverse % m == 1,
    ensures
        (x * p % m) * inverse % m == x,
{
    vstd::arithmetic::div_mod::lemma_mul_mod_noop_left(x * p, inverse, m);
    assert((x * p) * inverse == x * (p * inverse)) by (nonlinear_arith);
    vstd::arithmetic::div_mod::lemma_mul_mod_noop_right(x, p * inverse, m);
    assert(x * 1 == x);
    vstd::arithmetic::div_mod::lemma_small_mod(x as nat, m as nat);
}

proof fn lemma_step_distinguishes(g: u64, h: u64, b: u8, c: u8)
    requires
        (g != h && b == c) || (g == h && b != c),
    ensures
        fnv_step(g, b) != fnv_step(h, c),
{
    let (wb, wc) = (b as u64, c as u64);
    if fnv_step(g, b) == fnv_step(h, c) {
        lemma_factor_is_undone(g ^ wb, h ^ wc);
        assert(g ^ wb == h ^ wc && wb == wc ==> g == h) by (bit_vector);
        assert(g ^ wb == h ^ wc && g == h ==> wb == wc) by (bit_vector);
    }
}

proof fn lemma_one_change_shows(a: Seq<u8>, b: Seq<u8>, i: int)
    requires
        a.len() == b.len(),
        0 <= i < a.len(),
        a[i] != b[i],
        forall|j: int| 0 <= j < a.len() && j != i ==> a[j] == b[j],
    ensures
        fnv1a(a) != fnv1a(b),
    decreases a.len(),
{
    let (s, t) = (a.drop_last(), b.drop_last());
    if i == a.len() - 1 {
        assert(s =~= t);
    } else {
        lemma_one_change_shows(s, t, i);
    }
    lemma_step_distinguishes(fnv1a(s), fnv1a(t), a.last(), b.last());
}

/// Recordings whose paths differ in one byte have files of their own.
pub proof fn law_paths_that_differ_in_one_byte_have_their_own_files(
    a: Seq<u8>,
    b: Seq<u8>,
    i: int,
)
    requires
        a.len() == b.len(),
        0 <= i < a.len(),
        a[i] != b[i],
        forall|j: int| 0 <= j < a.len() && j != i ==> a[j] == b[j],
    ensures
        name_for(a) != name_for(b),
{
    lemma_one_change_shows(a, b, i);
    law_names_agree_as_hashes_do(a, b);
}

/// A file begins with eight bytes that say what it is, then come the two numbers of the key, the
/// number of rows, the numbers in a row and the time between rows, with eight bytes each, and then
/// the numbers, with four bytes each, the least significant byte of each first.
pub proof fn law_files_have_a_fixed_layout(key: (u64, u64), e: Embeddings, i: int)
    requires
        0 <= i < e.data@.len(),
    ensures
        ({
            let b = encoded(key, &e);
            &&& b.len() == 48 + 4 * e.data@.len()
            &&& b.take(8) == seq![0x56u8, 0x47, 0x47, 0x43, 0x41, 0x43, 0x48, 0x31]
            &&& le(b.subrange(8, 16)) == key.0
            &&& le(b.subrange(16, 24)) == key.1
            &&& le(b.subrange(24, 32)) == e.n
            &&& le(b.subrange(32, 40)) == e.dim
            &&& le(b.subrange(40, 48)) == e.hop
            &&& le(b.subrange(48 + 4 * i, 52 + 4 * i)) == e.data@[i]
        }),
{
    let b = encoded(key, &e);
    lemma_encoded_header(key, &e);
    lemma_words_len(e.data@);
    lemma_header(key, e.n, e.dim, e.hop);
    lemma_word_reads_back(e.data@, i);
    assert(b.subrange(48 + 4 * i, 52 + 4 * i) =~= words(e.data@).subrange(4 * i, 4 * i + 4));
}

/// A file is one for a key exactly where it begins with the eight bytes and the key, and is as
/// long as the numbers that it announces.
pub proof fn law_files_are_checked(bytes: Seq<u8>, key: (u64, u64))
    ensures
        holds(bytes, key) ==> {
            &&& bytes.len() >= 48
            &&& bytes.take(8) == seq![0x56u8, 0x47, 0x47, 0x43, 0x41, 0x43, 0x48, 0x31]
            &&& le(bytes.subrange(8, 16)) == key.0
            &&& le(bytes.subrange(16, 24)) == key.1
            &&& bytes.len() == 48 + le(bytes.subrange(24, 32)) * le(bytes.subrange(32, 40)) * 4
        },
{
}

/// The hash begins with a fixed number. Each byte changes its lowest bits, and then all of it is
/// multiplied by a fixed factor.
pub proof fn law_the_hash_goes_byte_by_byte(bytes: Seq<u8>, b: u8)
    ensures
        fnv1a(Seq::empty()) == 0xcbf2_9ce4_8422_2325,
        fnv1a(bytes.push(b)) == (fnv1a(bytes) ^ (b as u64)) * 0x100_0000_01b3
            % 0x1_0000_0000_0000_0000,
{
    assert(bytes.push(b).drop_last() =~= bytes);
}

/// The file for a recording is beside the program, or in the folder for data of the user, in that
/// order, as far as these are known, and has the same name in both.
pub proof fn law_files_are_looked_for_beside_the_program_first(
    path: Seq<u8>,
    beside: Option<String>,
    local: Option<String>,
    home: Option<String>,
)
    ensures
        ({
            let all = places(path, beside, local, home);
            let k: int = if beside is Some {
                1
            } else {
                0
            };
            &&& all.len() == if local is Some || home is Some {
                k + 1
            } else {
                k
            }
            &&& forall|i: int| 0 <= i < all.len() ==> (#[trigger] all[i]).last() == name_for(path)
            &&& beside matches Some(folder) ==> all[0] == seq![folder@, name_for(path)]
            &&& local matches Some(base) ==> all[k] == seq![
                base@,
                "radio-track-splitter"@,
                name_for(path),
            ]
            &&& local is None ==> (home matches Some(base) ==> all[k] == seq![
                base@,
                ".cache"@,
                "radio-track-splitter"@,
                name_for(path),
            ])
        }),
        "vggish_cache_"@.is_prefix_of(name_for(path)),
        name_for(path).skip(name_for(path).len() - 4) == ".bin"@,
        name_for(path).len() == "vggish_cache_"@.len() + 20,
{
    let name = name_for(path);
    lemma_hex_len(fnv1a(path) as nat, 16);
    reveal_strlit(".bin");
    assert(name.skip(name.len() - 4) =~= ".bin"@);
    let all = places(path, beside, local, home);
    match (local, home) {
        (Some(base), _) => {
            assert(all.last() =~= seq![base@, "radio-track-splitter"@, name]);
        },
        (None, Some(base)) => {
            assert(all.last() =~= seq![base@, ".cache"@, "radio-track-splitter"@, name]);
        },
        _ => {},
    }
}

} // verus!
