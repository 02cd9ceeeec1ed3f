//! Recordings and the tracks that are cut out of them. Times are whole nanoseconds.

use vstd::prelude::*;
use vstd::utf8::decode_utf8;
use vstd::utf8::encode_scalar;
use vstd::utf8::encode_utf8;
use vstd::utf8::valid_utf8;

use crate::paths::body_start;
use crate::paths::extension;
use crate::paths::extension_of;
use crate::paths::file_stem;
use crate::paths::is_plain;
use crate::paths::is_verbatim;
use crate::paths::law_a_name_without_a_dot_has_no_extension;
use crate::paths::law_a_name_without_folders;
use crate::paths::law_folders_do_not_change_the_name;
use crate::paths::law_the_last_dot_parts_a_name;
use crate::paths::name_in;
use crate::paths::splits;
use crate::paths::stem_of;
use crate::text::chars_of;
use crate::text::decimal;
use crate::text::decimal_len;
use crate::text::ends_with;
use crate::text::law_padded_reads_back;
use crate::text::lower_case;
use crate::text::number;
use crate::text::padded;
use crate::text::part;
use crate::text::push_padded;
use crate::text::read_as;
use crate::text::starts_with;
use crate::text::text_of;
use crate::text::to_lower_case;
use crate::text::trim;
use crate::text::trimmed;
use crate::text::utf8_lossy;
use crate::times::field_time;
use crate::times::read_field;

verus! {

// ---------- decoded audio ----------

/// What a wav file holds.
pub struct Wav {
    pub channels: u16,
    pub bits: u16,
    /// Whether the samples are integers.
    pub integer: bool,
    /// The samples, the channels in turn, if all of them can be read as 16-bit numbers.
    pub samples: Option<Vec<i16>>,
}

/// What a `Wav` stands for.
pub struct WavView {
    pub channels: u16,
    pub bits: u16,
    pub integer: bool,
    pub samples: Option<Seq<i16>>,
}

impl View for Wav {
    type V = WavView;

    open spec fn view(&self) -> WavView {
        WavView {
            channels: self.channels,
            bits: self.bits,
            integer: self.integer,
            samples: match self.samples {
                Some(s) => Some(s@),
                None => None,
            },
        }
    }
}

/// What hound's `WavReader` makes of the bytes of a file.
pub uninterp spec fn wav_contents(bytes: Seq<u8>) -> Option<WavView>;

/// Decodes a wav file.
///
/// `hound::WavReader` (`new`, `spec` and the iterator of `samples::<i16>`) is claimed to
/// depend on the bytes alone, and never to open a file of zero channels. The wav
/// format itself is left to the name.
#[verifier::external_body]
fn decode_wav(bytes: &[u8]) -> (r: Option<Wav>)
    ensures
        match r {
            Some(wav) => wav_contents(bytes@) == Some(wav@) && wav.channels >= 1,
            None => wav_contents(bytes@) is None,
        },
{
    let mut reader = hound::WavReader::new(bytes).ok()?;
    let spec = reader.spec();
    let samples = reader.samples::<i16>().collect::<Result<Vec<i16>, hound::Error>>().ok();
    Some(
        Wav {
            channels: spec.channels,
            bits: spec.bits_per_sample,
            integer: matches!(spec.sample_format, hound::SampleFormat::Int),
            samples,
        },
    )
}

/// Why a wav file could not be read.
#[derive(Clone, Copy, Debug, PartialEq, Eq, Structural)]
pub enum WavError {
    /// The file is no wav file.
    CouldNotOpen,
    /// The samples are not 16-bit integers.
    NotPcm16,
    /// A sample could not be read.
    BadSample,
}

/// Division that rounds towards zero.
pub open spec fn toward_zero(a: int, b: int) -> int {
    if a >= 0 {
        a / b
    } else {
        -((-a) / b)
    }
}

/// The sum of the first `n` samples from `from` on.
pub open spec fn sum_of(samples: Seq<i16>, from: int, n: nat) -> int
    decreases n,
{
    if n == 0 {
        0
    } else {
        sum_of(samples, from, (n - 1) as nat) + samples[from + n - 1]
    }
}

/// One channel that is the mean of all, rounded towards zero. Samples behind the last
/// complete frame are left out.
pub open spec fn mixed(samples: Seq<i16>, channels: int) -> Seq<i16> {
    Seq::new(
        (samples.len() / channels as nat) as nat,
        |i: int| toward_zero(sum_of(samples, i * channels, channels as nat), channels) as i16,
    )
}

proof fn lemma_sum_bound(samples: Seq<i16>, from: int, n: nat)
    ensures
        -32768 * n <= sum_of(samples, from, n) <= 32767 * n,
    decreases n,
{
    if n > 0 {
        lemma_sum_bound(samples, from, (n - 1) as nat);
    }
}

/// A recording of one channel is left as it is.
pub proof fn law_one_channel_is_left_as_it_is(samples: Seq<i16>)
    ensures
        mixed(samples, 1) == samples,
{
    assert(samples.len() / 1nat == samples.len());
    assert(mixed(samples, 1).len() == samples.len());
    assert forall|i: int| 0 <= i < samples.len() implies mixed(samples, 1)[i] == samples[i] by {
        assert(i * 1 == i);
        reveal_with_fuel(sum_of, 2);
        assert(sum_of(samples, i, 1) == samples[i]);
        assert(toward_zero(samples[i] as int, 1) == samples[i]);
    }
    assert(mixed(samples, 1) =~= samples);
}

proof fn lemma_sum_between(samples: Seq<i16>, from: int, n: nat, lo: int, hi: int)
    requires
        forall|k: int| from <= k < from + n ==> lo <= #[trigger] samples[k] && samples[k] <= hi,
    ensures
        lo * n <= sum_of(samples, from, n) <= hi * n,
    decreases n,
{
    if n == 0 {
        assert(lo * 0 == 0 && hi * 0 == 0);
    } else {
        let m = (n - 1) as nat;
        lemma_sum_between(samples, from, m, lo, hi);
        assert(lo * n == lo * m + lo) by (nonlinear_arith)
            requires
                n == m + 1,
        ;
        assert(hi * n == hi * m + hi) by (nonlinear_arith)
            requires
                n == m + 1,
        ;
        assert(lo <= samples[from + n - 1] <= hi);
    }
}

/// A mixed sample lies between the samples that it is made of.
pub proof fn law_mixing_stays_between_the_channels(
    samples: Seq<i16>,
    channels: int,
    i: int,
    lo: i16,
    hi: i16,
)
    requires
        channels > 0,
        0 <= i < mixed(samples, channels).len(),
        forall|k: int|
            i * channels <= k < i * channels + channels ==> lo <= #[trigger] samples[k]
                && samples[k] <= hi,
    ensures
        lo <= mixed(samples, channels)[i] <= hi,
{
    let sum = sum_of(samples, i * channels, channels as nat);
    lemma_sum_between(samples, i * channels, channels as nat, lo as int, hi as int);
    let (l, h) = (lo as int, hi as int);
    if sum >= 0 {
        assert(l <= sum / channels <= h) by (nonlinear_arith)
            requires
                l * channels <= sum <= h * channels,
                channels > 0,
        ;
    } else {
        assert(l <= -((-sum) / channels) <= h) by (nonlinear_arith)
            requires
                l * channels <= sum <= h * channels,
                channels > 0,
                sum < 0,
                h <= 32767,
                -32768 <= l,
        ;
    }
}

/// Mixes all channels down to one.
pub fn mix_down(samples: &Vec<i16>, channels: u16) -> (r: Vec<i16>)
    requires
        channels >= 1,
    ensures
        r@ == mixed(samples@, channels as int),
{
    let per_frame: i32 = channels as i32;
    let mut mono: Vec<i16> = Vec::new();
    let mut frame_sum: i32 = 0;
    let mut in_frame: i32 = 0;
    let mut i: usize = 0;
    while i < samples.len()
        invariant
            1 <= per_frame == channels <= 65535,
            i <= samples@.len(),
            0 <= in_frame < per_frame,
            i == mono@.len() * per_frame + in_frame,
            frame_sum == sum_of(samples@, mono@.len() * per_frame, in_frame as nat),
            forall|k: int|
                0 <= k < mono@.len() ==> mono@[k] == #[trigger] toward_zero(
                    sum_of(samples@, k * per_frame, per_frame as nat),
                    per_frame as int,
                ),
        decreases samples@.len() - i,
    {
        let ghost start = mono@.len() * per_frame;
        proof {
            lemma_sum_bound(samples@, start, in_frame as nat);
            lemma_sum_bound(samples@, start, (in_frame + 1) as nat);
        }
        frame_sum = frame_sum + samples[i] as i32;
        in_frame = in_frame + 1;
        if in_frame == per_frame {
            let mean: i32 = if frame_sum >= 0 {
                frame_sum / per_frame
            } else {
                -((-frame_sum) / per_frame)
            };
            proof {
                lemma_mean_bound(frame_sum as int, per_frame as int);
            }
            let ghost done = mono@.len();
            mono.push(mean as i16);
            frame_sum = 0;
            in_frame = 0;
            proof {
                assert((done + 1) * per_frame == done * per_frame + per_frame)
                    by (nonlinear_arith);
            }
        }
        i = i + 1;
    }
    proof {
        let n = samples@.len() as int;
        let d = per_frame as int;
        let q = mono@.len() as int;
        assert(n / d == q) by {
            vstd::arithmetic::div_mod::lemma_fundamental_div_mod_converse(
                n,
                d,
                q,
                in_frame as int,
            );
        }
        assert(mono@ =~= mixed(samples@, channels as int));
    }
    mono
}

proof fn lemma_mean_bound(sum: int, n: int)
    requires
        n >= 1,
        -32768 * n <= sum <= 32767 * n,
    ensures
        -32768 <= toward_zero(sum, n) <= 32767,
{
    if sum >= 0 {
        assert(sum / n <= 32767) by (nonlinear_arith)
            requires
                n >= 1,
                0 <= sum <= 32767 * n,
        ;
        assert(0 <= sum / n) by (nonlinear_arith)
            requires
                n >= 1,
                0 <= sum,
        ;
    } else {
        let m = -sum;
        assert(m / n <= 32768) by (nonlinear_arith)
            requires
                n >= 1,
                0 <= m <= 32768 * n,
        ;
        assert(0 <= m / n) by (nonlinear_arith)
            requires
                n >= 1,
                0 <= m,
        ;
    }
}

/// The samples of a decoded file, mixed down to one channel.
pub open spec fn mono_of(wav: Option<WavView>) -> Result<Seq<i16>, WavError> {
    match wav {
        None => Err(WavError::CouldNotOpen),
        Some(w) => if !w.integer || w.bits != 16 {
            Err(WavError::NotPcm16)
        } else {
            match w.samples {
                None => Err(WavError::BadSample),
                Some(samples) => Ok(mixed(samples, w.channels as int)),
            }
        },
    }
}

/// The samples of a decoded file, mixed down to one channel.
pub fn to_mono(wav: Option<Wav>) -> (r: Result<Vec<i16>, WavError>)
    requires
        wav matches Some(w) ==> w.channels >= 1,
    ensures
        ({
            let seen: Option<WavView> = match wav {
                Some(w) => Some(w@),
                None => None,
            };
            match r {
                Ok(mono) => mono_of(seen) == Ok::<Seq<i16>, WavError>(mono@),
                Err(e) => mono_of(seen) == Err::<Seq<i16>, WavError>(e),
            }
        }),
{
    match wav {
        None => Err(WavError::CouldNotOpen),
        Some(w) => {
            if !w.integer || w.bits != 16 {
                return Err(WavError::NotPcm16);
            }
            match &w.samples {
                None => Err(WavError::BadSample),
                Some(samples) => Ok(mix_down(samples, w.channels)),
            }
        },
    }
}

/// Reads a wav file of 16-bit samples, mixing its channels down to one.
pub fn read_wav(bytes: &[u8]) -> (r: Result<Vec<i16>, WavError>)
    ensures
        match r {
            Ok(mono) => mono_of(wav_contents(bytes@)) == Ok::<Seq<i16>, WavError>(mono@),
            Err(e) => mono_of(wav_contents(bytes@)) == Err::<Seq<i16>, WavError>(e),
        },
{
    to_mono(decode_wav(bytes))
}

// ---------- names ----------

/// The prefix of the track files of a recording.
pub open spec fn prefix_of(input: Seq<char>) -> Seq<char> {
    match name_in(input) {
        Some(name) => stem_of(name) + "_track_"@,
        None => "_track_"@,
    }
}

/// Output name prefix: the recording's own name, e.g. `show_track_` for `show.mp3`.
pub fn default_prefix(input: &str) -> (r: String)
    ensures
        r@ == prefix_of(input@),
{
    let mut out = match file_stem(input) {
        Some(stem) => stem,
        None => String::new(),
    };
    out.append("_track_");
    assert(out@ =~= prefix_of(input@));
    out
}

/// The folder of a recording does not matter for the prefix, as long as the recording's name
/// is not taken into a share: the prefix is made of the name alone.
pub proof fn law_the_folder_does_not_matter_for_the_prefix(folders: Seq<char>, f: Seq<char>)
    requires
        is_plain(f),
        body_start(folders + f) <= folders.len(),
        folders.len() == body_start(folders + f) || splits(
            is_verbatim(folders + f),
            folders.last(),
        ),
    ensures
        prefix_of(folders + f) == prefix_of(f),
        prefix_of(f) == stem_of(f) + "_track_"@,
{
    law_folders_do_not_change_the_name(folders, f);
}

/// A path without a file name gives a prefix without one.
pub proof fn law_no_name_gives_a_bare_prefix(path: Seq<char>)
    requires
        name_in(path) is None,
    ensures
        prefix_of(path) == "_track_"@,
{
}

/// The extension of the track files of a recording.
pub open spec fn track_extension(input: Seq<char>) -> Seq<char> {
    match name_in(input) {
        Some(name) => match extension_of(name) {
            Some(ext) => ext,
            None => "mp3"@,
        },
        None => "mp3"@,
    }
}

/// The extension of the track files: tracks are cut without re-encoding, so they keep
/// the recording's own format. A recording without an extension gives mp3 files.
pub fn output_extension(input: &str) -> (r: String)
    ensures
        r@ == track_extension(input@),
{
    match extension(input) {
        Some(ext) => ext,
        None => "mp3".to_owned(),
    }
}

/// Whether a file name begins with a prefix, and in lower case ends with an extension.
pub open spec fn named_like(
    name: Seq<char>,
    low: Seq<char>,
    prefix: Seq<char>,
    ext: Seq<char>,
) -> bool {
    prefix.is_prefix_of(name) && (seq!['.'] + ext).is_suffix_of(low)
}

/// Whether a file name, which is `low` in lower case, begins with a prefix and ends with an
/// extension in lower case.
pub fn is_named_like(name: &str, low: &str, prefix: &str, ext: &str) -> (r: bool)
    ensures
        r == named_like(name@, low@, prefix@, ext@),
{
    let mut dot_ext = String::new();
    dot_ext.push('.');
    dot_ext.append(ext);
    let end = chars_of(dot_ext.as_str());
    assert(end@ =~= seq!['.'] + ext@);
    starts_with(&chars_of(name), &chars_of(prefix)) && ends_with(&chars_of(low), &end)
}

/// Whether a file name is that of a track of a recording, whatever the case of its
/// extension.
pub open spec fn is_track_name(name: Seq<char>, prefix: Seq<char>, ext: Seq<char>) -> bool {
    named_like(name, lower_case(name), prefix, lower_case(ext))
}

/// How many of the names are those of tracks.
pub open spec fn track_count(names: Seq<String>, prefix: Seq<char>, ext: Seq<char>) -> nat
    decreases names.len(),
{
    if names.len() == 0 {
        0
    } else {
        track_count(names.drop_last(), prefix, ext) + if is_track_name(
            names.last()@,
            prefix,
            ext,
        ) {
            1nat
        } else {
            0
        }
    }
}

/// Counts the files of an output folder that an export may overwrite.
pub fn existing_tracks(names: &Vec<String>, prefix: &str, ext: &str) -> (r: usize)
    ensures
        r == track_count(names@, prefix@, ext@),
        r <= names@.len(),
{
    let low_ext = to_lower_case(ext);
    let mut count: usize = 0;
    let mut i: usize = 0;
    assert(names@.take(0) =~= Seq::empty());
    while i < names.len()
        invariant
            low_ext@ == lower_case(ext@),
            i <= names@.len(),
            count <= i,
            count == track_count(names@.take(i as int), prefix@, ext@),
        decreases names@.len() - i,
    {
        proof {
            assert(names@.take(i + 1).drop_last() =~= names@.take(i as int));
            assert(names@.take(i + 1).last() == names@[i as int]);
        }
        let low = to_lower_case(names[i].as_str());
        if is_named_like(names[i].as_str(), low.as_str(), prefix, low_ext.as_str()) {
            count = count + 1;
        }
        i = i + 1;
    }
    assert(names@.take(names@.len() as int) =~= names@);
    count
}

// ---------- tracks ----------

/// One track to be cut out: the name of its file and its span.
pub struct Segment {
    pub name: String,
    pub start: i64,
    pub end: i64,
}

/// Where the tracks begin and end: 0, each split, the end.
pub open spec fn track_bounds(splits: Seq<i64>, duration: i64) -> Seq<i64> {
    seq![0i64] + splits + seq![duration]
}

/// How many digits the numbers of `n` tracks have.
pub open spec fn track_digits(n: nat) -> nat {
    if decimal(n).len() < 3 {
        3
    } else {
        decimal(n).len()
    }
}

/// The file name of track `i` (counted from 1) of `n`.
pub open spec fn track_name(prefix: Seq<char>, i: nat, n: nat, ext: Seq<char>) -> Seq<char> {
    prefix + padded(i, track_digits(n)) + seq!['.'] + ext
}

/// The tracks between the splits of a recording, with the names of their files.
pub fn segments(splits: &Vec<i64>, duration: i64, prefix: &str, ext: &str) -> (r: Vec<Segment>)
    requires
        splits@.len() < usize::MAX,
    ensures
        r@.len() == splits@.len() + 1,
        r@[0].start == 0,
        r@.last().end == duration,
        forall|i: int|
            0 <= i < splits@.len() ==> (#[trigger] splits@[i]) == r@[i].end && splits@[i] == r@[i
                + 1].start,
        forall|i: int|
            0 <= i < r@.len() ==> (#[trigger] r@[i]).start == track_bounds(splits@, duration)[i]
                && r@[i].end == track_bounds(splits@, duration)[i + 1] && r@[i].name@ == track_name(
                prefix@,
                (i + 1) as nat,
                r@.len(),
                ext@,
            ),
{
    let n: usize = splits.len() + 1;
    let digits: usize = decimal_len(n as u64);
    let digits: usize = if digits < 3 {
        3
    } else {
        digits
    };
    let ghost bounds = track_bounds(splits@, duration);
    let mut out: Vec<Segment> = Vec::new();
    let mut i: usize = 0;
    while i < n
        invariant
            i <= n == splits@.len() + 1,
            digits == track_digits(n as nat),
            bounds == track_bounds(splits@, duration),
            out@.len() == i,
            forall|k: int|
                0 <= k < i ==> (#[trigger] out@[k]).start == bounds[k] && out@[k].end == bounds[k
                    + 1] && out@[k].name@ == track_name(prefix@, (k + 1) as nat, n as nat, ext@),
        decreases n - i,
    {
        let start: i64 = if i == 0 {
            0
        } else {
            splits[i - 1]
        };
        let end: i64 = if i < splits.len() {
            splits[i]
        } else {
            duration
        };
        let mut name = prefix.to_owned();
        push_padded(&mut name, (i + 1) as u64, digits);
        name.push('.');
        name.append(ext);
        proof {
            assert(name@ =~= track_name(prefix@, (i + 1) as nat, n as nat, ext@));
            assert(start == bounds[i as int]);
            assert(end == bounds[i + 1]);
        }
        out.push(Segment { name, start, end });
        i = i + 1;
    }
    out
}

/// The tracks follow each other without gaps or overlaps, from the beginning of the
/// recording to its end.
pub proof fn law_tracks_cover_the_recording(splits: Seq<i64>, duration: i64)
    ensures
        track_bounds(splits, duration).len() == splits.len() + 2,
        track_bounds(splits, duration)[0] == 0,
        track_bounds(splits, duration).last() == duration,
        forall|i: int|
            0 <= i < splits.len() ==> track_bounds(splits, duration)[i + 1] == splits[i],
{
}

/// No two tracks of a recording have the same file name.
pub proof fn law_track_names_differ(
    prefix: Seq<char>,
    i: nat,
    j: nat,
    n: nat,
    ext: Seq<char>,
)
    requires
        i != j,
    ensures
        track_name(prefix, i, n, ext) != track_name(prefix, j, n, ext),
{
    let w = track_digits(n);
    let a = track_name(prefix, i, n, ext);
    let b = track_name(prefix, j, n, ext);
    if a == b {
        let end = a.len() - ext.len() - 1;
        assert(a.subrange(prefix.len() as int, end) =~= padded(i, w));
        assert(b.subrange(prefix.len() as int, end) =~= padded(j, w));
        law_padded_reads_back(i, w);
        law_padded_reads_back(j, w);
    }
}

// ---------- messages of the tools ----------

/// How much of a tool's output is shown.
pub const TAIL_BYTES: usize = 500;

/// The longest end of a text that takes at most `TAIL_BYTES` bytes in UTF-8.
pub open spec fn is_tail(s: Seq<char>, end: Seq<char>) -> bool {
    exists|k: int| #[trigger] is_tail_from(s, end, k)
}

pub open spec fn is_tail_from(s: Seq<char>, end: Seq<char>, k: int) -> bool {
    &&& 0 <= k <= s.len()
    &&& end == s.skip(k)
    &&& encode_utf8(end).len() <= TAIL_BYTES
    &&& k > 0 ==> encode_utf8(s.skip(k - 1)).len() > TAIL_BYTES
}

/// How many bytes a character takes in UTF-8.
fn utf8_width(c: char) -> (r: usize)
    ensures
        r == encode_scalar(c as u32).len(),
        1 <= r <= 4,
{
    let v: u32 = c as u32;
    proof {
        vstd::utf8::char_is_scalar(c);
    }
    if v < 0x80 {
        1
    } else if v < 0x800 {
        2
    } else if v < 0x1_0000 {
        3
    } else {
        4
    }
}

/// The end of what a tool printed: its last `TAIL_BYTES` bytes, without white space at
/// the ends of the output and without cutting a character in two.
pub fn tail(bytes: &[u8]) -> (r: String)
    ensures
        is_tail(trimmed(read_as(bytes@)), r@),
        valid_utf8(bytes@) ==> is_tail(trimmed(decode_utf8(bytes@)), r@),
{
    let text = utf8_lossy(bytes);
    tail_of(text.as_str())
}

/// The end of a text: its last `TAIL_BYTES` bytes, without white space at the ends and
/// without cutting a character in two.
pub fn tail_of(text: &str) -> (r: String)
    ensures
        is_tail(trimmed(text@), r@),
{
    let all = chars_of(text);
    let (from, to) = trim(&all, 0, all.len());
    let ghost s = trimmed(text@);
    proof {
        assert(all@.subrange(0, all@.len() as int) =~= all@);
        assert(all@.subrange(from as int, to as int) == s);
    }
    let mut at: usize = to;
    let mut size: usize = 0;
    assert(s.skip(s.len() as int) =~= Seq::empty());
    while at > from
        invariant_except_break
            from <= at <= to <= all@.len(),
            s == all@.subrange(from as int, to as int),
            size <= TAIL_BYTES,
            size == encode_utf8(s.skip(at - from)).len(),
        ensures
            from <= at <= to <= all@.len(),
            s == all@.subrange(from as int, to as int),
            encode_utf8(s.skip(at - from)).len() <= TAIL_BYTES,
            at > from ==> encode_utf8(s.skip(at - from - 1)).len() > TAIL_BYTES,
        decreases at,
    {
        let w: usize = utf8_width(all[at - 1]);
        proof {
            let longer = s.skip(at - from - 1);
            assert(longer.drop_first() =~= s.skip(at - from));
            assert(longer[0] == all@[at - 1]);
        }
        if size + w > TAIL_BYTES {
            break;
        }
        size = size + w;
        at = at - 1;
    }
    let out = text_of(&all, at, to);
    proof {
        assert(out@ =~= s.skip(at - from));
        assert(is_tail_from(s, out@, at - from));
    }
    out
}

// ---------- folders ----------

/// Default output folder, as the parts of a path: `Music` and `Splitter` in the user's
/// profile folder, or `tracks` in the current folder if that is unknown.
pub fn default_output_dir(userprofile: Option<String>, home: Option<String>) -> (r: Vec<String>)
    ensures
        match (userprofile, home) {
            (Some(base), _) => r@.len() == 3 && r@[0]@ == base@ && r@[1]@ == "Music"@ && r@[2]@
                == "Splitter"@,
            (None, Some(base)) => r@.len() == 3 && r@[0]@ == base@ && r@[1]@ == "Music"@ && r@[2]@
                == "Splitter"@,
            (None, None) => r@.len() == 1 && r@[0]@ == "tracks"@,
        },
{
    let base = match userprofile {
        Some(base) => Some(base),
        None => home,
    };
    let mut out: Vec<String> = Vec::new();
    match base {
        Some(base) => {
            out.push(base);
            out.push("Music".to_owned());
            out.push("Splitter".to_owned());
        },
        None => {
            out.push("tracks".to_owned());
        },
    }
    out
}

/// The duration that a tool printed in seconds, as a time.
pub fn probed_duration(printed: &[u8]) -> (r: Option<i64>)
    ensures
        match r {
            Some(t) => field_time(trimmed(read_as(printed@))) == Some(t as int),
            None => field_time(trimmed(read_as(printed@))) is None,
        },
        valid_utf8(printed@) ==> match r {
            Some(t) => field_time(trimmed(decode_utf8(printed@))) == Some(t as int),
            None => field_time(trimmed(decode_utf8(printed@))) is None,
        },
{
    let text = utf8_lossy(printed);
    duration_of(text.as_str())
}

/// The duration that a text gives in seconds, as a time.
pub fn duration_of(text: &str) -> (r: Option<i64>)
    ensures
        match r {
            Some(t) => field_time(trimmed(text@)) == Some(t as int),
            None => field_time(trimmed(text@)) is None,
        },
{
    let all = chars_of(text);
    let (from, to) = trim(&all, 0, all.len());
    assert(all@.subrange(0, all@.len() as int) =~= all@);
    read_field(&part(&all, from, to))
}

// ---------- what tracks and samples are ----------

/// A sum of samples is made up of the sums of its parts.
pub proof fn law_sums_add_up(samples: Seq<i16>, from: int, n: nat, m: nat)
    ensures
        sum_of(samples, from, 0) == 0,
        sum_of(samples, from, 1) == samples[from],
        sum_of(samples, from, n + m) == sum_of(samples, from, n) + sum_of(samples, from + n, m),
    decreases m,
{
    reveal_with_fuel(sum_of, 2);
    if m > 0 {
        law_sums_add_up(samples, from, n, (m - 1) as nat);
        assert((n + m - 1) as nat == n + (m - 1) as nat);
    }
}

/// A mixed sample is the mean of the samples of its frame, without what lies behind the point.
/// There is one for every complete frame.
pub proof fn law_mixing_takes_the_mean(samples: Seq<i16>, channels: int, i: int)
    requires
        channels > 0,
        0 <= i < mixed(samples, channels).len(),
    ensures
        ({
            let m = mixed(samples, channels)[i];
            let sum = sum_of(samples, i * channels, channels as nat);
            &&& sum >= 0 ==> m * channels <= sum < m * channels + channels
            &&& sum <= 0 ==> m * channels - channels < sum <= m * channels
        }),
        mixed(samples, channels).len() * channels <= samples.len(),
        samples.len() < mixed(samples, channels).len() * channels + channels,
{
    let sum = sum_of(samples, i * channels, channels as nat);
    lemma_sum_bound(samples, i * channels, channels as nat);
    lemma_mean_bound(sum, channels);
    let m = toward_zero(sum, channels);
    let n = samples.len() as int;
    let q = n / channels;
    vstd::arithmetic::div_mod::lemma_fundamental_div_mod(n, channels);
    assert(channels * q == q * channels) by (nonlinear_arith);
    if sum >= 0 {
        vstd::arithmetic::div_mod::lemma_fundamental_div_mod(sum, channels);
        assert(channels * m == m * channels) by (nonlinear_arith);
    } else {
        vstd::arithmetic::div_mod::lemma_fundamental_div_mod(-sum, channels);
        assert(channels * (-m) == -(m * channels)) by (nonlinear_arith);
    }
}

/// A file is read where it is one of 16-bit integers all of which can be read, and refused
/// otherwise: for what it is, before for what it holds.
pub proof fn law_files_are_refused_for_a_reason(wav: Option<WavView>)
    ensures
        mono_of(wav) is Ok <==> (wav matches Some(w) && w.integer && w.bits == 16 && w.samples is Some),
        wav is None ==> mono_of(wav) == Err::<Seq<i16>, WavError>(WavError::CouldNotOpen),
        wav matches Some(w) ==> {
            &&& !w.integer || w.bits != 16 ==> mono_of(wav) == Err::<Seq<i16>, WavError>(
                WavError::NotPcm16,
            )
            &&& w.integer && w.bits == 16 && w.samples is None ==> mono_of(wav) == Err::<
                Seq<i16>,
                WavError,
            >(WavError::BadSample)
            &&& w.integer && w.bits == 16 && w.samples is Some ==> mono_of(wav) == Ok::<
                Seq<i16>,
                WavError,
            >(mixed(w.samples->0, w.channels as int))
        },
{
}

/// The name of a track is the prefix, its number with three digits at least, a dot and the
/// extension. All tracks of a recording have as many digits.
pub proof fn law_track_names_hold_their_number(
    prefix: Seq<char>,
    i: nat,
    j: nat,
    n: nat,
    ext: Seq<char>,
)
    requires
        i <= n,
        j <= n,
    ensures
        ({
            let name = track_name(prefix, i, n, ext);
            let end = name.len() - ext.len() - 1;
            let digits = name.subrange(prefix.len() as int, end);
            &&& prefix.is_prefix_of(name)
            &&& name[end] == '.'
            &&& name.skip(end + 1) == ext
            &&& digits.len() >= 3
            &&& number(digits) == i
            &&& digits.len() == 3 || digits.len() == decimal(n).len()
            &&& name.len() == track_name(prefix, j, n, ext).len()
        }),
{
    let w = track_digits(n);
    let name = track_name(prefix, i, n, ext);
    let end = name.len() - ext.len() - 1;
    assert(name.subrange(prefix.len() as int, end) =~= padded(i, w));
    assert(name.skip(end + 1) =~= ext);
    law_padded_reads_back(i, w);
    lemma_decimal_grows(i, n);
    lemma_decimal_grows(j, n);
}

proof fn lemma_decimal_grows(a: nat, b: nat)
    requires
        a <= b,
    ensures
        decimal(a).len() <= decimal(b).len(),
    decreases b,
{
    if b >= 10 {
        lemma_decimal_grows(a / 10, b / 10);
    }
}

/// A recording without tracks in its folder has none to overwrite, and each further file counts
/// where its name begins with the prefix and ends, in whatever case, with a dot and the extension.
pub proof fn law_tracks_are_counted_one_by_one(
    names: Seq<String>,
    more: String,
    prefix: Seq<char>,
    ext: Seq<char>,
)
    ensures
        track_count(Seq::empty(), prefix, ext) == 0,
        track_count(names.push(more), prefix, ext) == track_count(names, prefix, ext) + (if {
            &&& prefix.is_prefix_of(more@)
            &&& lower_case(more@).len() > lower_case(ext).len()
            &&& lower_case(more@).skip(lower_case(more@).len() - lower_case(ext).len()) == lower_case(
                ext,
            )
            &&& lower_case(more@)[lower_case(more@).len() - lower_case(ext).len() - 1] == '.'
        } {
            1nat
        } else {
            0
        }),
{
    assert(names.push(more).drop_last() =~= names);
    let (low, e) = (lower_case(more@), lower_case(ext));
    let end = seq!['.'] + e;
    if low.len() > e.len() {
        let k = low.len() - e.len();
        if low.skip(k) == e && low[k - 1] == '.' {
            assert(low.skip(low.len() - end.len()) =~= end);
        }
        if end.is_suffix_of(low) {
            assert(low.skip(k) =~= low.skip(low.len() - end.len()).skip(1));
            assert(end.skip(1) =~= e);
            assert(low[k - 1] == low.skip(low.len() - end.len())[0]);
        }
    }
}

/// A recording's tracks have its format, and are mp3 files where it has no extension.
pub proof fn law_tracks_keep_the_format(f: Seq<char>, stem: Seq<char>, ext: Seq<char>)
    requires
        is_plain(f),
        f == stem + seq!['.'] + ext,
        stem.len() > 0,
        forall|i: int| 0 <= i < ext.len() ==> #[trigger] ext[i] != '.',
    ensures
        track_extension(f) == ext,
        prefix_of(f) == stem + "_track_"@,
{
    law_a_name_without_folders(f);
    law_the_last_dot_parts_a_name(stem, ext);
}

/// A recording without an extension gives mp3 files, which are named after all of its name.
pub proof fn law_tracks_are_mp3_files_otherwise(f: Seq<char>)
    requires
        is_plain(f),
        forall|i: int| 0 <= i < f.len() ==> #[trigger] f[i] != '.',
    ensures
        track_extension(f) == "mp3"@,
        prefix_of(f) == f + "_track_"@,
{
    law_a_name_without_folders(f);
    law_a_name_without_a_dot_has_no_extension(f);
}

/// What is shown of what a tool printed is its end, of 500 bytes at most, and one character more
/// would be too many, unless it is all of it.
pub proof fn law_the_end_is_as_long_as_it_may_be(s: Seq<char>, end: Seq<char>)
    requires
        is_tail(s, end),
    ensures
        end.is_suffix_of(s),
        encode_utf8(end).len() <= 500,
        end != s ==> encode_utf8(s.skip(s.len() - end.len() - 1)).len() > 500,
{
    let k = choose|k: int| #[trigger] is_tail_from(s, end, k);
    if k == 0 {
        assert(s.skip(0) =~= s);
    }
    assert(s.skip(s.len() - end.len()) =~= end);
}

} // verus!
