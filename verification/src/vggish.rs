//! The shape of the VGGish network and of what goes into it, and where its weights are.

use crate::cache::texts;
use vstd::prelude::*;

verus! {

// ---------- frames and examples ----------

/// Nanoseconds from one embedding to the next.
pub const HOP_TIME: i64 = 960_000_000;

/// Samples in the window of a frame.
pub const WINDOW: usize = 400;

/// Samples from one frame to the next.
pub const HOP: usize = 160;

/// Mel bands of a frame.
pub const MELS: usize = 64;

/// Frames in an example.
pub const EXAMPLE_FRAMES: usize = 96;

/// Numbers in an embedding.
pub const EMBEDDING_DIM: usize = 128;

/// Examples that go through the network at once.
pub const BATCH: usize = 32;

/// How many frames lie in that many samples: the windows that fit.
pub open spec fn frames_in(len: int) -> int {
    if len < WINDOW {
        0
    } else {
        1 + (len - WINDOW) / HOP as int
    }
}

/// How many frames lie in that many samples.
pub fn frame_count(len: usize) -> (r: usize)
    ensures
        r == frames_in(len as int),
{
    if len < WINDOW {
        0
    } else {
        1 + (len - WINDOW) / HOP
    }
}

/// How many whole examples lie in that many frames.
pub fn example_count(frames: usize) -> (r: usize)
    ensures
        r == frames / EXAMPLE_FRAMES,
{
    if frames >= EXAMPLE_FRAMES {
        1 + (frames - EXAMPLE_FRAMES) / EXAMPLE_FRAMES
    } else {
        0
    }
}

/// The window of each frame lies inside of the samples, and no further one would.
pub proof fn law_frames_fill_the_samples(len: int, f: int)
    requires
        len >= 0,
        f >= 0,
    ensures
        f < frames_in(len) <==> f * HOP + WINDOW <= len,
{
}

/// From where to where the frequencies lie that count for a band, where `counts` says which
/// ones do.
pub fn band_range(counts: &Vec<bool>) -> (r: (usize, usize))
    ensures
        r.0 <= r.1 <= counts@.len(),
        forall|k: int| 0 <= k < counts@.len() && #[trigger] counts@[k] ==> r.0 <= k < r.1,
        r.1 > 0 ==> r.0 < r.1 && counts@[r.0 as int] && counts@[r.1 - 1],
{
    let n: usize = counts.len();
    let mut from: usize = 0;
    let mut to: usize = 0;
    let mut k: usize = 0;
    while k < n
        invariant
            n == counts@.len(),
            k <= n,
            from <= to <= k,
            forall|j: int| 0 <= j < k && #[trigger] counts@[j] ==> from <= j < to,
            to > 0 ==> from < to && counts@[from as int] && counts@[to - 1],
            to == 0 ==> from == 0,
        decreases n - k,
    {
        if counts[k] {
            if to == 0 {
                from = k;
            }
            to = k + 1;
        }
        k = k + 1;
    }
    (from, to)
}

/// A batch of examples: the first of them, and how many.
#[derive(Debug, Clone, Copy, PartialEq, Eq, Structural)]
pub struct Batch {
    pub start: usize,
    pub count: usize,
}

/// The batch at place `i`: full, but for the last one.
pub open spec fn batch_at(examples: int, i: int) -> (int, int) {
    let start = i * BATCH;
    (
        start,
        if examples - start < BATCH {
            examples - start
        } else {
            BATCH as int
        },
    )
}

/// The batches for a number of examples.
pub fn batches(examples: usize) -> (r: Vec<Batch>)
    ensures
        r@.len() == (examples + BATCH - 1) / BATCH as int,
        forall|i: int|
            0 <= i < r@.len() ==> ((#[trigger] r@[i]).start as int, r@[i].count as int) == batch_at(
                examples as int,
                i,
            ),
{
    let mut r: Vec<Batch> = Vec::new();
    let mut start: usize = 0;
    while start < examples
        invariant
            start <= examples,
            start == if r@.len() * BATCH > examples {
                examples as int
            } else {
                r@.len() * BATCH
            },
            (r@.len() - 1) * BATCH < examples,
            forall|i: int|
                0 <= i < r@.len() ==> ((#[trigger] r@[i]).start as int, r@[i].count as int)
                    == batch_at(examples as int, i),
        decreases examples - start,
    {
        let count: usize = if examples - start < BATCH {
            examples - start
        } else {
            BATCH
        };
        r.push(Batch { start, count });
        start = start + count;
    }
    r
}

/// Every example is in one batch, and in no other.
pub proof fn law_every_example_is_in_one_batch(examples: int, e: int)
    requires
        0 <= e < examples,
    ensures
        forall|i: int|
            0 <= i < (examples + BATCH - 1) / BATCH as int ==> ((#[trigger] batch_at(examples, i)).0
                <= e < batch_at(examples, i).0 + batch_at(examples, i).1 <==> i == e / BATCH as int),
        e / (BATCH as int) < (examples + BATCH - 1) / BATCH as int,
{
}

// ---------- layers ----------

/// A convolution with a kernel of three by three and a border of one, and whether the
/// pictures are halved behind it.
#[derive(Debug, Clone, Copy, PartialEq, Eq, Structural)]
pub struct Convolution {
    pub inputs: usize,
    pub outputs: usize,
    /// Where the weights stand among the features.
    pub index: usize,
    pub pooled: bool,
}

/// A layer in which every output depends on every input.
#[derive(Debug, Clone, Copy, PartialEq, Eq, Structural)]
pub struct Dense {
    pub inputs: usize,
    pub outputs: usize,
    /// Where the weights stand among the embeddings.
    pub index: usize,
}

/// The convolutions of the network.
pub open spec fn convolution_layers() -> Seq<Convolution> {
    seq![
        Convolution { inputs: 1, outputs: 64, index: 0, pooled: true },
        Convolution { inputs: 64, outputs: 128, index: 3, pooled: true },
        Convolution { inputs: 128, outputs: 256, index: 6, pooled: false },
        Convolution { inputs: 256, outputs: 256, index: 8, pooled: true },
        Convolution { inputs: 256, outputs: 512, index: 11, pooled: false },
        Convolution { inputs: 512, outputs: 512, index: 13, pooled: true },
    ]
}

/// The dense layers of the network.
pub open spec fn dense_layers() -> Seq<Dense> {
    seq![
        Dense { inputs: 12288, outputs: 4096, index: 0 },
        Dense { inputs: 4096, outputs: 4096, index: 2 },
        Dense { inputs: 4096, outputs: 128, index: 4 },
    ]
}

/// The convolutions of the network, in order.
pub fn convolutions() -> (r: Vec<Convolution>)
    ensures
        r@ == convolution_layers(),
        r@.len() == 6,
        forall|i: int|
            0 <= i < 6 ==> ((#[trigger] r@[i]).pooled <==> (i == 0 || i == 1 || i == 3 || i == 5)),
        r@[0].inputs == 1 && r@[0].outputs == 64 && r@[0].index == 0,
        r@[1].inputs == 64 && r@[1].outputs == 128 && r@[1].index == 3,
        r@[2].inputs == 128 && r@[2].outputs == 256 && r@[2].index == 6,
        r@[3].inputs == 256 && r@[3].outputs == 256 && r@[3].index == 8,
        r@[4].inputs == 256 && r@[4].outputs == 512 && r@[4].index == 11,
        r@[5].inputs == 512 && r@[5].outputs == 512 && r@[5].index == 13,
{
    let r: Vec<Convolution> = vec![
        Convolution { inputs: 1, outputs: 64, index: 0, pooled: true },
        Convolution { inputs: 64, outputs: 128, index: 3, pooled: true },
        Convolution { inputs: 128, outputs: 256, index: 6, pooled: false },
        Convolution { inputs: 256, outputs: 256, index: 8, pooled: true },
        Convolution { inputs: 256, outputs: 512, index: 11, pooled: false },
        Convolution { inputs: 512, outputs: 512, index: 13, pooled: true },
    ];
    assert(r@ =~= convolution_layers());
    r
}

/// The dense layers of the network, in order.
pub fn dense() -> (r: Vec<Dense>)
    ensures
        r@ == dense_layers(),
        r@.len() == 3,
        r@[0].inputs == 12288 && r@[0].outputs == 4096 && r@[0].index == 0,
        r@[1].inputs == 4096 && r@[1].outputs == 4096 && r@[1].index == 2,
        r@[2].inputs == 4096 && r@[2].outputs == 128 && r@[2].index == 4,
{
    let r: Vec<Dense> = vec![
        Dense { inputs: 12288, outputs: 4096, index: 0 },
        Dense { inputs: 4096, outputs: 4096, index: 2 },
        Dense { inputs: 4096, outputs: 128, index: 4 },
    ];
    assert(r@ =~= dense_layers());
    r
}

/// Pictures: how many of them, their height and their width.
pub open spec fn behind(c: Convolution, shape: (int, int, int)) -> (int, int, int) {
    if c.pooled {
        (c.outputs as int, shape.1 / 2, shape.2 / 2)
    } else {
        (c.outputs as int, shape.1, shape.2)
    }
}

/// The pictures behind the first `n` convolutions of an example.
pub open spec fn pictures(n: int) -> (int, int, int)
    decreases n,
{
    if n <= 0 {
        (1, EXAMPLE_FRAMES as int, MELS as int)
    } else {
        behind(convolution_layers()[n - 1], pictures(n - 1))
    }
}

/// Each layer takes what the one before it gives, from one picture of an example to its
/// embedding.
pub proof fn law_layers_fit_together()
    ensures
        forall|i: int|
            0 <= i < convolution_layers().len() ==> (#[trigger] convolution_layers()[i]).inputs
                == pictures(i).0,
        ({
            let last = pictures(convolution_layers().len() as int);
            dense_layers()[0].inputs == last.0 * last.1 * last.2
        }),
        forall|i: int|
            0 < i < dense_layers().len() ==> (#[trigger] dense_layers()[i]).inputs
                == dense_layers()[i - 1].outputs,
        dense_layers().last().outputs == EMBEDDING_DIM,
        pictures(0) == (1int, 96int, 64int),
        pictures(1) == (64int, 48int, 32int),
        pictures(2) == (128int, 24int, 16int),
        pictures(3) == (256int, 24int, 16int),
        pictures(4) == (256int, 12int, 8int),
        pictures(5) == (512int, 12int, 8int),
        pictures(6) == (512int, 6int, 4int),
{
    reveal_with_fuel(pictures, 7);
    assert(pictures(6) == (512int, 6int, 4int));
    assert(512int * 6 * 4 == 12288) by (nonlinear_arith);
    assert forall|i: int| 0 <= i < convolution_layers().len() implies (
    #[trigger] convolution_layers()[i]).inputs == pictures(i).0 by {
        assert(i == 0 || i == 1 || i == 2 || i == 3 || i == 4 || i == 5);
    }
}

// ---------- weights ----------

/// Why it is not known where the weights are.
#[derive(Debug, Clone, Copy, PartialEq, Eq, Structural)]
pub enum WeightsError {
    /// They are nowhere, and there is no folder for data of the user to download them to.
    NoFolder,
    /// The file that was asked for does not exist.
    NotFound,
}

/// The places of a download, as the folders that lead there and the name.
pub struct Download {
    /// The folder.
    pub folder: Vec<String>,
    /// What a download is named until it is complete.
    pub partial: Vec<String>,
    /// What a download is named.
    pub own: Vec<String>,
}

/// The places for the weights, as the folders that lead there and the name.
pub struct WeightsPlaces {
    /// Where they may be, best first.
    pub candidates: Vec<Vec<String>>,
    /// Where they can be downloaded to.
    pub download: Option<Download>,
}

/// The name of the file with the weights.
pub open spec fn weights_name() -> Seq<char> {
    "vggish-10086976.pth"@
}

/// The folder in which the folders for data of the user are.
pub open spec fn data_folder(local: Option<String>, profile: Option<String>) -> Option<
    Seq<Seq<char>>,
> {
    match (local, profile) {
        (Some(base), _) => Some(seq![base@]),
        (None, Some(base)) => Some(seq![base@, ".cache"@]),
        (None, None) => None,
    }
}

/// Where the weights may be, best first: beside the program, where PyTorch keeps them, in
/// the folder for data of the user, and in that of an older name, as far as these folders are
/// known.
pub open spec fn weights_candidates(
    beside: Option<String>,
    profile: Option<String>,
    data: Option<Seq<Seq<char>>>,
) -> Seq<Seq<Seq<char>>> {
    let first = match beside {
        Some(folder) => seq![seq![folder@, weights_name()]],
        None => Seq::empty(),
    };
    let second = match profile {
        Some(folder) => first.push(
            seq![folder@, ".cache/torch/hub/checkpoints"@, weights_name()],
        ),
        None => first,
    };
    match data {
        Some(data) => second.push(data.push("radio-track-splitter"@).push(weights_name())).push(
            data.push("split_radio"@).push(weights_name()),
        ),
        None => second,
    }
}

/// Whether a download goes to the folder for data of the user.
pub open spec fn downloads_to(d: Download, data: Seq<Seq<char>>) -> bool {
    let own = data.push("radio-track-splitter"@);
    &&& texts(d.folder@) == own
    &&& texts(d.partial@) == own.push("vggish-10086976.partial"@)
    &&& texts(d.own@) == own.push(weights_name())
}

/// The folders of `data`, and then `rest`.
fn joined(data: &Vec<String>, rest: Vec<String>) -> (r: Vec<String>)
    ensures
        texts(r@) == texts(data@) + texts(rest@),
{
    let mut r: Vec<String> = Vec::new();
    let mut i: usize = 0;
    while i < data.len()
        invariant
            i <= data@.len(),
            texts(r@) == texts(data@.take(i as int)),
        decreases data@.len() - i,
    {
        let folder: String = data[i].as_str().to_owned();
        let ghost before = r@;
        r.push(folder);
        assert(texts(r@) =~= texts(before).push(folder@));
        assert(texts(data@.take(i + 1)) =~= texts(data@.take(i as int)).push(data@[i as int]@));
        i = i + 1;
    }
    assert(data@.take(data@.len() as int) =~= data@);
    let mut rest = rest;
    let ghost before = r@;
    let ghost added = rest@;
    r.append(&mut rest);
    assert(texts(before + added) =~= texts(before) + texts(added));
    r
}

/// The places for the weights, where `beside` is the folder of the program, `profile` and
/// `home` those of the user and `local` that for local data.
pub fn weights_places(
    beside: Option<String>,
    profile: Option<String>,
    home: Option<String>,
    local: Option<String>,
) -> (r: WeightsPlaces)
    ensures
        ({
            let user = if profile is Some {
                profile
            } else {
                home
            };
            let data = data_folder(local, user);
            &&& r.candidates@.map_values(|c: Vec<String>| texts(c@)) == weights_candidates(
                beside,
                user,
                data,
            )
            &&& r.download is Some <==> data is Some
            &&& r.download matches Some(d) ==> downloads_to(d, data->0)
        }),
{
    let user = match profile {
        Some(folder) => Some(folder),
        None => home,
    };
    let ghost the_user = user;
    let mut candidates: Vec<Vec<String>> = Vec::new();
    if let Some(folder) = beside {
        let place: Vec<String> = vec![folder, "vggish-10086976.pth".to_owned()];
        assert(texts(place@) =~= seq![folder@, weights_name()]);
        candidates.push(place);
    }
    let mut data: Vec<String> = Vec::new();
    if let Some(folder) = &user {
        let place: Vec<String> = vec![
            folder.as_str().to_owned(),
            ".cache/torch/hub/checkpoints".to_owned(),
            "vggish-10086976.pth".to_owned(),
        ];
        assert(texts(place@) =~= seq![
            folder@,
            ".cache/torch/hub/checkpoints"@,
            weights_name(),
        ]);
        candidates.push(place);
    }
    match (local, user) {
        (Some(base), _) => {
            data.push(base);
        },
        (None, Some(base)) => {
            data.push(base);
            data.push(".cache".to_owned());
        },
        (None, None) => {
            assert(candidates@.map_values(|c: Vec<String>| texts(c@)) =~= weights_candidates(
                beside,
                the_user,
                None,
            ));
            return WeightsPlaces { candidates, download: None };
        },
    }
    let ghost base = data_folder(local, the_user)->0;
    assert(texts(data@) =~= base);
    let own_rest: Vec<String> = vec![
        "radio-track-splitter".to_owned(),
        "vggish-10086976.pth".to_owned(),
    ];
    assert(texts(own_rest@) =~= seq!["radio-track-splitter"@, weights_name()]);
    let own = joined(&data, own_rest);
    let own_again = joined(&own, Vec::new());
    assert(texts(own@) =~= base.push("radio-track-splitter"@).push(weights_name()));
    assert(texts(own_again@) =~= texts(own@));
    candidates.push(own_again);
    let legacy_rest: Vec<String> = vec![
        "split_radio".to_owned(),
        "vggish-10086976.pth".to_owned(),
    ];
    assert(texts(legacy_rest@) =~= seq!["split_radio"@, weights_name()]);
    let legacy = joined(&data, legacy_rest);
    assert(texts(legacy@) =~= base.push("split_radio"@).push(weights_name()));
    candidates.push(legacy);
    let folder_rest: Vec<String> = vec!["radio-track-splitter".to_owned()];
    assert(texts(folder_rest@) =~= seq!["radio-track-splitter"@]);
    let folder = joined(&data, folder_rest);
    assert(texts(folder@) =~= base.push("radio-track-splitter"@));
    let partial_rest: Vec<String> = vec!["vggish-10086976.partial".to_owned()];
    assert(texts(partial_rest@) =~= seq!["vggish-10086976.partial"@]);
    let partial = joined(&folder, partial_rest);
    assert(texts(partial@) =~= texts(folder@).push("vggish-10086976.partial"@));
    assert(candidates@.map_values(|c: Vec<String>| texts(c@)) =~= weights_candidates(
        beside,
        the_user,
        Some(base),
    ));
    WeightsPlaces { candidates, download: Some(Download { folder, partial, own }) }
}

/// What to do about the weights.
#[derive(Debug, Clone, Copy, PartialEq, Eq, Structural)]
pub enum WeightsStep {
    /// Take the file that was asked for.
    Given,
    /// Take the candidate at this place.
    Take(usize),
    /// Download the file.
    Download,
}

/// What to do about the weights, where `given` says whether the file that was asked for
/// exists, `exist` which candidates do, and `folder` whether there is one to download to.
pub fn choose_weights(given: Option<bool>, exist: &Vec<bool>, folder: bool) -> (r: Result<
    WeightsStep,
    WeightsError,
>)
    ensures
        match given {
            Some(true) => r == Ok::<WeightsStep, WeightsError>(WeightsStep::Given),
            Some(false) => r == Err::<WeightsStep, WeightsError>(WeightsError::NotFound),
            None => match r {
                Ok(WeightsStep::Take(i)) => i < exist@.len() && exist@[i as int] && forall|j: int|
                    0 <= j < i ==> !exist@[j],
                Ok(WeightsStep::Download) => folder && forall|j: int|
                    0 <= j < exist@.len() ==> !exist@[j],
                Err(WeightsError::NoFolder) => !folder && forall|j: int|
                    0 <= j < exist@.len() ==> !exist@[j],
                _ => false,
            },
        },
{
    match given {
        Some(true) => Ok(WeightsStep::Given),
        Some(false) => Err(WeightsError::NotFound),
        None => {
            let mut i: usize = 0;
            while i < exist.len()
                invariant
                    given is None,
                    i <= exist@.len(),
                    forall|j: int| 0 <= j < i ==> !exist@[j],
                decreases exist@.len() - i,
            {
                if exist[i] {
                    return Ok(WeightsStep::Take(i));
                }
                i = i + 1;
            }
            if folder {
                Ok(WeightsStep::Download)
            } else {
                Err(WeightsError::NoFolder)
            }
        },
    }
}

// ---------- what the parts are for ----------

/// The weights of the convolutions stand among the features with one place for what follows each
/// of them, and one more where the pictures are halved behind it: behind the first two
/// convolutions and behind every second one of the rest. A convolution behind which they are not
/// halved is followed by one that gives as many pictures as it takes.
pub proof fn law_pictures_are_halved_where_the_features_leave_room()
    ensures
        convolution_layers().len() == 6,
        convolution_layers()[0].index == 0,
        forall|i: int|
            0 <= i < 5 ==> convolution_layers()[i + 1].index == (
            #[trigger] convolution_layers()[i]).index + (if i == 0 || i == 1 || i == 3 {
                3int
            } else {
                2
            }),
        forall|i: int|
            0 <= i < 6 ==> ((#[trigger] convolution_layers()[i]).pooled <==> (i == 0 || i == 1 || i
                == 3 || i == 5)),
        forall|i: int|
            0 <= i < 5 && !(#[trigger] convolution_layers()[i]).pooled ==> convolution_layers()[i
                + 1].pooled && convolution_layers()[i + 1].inputs == convolution_layers()[i
                + 1].outputs,
        dense_layers().len() == 3,
        forall|i: int| 0 <= i < 3 ==> (#[trigger] dense_layers()[i]).index == 2 * i,
{
}

/// At 16000 samples per second the window of a frame lasts 25 milliseconds, frames follow each
/// other every ten, and an example lasts as long as the time from one embedding to the next.
pub proof fn law_frames_and_examples_have_their_lengths()
    ensures
        WINDOW * 1000 == 25 * 16000,
        HOP * 1000 == 10 * 16000,
        EXAMPLE_FRAMES * HOP * 1_000_000_000 == HOP_TIME * 16000,
        MELS == 64,
        EMBEDDING_DIM == 128,
{
}

/// All batches are full, with 32 examples, but for the last one, which holds the rest.
pub proof fn law_batches_are_full(examples: int, i: int)
    requires
        0 <= i < (examples + 31) / 32,
    ensures
        batch_at(examples, i).0 == 32 * i,
        32 * i + 32 <= examples ==> batch_at(examples, i).1 == 32,
        32 * i + 32 > examples ==> batch_at(examples, i).1 == examples - 32 * i,
        0 < batch_at(examples, i).1 <= 32,
{
}

/// The weights are looked for beside the program first, then where PyTorch keeps them, then in
/// the folder for data of the user, and last in that of the older name. Each of these places is
/// looked at where its folder is known, and all have the same file name.
pub proof fn law_weights_are_looked_for_in_order(
    beside: Option<String>,
    profile: Option<String>,
    data: Option<Seq<Seq<char>>>,
)
    ensures
        ({
            let all = weights_candidates(beside, profile, data);
            let first: int = if beside is Some {
                1
            } else {
                0
            };
            let second: int = if profile is Some {
                first + 1
            } else {
                first
            };
            &&& all.len() == if data is Some {
                second + 2
            } else {
                second
            }
            &&& forall|i: int| 0 <= i < all.len() ==> (#[trigger] all[i]).last() == "vggish-10086976.pth"@
            &&& beside matches Some(folder) ==> all[0] == seq![folder@, "vggish-10086976.pth"@]
            &&& profile matches Some(folder) ==> all[first] == seq![
                folder@,
                ".cache/torch/hub/checkpoints"@,
                "vggish-10086976.pth"@,
            ]
            &&& data matches Some(d) ==> all[second] == d + seq![
                "radio-track-splitter"@,
                "vggish-10086976.pth"@,
            ] && all[second + 1] == d + seq!["split_radio"@, "vggish-10086976.pth"@]
        }),
{
    if let Some(d) = data {
        let all = weights_candidates(beside, profile, data);
        assert(d.push("radio-track-splitter"@).push(weights_name()) =~= d + seq![
            "radio-track-splitter"@,
            "vggish-10086976.pth"@,
        ]);
        assert(d.push("split_radio"@).push(weights_name()) =~= d + seq![
            "split_radio"@,
            "vggish-10086976.pth"@,
        ]);
    }
}

/// What was downloaded is found the next time: it is among the places that are looked at. Until
/// it is complete it has another name, in the same folder.
pub proof fn law_downloads_are_found(
    d: Download,
    beside: Option<String>,
    profile: Option<String>,
    data: Seq<Seq<char>>,
)
    requires
        downloads_to(d, data),
    ensures
        weights_candidates(beside, profile, Some(data)).contains(texts(d.own@)),
        texts(d.own@) == texts(d.folder@).push("vggish-10086976.pth"@),
        texts(d.partial@) == texts(d.folder@).push("vggish-10086976.partial"@),
        texts(d.partial@) != texts(d.own@),
        !weights_candidates(beside, profile, Some(data)).contains(texts(d.partial@)),
{
    law_weights_are_looked_for_in_order(beside, profile, Some(data));
    let all = weights_candidates(beside, profile, Some(data));
    let n = all.len() as int;
    assert(all[n - 2] == texts(d.own@)) by {
        assert(texts(d.own@) =~= data + seq!["radio-track-splitter"@, "vggish-10086976.pth"@]);
    }
    reveal_strlit("vggish-10086976.partial");
    reveal_strlit("vggish-10086976.pth");
    assert("vggish-10086976.partial"@.len() != "vggish-10086976.pth"@.len());
    assert(texts(d.partial@).last() == "vggish-10086976.partial"@);
    assert(texts(d.own@).last() == "vggish-10086976.pth"@);
}

/// The folder for data of the user is the one for local data, or one for caches in the folder of
/// the user.
pub proof fn law_the_folder_for_data(local: Option<String>, profile: Option<String>)
    ensures
        local matches Some(base) ==> data_folder(local, profile) == Some(seq![base@]),
        local is None ==> (profile matches Some(base) ==> data_folder(local, profile) == Some(
            seq![base@, ".cache"@],
        )),
        local is None && profile is None ==> data_folder(local, profile) is None,
{
}

} // verus!
