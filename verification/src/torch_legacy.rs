//! The layout of PyTorch's older, non-zip weight files.
//!
//! A file holds three header pickles (magic number, protocol version, system
//! information), the pickle of the state dict, whose tensors name storages by
//! persistent id, a pickle that lists the storage keys, and then for each key an
//! element count of eight bytes and the raw data.

use vstd::prelude::*;

use crate::pickle::lemma_dict_value;
use crate::pickle::lemma_list_value;
use crate::pickle::pair_values;
use crate::pickle::values;
use crate::pickle::Cursor;
use crate::pickle::Obj;
use crate::pickle::PickleError;
use crate::pickle::Value;
use crate::unpickle::law_pickle_ends_behind_its_stop;
use crate::unpickle::law_pickle_ignores_what_follows;
use crate::unpickle::run_pickle;
use crate::unpickle::unpickled;

verus! {

/// How much of a file is read for the pickles.
pub const HEADER_LIMIT: u64 = 8388608;

/// Bytes of one float32 element.
pub const ELEMENT: u64 = 4;

/// Why weights could not be loaded.
pub enum LoadError {
    /// One of the pickles could not be read.
    Pickle(PickleError),
    /// The state dict is no dict.
    RootNotDict,
    /// The storage keys are no list.
    KeysMissing,
    /// A tensor is not laid out in one piece, row by row.
    NotContiguous(String),
    /// A storage key is no string.
    BadStorageKey,
    /// A tensor reaches beyond its storage.
    ExceedsStorage(String),
}

/// What a `LoadError` says.
pub enum LoadFault {
    Pickle(PickleError),
    RootNotDict,
    KeysMissing,
    NotContiguous(Seq<char>),
    BadStorageKey,
    ExceedsStorage(Seq<char>),
}

impl View for LoadError {
    type V = LoadFault;

    open spec fn view(&self) -> LoadFault {
        match self {
            LoadError::Pickle(e) => LoadFault::Pickle(*e),
            LoadError::RootNotDict => LoadFault::RootNotDict,
            LoadError::KeysMissing => LoadFault::KeysMissing,
            LoadError::NotContiguous(name) => LoadFault::NotContiguous(name@),
            LoadError::BadStorageKey => LoadFault::BadStorageKey,
            LoadError::ExceedsStorage(name) => LoadFault::ExceedsStorage(name@),
        }
    }
}

/// A tensor of the state dict: where its elements stand in which storage.
pub struct TensorUse {
    pub name: String,
    pub key: String,
    pub offset: i64,
    pub shape: Vec<usize>,
}

/// What a `TensorUse` stands for.
#[verifier::ext_equal]
pub struct Use {
    pub name: Seq<char>,
    pub key: Seq<char>,
    pub offset: int,
    pub shape: Seq<usize>,
}

impl View for TensorUse {
    type V = Use;

    open spec fn view(&self) -> Use {
        Use {
            name: self.name@,
            key: self.key@,
            offset: self.offset as int,
            shape: self.shape@,
        }
    }
}

/// What a run of tensors stands for.
pub open spec fn uses(tensors: Seq<TensorUse>) -> Seq<Use> {
    Seq::new(tensors.len(), |i: int| tensors[i]@)
}

// ---------- shapes ----------

/// The number of elements of a shape.
pub open spec fn product(shape: Seq<usize>) -> nat
    decreases shape.len(),
{
    if shape.len() == 0 {
        1
    } else {
        shape[0] as nat * product(shape.drop_first())
    }
}

/// The number of dimensions that have both a size and a stride.
pub open spec fn rank(shape: Seq<usize>, stride: Seq<usize>) -> int {
    if shape.len() <= stride.len() {
        shape.len() as int
    } else {
        stride.len() as int
    }
}

/// Whether stepping along each dimension skips exactly the elements of the
/// dimensions behind it. The stride of a dimension of size one does not matter.
pub open spec fn contiguous(shape: Seq<usize>, stride: Seq<usize>) -> bool {
    let n = rank(shape, stride);
    forall|i: int|
        0 <= i < n ==> #[trigger] shape[i] == 1 || stride[i] == product(shape.subrange(i + 1, n))
}

/// `a * dim`, where `a` is `None` if it does not fit.
fn times(a: Option<usize>, dim: usize, Ghost(full): Ghost<nat>) -> (r: Option<usize>)
    requires
        a matches Some(v) ==> v == full,
        a is None ==> full > usize::MAX,
    ensures
        r matches Some(v) ==> v == dim * full,
        r is None ==> dim * full > usize::MAX,
{
    if dim == 0 {
        return Some(0);
    }
    match a {
        Some(v) => {
            proof {
                assert(dim * full == v * dim) by (nonlinear_arith)
                    requires
                        v == full,
                ;
            }
            v.checked_mul(dim)
        },
        None => {
            proof {
                assert(dim * full >= full) by (nonlinear_arith)
                    requires
                        dim >= 1,
                ;
            }
            None
        },
    }
}

/// The number of elements of a shape, if it fits.
pub fn element_count(shape: &Vec<usize>) -> (r: Option<usize>)
    ensures
        match r {
            Some(n) => n == product(shape@),
            None => product(shape@) > usize::MAX,
        },
{
    let mut i: usize = shape.len();
    let mut n: Option<usize> = Some(1);
    assert(shape@.subrange(i as int, shape@.len() as int) =~= Seq::<usize>::empty());
    while i > 0
        invariant
            i <= shape@.len(),
            n matches Some(v) ==> v == product(shape@.subrange(i as int, shape@.len() as int)),
            n is None ==> product(shape@.subrange(i as int, shape@.len() as int)) > usize::MAX,
        decreases i,
    {
        let ghost longer = shape@.subrange(i - 1, shape@.len() as int);
        assert(longer.drop_first() =~= shape@.subrange(i as int, shape@.len() as int));
        n = times(n, shape[i - 1], Ghost(product(shape@.subrange(i as int, shape@.len() as int))));
        i = i - 1;
    }
    assert(shape@.subrange(0, shape@.len() as int) =~= shape@);
    n
}

/// Whether a tensor is laid out in one piece, row by row.
pub fn is_contiguous(shape: &Vec<usize>, stride: &Vec<usize>) -> (r: bool)
    ensures
        r == contiguous(shape@, stride@),
{
    let n: usize = if shape.len() <= stride.len() {
        shape.len()
    } else {
        stride.len()
    };
    let mut i: usize = n;
    let mut expected: Option<usize> = Some(1);
    assert(shape@.subrange(n as int, n as int) =~= Seq::<usize>::empty());
    while i > 0
        invariant
            i <= n == rank(shape@, stride@),
            expected matches Some(v) ==> v == product(shape@.subrange(i as int, n as int)),
            expected is None ==> product(shape@.subrange(i as int, n as int)) > usize::MAX,
            forall|k: int|
                i <= k < n ==> #[trigger] shape@[k] == 1 || stride@[k] == product(
                    shape@.subrange(k + 1, n as int),
                ),
        decreases i,
    {
        let ghost behind = shape@.subrange(i as int, n as int);
        let ghost longer = shape@.subrange(i - 1, n as int);
        assert(longer.drop_first() =~= behind);
        let dim: usize = shape[i - 1];
        let step: usize = stride[i - 1];
        let fits = match expected {
            Some(e) => step == e,
            None => false,
        };
        if dim != 1 && !fits {
            assert(!(shape@[i - 1] == 1 || stride@[i - 1] == product(
                shape@.subrange(i - 1 + 1, n as int),
            )));
            return false;
        }
        expected = times(expected, dim, Ghost(product(behind)));
        i = i - 1;
    }
    true
}

// ---------- the pickles at the head of a file ----------

/// What stands at the head of a file.
pub struct Header {
    /// The state dict.
    pub entries: Seq<(Value, Value)>,
    /// The storage keys.
    pub keys: Seq<Value>,
    /// Where the storages begin.
    pub data_start: int,
}

/// The place behind the first `n` pickles.
pub open spec fn behind_pickles(bytes: Seq<u8>, n: nat) -> Result<int, PickleError>
    decreases n,
{
    if n == 0 {
        Ok(0)
    } else {
        match behind_pickles(bytes, (n - 1) as nat) {
            Err(e) => Err(e),
            Ok(pos) => match unpickled(bytes, pos) {
                Err(e) => Err(e),
                Ok((_, next)) => Ok(next),
            },
        }
    }
}

/// Reading the head of a file.
pub open spec fn header(bytes: Seq<u8>) -> Result<Header, LoadFault> {
    match behind_pickles(bytes, 3) {
        Err(e) => Err(LoadFault::Pickle(e)),
        Ok(dict_at) => match unpickled(bytes, dict_at) {
            Err(e) => Err(LoadFault::Pickle(e)),
            Ok((Value::Dict(entries), keys_at)) => match unpickled(bytes, keys_at) {
                Err(e) => Err(LoadFault::Pickle(e)),
                Ok((Value::List(keys), data_start)) => Ok(Header { entries, keys, data_start }),
                Ok(_) => Err(LoadFault::KeysMissing),
            },
            Ok(_) => Err(LoadFault::RootNotDict),
        },
    }
}

/// The tensors among the entries of a state dict, in order; entries that are no named
/// tensors are left out. Fails on the first tensor that is not contiguous.
pub open spec fn tensors_of(entries: Seq<(Value, Value)>) -> Result<Seq<Use>, LoadFault>
    decreases entries.len(),
{
    if entries.len() == 0 {
        Ok(Seq::empty())
    } else {
        match tensors_of(entries.drop_last()) {
            Err(e) => Err(e),
            Ok(before) => match entries.last() {
                (
                    Value::Str(name),
                    Value::Tensor { key, offset, shape, stride },
                ) => if contiguous(shape, stride) {
                    Ok(before.push(Use { name, key, offset, shape }))
                } else {
                    Err(LoadFault::NotContiguous(name))
                },
                _ => Ok(before),
            },
        }
    }
}

proof fn lemma_tensors_of_fails(entries: Seq<(Value, Value)>, n: int)
    requires
        0 <= n <= entries.len(),
        tensors_of(entries.take(n)) is Err,
    ensures
        tensors_of(entries) == tensors_of(entries.take(n)),
    decreases entries.len(),
{
    if n == entries.len() {
        assert(entries.take(n) =~= entries);
    } else {
        assert(entries.drop_last().take(n) =~= entries.take(n));
        lemma_tensors_of_fails(entries.drop_last(), n);
    }
}

/// The head of a weight file, while its storages are read.
pub struct StateDict {
    /// The tensors whose storage has not come yet.
    pub tensors: Vec<TensorUse>,
    /// The storage keys, in the order of the storages.
    pub keys: Vec<Obj>,
    /// How many storages have come.
    pub next: usize,
    /// Where the storages begin.
    pub data_start: usize,
}

impl StateDict {
    pub open spec fn wf(&self) -> bool {
        self.next <= self.keys@.len()
    }
}

fn gather(entries: Vec<(Obj, Obj)>) -> (r: Result<Vec<TensorUse>, LoadError>)
    ensures
        match r {
            Ok(tensors) => tensors_of(pair_values(entries@)) == Ok::<Seq<Use>, LoadFault>(
                uses(tensors@),
            ),
            Err(e) => tensors_of(pair_values(entries@)) == Err::<Seq<Use>, LoadFault>(e@),
        },
{
    let ghost all = pair_values(entries@);
    let ghost objs = entries@;
    let mut tensors: Vec<TensorUse> = Vec::new();
    assert(all.take(0) =~= Seq::empty());
    assert(uses(tensors@) =~= Seq::empty());
    for entry in it: entries
        invariant
            it.seq() == objs,
            all == pair_values(objs),
            tensors_of(all.take(it.index())) == Ok::<Seq<Use>, LoadFault>(uses(tensors@)),
    {
        let ghost at = it.index();
        let ghost before = uses(tensors@);
        proof {
            assert(all.take(at + 1).drop_last() =~= all.take(at));
            assert(all.take(at + 1).last() == all[at]);
            assert(all[at] == (entry.0.value(), entry.1.value()));
        }
        match entry {
            (Obj::Str(name), Obj::Tensor { key, offset, shape, stride }) => {
                if !is_contiguous(&shape, &stride) {
                    let e = LoadError::NotContiguous(name);
                    proof {
                        lemma_tensors_of_fails(all, at + 1);
                    }
                    return Err(e);
                }
                tensors.push(TensorUse { name, key, offset, shape });
                assert(uses(tensors@) =~= before.push(tensors@.last()@));
            },
            _ => {},
        }
    }
    assert(all.take(all.len() as int) =~= all);
    Ok(tensors)
}

/// Reads the pickles at the head of a file.
pub fn read_header(head: &[u8]) -> (r: Result<StateDict, LoadError>)
    ensures
        match r {
            Ok(d) => {
                &&& d.wf()
                &&& d.next == 0
                &&& header(head@) matches Ok(h)
                &&& tensors_of(h.entries) == Ok::<Seq<Use>, LoadFault>(uses(d.tensors@))
                &&& values(d.keys@) == h.keys
                &&& d.data_start == h.data_start
            },
            Err(e) => match header(head@) {
                Ok(h) => tensors_of(h.entries) == Err::<Seq<Use>, LoadFault>(e@),
                Err(fault) => fault == e@,
            },
        },
{
    let mut c = Cursor { bytes: head, pos: 0 };
    let mut i: usize = 0;
    while i < 3
        invariant
            i <= 3,
            c.wf(),
            c.bytes@ == head@,
            behind_pickles(head@, i as nat) == Ok::<int, PickleError>(c.pos as int),
        decreases 3 - i,
    {
        match run_pickle(&mut c) {
            Ok(_) => {},
            Err(e) => {
                proof {
                    lemma_behind_pickles_fails(head@, (i + 1) as nat, 3);
                }
                return Err(LoadError::Pickle(e));
            },
        }
        i = i + 1;
    }
    let entries = match run_pickle(&mut c) {
        Ok(Obj::Dict(entries)) => entries,
        Ok(_) => {
            return Err(LoadError::RootNotDict);
        },
        Err(e) => {
            return Err(LoadError::Pickle(e));
        },
    };
    proof {
        lemma_dict_value(entries);
    }
    let keys = match run_pickle(&mut c) {
        Ok(Obj::List(keys)) => keys,
        Ok(_) => {
            return Err(LoadError::KeysMissing);
        },
        Err(e) => {
            return Err(LoadError::Pickle(e));
        },
    };
    proof {
        lemma_list_value(keys);
    }
    match gather(entries) {
        Ok(tensors) => Ok(StateDict { tensors, keys, next: 0, data_start: c.pos }),
        Err(e) => Err(e),
    }
}

proof fn lemma_behind_pickles_fails(bytes: Seq<u8>, n: nat, m: nat)
    requires
        n <= m,
        behind_pickles(bytes, n) is Err,
    ensures
        behind_pickles(bytes, m) == behind_pickles(bytes, n),
    decreases m - n,
{
    if n < m {
        lemma_behind_pickles_fails(bytes, n, (m - 1) as nat);
    }
}

// ---------- the storages ----------

/// The tensors that live in a storage.
pub open spec fn in_storage(tensors: Seq<Use>, key: Seq<char>) -> Seq<Use>
    decreases tensors.len(),
{
    if tensors.len() == 0 {
        Seq::empty()
    } else {
        let before = in_storage(tensors.drop_last(), key);
        if tensors.last().key == key {
            before.push(tensors.last())
        } else {
            before
        }
    }
}

/// The tensors that live in other storages.
pub open spec fn elsewhere(tensors: Seq<Use>, key: Seq<char>) -> Seq<Use>
    decreases tensors.len(),
{
    if tensors.len() == 0 {
        Seq::empty()
    } else {
        let before = elsewhere(tensors.drop_last(), key);
        if tensors.last().key == key {
            before
        } else {
            before.push(tensors.last())
        }
    }
}

/// A tensor and the elements of the storage that it takes.
pub struct Piece {
    pub name: String,
    pub start: usize,
    pub end: usize,
    pub shape: Vec<usize>,
}

/// What a `Piece` stands for.
#[verifier::ext_equal]
pub struct PieceView {
    pub name: Seq<char>,
    pub start: int,
    pub end: int,
    pub shape: Seq<usize>,
}

impl View for Piece {
    type V = PieceView;

    open spec fn view(&self) -> PieceView {
        PieceView {
            name: self.name@,
            start: self.start as int,
            end: self.end as int,
            shape: self.shape@,
        }
    }
}

/// What a run of pieces stands for.
pub open spec fn piece_views(pieces: Seq<Piece>) -> Seq<PieceView> {
    Seq::new(pieces.len(), |i: int| pieces[i]@)
}

/// Whether a tensor lies inside a storage of `numel` elements.
pub open spec fn fits(t: Use, numel: int) -> bool {
    0 <= t.offset && t.offset + product(t.shape) <= numel
}

/// The elements that each tensor takes of a storage of `numel` elements. Fails on the
/// first tensor that reaches beyond it.
pub open spec fn pieces_of(tensors: Seq<Use>, numel: int) -> Result<Seq<PieceView>, LoadFault>
    decreases tensors.len(),
{
    if tensors.len() == 0 {
        Ok(Seq::empty())
    } else {
        match pieces_of(tensors.drop_last(), numel) {
            Err(e) => Err(e),
            Ok(before) => {
                let t = tensors.last();
                if fits(t, numel) {
                    Ok(
                        before.push(
                            PieceView {
                                name: t.name,
                                start: t.offset,
                                end: t.offset + product(t.shape),
                                shape: t.shape,
                            },
                        ),
                    )
                } else {
                    Err(LoadFault::ExceedsStorage(t.name))
                }
            },
        }
    }
}

proof fn lemma_pieces_of_fails(tensors: Seq<Use>, numel: int, n: int)
    requires
        0 <= n <= tensors.len(),
        pieces_of(tensors.take(n), numel) is Err,
    ensures
        pieces_of(tensors, numel) == pieces_of(tensors.take(n), numel),
    decreases tensors.len(),
{
    if n == tensors.len() {
        assert(tensors.take(n) =~= tensors);
    } else {
        assert(tensors.drop_last().take(n) =~= tensors.take(n));
        lemma_pieces_of_fails(tensors.drop_last(), numel, n);
    }
}

/// What is to be done with a storage.
pub enum Claim {
    /// No tensor lives in it: pass over that many bytes.
    Skip(u64),
    /// Read it and make these tensors of it.
    Load(Vec<Piece>),
}

fn cut(tensors: Vec<TensorUse>, numel: usize) -> (r: Result<Vec<Piece>, LoadError>)
    ensures
        match r {
            Ok(pieces) => pieces_of(uses(tensors@), numel as int) == Ok::<
                Seq<PieceView>,
                LoadFault,
            >(piece_views(pieces@)),
            Err(e) => pieces_of(uses(tensors@), numel as int) == Err::<Seq<PieceView>, LoadFault>(
                e@,
            ),
        },
{
    let ghost all = uses(tensors@);
    let ghost objs = tensors@;
    let mut pieces: Vec<Piece> = Vec::new();
    assert(all.take(0) =~= Seq::empty());
    assert(piece_views(pieces@) =~= Seq::empty());
    for t in it: tensors
        invariant
            it.seq() == objs,
            all == uses(objs),
            pieces_of(all.take(it.index()), numel as int) == Ok::<Seq<PieceView>, LoadFault>(
                piece_views(pieces@),
            ),
    {
        let ghost at = it.index();
        let ghost before = piece_views(pieces@);
        proof {
            assert(all.take(at + 1).drop_last() =~= all.take(at));
            assert(all.take(at + 1).last() == all[at]);
            assert(all[at] == t@);
        }
        let end: Option<usize> = match element_count(&t.shape) {
            Some(n) => if t.offset >= 0 && t.offset as u64 <= numel as u64 && n <= numel
                - t.offset as usize {
                Some(t.offset as usize + n)
            } else {
                None
            },
            None => None,
        };
        match end {
            Some(end) => {
                assert(fits(t@, numel as int));
                pieces.push(
                    Piece { name: t.name, start: t.offset as usize, end, shape: t.shape },
                );
                assert(piece_views(pieces@) =~= before.push(pieces@.last()@));
            },
            None => {
                assert(!fits(t@, numel as int));
                let e = LoadError::ExceedsStorage(t.name);
                proof {
                    lemma_pieces_of_fails(all, numel as int, at + 1);
                }
                return Err(e);
            },
        }
    }
    assert(all.take(all.len() as int) =~= all);
    Ok(pieces)
}

impl StateDict {
    /// The key of the next storage, or `None` behind the last one.
    pub fn next_key(&mut self) -> (r: Result<Option<String>, LoadError>)
        requires
            old(self).wf(),
        ensures
            final(self).wf(),
            final(self).tensors == old(self).tensors,
            final(self).keys == old(self).keys,
            final(self).data_start == old(self).data_start,
            match r {
                Ok(None) => {
                    &&& old(self).next == old(self).keys@.len()
                    &&& final(self).next == old(self).next
                },
                Ok(Some(key)) => {
                    &&& old(self).next < old(self).keys@.len()
                    &&& old(self).keys@[old(self).next as int].value() == Value::Str(key@)
                    &&& final(self).next == old(self).next + 1
                },
                Err(e) => {
                    &&& e@ == LoadFault::BadStorageKey
                    &&& old(self).next < old(self).keys@.len()
                    &&& !(old(self).keys@[old(self).next as int].value() is Str)
                    &&& final(self).next == old(self).next
                },
            },
    {
        if self.next == self.keys.len() {
            return Ok(None);
        }
        let key = match &self.keys[self.next] {
            Obj::Str(key) => key.clone(),
            _ => {
                return Err(LoadError::BadStorageKey);
            },
        };
        self.next = self.next + 1;
        Ok(Some(key))
    }

    /// Claims a storage of `numel` elements for the tensors that live in it.
    pub fn claim(&mut self, key: &String, numel: usize) -> (r: Result<Claim, LoadError>)
        requires
            old(self).wf(),
            numel * ELEMENT <= i64::MAX,
        ensures
            final(self).wf(),
            final(self).keys == old(self).keys,
            final(self).next == old(self).next,
            final(self).data_start == old(self).data_start,
            uses(final(self).tensors@) == elsewhere(uses(old(self).tensors@), key@),
            ({
                let mine = in_storage(uses(old(self).tensors@), key@);
                match r {
                    Ok(Claim::Skip(bytes)) => mine.len() == 0 && bytes == numel * ELEMENT,
                    Ok(Claim::Load(pieces)) => {
                        &&& mine.len() > 0
                        &&& pieces_of(mine, numel as int) == Ok::<Seq<PieceView>, LoadFault>(
                            piece_views(pieces@),
                        )
                    },
                    Err(e) => {
                        &&& mine.len() > 0
                        &&& pieces_of(mine, numel as int) == Err::<Seq<PieceView>, LoadFault>(e@)
                    },
                }
            }),
    {
        let ghost all = uses(self.tensors@);
        let ghost objs = self.tensors@;
        let mut pending: Vec<TensorUse> = Vec::new();
        std::mem::swap(&mut pending, &mut self.tensors);
        let mut mine: Vec<TensorUse> = Vec::new();
        let mut rest: Vec<TensorUse> = Vec::new();
        proof {
            assert(all.take(0) =~= Seq::empty());
            assert(uses(mine@) =~= Seq::empty());
            assert(uses(rest@) =~= Seq::empty());
        }
        for t in it: pending
            invariant
                it.seq() == objs,
                all == uses(objs),
                uses(mine@) == in_storage(all.take(it.index()), key@),
                uses(rest@) == elsewhere(all.take(it.index()), key@),
        {
            let ghost at = it.index();
            let ghost mine_before = uses(mine@);
            let ghost rest_before = uses(rest@);
            proof {
                assert(all.take(at + 1).drop_last() =~= all.take(at));
                assert(all.take(at + 1).last() == all[at]);
                assert(all[at] == t@);
            }
            if t.key == *key {
                mine.push(t);
                assert(uses(mine@) =~= mine_before.push(all[at]));
            } else {
                rest.push(t);
                assert(uses(rest@) =~= rest_before.push(all[at]));
            }
        }
        assert(all.take(all.len() as int) =~= all);
        self.tensors = rest;
        if mine.len() == 0 {
            Ok(Claim::Skip(numel as u64 * ELEMENT))
        } else {
            match cut(mine, numel) {
                Ok(pieces) => Ok(Claim::Load(pieces)),
                Err(e) => Err(e),
            }
        }
    }
}

/// Whether a file that begins with these two bytes is of the older format: the newer
/// one is a zip archive.
pub fn is_legacy(magic: [u8; 2]) -> (r: bool)
    ensures
        r == !(magic@[0] == 0x50 && magic@[1] == 0x4b),
{
    !(magic[0] == 0x50 && magic[1] == 0x4b)
}

// ---------- laws ----------

/// A tensor is handed out with the first storage of its key and never again: once a
/// key was claimed, nothing that still waits has it.
pub proof fn law_a_storage_is_claimed_once(tensors: Seq<Use>, key: Seq<char>)
    ensures
        in_storage(elsewhere(tensors, key), key).len() == 0,
    decreases tensors.len(),
{
    if tensors.len() > 0 {
        law_a_storage_is_claimed_once(tensors.drop_last(), key);
        if tensors.last().key != key {
            assert(elsewhere(tensors, key).drop_last() =~= elsewhere(tensors.drop_last(), key));
        }
    }
}

/// Claiming one storage leaves the tensors of every other storage waiting.
pub proof fn law_other_storages_stay(tensors: Seq<Use>, key: Seq<char>, other: Seq<char>)
    requires
        key != other,
    ensures
        in_storage(elsewhere(tensors, key), other) == in_storage(tensors, other),
    decreases tensors.len(),
{
    if tensors.len() > 0 {
        law_other_storages_stay(tensors.drop_last(), key, other);
        if tensors.last().key != key {
            assert(elsewhere(tensors, key).drop_last() =~= elsewhere(tensors.drop_last(), key));
        }
    }
}

/// The distance between a tensor's first and last element.
pub open spec fn extent(shape: Seq<usize>, stride: Seq<usize>) -> int
    decreases shape.len(),
{
    if shape.len() == 0 || stride.len() == 0 {
        0
    } else {
        (shape[0] - 1) * stride[0] + extent(shape.drop_first(), stride.drop_first())
    }
}

/// A contiguous tensor without empty dimensions takes exactly as many consecutive
/// elements as its shape has.
pub proof fn law_contiguous_tensors_have_no_gaps(shape: Seq<usize>, stride: Seq<usize>)
    requires
        shape.len() == stride.len(),
        contiguous(shape, stride),
        forall|i: int| 0 <= i < shape.len() ==> shape[i] >= 1,
    ensures
        extent(shape, stride) + 1 == product(shape),
    decreases shape.len(),
{
    if shape.len() > 0 {
        let s = shape.drop_first();
        let t = stride.drop_first();
        let n = shape.len() as int;
        assert forall|i: int| 0 <= i < s.len() implies #[trigger] s[i] == 1 || t[i] == product(
            s.subrange(i + 1, s.len() as int),
        ) by {
            assert(s[i] == shape[i + 1]);
            assert(s.subrange(i + 1, s.len() as int) =~= shape.subrange(i + 1 + 1, n));
        }
        law_contiguous_tensors_have_no_gaps(s, t);
        assert(shape.subrange(1, n) =~= s);
        let d = shape[0] as int;
        let p = product(s) as int;
        assert(shape[0] == 1 || stride[0] == p);
        assert((d - 1) * p + p == d * p) by (nonlinear_arith);
        assert(product(shape) == d * p);
        if d == 1 {
            assert(d * p == p) by (nonlinear_arith)
                requires
                    d == 1,
            ;
            assert((d - 1) * stride[0] == 0) by (nonlinear_arith)
                requires
                    d == 1,
            ;
        }
    }
}

proof fn lemma_behind_pickles(bytes: Seq<u8>, more: Seq<u8>, n: nat)
    requires
        behind_pickles(bytes, n) is Ok,
    ensures
        behind_pickles(bytes + more, n) == behind_pickles(bytes, n),
        0 <= behind_pickles(bytes, n)->Ok_0 <= bytes.len(),
    decreases n,
{
    if n > 0 {
        lemma_behind_pickles(bytes, more, (n - 1) as nat);
        let pos = behind_pickles(bytes, (n - 1) as nat)->Ok_0;
        law_pickle_ignores_what_follows(bytes, more, pos);
        law_pickle_ends_behind_its_stop(bytes, pos);
    }
}

/// A header that is complete does not depend on what follows it: the beginning of a file is
/// enough to read it, and the storages begin inside of that.
pub proof fn law_a_header_ignores_what_follows(bytes: Seq<u8>, more: Seq<u8>)
    requires
        header(bytes) is Ok,
    ensures
        header(bytes + more) == header(bytes),
        0 < header(bytes)->Ok_0.data_start <= bytes.len(),
{
    lemma_behind_pickles(bytes, more, 3);
    let dict_at = behind_pickles(bytes, 3)->Ok_0;
    law_pickle_ignores_what_follows(bytes, more, dict_at);
    law_pickle_ends_behind_its_stop(bytes, dict_at);
    let keys_at = unpickled(bytes, dict_at)->Ok_0.1;
    law_pickle_ignores_what_follows(bytes, more, keys_at);
    law_pickle_ends_behind_its_stop(bytes, keys_at);
}

/// What is cut out of a storage lies inside of it, and is as many elements as the shape of
/// the tensor has.
pub proof fn law_pieces_lie_inside_of_their_storage(tensors: Seq<Use>, numel: int, i: int)
    requires
        pieces_of(tensors, numel) is Ok,
        0 <= i < tensors.len(),
    ensures
        ({
            let pieces = pieces_of(tensors, numel)->Ok_0;
            &&& pieces.len() == tensors.len()
            &&& pieces[i].name == tensors[i].name
            &&& pieces[i].shape == tensors[i].shape
            &&& 0 <= pieces[i].start <= pieces[i].end <= numel
            &&& pieces[i].end - pieces[i].start == product(tensors[i].shape)
        }),
    decreases tensors.len(),
{
    let init = tensors.drop_last();
    if i < init.len() {
        law_pieces_lie_inside_of_their_storage(init, numel, i);
    } else {
        lemma_pieces_len(init, numel);
    }
}

proof fn lemma_pieces_len(tensors: Seq<Use>, numel: int)
    requires
        pieces_of(tensors, numel) is Ok,
    ensures
        pieces_of(tensors, numel)->Ok_0.len() == tensors.len(),
    decreases tensors.len(),
{
    if tensors.len() > 0 {
        lemma_pieces_len(tensors.drop_last(), numel);
    }
}

/// A file begins with three pickles that do not matter, a dict of tensors, and a list of the keys
/// of the storages. The storages begin behind them.
pub proof fn law_a_file_begins_with_five_pickles(
    bytes: Seq<u8>,
    first: (Value, int),
    second: (Value, int),
    third: (Value, int),
    entries: Seq<(Value, Value)>,
    keys_at: int,
    keys: Seq<Value>,
    data_start: int,
)
    requires
        unpickled(bytes, 0) == Ok::<(Value, int), PickleError>(first),
        unpickled(bytes, first.1) == Ok::<(Value, int), PickleError>(second),
        unpickled(bytes, second.1) == Ok::<(Value, int), PickleError>(third),
        unpickled(bytes, third.1) == Ok::<(Value, int), PickleError>(
            (Value::Dict(entries), keys_at),
        ),
        unpickled(bytes, keys_at) == Ok::<(Value, int), PickleError>(
            (Value::List(keys), data_start),
        ),
    ensures
        header(bytes) == Ok::<Header, LoadFault>(Header { entries, keys, data_start }),
{
    reveal_with_fuel(behind_pickles, 4);
}

/// The tensors of a dict are those of its entries that are named tensors, each with its name, its
/// storage, its offset and its shape, in order. One that is not laid out row by row fails.
pub proof fn law_named_tensors_are_taken(
    entries: Seq<(Value, Value)>,
    before: Seq<Use>,
    name: Seq<char>,
    key: Seq<char>,
    offset: int,
    shape: Seq<usize>,
    stride: Seq<usize>,
    k: Value,
    v: Value,
)
    requires
        tensors_of(entries) == Ok::<Seq<Use>, LoadFault>(before),
    ensures
        tensors_of(Seq::empty()) == Ok::<Seq<Use>, LoadFault>(Seq::empty()),
        ({
            let with = entries.push((Value::Str(name), Value::Tensor { key, offset, shape, stride }));
            if contiguous(shape, stride) {
                tensors_of(with) == Ok::<Seq<Use>, LoadFault>(
                    before.push(Use { name, key, offset, shape }),
                )
            } else {
                tensors_of(with) == Err::<Seq<Use>, LoadFault>(LoadFault::NotContiguous(name))
            }
        }),
        !(k is Str) || !(v is Tensor) ==> tensors_of(entries.push((k, v))) == Ok::<
            Seq<Use>,
            LoadFault,
        >(before),
{
    let with = entries.push((Value::Str(name), Value::Tensor { key, offset, shape, stride }));
    assert(with.drop_last() =~= entries);
    assert(entries.push((k, v)).drop_last() =~= entries);
}

/// A matrix is laid out row by row where its rows lie as many elements apart as they have, and the
/// elements of a row one by one. That does not matter along a side of one.
pub proof fn law_rows_lie_one_behind_the_other(rows: usize, columns: usize, step: usize, next: usize)
    ensures
        contiguous(seq![rows, columns], seq![step, next]) <==> (rows == 1 || step == columns) && (
        columns == 1 || next == 1),
        product(seq![rows, columns]) == rows * columns,
        product(Seq::empty()) == 1,
{
    let (shape, stride) = (seq![rows, columns], seq![step, next]);
    reveal_with_fuel(product, 3);
    assert(shape.drop_first() =~= seq![columns]);
    assert(seq![columns].drop_first() =~= Seq::<usize>::empty());
    assert(shape.subrange(1, 2) =~= seq![columns]);
    assert(shape.subrange(2, 2) =~= Seq::<usize>::empty());
    assert(columns * 1 == columns);
    assert(shape[0] == rows && shape[1] == columns);
}

/// A shape has as many elements as its first side times those of the rest.
pub proof fn law_shapes_multiply(side: usize, rest: Seq<usize>)
    ensures
        product(seq![side] + rest) == side * product(rest),
{
    assert((seq![side] + rest).drop_first() =~= rest);
}

/// A tensor lives in a storage exactly where it has its key, and waits otherwise.
pub proof fn law_tensors_live_in_the_storage_of_their_key(tensors: Seq<Use>, t: Use, key: Seq<char>)
    ensures
        t.key == key ==> in_storage(tensors.push(t), key) == in_storage(tensors, key).push(t)
            && elsewhere(tensors.push(t), key) == elsewhere(tensors, key),
        t.key != key ==> in_storage(tensors.push(t), key) == in_storage(tensors, key) && elsewhere(
            tensors.push(t),
            key,
        ) == elsewhere(tensors, key).push(t),
        in_storage(Seq::empty(), key).len() == 0,
        elsewhere(Seq::empty(), key).len() == 0,
{
    assert(tensors.push(t).drop_last() =~= tensors);
}

/// A tensor takes its elements from its offset on, as many as its shape has. One that begins
/// before its storage or reaches beyond it fails, by its name.
pub proof fn law_tensors_begin_at_their_offset(
    tensors: Seq<Use>,
    before: Seq<PieceView>,
    t: Use,
    numel: int,
)
    requires
        pieces_of(tensors, numel) == Ok::<Seq<PieceView>, LoadFault>(before),
    ensures
        0 <= t.offset && t.offset + product(t.shape) <= numel ==> pieces_of(tensors.push(t), numel)
            == Ok::<Seq<PieceView>, LoadFault>(
            before.push(
                PieceView {
                    name: t.name,
                    start: t.offset,
                    end: t.offset + product(t.shape),
                    shape: t.shape,
                },
            ),
        ),
        t.offset < 0 || t.offset + product(t.shape) > numel ==> pieces_of(tensors.push(t), numel)
            == Err::<Seq<PieceView>, LoadFault>(LoadFault::ExceedsStorage(t.name)),
{
    assert(tensors.push(t).drop_last() =~= tensors);
}

/// The elements of a storage take four bytes each.
pub proof fn law_elements_take_four_bytes()
    ensures
        ELEMENT == 4,
{
}

} // verus!
