//! A reader for the part of Python's pickle format that weight files use.

use vstd::prelude::*;
use vstd::slice::slice_subrange;
use vstd::utf8::decode_utf8;
use vstd::utf8::valid_utf8;

use crate::bytes::law_bytes_count_from_the_least;
use crate::bytes::law_the_highest_bit_is_the_sign;
use crate::bytes::le;
use crate::bytes::read_le;
use crate::bytes::signed;
use crate::bytes::to_i32;
use crate::bytes::to_i64;
use crate::text::read_as;
use crate::text::utf8_lossy;

verus! {

/// Why a pickle could not be read.
#[derive(Clone, Copy, Debug, PartialEq, Eq, Structural)]
pub enum PickleError {
    /// The bytes end inside an instruction.
    UnexpectedEnd,
    /// A text line has no newline.
    UnterminatedLine,
    /// A string is no UTF-8.
    InvalidText,
    /// An instruction that collects items finds no mark.
    MarkMissing,
    /// An instruction takes more values than the stack holds.
    StackUnderflow,
    /// An instruction looks at the top of an empty stack.
    EmptyStack,
    /// Items are set on something that is no dict.
    SetItemOnNonDict,
    /// Items are appended to something that is no list.
    AppendOnNonList,
    /// A memo entry is read that was never written.
    BadMemoIndex,
    /// The instruction is not supported.
    UnsupportedOpcode(u8),
    /// Something that is no global is called.
    ReduceOnNonGlobal,
    /// A global is called with something that is no tuple.
    ReduceArgsNotTuple,
    /// A tensor is built on something that is no persistent id.
    TensorWithoutStorage,
    /// The persistent id of a tensor's storage is no tuple.
    BadStorageId,
    /// The storage is not a float32 storage.
    UnsupportedStorage,
    /// A tensor's offset is no integer.
    BadOffset,
    /// A tensor has no shape.
    NoShape,
    /// A tensor has no stride.
    NoStride,
    /// A shape or stride is no tuple.
    NotATuple,
    /// A shape or stride holds something that is no size.
    NotASize,
    /// The called global is not supported.
    UnsupportedCallable,
}

/// A value on the pickle machine's stack.
pub enum Obj {
    Nil,
    Int(i64),
    Str(String),
    Tuple(Vec<Obj>),
    List(Vec<Obj>),
    Dict(Vec<(Obj, Obj)>),
    Global(String),
    Mark,
    PersId(Box<Obj>),
    Tensor { key: String, offset: i64, shape: Vec<usize>, stride: Vec<usize> },
}

/// What an `Obj` stands for.
#[verifier::ext_equal]
pub enum Value {
    Nil,
    Int(int),
    Str(Seq<char>),
    Tuple(Seq<Value>),
    List(Seq<Value>),
    Dict(Seq<(Value, Value)>),
    Global(Seq<char>),
    Mark,
    PersId(Box<Value>),
    Tensor { key: Seq<char>, offset: int, shape: Seq<usize>, stride: Seq<usize> },
}

impl Obj {
    pub open spec fn value(self) -> Value
        decreases self,
    {
        match self {
            Obj::Nil => Value::Nil,
            Obj::Int(v) => Value::Int(v as int),
            Obj::Str(s) => Value::Str(s@),
            Obj::Tuple(items) => Value::Tuple(
                Seq::new(
                    items@.len(),
                    |i: int|
                        if 0 <= i < items@.len() {
                            items@[i].value()
                        } else {
                            Value::Nil
                        },
                ),
            ),
            Obj::List(items) => Value::List(
                Seq::new(
                    items@.len(),
                    |i: int|
                        if 0 <= i < items@.len() {
                            items@[i].value()
                        } else {
                            Value::Nil
                        },
                ),
            ),
            Obj::Dict(items) => Value::Dict(
                Seq::new(
                    items@.len(),
                    |i: int|
                        if 0 <= i < items@.len() {
                            (items@[i].0.value(), items@[i].1.value())
                        } else {
                            (Value::Nil, Value::Nil)
                        },
                ),
            ),
            Obj::Global(s) => Value::Global(s@),
            Obj::Mark => Value::Mark,
            Obj::PersId(pid) => Value::PersId(Box::new((*pid).value())),
            Obj::Tensor { key, offset, shape, stride } => Value::Tensor {
                key: key@,
                offset: offset as int,
                shape: shape@,
                stride: stride@,
            },
        }
    }

    /// A copy that stands for the same value.
    pub fn dup(&self) -> (r: Obj)
        ensures
            r.value() == self.value(),
        decreases self,
    {
        match self {
            Obj::Nil => Obj::Nil,
            Obj::Int(v) => Obj::Int(*v),
            Obj::Str(s) => Obj::Str(s.clone()),
            Obj::Tuple(items) => {
                let copy = Obj::dup_all(items);
                let r = Obj::Tuple(copy);
                proof {
                    lemma_tuple_value(*items);
                    lemma_tuple_value(copy);
                }
                r
            },
            Obj::List(items) => {
                let copy = Obj::dup_all(items);
                let r = Obj::List(copy);
                proof {
                    lemma_list_value(*items);
                    lemma_list_value(copy);
                }
                r
            },
            Obj::Dict(items) => {
                let copy = Obj::dup_pairs(items);
                let r = Obj::Dict(copy);
                proof {
                    lemma_dict_value(*items);
                    lemma_dict_value(copy);
                }
                r
            },
            Obj::Global(s) => Obj::Global(s.clone()),
            Obj::Mark => Obj::Mark,
            Obj::PersId(pid) => Obj::PersId(Box::new((**pid).dup())),
            Obj::Tensor { key, offset, shape, stride } => Obj::Tensor {
                key: key.clone(),
                offset: *offset,
                shape: shape.clone(),
                stride: stride.clone(),
            },
        }
    }

    fn dup_pairs(items: &Vec<(Obj, Obj)>) -> (r: Vec<(Obj, Obj)>)
        ensures
            pair_values(r@) == pair_values(items@),
        decreases items,
    {
        let mut copy: Vec<(Obj, Obj)> = Vec::new();
        let mut i: usize = 0;
        while i < items.len()
            invariant
                i <= items@.len(),
                copy@.len() == i,
                forall|k: int|
                    0 <= k < i ==> (#[trigger] copy@[k]).0.value() == items@[k].0.value()
                        && copy@[k].1.value() == items@[k].1.value(),
            decreases items@.len() - i,
        {
            proof {
                let pair = items@[i as int];
                assert(decreases_to!(items => items@[i as int]));
                assert(decreases_to!(pair => pair.0));
                assert(decreases_to!(pair => pair.1));
            }
            let k = items[i].0.dup();
            let v = items[i].1.dup();
            copy.push((k, v));
            i = i + 1;
        }
        assert(pair_values(copy@) =~= pair_values(items@));
        copy
    }

    fn dup_all(items: &Vec<Obj>) -> (r: Vec<Obj>)
        ensures
            values(r@) == values(items@),
        decreases items,
    {
        let mut copy: Vec<Obj> = Vec::new();
        let mut i: usize = 0;
        while i < items.len()
            invariant
                i <= items@.len(),
                copy@.len() == i,
                forall|k: int|
                    0 <= k < i ==> (#[trigger] copy@[k]).value() == items@[k].value(),
            decreases items@.len() - i,
        {
            let o = items[i].dup();
            copy.push(o);
            i = i + 1;
        }
        assert(values(copy@) =~= values(items@));
        copy
    }
}

/// The values of a run of objects.
pub open spec fn values(items: Seq<Obj>) -> Seq<Value> {
    Seq::new(items.len(), |i: int| items[i].value())
}

/// The values of a run of pairs.
pub open spec fn pair_values(items: Seq<(Obj, Obj)>) -> Seq<(Value, Value)> {
    Seq::new(items.len(), |i: int| (items[i].0.value(), items[i].1.value()))
}

pub proof fn lemma_tuple_value(items: Vec<Obj>)
    ensures
        Obj::Tuple(items).value() == Value::Tuple(values(items@)),
{
    assert(Obj::Tuple(items).value()->Tuple_0 =~= values(items@));
}

pub proof fn lemma_list_value(items: Vec<Obj>)
    ensures
        Obj::List(items).value() == Value::List(values(items@)),
{
    assert(Obj::List(items).value()->List_0 =~= values(items@));
}

pub proof fn lemma_dict_value(items: Vec<(Obj, Obj)>)
    ensures
        Obj::Dict(items).value() == Value::Dict(pair_values(items@)),
{
    assert(Obj::Dict(items).value()->Dict_0 =~= pair_values(items@));
}

// ---------- reading bytes ----------

/// The place of the first newline at or after `pos`, if there is one.
pub open spec fn newline_from(bytes: Seq<u8>, pos: int) -> Option<int>
    decreases bytes.len() - pos,
{
    if pos < 0 || pos >= bytes.len() {
        None
    } else if bytes[pos] == 10 {
        Some(pos)
    } else {
        newline_from(bytes, pos + 1)
    }
}

pub proof fn lemma_newline_from(bytes: Seq<u8>, pos: int)
    requires
        0 <= pos,
    ensures
        newline_from(bytes, pos) matches Some(at) ==> pos <= at < bytes.len() && bytes[at] == 10
            && forall|k: int| pos <= k < at ==> bytes[k] != 10,
        newline_from(bytes, pos) is None ==> forall|k: int|
            pos <= k < bytes.len() ==> bytes[k] != 10,
    decreases bytes.len() - pos,
{
    if pos < bytes.len() && bytes[pos] != 10 {
        lemma_newline_from(bytes, pos + 1);
    }
}

/// A place in a run of bytes.
pub struct Cursor<'a> {
    pub bytes: &'a [u8],
    pub pos: usize,
}

impl<'a> Cursor<'a> {
    /// The place lies inside the bytes or at their end.
    pub open spec fn wf(&self) -> bool {
        self.pos <= self.bytes@.len()
    }

    /// The next `n` bytes.
    pub fn take(&mut self, n: usize) -> (r: Result<&'a [u8], PickleError>)
        requires
            old(self).wf(),
        ensures
            final(self).wf(),
            final(self).bytes == old(self).bytes,
            match r {
                Ok(slice) => {
                    &&& old(self).pos + n <= old(self).bytes@.len()
                    &&& slice@ == old(self).bytes@.subrange(
                        old(self).pos as int,
                        old(self).pos + n,
                    )
                    &&& final(self).pos == old(self).pos + n
                },
                Err(e) => {
                    &&& e == PickleError::UnexpectedEnd
                    &&& old(self).pos + n > old(self).bytes@.len()
                    &&& final(self).pos == old(self).pos
                },
            },
    {
        if n <= self.bytes.len() - self.pos {
            let end: usize = self.pos + n;
            let slice = slice_subrange(self.bytes, self.pos, end);
            self.pos = end;
            Ok(slice)
        } else {
            Err(PickleError::UnexpectedEnd)
        }
    }

    /// A number of `n` bytes.
    fn number(&mut self, n: usize) -> (r: Result<u64, PickleError>)
        requires
            old(self).wf(),
            n <= 8,
        ensures
            final(self).wf(),
            final(self).bytes == old(self).bytes,
            match r {
                Ok(v) => {
                    &&& v == le_at(old(self).bytes@, old(self).pos as int, n as int)
                    &&& old(self).pos + n <= old(self).bytes@.len()
                    &&& final(self).pos == old(self).pos + n
                },
                Err(e) => {
                    &&& e == PickleError::UnexpectedEnd
                    &&& old(self).pos + n > old(self).bytes@.len()
                    &&& final(self).pos == old(self).pos
                },
            },
    {
        match self.take(n) {
            Ok(slice) => Ok(read_le(slice)),
            Err(e) => Err(e),
        }
    }

    /// One byte.
    pub fn u8(&mut self) -> (r: Result<u8, PickleError>)
        requires
            old(self).wf(),
        ensures
            final(self).wf(),
            final(self).bytes == old(self).bytes,
            match r {
                Ok(v) => {
                    &&& old(self).pos < old(self).bytes@.len()
                    &&& v == old(self).bytes@[old(self).pos as int]
                    &&& final(self).pos == old(self).pos + 1
                },
                Err(e) => {
                    &&& e == PickleError::UnexpectedEnd
                    &&& old(self).pos == old(self).bytes@.len()
                    &&& final(self).pos == old(self).pos
                },
            },
    {
        match self.take(1) {
            Ok(slice) => Ok(slice[0]),
            Err(e) => Err(e),
        }
    }

    /// Two bytes, little-endian.
    pub fn u16(&mut self) -> (r: Result<u16, PickleError>)
        requires
            old(self).wf(),
        ensures
            final(self).wf(),
            final(self).bytes == old(self).bytes,
            match r {
                Ok(v) => {
                    &&& old(self).pos + 2 <= old(self).bytes@.len()
                    &&& v == le_at(old(self).bytes@, old(self).pos as int, 2)
                    &&& final(self).pos == old(self).pos + 2
                },
                Err(e) => {
                    &&& e == PickleError::UnexpectedEnd
                    &&& old(self).pos + 2 > old(self).bytes@.len()
                    &&& final(self).pos == old(self).pos
                },
            },
    {
        match self.number(2) {
            Ok(v) => {
                proof {
                    lemma_le_at_bound(old(self).bytes@, old(self).pos as int, 2);
                }
                Ok(v as u16)
            },
            Err(e) => Err(e),
        }
    }

    /// Four bytes, little-endian.
    pub fn u32(&mut self) -> (r: Result<u32, PickleError>)
        requires
            old(self).wf(),
        ensures
            final(self).wf(),
            final(self).bytes == old(self).bytes,
            match r {
                Ok(v) => {
                    &&& old(self).pos + 4 <= old(self).bytes@.len()
                    &&& v == le_at(old(self).bytes@, old(self).pos as int, 4)
                    &&& final(self).pos == old(self).pos + 4
                },
                Err(e) => {
                    &&& e == PickleError::UnexpectedEnd
                    &&& old(self).pos + 4 > old(self).bytes@.len()
                    &&& final(self).pos == old(self).pos
                },
            },
    {
        match self.number(4) {
            Ok(v) => {
                proof {
                    lemma_le_at_bound(old(self).bytes@, old(self).pos as int, 4);
                }
                Ok(v as u32)
            },
            Err(e) => Err(e),
        }
    }

    /// Four bytes, little-endian, signed.
    pub fn i32(&mut self) -> (r: Result<i32, PickleError>)
        requires
            old(self).wf(),
        ensures
            final(self).wf(),
            final(self).bytes == old(self).bytes,
            match r {
                Ok(v) => {
                    &&& old(self).pos + 4 <= old(self).bytes@.len()
                    &&& v == signed(le_at(old(self).bytes@, old(self).pos as int, 4), 4)
                    &&& final(self).pos == old(self).pos + 4
                },
                Err(e) => {
                    &&& e == PickleError::UnexpectedEnd
                    &&& old(self).pos + 4 > old(self).bytes@.len()
                    &&& final(self).pos == old(self).pos
                },
            },
    {
        match self.u32() {
            Ok(v) => Ok(to_i32(v)),
            Err(e) => Err(e),
        }
    }

    /// The text up to the next newline; the newline is consumed too.
    pub fn line(&mut self) -> (r: Result<String, PickleError>)
        requires
            old(self).wf(),
        ensures
            final(self).wf(),
            final(self).bytes == old(self).bytes,
            match r {
                Ok(s) => {
                    &&& newline_from(old(self).bytes@, old(self).pos as int) is Some
                    &&& s@ == line_at(old(self).bytes@, old(self).pos as int)
                    &&& ({
                        let line = old(self).bytes@.subrange(
                            old(self).pos as int,
                            newline_from(old(self).bytes@, old(self).pos as int)->0,
                        );
                        valid_utf8(line) ==> s@ == decode_utf8(line)
                    })
                    &&& final(self).pos == newline_from(
                        old(self).bytes@,
                        old(self).pos as int,
                    )->0 + 1
                },
                Err(e) => {
                    &&& e == PickleError::UnterminatedLine
                    &&& newline_from(old(self).bytes@, old(self).pos as int) is None
                    &&& final(self).pos == old(self).pos
                },
            },
    {
        let mut end: usize = self.pos;
        while end < self.bytes.len() && self.bytes[end] != 10
            invariant
                *self == *old(self),
                self.pos <= end <= self.bytes@.len(),
                newline_from(self.bytes@, self.pos as int) == newline_from(
                    self.bytes@,
                    end as int,
                ),
            decreases self.bytes@.len() - end,
        {
            end = end + 1;
        }
        if end < self.bytes.len() {
            let text = utf8_lossy(slice_subrange(self.bytes, self.pos, end));
            self.pos = end + 1;
            Ok(text)
        } else {
            Err(PickleError::UnterminatedLine)
        }
    }

    /// A string of `len` bytes.
    pub fn string(&mut self, len: usize) -> (r: Result<Obj, PickleError>)
        requires
            old(self).wf(),
        ensures
            final(self).wf(),
            final(self).bytes == old(self).bytes,
            match r {
                Ok(o) => {
                    &&& text_at(old(self).bytes@, old(self).pos as int, len as int) matches Ok(t)
                    &&& o.value() == Value::Str(t)
                    &&& final(self).pos == old(self).pos + len
                },
                Err(e) => {
                    &&& text_at(old(self).bytes@, old(self).pos as int, len as int) == Err::<
                        Seq<char>,
                        PickleError,
                    >(e)
                    &&& final(self).pos == text_stop(
                        old(self).bytes@,
                        old(self).pos as int,
                        len as int,
                    )
                },
            },
    {
        match self.take(len) {
            Ok(slice) => {
                match String::from_utf8(vstd::slice::slice_to_vec(slice)) {
                    Ok(s) => Ok(Obj::Str(s)),
                    Err(_) => Err(PickleError::InvalidText),
                }
            },
            Err(e) => Err(e),
        }
    }
}

/// The number that the `n` bytes at `pos` spell.
pub open spec fn le_at(bytes: Seq<u8>, pos: int, n: int) -> nat {
    le(bytes.subrange(pos, pos + n))
}

proof fn lemma_le_at_bound(bytes: Seq<u8>, pos: int, n: int)
    requires
        0 <= n <= 8,
        0 <= pos,
        pos + n <= bytes.len(),
    ensures
        le_at(bytes, pos, n) < crate::bytes::pow256(n as nat),
        crate::bytes::pow256(1) == 0x100,
        crate::bytes::pow256(2) == 0x1_0000,
        crate::bytes::pow256(4) == 0x1_0000_0000,
        crate::bytes::pow256(8) == 0x1_0000_0000_0000_0000,
{
    crate::bytes::lemma_le_bound(bytes.subrange(pos, pos + n));
    crate::bytes::lemma_pow256_values();
}

/// The text between `pos` and the next newline.
pub open spec fn line_at(bytes: Seq<u8>, pos: int) -> Seq<char> {
    read_as(bytes.subrange(pos, newline_from(bytes, pos)->0))
}

/// The text that the `n` bytes at `pos` encode.
pub open spec fn text_at(bytes: Seq<u8>, pos: int, n: int) -> Result<Seq<char>, PickleError> {
    if pos + n > bytes.len() {
        Err(PickleError::UnexpectedEnd)
    } else if !valid_utf8(bytes.subrange(pos, pos + n)) {
        Err(PickleError::InvalidText)
    } else {
        Ok(decode_utf8(bytes.subrange(pos, pos + n)))
    }
}

/// Where reading the text of the `n` bytes at `pos` stops: behind them if they are there,
/// whether or not they are a text.
pub open spec fn text_stop(bytes: Seq<u8>, pos: int, n: int) -> int {
    if pos + n > bytes.len() {
        pos
    } else {
        pos + n
    }
}

// ---------- instructions ----------

pub const PROTO: u8 = 0x80;

pub const STOP: u8 = 0x2e;

pub const NONE: u8 = 0x4e;

pub const NEWTRUE: u8 = 0x88;

pub const NEWFALSE: u8 = 0x89;

pub const BININT: u8 = 0x4a;

pub const BININT1: u8 = 0x4b;

pub const BININT2: u8 = 0x4d;

pub const LONG1: u8 = 0x8a;

pub const BINUNICODE: u8 = 0x58;

pub const SHORT_BINUNICODE: u8 = 0x8c;

pub const EMPTY_DICT: u8 = 0x7d;

pub const EMPTY_LIST: u8 = 0x5d;

pub const EMPTY_TUPLE: u8 = 0x29;

pub const MARK: u8 = 0x28;

pub const TUPLE1: u8 = 0x85;

pub const TUPLE2: u8 = 0x86;

pub const TUPLE3: u8 = 0x87;

pub const TUPLE: u8 = 0x74;

pub const SETITEM: u8 = 0x73;

pub const SETITEMS: u8 = 0x75;

pub const APPEND: u8 = 0x61;

pub const APPENDS: u8 = 0x65;

pub const BINPUT: u8 = 0x71;

pub const LONG_BINPUT: u8 = 0x72;

pub const BINGET: u8 = 0x68;

pub const LONG_BINGET: u8 = 0x6a;

pub const GLOBAL: u8 = 0x63;

pub const REDUCE: u8 = 0x52;

pub const BINPERSID: u8 = 0x51;

pub const BUILD: u8 = 0x62;

/// One instruction with its operands.
pub enum Op {
    /// Carries nothing out (the protocol announcement).
    Skip,
    Stop,
    Push(Obj),
    /// Collects the topmost objects, that many, into a tuple.
    Tuple(usize),
    TupleToMark,
    SetItem,
    SetItems,
    Append,
    Appends,
    /// Copies the top of the stack into a memo entry.
    Put(u32),
    /// Pushes a copy of a memo entry.
    Get(u32),
    Reduce,
    PersId,
    /// Drops the top of the stack.
    Drop,
}

/// What an `Op` stands for.
pub enum Instr {
    Skip,
    Stop,
    Push(Value),
    Tuple(nat),
    TupleToMark,
    SetItem,
    SetItems,
    Append,
    Appends,
    Put(u32),
    Get(u32),
    Reduce,
    PersId,
    Drop,
}

impl Op {
    pub open spec fn instr(self) -> Instr {
        match self {
            Op::Skip => Instr::Skip,
            Op::Stop => Instr::Stop,
            Op::Push(o) => Instr::Push(o.value()),
            Op::Tuple(n) => Instr::Tuple(n as nat),
            Op::TupleToMark => Instr::TupleToMark,
            Op::SetItem => Instr::SetItem,
            Op::SetItems => Instr::SetItems,
            Op::Append => Instr::Append,
            Op::Appends => Instr::Appends,
            Op::Put(k) => Instr::Put(k),
            Op::Get(k) => Instr::Get(k),
            Op::Reduce => Instr::Reduce,
            Op::PersId => Instr::PersId,
            Op::Drop => Instr::Drop,
        }
    }
}

/// The instruction at a place and the place behind it, or why there is none.
pub type Fetched = Result<(Instr, int), PickleError>;

/// The instruction `i` of `n` operand bytes at `pos`.
pub open spec fn fetched(bytes: Seq<u8>, pos: int, n: int, i: Instr) -> Fetched {
    if pos + n > bytes.len() {
        Err(PickleError::UnexpectedEnd)
    } else {
        Ok((i, pos + n))
    }
}

/// Pushes the `len` bytes at `pos` as a string.
pub open spec fn fetched_text(bytes: Seq<u8>, pos: int, len: int) -> Fetched {
    match text_at(bytes, pos, len) {
        Ok(t) => Ok((Instr::Push(Value::Str(t)), pos + len)),
        Err(e) => Err(e),
    }
}

/// Pushes the global whose module and name stand on the two lines at `pos`.
pub open spec fn fetched_global(bytes: Seq<u8>, pos: int) -> Fetched {
    match newline_from(bytes, pos) {
        None => Err(PickleError::UnterminatedLine),
        Some(first) => match newline_from(bytes, first + 1) {
            None => Err(PickleError::UnterminatedLine),
            Some(second) => Ok(
                (
                    Instr::Push(
                        Value::Global(line_at(bytes, pos) + seq!['.'] + line_at(bytes, first + 1)),
                    ),
                    second + 1,
                ),
            ),
        },
    }
}

/// Pushes the number whose length in bytes stands at `pos`. Bytes beyond the eighth
/// are ignored, and a number shorter than eight bytes is not negative.
pub open spec fn fetched_long(bytes: Seq<u8>, pos: int) -> Fetched {
    if pos >= bytes.len() {
        Err(PickleError::UnexpectedEnd)
    } else {
        let n = bytes[pos] as int;
        let low = if n < 8 {
            n
        } else {
            8
        };
        fetched(
            bytes,
            pos + 1,
            n,
            Instr::Push(Value::Int(signed(le_at(bytes, pos + 1, low), 8))),
        )
    }
}

/// The instruction at `pos`.
pub open spec fn fetch_at(bytes: Seq<u8>, pos: int) -> Fetched {
    if pos >= bytes.len() {
        Err(PickleError::UnexpectedEnd)
    } else {
        let code = bytes[pos];
        let at = pos + 1;
        if code == PROTO {
            fetched(bytes, at, 1, Instr::Skip)
        } else if code == STOP {
            Ok((Instr::Stop, at))
        } else if code == NONE || code == NEWTRUE || code == NEWFALSE {
            Ok((Instr::Push(Value::Nil), at))
        } else if code == BININT {
            fetched(bytes, at, 4, Instr::Push(Value::Int(signed(le_at(bytes, at, 4), 4))))
        } else if code == BININT1 {
            fetched(bytes, at, 1, Instr::Push(Value::Int(bytes[at] as int)))
        } else if code == BININT2 {
            fetched(bytes, at, 2, Instr::Push(Value::Int(le_at(bytes, at, 2) as int)))
        } else if code == LONG1 {
            fetched_long(bytes, at)
        } else if code == BINUNICODE {
            if at + 4 > bytes.len() {
                Err(PickleError::UnexpectedEnd)
            } else {
                fetched_text(bytes, at + 4, le_at(bytes, at, 4) as int)
            }
        } else if code == SHORT_BINUNICODE {
            if at >= bytes.len() {
                Err(PickleError::UnexpectedEnd)
            } else {
                fetched_text(bytes, at + 1, bytes[at] as int)
            }
        } else if code == EMPTY_DICT {
            Ok((Instr::Push(Value::Dict(Seq::empty())), at))
        } else if code == EMPTY_LIST {
            Ok((Instr::Push(Value::List(Seq::empty())), at))
        } else if code == EMPTY_TUPLE {
            Ok((Instr::Push(Value::Tuple(Seq::empty())), at))
        } else if code == MARK {
            Ok((Instr::Push(Value::Mark), at))
        } else if code == TUPLE1 {
            Ok((Instr::Tuple(1), at))
        } else if code == TUPLE2 {
            Ok((Instr::Tuple(2), at))
        } else if code == TUPLE3 {
            Ok((Instr::Tuple(3), at))
        } else if code == TUPLE {
            Ok((Instr::TupleToMark, at))
        } else if code == SETITEM {
            Ok((Instr::SetItem, at))
        } else if code == SETITEMS {
            Ok((Instr::SetItems, at))
        } else if code == APPEND {
            Ok((Instr::Append, at))
        } else if code == APPENDS {
            Ok((Instr::Appends, at))
        } else if code == BINPUT {
            fetched(bytes, at, 1, Instr::Put(bytes[at] as u32))
        } else if code == LONG_BINPUT {
            fetched(bytes, at, 4, Instr::Put(le_at(bytes, at, 4) as u32))
        } else if code == BINGET {
            fetched(bytes, at, 1, Instr::Get(bytes[at] as u32))
        } else if code == LONG_BINGET {
            fetched(bytes, at, 4, Instr::Get(le_at(bytes, at, 4) as u32))
        } else if code == GLOBAL {
            fetched_global(bytes, at)
        } else if code == REDUCE {
            Ok((Instr::Reduce, at))
        } else if code == BINPERSID {
            Ok((Instr::PersId, at))
        } else if code == BUILD {
            Ok((Instr::Drop, at))
        } else {
            Err(PickleError::UnsupportedOpcode(code))
        }
    }
}

/// Where reading the instruction at `pos` stops when it fails: behind what could be read of
/// it.
pub open spec fn fetch_stop(bytes: Seq<u8>, pos: int) -> int {
    if pos >= bytes.len() {
        pos
    } else {
        let code = bytes[pos];
        let at = pos + 1;
        if code == LONG1 && at < bytes.len() {
            at + 1
        } else if code == BINUNICODE && at + 4 <= bytes.len() {
            text_stop(bytes, at + 4, le_at(bytes, at, 4) as int)
        } else if code == SHORT_BINUNICODE && at < bytes.len() {
            text_stop(bytes, at + 1, bytes[at] as int)
        } else if code == GLOBAL && newline_from(bytes, at) is Some {
            newline_from(bytes, at)->0 + 1
        } else {
            at
        }
    }
}

/// Every instruction takes at least one byte and ends inside the bytes.
pub proof fn lemma_fetch_advances(bytes: Seq<u8>, pos: int)
    requires
        0 <= pos,
    ensures
        fetch_at(bytes, pos) matches Ok((_, next)) ==> pos < next <= bytes.len(),
{
    lemma_newline_from(bytes, pos + 1);
    if let Some(first) = newline_from(bytes, pos + 1) {
        lemma_newline_from(bytes, first + 1);
    }
}

/// Reads the instruction at the cursor.
pub fn fetch(c: &mut Cursor) -> (r: Result<Op, PickleError>)
    requires
        old(c).wf(),
    ensures
        final(c).wf(),
        final(c).bytes == old(c).bytes,
        match r {
            Ok(op) => fetch_at(old(c).bytes@, old(c).pos as int) == Ok::<(Instr, int), PickleError>(
                (op.instr(), final(c).pos as int),
            ),
            Err(e) => {
                &&& fetch_at(old(c).bytes@, old(c).pos as int) == Err::<(Instr, int), PickleError>(
                    e,
                )
                &&& final(c).pos == fetch_stop(old(c).bytes@, old(c).pos as int)
            },
        },
{
    let ghost bytes = c.bytes@;
    let ghost at = c.pos + 1;
    let code = match c.u8() {
        Ok(code) => code,
        Err(e) => {
            return Err(e);
        },
    };
    if code == PROTO {
        match c.u8() {
            Ok(_) => Ok(Op::Skip),
            Err(e) => Err(e),
        }
    } else if code == STOP {
        Ok(Op::Stop)
    } else if code == NONE || code == NEWTRUE || code == NEWFALSE {
        Ok(Op::Push(Obj::Nil))
    } else if code == BININT {
        match c.i32() {
            Ok(v) => Ok(Op::Push(Obj::Int(v as i64))),
            Err(e) => Err(e),
        }
    } else if code == BININT1 {
        match c.u8() {
            Ok(v) => Ok(Op::Push(Obj::Int(v as i64))),
            Err(e) => Err(e),
        }
    } else if code == BININT2 {
        match c.u16() {
            Ok(v) => Ok(Op::Push(Obj::Int(v as i64))),
            Err(e) => Err(e),
        }
    } else if code == LONG1 {
        let n: usize = match c.u8() {
            Ok(n) => n as usize,
            Err(e) => {
                return Err(e);
            },
        };
        match c.take(n) {
            Ok(raw) => {
                let low: usize = if n < 8 {
                    n
                } else {
                    8
                };
                let head = slice_subrange(raw, 0, low);
                proof {
                    assert(head@ =~= bytes.subrange(at + 1, at + 1 + low));
                }
                Ok(Op::Push(Obj::Int(to_i64(read_le(head)))))
            },
            Err(e) => Err(e),
        }
    } else if code == BINUNICODE {
        let len: usize = match c.u32() {
            Ok(len) => len as usize,
            Err(e) => {
                return Err(e);
            },
        };
        match c.string(len) {
            Ok(o) => Ok(Op::Push(o)),
            Err(e) => Err(e),
        }
    } else if code == SHORT_BINUNICODE {
        let len: usize = match c.u8() {
            Ok(len) => len as usize,
            Err(e) => {
                return Err(e);
            },
        };
        match c.string(len) {
            Ok(o) => Ok(Op::Push(o)),
            Err(e) => Err(e),
        }
    } else if code == EMPTY_DICT {
        let items: Vec<(Obj, Obj)> = Vec::new();
        proof {
            lemma_dict_value(items);
            assert(pair_values(items@) =~= Seq::empty());
        }
        Ok(Op::Push(Obj::Dict(items)))
    } else if code == EMPTY_LIST {
        let items: Vec<Obj> = Vec::new();
        proof {
            lemma_list_value(items);
            assert(values(items@) =~= Seq::empty());
        }
        Ok(Op::Push(Obj::List(items)))
    } else if code == EMPTY_TUPLE {
        let items: Vec<Obj> = Vec::new();
        proof {
            lemma_tuple_value(items);
            assert(values(items@) =~= Seq::empty());
        }
        Ok(Op::Push(Obj::Tuple(items)))
    } else if code == MARK {
        Ok(Op::Push(Obj::Mark))
    } else if code == TUPLE1 {
        Ok(Op::Tuple(1))
    } else if code == TUPLE2 {
        Ok(Op::Tuple(2))
    } else if code == TUPLE3 {
        Ok(Op::Tuple(3))
    } else if code == TUPLE {
        Ok(Op::TupleToMark)
    } else if code == SETITEM {
        Ok(Op::SetItem)
    } else if code == SETITEMS {
        Ok(Op::SetItems)
    } else if code == APPEND {
        Ok(Op::Append)
    } else if code == APPENDS {
        Ok(Op::Appends)
    } else if code == BINPUT {
        match c.u8() {
            Ok(k) => Ok(Op::Put(k as u32)),
            Err(e) => Err(e),
        }
    } else if code == LONG_BINPUT {
        match c.u32() {
            Ok(k) => Ok(Op::Put(k)),
            Err(e) => Err(e),
        }
    } else if code == BINGET {
        match c.u8() {
            Ok(k) => Ok(Op::Get(k as u32)),
            Err(e) => Err(e),
        }
    } else if code == LONG_BINGET {
        match c.u32() {
            Ok(k) => Ok(Op::Get(k)),
            Err(e) => Err(e),
        }
    } else if code == GLOBAL {
        let mut name = match c.line() {
            Ok(module) => module,
            Err(e) => {
                return Err(e);
            },
        };
        let last = match c.line() {
            Ok(last) => last,
            Err(e) => {
                return Err(e);
            },
        };
        name.push('.');
        name.append(last.as_str());
        proof {
            assert(name@ =~= line_at(bytes, at) + seq!['.'] + line_at(
                bytes,
                newline_from(bytes, at)->0 + 1,
            ));
        }
        Ok(Op::Push(Obj::Global(name)))
    } else if code == REDUCE {
        Ok(Op::Reduce)
    } else if code == BINPERSID {
        Ok(Op::PersId)
    } else if code == BUILD {
        Ok(Op::Drop)
    } else {
        Err(PickleError::UnsupportedOpcode(code))
    }
}

// ---------- what the instructions are ----------

/// Instructions without operands, by their codes.
pub proof fn law_instructions_without_operands(bytes: Seq<u8>, pos: int)
    requires
        0 <= pos < bytes.len(),
    ensures
        bytes[pos] == 0x2e ==> fetch_at(bytes, pos) == Fetched::Ok((Instr::Stop, pos + 1)),
        bytes[pos] == 0x4e || bytes[pos] == 0x88 || bytes[pos] == 0x89 ==> fetch_at(bytes, pos)
            == Fetched::Ok((Instr::Push(Value::Nil), pos + 1)),
        bytes[pos] == 0x7d ==> fetch_at(bytes, pos) == Fetched::Ok(
            (Instr::Push(Value::Dict(Seq::empty())), pos + 1),
        ),
        bytes[pos] == 0x5d ==> fetch_at(bytes, pos) == Fetched::Ok(
            (Instr::Push(Value::List(Seq::empty())), pos + 1),
        ),
        bytes[pos] == 0x29 ==> fetch_at(bytes, pos) == Fetched::Ok(
            (Instr::Push(Value::Tuple(Seq::empty())), pos + 1),
        ),
        bytes[pos] == 0x28 ==> fetch_at(bytes, pos) == Fetched::Ok(
            (Instr::Push(Value::Mark), pos + 1),
        ),
        bytes[pos] == 0x85 ==> fetch_at(bytes, pos) == Fetched::Ok((Instr::Tuple(1), pos + 1)),
        bytes[pos] == 0x86 ==> fetch_at(bytes, pos) == Fetched::Ok((Instr::Tuple(2), pos + 1)),
        bytes[pos] == 0x87 ==> fetch_at(bytes, pos) == Fetched::Ok((Instr::Tuple(3), pos + 1)),
        bytes[pos] == 0x74 ==> fetch_at(bytes, pos) == Fetched::Ok((Instr::TupleToMark, pos + 1)),
        bytes[pos] == 0x73 ==> fetch_at(bytes, pos) == Fetched::Ok((Instr::SetItem, pos + 1)),
        bytes[pos] == 0x75 ==> fetch_at(bytes, pos) == Fetched::Ok((Instr::SetItems, pos + 1)),
        bytes[pos] == 0x61 ==> fetch_at(bytes, pos) == Fetched::Ok((Instr::Append, pos + 1)),
        bytes[pos] == 0x65 ==> fetch_at(bytes, pos) == Fetched::Ok((Instr::Appends, pos + 1)),
        bytes[pos] == 0x52 ==> fetch_at(bytes, pos) == Fetched::Ok((Instr::Reduce, pos + 1)),
        bytes[pos] == 0x51 ==> fetch_at(bytes, pos) == Fetched::Ok((Instr::PersId, pos + 1)),
        bytes[pos] == 0x62 ==> fetch_at(bytes, pos) == Fetched::Ok((Instr::Drop, pos + 1)),
{
}

/// Instructions with numbers behind their codes: each takes as many bytes as the number has, and
/// fails where they are not there.
pub proof fn law_instructions_with_numbers(bytes: Seq<u8>, pos: int)
    requires
        0 <= pos < bytes.len(),
    ensures
        pos + 1 < bytes.len() ==> {
            &&& bytes[pos] == 0x80 ==> fetch_at(bytes, pos) == Fetched::Ok((Instr::Skip, pos + 2))
            &&& bytes[pos] == 0x4b ==> fetch_at(bytes, pos) == Fetched::Ok(
                (Instr::Push(Value::Int(bytes[pos + 1] as int)), pos + 2),
            )
            &&& bytes[pos] == 0x71 ==> fetch_at(bytes, pos) == Fetched::Ok(
                (Instr::Put(bytes[pos + 1] as u32), pos + 2),
            )
            &&& bytes[pos] == 0x68 ==> fetch_at(bytes, pos) == Fetched::Ok(
                (Instr::Get(bytes[pos + 1] as u32), pos + 2),
            )
        },
        pos + 2 < bytes.len() ==> (bytes[pos] == 0x4d ==> fetch_at(bytes, pos) == Fetched::Ok(
            (Instr::Push(Value::Int(bytes[pos + 1] + 256 * bytes[pos + 2])), pos + 3),
        )),
        pos + 4 < bytes.len() ==> {
            let n = bytes[pos + 1] + 0x100 * bytes[pos + 2] + 0x1_0000 * bytes[pos + 3] + 0x100_0000
                * bytes[pos + 4];
            &&& bytes[pos] == 0x4a && n < 0x8000_0000 ==> fetch_at(bytes, pos) == Fetched::Ok(
                (Instr::Push(Value::Int(n)), pos + 5),
            )
            &&& bytes[pos] == 0x4a && n >= 0x8000_0000 ==> fetch_at(bytes, pos) == Fetched::Ok(
                (Instr::Push(Value::Int(n - 0x1_0000_0000)), pos + 5),
            )
            &&& bytes[pos] == 0x72 ==> fetch_at(bytes, pos) == Fetched::Ok(
                (Instr::Put(n as u32), pos + 5),
            )
            &&& bytes[pos] == 0x6a ==> fetch_at(bytes, pos) == Fetched::Ok(
                (Instr::Get(n as u32), pos + 5),
            )
        },
        pos + 1 == bytes.len() && (bytes[pos] == 0x80 || bytes[pos] == 0x4b || bytes[pos] == 0x71
            || bytes[pos] == 0x68 || bytes[pos] == 0x8a || bytes[pos] == 0x8c) ==> fetch_at(
            bytes,
            pos,
        ) == Fetched::Err(PickleError::UnexpectedEnd),
        pos + 2 >= bytes.len() && bytes[pos] == 0x4d ==> fetch_at(bytes, pos) == Fetched::Err(
            PickleError::UnexpectedEnd,
        ),
        pos + 4 >= bytes.len() && (bytes[pos] == 0x4a || bytes[pos] == 0x72 || bytes[pos] == 0x6a
            || bytes[pos] == 0x58) ==> fetch_at(bytes, pos) == Fetched::Err(
            PickleError::UnexpectedEnd,
        ),
{
    if pos + 2 < bytes.len() {
        let (a, b) = (bytes[pos + 1], bytes[pos + 2]);
        law_bytes_count_from_the_least(a, b, 0, 0, Seq::empty());
        assert(bytes.subrange(pos + 1, pos + 3) =~= seq![a, b]);
    }
    if pos + 4 < bytes.len() {
        let (a, b, c, d) = (bytes[pos + 1], bytes[pos + 2], bytes[pos + 3], bytes[pos + 4]);
        law_bytes_count_from_the_least(a, b, c, d, Seq::empty());
        assert(bytes.subrange(pos + 1, pos + 5) =~= seq![a, b, c, d]);
        law_the_highest_bit_is_the_sign(le_at(bytes, pos + 1, 4));
    }
}

/// Texts stand behind their length, of four bytes or of one, and take as many bytes. Bytes that
/// are no text, or that are not there, fail.
pub proof fn law_texts_stand_behind_their_length(bytes: Seq<u8>, pos: int, n: int)
    requires
        0 <= pos,
        0 <= n,
        (bytes[pos] == 0x8c && pos + 1 < bytes.len() && n == bytes[pos + 1]) || (bytes[pos] == 0x58
            && pos + 4 < bytes.len() && n == bytes[pos + 1] + 0x100 * bytes[pos + 2] + 0x1_0000
            * bytes[pos + 3] + 0x100_0000 * bytes[pos + 4]),
    ensures
        ({
            let at = if bytes[pos] == 0x8c {
                pos + 2
            } else {
                pos + 5
            };
            let text = bytes.subrange(at, at + n);
            &&& at + n > bytes.len() ==> fetch_at(bytes, pos) == Fetched::Err(
                PickleError::UnexpectedEnd,
            )
            &&& at + n <= bytes.len() && !valid_utf8(text) ==> fetch_at(bytes, pos) == Fetched::Err(
                PickleError::InvalidText,
            )
            &&& at + n <= bytes.len() && valid_utf8(text) ==> fetch_at(bytes, pos) == Fetched::Ok(
                (Instr::Push(Value::Str(decode_utf8(text))), at + n),
            )
        }),
{
    if pos + 4 < bytes.len() {
        let (a, b, c, d) = (bytes[pos + 1], bytes[pos + 2], bytes[pos + 3], bytes[pos + 4]);
        law_bytes_count_from_the_least(a, b, c, d, Seq::empty());
        assert(bytes.subrange(pos + 1, pos + 5) =~= seq![a, b, c, d]);
    }
}

/// A global is a module and a name on a line each, with a dot between them.
pub proof fn law_globals_are_two_lines(bytes: Seq<u8>, pos: int, first: int, second: int)
    requires
        0 <= pos < first < second < bytes.len(),
        bytes[pos] == 0x63,
        bytes[first] == 10,
        bytes[second] == 10,
        forall|k: int| pos < k < first ==> bytes[k] != 10,
        forall|k: int| first < k < second ==> bytes[k] != 10,
        valid_utf8(bytes.subrange(pos + 1, first)),
        valid_utf8(bytes.subrange(first + 1, second)),
    ensures
        fetch_at(bytes, pos) == Fetched::Ok(
            (
                Instr::Push(
                    Value::Global(
                        decode_utf8(bytes.subrange(pos + 1, first)) + seq!['.'] + decode_utf8(
                            bytes.subrange(first + 1, second),
                        ),
                    ),
                ),
                second + 1,
            ),
        ),
{
    lemma_newline_from(bytes, pos + 1);
    lemma_newline_from(bytes, first + 1);
}

/// A long number stands behind its length, and is told by its first eight bytes.
pub proof fn law_long_numbers_stand_behind_their_length(bytes: Seq<u8>, pos: int)
    requires
        0 <= pos,
        pos + 1 < bytes.len(),
        bytes[pos] == 0x8a,
    ensures
        ({
            let n = bytes[pos + 1];
            let low = le(
                bytes.subrange(
                    pos + 2,
                    pos + 2 + (if n < 8 {
                        n as int
                    } else {
                        8
                    }),
                ),
            );
            &&& pos + 2 + n > bytes.len() ==> fetch_at(bytes, pos) == Fetched::Err(
                PickleError::UnexpectedEnd,
            )
            &&& pos + 2 + n <= bytes.len() ==> fetch_at(bytes, pos) == Fetched::Ok(
                (
                    Instr::Push(
                        Value::Int(
                            if low < 0x8000_0000_0000_0000 {
                                low as int
                            } else {
                                low - 0x1_0000_0000_0000_0000
                            },
                        ),
                    ),
                    pos + 2 + n,
                ),
            )
        }),
{
    let n = bytes[pos + 1];
    let k = if n < 8 {
        n as int
    } else {
        8
    };
    if pos + 2 + n <= bytes.len() {
        let part = bytes.subrange(pos + 2, pos + 2 + k);
        crate::bytes::lemma_le_bound(part);
        crate::bytes::lemma_pow256_values();
        lemma_pow256_grows(k as nat, 8);
        law_the_highest_bit_is_the_sign(le(part));
    }
}

proof fn lemma_pow256_grows(a: nat, b: nat)
    requires
        a <= b,
    ensures
        crate::bytes::pow256(a) <= crate::bytes::pow256(b),
    decreases b,
{
    if a < b {
        lemma_pow256_grows(a, (b - 1) as nat);
    }
}

} // verus!
