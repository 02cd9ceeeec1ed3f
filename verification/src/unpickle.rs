//! The pickle stack machine: what each instruction does, and running a pickle to
//! its end.

use std::collections::HashMap;

use vstd::prelude::*;

use crate::pickle::fetch;
use crate::pickle::fetch_at;
use crate::pickle::fetch_stop;
use crate::pickle::le_at;
use crate::pickle::lemma_dict_value;
use crate::pickle::lemma_fetch_advances;
use crate::pickle::lemma_list_value;
use crate::pickle::lemma_newline_from;
use crate::pickle::lemma_tuple_value;
use crate::pickle::newline_from;
use crate::pickle::pair_values;
use crate::pickle::values;
use crate::pickle::Cursor;
use crate::pickle::Instr;
use crate::pickle::Obj;
use crate::pickle::Op;
use crate::pickle::PickleError;
use crate::pickle::Value;
use crate::pickle::STOP;
use crate::text::same_text;

verus! {

broadcast use vstd::std_specs::hash::group_hash_axioms;

// ---------- collecting ----------

/// The place of the topmost mark.
pub open spec fn last_mark(stack: Seq<Value>) -> Option<int>
    decreases stack.len(),
{
    if stack.len() == 0 {
        None
    } else if stack.last() is Mark {
        Some(stack.len() - 1)
    } else {
        last_mark(stack.drop_last())
    }
}

proof fn lemma_last_mark(stack: Seq<Value>, above: int)
    requires
        0 <= above <= stack.len(),
        forall|k: int| above <= k < stack.len() ==> !(stack[k] is Mark),
    ensures
        last_mark(stack) == last_mark(stack.take(above)),
    decreases stack.len(),
{
    if above < stack.len() {
        lemma_last_mark(stack.drop_last(), above);
        assert(stack.drop_last().take(above) =~= stack.take(above));
    } else {
        assert(stack.take(above) =~= stack);
    }
}

/// Takes everything above the topmost mark off the stack, and the mark with it.
pub fn pop_to_mark(stack: &mut Vec<Obj>) -> (r: Result<Vec<Obj>, PickleError>)
    ensures
        match (last_mark(values(old(stack)@)), r) {
            (Some(at), Ok(items)) => {
                &&& 0 <= at < old(stack)@.len()
                &&& values(items@) == values(old(stack)@).skip(at + 1)
                &&& values(final(stack)@) == values(old(stack)@).take(at)
            },
            (None, Err(e)) => e == PickleError::MarkMissing && final(stack)@ == old(stack)@,
            _ => false,
        },
{
    let ghost before = values(stack@);
    let mut above: usize = stack.len();
    assert(before.take(above as int) =~= before);
    while above > 0 && !stack[above - 1].is_mark()
        invariant
            stack@ == old(stack)@,
            before == values(stack@),
            above <= stack@.len(),
            forall|k: int| above <= k < stack@.len() ==> !(before[k] is Mark),
        decreases above,
    {
        above = above - 1;
    }
    proof {
        lemma_last_mark(before, above as int);
        if above > 0 {
            assert(before.take(above as int).last() == before[above - 1]);
        }
    }
    if above == 0 {
        return Err(PickleError::MarkMissing);
    }
    let items = stack.split_off(above);
    let _ = stack.pop();
    proof {
        assert(values(items@) =~= before.skip(above as int));
        assert(values(stack@) =~= before.take(above - 1));
    }
    Ok(items)
}

impl Obj {
    /// Whether this is a mark.
    pub fn is_mark(&self) -> (r: bool)
        ensures
            r == (self.value() is Mark),
    {
        match self {
            Obj::Mark => true,
            _ => false,
        }
    }
}

/// Keys and values in turn; a key without a value is left out.
pub open spec fn paired(items: Seq<Value>) -> Seq<(Value, Value)> {
    Seq::new(items.len() / 2, |i: int| (items[2 * i], items[2 * i + 1]))
}

/// Adds keys and values, which come in turn, to a dict.
pub fn push_pairs(target: &mut Obj, items: Vec<Obj>) -> (r: Result<(), PickleError>)
    ensures
        match old(target).value() {
            Value::Dict(pairs) => {
                &&& r is Ok
                &&& final(target).value() == Value::Dict(pairs + paired(values(items@)))
            },
            _ => {
                &&& r == Err::<(), PickleError>(PickleError::SetItemOnNonDict)
                &&& final(target).value() == old(target).value()
            },
        },
{
    let ghost all = values(items@);
    let mut added = pair_up(items);
    match target {
        Obj::Dict(pairs) => {
            proof {
                lemma_dict_value(*pairs);
            }
            let ghost before = pairs@;
            let ghost more = added@;
            pairs.append(&mut added);
            proof {
                lemma_dict_value(*pairs);
                assert(pair_values(pairs@) =~= pair_values(before) + pair_values(more));
            }
            Ok(())
        },
        _ => Err(PickleError::SetItemOnNonDict),
    }
}

/// Puts keys and values, which come in turn, together.
fn pair_up(items: Vec<Obj>) -> (r: Vec<(Obj, Obj)>)
    ensures
        pair_values(r@) == paired(values(items@)),
{
    let ghost all = items@;
    let mut pairs: Vec<(Obj, Obj)> = Vec::new();
    let mut key: Option<Obj> = None;
    for o in it: items
        invariant
            it.seq() == all,
            pairs@.len() == it.index() / 2,
            key is Some <==> it.index() % 2 == 1,
            key matches Some(k) ==> k == all[it.index() - 1],
            forall|i: int|
                0 <= i < pairs@.len() ==> (#[trigger] pairs@[i]).0 == all[2 * i] && pairs@[i].1
                    == all[2 * i + 1],
    {
        match key {
            Some(k) => {
                pairs.push((k, o));
                key = None;
            },
            None => {
                key = Some(o);
            },
        }
    }
    assert(pair_values(pairs@) =~= paired(values(all)));
    pairs
}

// ---------- calls ----------

/// Whether a value is an integer that can be a size.
pub open spec fn is_size(v: Value) -> bool {
    v matches Value::Int(n) && 0 <= n <= usize::MAX
}

/// The sizes that a tuple of integers holds.
pub open spec fn sizes(v: Value) -> Result<Seq<usize>, PickleError> {
    match v {
        Value::Tuple(items) => if forall|i: int| 0 <= i < items.len() ==> is_size(#[trigger] items[i]) {
            Ok(Seq::new(items.len(), |i: int| items[i]->Int_0 as usize))
        } else {
            Err(PickleError::NotASize)
        },
        _ => Err(PickleError::NotATuple),
    }
}

/// The sizes that a tuple of integers holds.
pub fn as_usizes(o: &Obj) -> (r: Result<Vec<usize>, PickleError>)
    ensures
        match r {
            Ok(v) => sizes(o.value()) == Ok::<Seq<usize>, PickleError>(v@),
            Err(e) => sizes(o.value()) == Err::<Seq<usize>, PickleError>(e),
        },
{
    match o {
        Obj::Tuple(items) => {
            proof {
                lemma_tuple_value(*items);
            }
            let ghost all = values(items@);
            let mut out: Vec<usize> = Vec::new();
            let mut i: usize = 0;
            while i < items.len()
                invariant
                    o.value() == Value::Tuple(all),
                    all == values(items@),
                    i <= items@.len(),
                    out@.len() == i,
                    forall|k: int|
                        0 <= k < i ==> is_size(#[trigger] all[k]) && out@[k] == all[k]->Int_0,
                decreases items@.len() - i,
            {
                assert(all[i as int] == items@[i as int].value());
                match &items[i] {
                    Obj::Int(v) => {
                        if *v < 0 || *v as u64 > usize::MAX as u64 {
                            assert(!is_size(all[i as int]));
                            return Err(PickleError::NotASize);
                        }
                        out.push(*v as usize);
                    },
                    _ => {
                        assert(!is_size(all[i as int]));
                        return Err(PickleError::NotASize);
                    },
                }
                i = i + 1;
            }
            assert(out@ =~= Seq::new(all.len(), |k: int| all[k]->Int_0 as usize));
            Ok(out)
        },
        _ => Err(PickleError::NotATuple),
    }
}

/// The tensor that a call of torch's tensor rebuilder makes.
pub open spec fn rebuilt(args: Seq<Value>) -> Result<Value, PickleError> {
    if args.len() == 0 || !(args[0] is PersId) {
        Err(PickleError::TensorWithoutStorage)
    } else {
        match *args[0]->PersId_0 {
            Value::Tuple(pid) => if pid.len() < 3 || pid[0] != Value::Str("storage"@) || pid[1]
                != Value::Global("torch.FloatStorage"@) || !(pid[2] is Str) {
                Err(PickleError::UnsupportedStorage)
            } else if args.len() < 2 || !(args[1] is Int) {
                Err(PickleError::BadOffset)
            } else if args.len() < 3 {
                Err(PickleError::NoShape)
            } else {
                match sizes(args[2]) {
                    Err(e) => Err(e),
                    Ok(shape) => if args.len() < 4 {
                        Err(PickleError::NoStride)
                    } else {
                        match sizes(args[3]) {
                            Err(e) => Err(e),
                            Ok(stride) => Ok(
                                Value::Tensor {
                                    key: pid[2]->Str_0,
                                    offset: args[1]->Int_0,
                                    shape,
                                    stride,
                                },
                            ),
                        }
                    },
                }
            },
            _ => Err(PickleError::BadStorageId),
        }
    }
}

/// What calling a global gives.
pub open spec fn reduced(callable: Value, args: Value) -> Result<Value, PickleError> {
    match (callable, args) {
        (Value::Global(name), Value::Tuple(args)) => if name == "collections.OrderedDict"@ {
            Ok(Value::Dict(Seq::empty()))
        } else if name == "torch._utils._rebuild_tensor_v2"@ {
            rebuilt(args)
        } else {
            Err(PickleError::UnsupportedCallable)
        },
        (Value::Global(_), _) => Err(PickleError::ReduceArgsNotTuple),
        _ => Err(PickleError::ReduceOnNonGlobal),
    }
}

fn rebuild(args: &Vec<Obj>) -> (r: Result<Obj, PickleError>)
    ensures
        match r {
            Ok(o) => rebuilt(values(args@)) == Ok::<Value, PickleError>(o.value()),
            Err(e) => rebuilt(values(args@)) == Err::<Value, PickleError>(e),
        },
{
    if args.len() == 0 {
        return Err(PickleError::TensorWithoutStorage);
    }
    proof {
        reveal_with_fuel(Obj::value, 2);
    }
    assert(values(args@)[0] == args@[0].value());
    let pid = match &args[0] {
        Obj::PersId(pid) => pid,
        _ => {
            return Err(PickleError::TensorWithoutStorage);
        },
    };
    let pid = match &**pid {
        Obj::Tuple(pid) => pid,
        _ => {
            return Err(PickleError::BadStorageId);
        },
    };
    proof {
        lemma_tuple_value(*pid);
    }
    if pid.len() < 3 {
        return Err(PickleError::UnsupportedStorage);
    }
    assert(values(pid@)[0] == pid@[0].value());
    assert(values(pid@)[1] == pid@[1].value());
    assert(values(pid@)[2] == pid@[2].value());
    let is_storage = match &pid[0] {
        Obj::Str(tag) => same_text(tag, "storage"),
        _ => false,
    };
    let is_float = match &pid[1] {
        Obj::Global(class) => same_text(class, "torch.FloatStorage"),
        _ => false,
    };
    if !is_storage || !is_float {
        return Err(PickleError::UnsupportedStorage);
    }
    let key = match &pid[2] {
        Obj::Str(key) => key.clone(),
        _ => {
            return Err(PickleError::UnsupportedStorage);
        },
    };
    if args.len() < 2 {
        return Err(PickleError::BadOffset);
    }
    assert(values(args@)[1] == args@[1].value());
    let offset: i64 = match &args[1] {
        Obj::Int(offset) => *offset,
        _ => {
            return Err(PickleError::BadOffset);
        },
    };
    if args.len() < 3 {
        return Err(PickleError::NoShape);
    }
    assert(values(args@)[2] == args@[2].value());
    let shape = match as_usizes(&args[2]) {
        Ok(shape) => shape,
        Err(e) => {
            return Err(e);
        },
    };
    if args.len() < 4 {
        return Err(PickleError::NoStride);
    }
    assert(values(args@)[3] == args@[3].value());
    let stride = match as_usizes(&args[3]) {
        Ok(stride) => stride,
        Err(e) => {
            return Err(e);
        },
    };
    Ok(Obj::Tensor { key, offset, shape, stride })
}

/// Calls a global.
pub fn reduce(callable: Obj, args: Obj) -> (r: Result<Obj, PickleError>)
    ensures
        match r {
            Ok(o) => reduced(callable.value(), args.value()) == Ok::<Value, PickleError>(o.value()),
            Err(e) => reduced(callable.value(), args.value()) == Err::<Value, PickleError>(e),
        },
{
    let name = match callable {
        Obj::Global(name) => name,
        _ => {
            return Err(PickleError::ReduceOnNonGlobal);
        },
    };
    let args = match args {
        Obj::Tuple(args) => args,
        _ => {
            return Err(PickleError::ReduceArgsNotTuple);
        },
    };
    proof {
        lemma_tuple_value(args);
    }
    if same_text(&name, "collections.OrderedDict") {
        let items: Vec<(Obj, Obj)> = Vec::new();
        proof {
            lemma_dict_value(items);
            assert(pair_values(items@) =~= Seq::empty());
        }
        Ok(Obj::Dict(items))
    } else if same_text(&name, "torch._utils._rebuild_tensor_v2") {
        rebuild(&args)
    } else {
        Err(PickleError::UnsupportedCallable)
    }
}

// ---------- the machine ----------

/// The memo's entries by what they stand for.
pub open spec fn memo_values(memo: Map<u32, Obj>) -> Map<u32, Value> {
    Map::new(|k: u32| memo.contains_key(k), |k: u32| memo[k].value())
}

/// The stack and the memo.
#[verifier::ext_equal]
pub struct Machine {
    pub stack: Seq<Value>,
    pub memo: Map<u32, Value>,
}

impl Machine {
    /// The machine with another stack.
    pub open spec fn with(self, stack: Seq<Value>) -> Machine {
        Machine { stack, memo: self.memo }
    }

    /// What one instruction, other than the one that stops, makes of the machine.
    pub open spec fn applied(self, i: Instr) -> Result<Machine, PickleError> {
        let n = self.stack.len();
        match i {
            Instr::Skip => Ok(self),
            Instr::Stop => Ok(self),
            Instr::Push(v) => Ok(self.with(self.stack.push(v))),
            Instr::Tuple(k) => if n < k {
                Err(PickleError::StackUnderflow)
            } else {
                Ok(self.with(self.stack.take(n - k).push(Value::Tuple(self.stack.skip(n - k)))))
            },
            Instr::TupleToMark => match last_mark(self.stack) {
                None => Err(PickleError::MarkMissing),
                Some(at) => Ok(
                    self.with(self.stack.take(at).push(Value::Tuple(self.stack.skip(at + 1)))),
                ),
            },
            Instr::SetItem => if n < 2 {
                Err(PickleError::StackUnderflow)
            } else {
                self.with_items(n - 2, self.stack.skip(n - 2))
            },
            Instr::SetItems => match last_mark(self.stack) {
                None => Err(PickleError::MarkMissing),
                Some(at) => self.with_items(at, self.stack.skip(at + 1)),
            },
            Instr::Append => if n < 1 {
                Err(PickleError::StackUnderflow)
            } else {
                self.with_appended(n - 1, self.stack.skip(n - 1))
            },
            Instr::Appends => match last_mark(self.stack) {
                None => Err(PickleError::MarkMissing),
                Some(at) => self.with_appended(at, self.stack.skip(at + 1)),
            },
            Instr::Put(k) => if n == 0 {
                Err(PickleError::EmptyStack)
            } else {
                Ok(Machine { stack: self.stack, memo: self.memo.insert(k, self.stack.last()) })
            },
            Instr::Get(k) => if self.memo.contains_key(k) {
                Ok(self.with(self.stack.push(self.memo[k])))
            } else {
                Err(PickleError::BadMemoIndex)
            },
            Instr::Reduce => if n < 2 {
                Err(PickleError::StackUnderflow)
            } else {
                match reduced(self.stack[n - 2], self.stack[n - 1]) {
                    Ok(v) => Ok(self.with(self.stack.take(n - 2).push(v))),
                    Err(e) => Err(e),
                }
            },
            Instr::PersId => if n < 1 {
                Err(PickleError::StackUnderflow)
            } else {
                Ok(
                    self.with(
                        self.stack.take(n - 1).push(Value::PersId(Box::new(self.stack[n - 1]))),
                    ),
                )
            },
            Instr::Drop => if n < 1 {
                Err(PickleError::StackUnderflow)
            } else {
                Ok(self.with(self.stack.take(n - 1)))
            },
        }
    }

    /// Cuts the stack down to `n` values and sets items on the dict on top of it.
    pub open spec fn with_items(self, n: int, items: Seq<Value>) -> Result<Machine, PickleError> {
        if n == 0 {
            Err(PickleError::EmptyStack)
        } else {
            match self.stack[n - 1] {
                Value::Dict(pairs) => Ok(
                    self.with(self.stack.take(n - 1).push(Value::Dict(pairs + paired(items)))),
                ),
                _ => Err(PickleError::SetItemOnNonDict),
            }
        }
    }

    /// Cuts the stack down to `n` values and appends items to the list on top of it.
    pub open spec fn with_appended(self, n: int, items: Seq<Value>) -> Result<
        Machine,
        PickleError,
    > {
        if n > 0 && self.stack[n - 1] is List {
            Ok(
                self.with(
                    self.stack.take(n - 1).push(Value::List(self.stack[n - 1]->List_0 + items)),
                ),
            )
        } else {
            Err(PickleError::AppendOnNonList)
        }
    }
}

/// The machine whose stack and memo hold these objects.
pub open spec fn machine(stack: Seq<Obj>, memo: Map<u32, Obj>) -> Machine {
    Machine { stack: values(stack), memo: memo_values(memo) }
}

/// Running the instructions from `pos` on until one stops: the value that is then on
/// top of the stack, and the place behind the last instruction.
pub open spec fn run(bytes: Seq<u8>, pos: int, m: Machine) -> Result<(Value, int), PickleError>
    decreases bytes.len() - pos,
    when 0 <= pos
{
    match fetch_at(bytes, pos) {
        Err(e) => Err(e),
        Ok((Instr::Stop, next)) => if m.stack.len() == 0 {
            Err(PickleError::StackUnderflow)
        } else {
            Ok((m.stack.last(), next))
        },
        Ok((i, next)) => match m.applied(i) {
            Err(e) => Err(e),
            Ok(m) => {
                proof {
                    lemma_fetch_advances(bytes, pos);
                }
                run(bytes, next, m)
            },
        },
    }
}

/// The value that the pickle at `pos` spells and the place behind it.
pub open spec fn unpickled(bytes: Seq<u8>, pos: int) -> Result<(Value, int), PickleError> {
    run(bytes, pos, Machine { stack: Seq::empty(), memo: Map::empty() })
}

/// Where running the instructions from `pos` on ends: behind the one that stops or cannot be
/// carried out, or where reading one stops.
pub open spec fn run_stop(bytes: Seq<u8>, pos: int, m: Machine) -> int
    decreases bytes.len() - pos,
    when 0 <= pos
{
    match fetch_at(bytes, pos) {
        Err(_) => fetch_stop(bytes, pos),
        Ok((Instr::Stop, next)) => next,
        Ok((i, next)) => match m.applied(i) {
            Err(_) => next,
            Ok(m) => {
                proof {
                    lemma_fetch_advances(bytes, pos);
                }
                run_stop(bytes, next, m)
            },
        },
    }
}

/// Where reading the pickle at `pos` ends, whether or not it succeeds.
pub open spec fn unpickle_stop(bytes: Seq<u8>, pos: int) -> int {
    run_stop(bytes, pos, Machine { stack: Seq::empty(), memo: Map::empty() })
}

/// Takes the top off the stack.
fn pop(stack: &mut Vec<Obj>) -> (r: Result<Obj, PickleError>)
    ensures
        match r {
            Ok(o) => {
                &&& old(stack)@.len() > 0
                &&& o == old(stack)@.last()
                &&& final(stack)@ == old(stack)@.drop_last()
            },
            Err(e) => e == PickleError::StackUnderflow && old(stack)@.len() == 0,
        },
{
    match stack.pop() {
        Some(o) => Ok(o),
        None => Err(PickleError::StackUnderflow),
    }
}

/// Collects the topmost `k` objects into a tuple.
fn make_tuple(stack: &mut Vec<Obj>, k: usize) -> (r: Result<(), PickleError>)
    ensures
        match r {
            Ok(_) => {
                &&& old(stack)@.len() >= k
                &&& values(final(stack)@) == values(old(stack)@).take(old(stack)@.len() - k).push(
                    Value::Tuple(values(old(stack)@).skip(old(stack)@.len() - k)),
                )
            },
            Err(e) => e == PickleError::StackUnderflow && old(stack)@.len() < k,
        },
{
    if stack.len() < k {
        return Err(PickleError::StackUnderflow);
    }
    let ghost before = values(stack@);
    let at: usize = stack.len() - k;
    let items = stack.split_off(at);
    proof {
        assert(values(items@) =~= before.skip(at as int));
        lemma_tuple_value(items);
    }
    stack.push(Obj::Tuple(items));
    assert(values(stack@) =~= before.take(at as int).push(Value::Tuple(before.skip(at as int))));
    Ok(())
}

/// Sets items on the dict on top of the stack.
fn set_items(stack: &mut Vec<Obj>, items: Vec<Obj>) -> (r: Result<(), PickleError>)
    ensures
        match r {
            Ok(_) => {
                let n = old(stack)@.len();
                &&& n > 0
                &&& old(stack)@.last().value() matches Value::Dict(pairs)
                &&& values(final(stack)@) == values(old(stack)@).take(n - 1).push(
                    Value::Dict(pairs + paired(values(items@))),
                )
            },
            Err(e) => if old(stack)@.len() == 0 {
                e == PickleError::EmptyStack
            } else {
                &&& e == PickleError::SetItemOnNonDict
                &&& !(old(stack)@.last().value() is Dict)
            },
        },
{
    let ghost before = values(stack@);
    let mut top = match stack.pop() {
        Some(top) => top,
        None => {
            return Err(PickleError::EmptyStack);
        },
    };
    match push_pairs(&mut top, items) {
        Ok(_) => {},
        Err(e) => {
            return Err(e);
        },
    }
    let ghost v = top.value();
    stack.push(top);
    assert(values(stack@) =~= before.take(before.len() - 1).push(v));
    Ok(())
}

/// Appends items to the list on top of the stack.
fn append_items(stack: &mut Vec<Obj>, items: Vec<Obj>) -> (r: Result<(), PickleError>)
    ensures
        match r {
            Ok(_) => {
                let n = old(stack)@.len();
                &&& n > 0
                &&& old(stack)@.last().value() matches Value::List(list)
                &&& values(final(stack)@) == values(old(stack)@).take(n - 1).push(
                    Value::List(list + values(items@)),
                )
            },
            Err(e) => {
                &&& e == PickleError::AppendOnNonList
                &&& (old(stack)@.len() == 0 || !(old(stack)@.last().value() is List))
            },
        },
{
    let ghost before = values(stack@);
    match stack.pop() {
        Some(Obj::List(list)) => {
            let mut list = list;
            let mut items = items;
            proof {
                lemma_list_value(list);
            }
            let ghost old_list = values(list@);
            let ghost more = values(items@);
            list.append(&mut items);
            proof {
                lemma_list_value(list);
                assert(values(list@) =~= old_list + more);
            }
            stack.push(Obj::List(list));
            assert(values(stack@) =~= before.take(before.len() - 1).push(
                Value::List(old_list + more),
            ));
            Ok(())
        },
        _ => Err(PickleError::AppendOnNonList),
    }
}

/// Carries out one instruction, other than the one that stops.
pub fn apply(op: Op, stack: &mut Vec<Obj>, memo: &mut HashMap<u32, Obj>) -> (r: Result<
    (),
    PickleError,
>)
    ensures
        match r {
            Ok(_) => machine(old(stack)@, old(memo)@).applied(op.instr()) == Ok::<
                Machine,
                PickleError,
            >(machine(final(stack)@, final(memo)@)),
            Err(e) => machine(old(stack)@, old(memo)@).applied(op.instr()) == Err::<
                Machine,
                PickleError,
            >(e),
        },
{
    let ghost before = values(stack@);
    let ghost n = before.len() as int;
    proof {
        if n > 0 {
            assert(before[n - 1] == stack@[n - 1].value());
            assert(before.last() == stack@.last().value());
        }
        if n > 1 {
            assert(before[n - 2] == stack@[n - 2].value());
        }
    }
    match op {
        Op::Skip => Ok(()),
        Op::Stop => Ok(()),
        Op::Push(o) => {
            let ghost v = o.value();
            stack.push(o);
            assert(values(stack@) =~= before.push(v));
            Ok(())
        },
        Op::Tuple(k) => make_tuple(stack, k),
        Op::TupleToMark => {
            let items = match pop_to_mark(stack) {
                Ok(items) => items,
                Err(e) => {
                    return Err(e);
                },
            };
            proof {
                lemma_tuple_value(items);
            }
            let ghost rest = values(stack@);
            let ghost v = Value::Tuple(values(items@));
            stack.push(Obj::Tuple(items));
            assert(values(stack@) =~= rest.push(v));
            Ok(())
        },
        Op::SetItem => {
            let v = match pop(stack) {
                Ok(v) => v,
                Err(e) => {
                    return Err(e);
                },
            };
            let k = match pop(stack) {
                Ok(k) => k,
                Err(e) => {
                    return Err(e);
                },
            };
            let mut items: Vec<Obj> = Vec::new();
            items.push(k);
            items.push(v);
            proof {
                assert(values(items@) =~= before.skip(n - 2));
                assert(values(stack@) =~= before.take(n - 2));
                if n > 2 {
                    assert(stack@.last().value() == values(stack@)[n - 3]);
                    assert(values(stack@).take(n - 3) =~= before.take(n - 3));
                }
            }
            set_items(stack, items)
        },
        Op::SetItems => {
            let items = match pop_to_mark(stack) {
                Ok(items) => items,
                Err(e) => {
                    return Err(e);
                },
            };
            proof {
                let at = last_mark(before)->0;
                assert(values(stack@).len() == stack@.len() && before.take(at).len() == at);
                if at > 0 {
                    assert(stack@.last().value() == values(stack@)[at - 1]);
                    assert(values(stack@).take(at - 1) =~= before.take(at - 1));
                }
            }
            set_items(stack, items)
        },
        Op::Append => {
            let o = match pop(stack) {
                Ok(o) => o,
                Err(e) => {
                    return Err(e);
                },
            };
            let mut items: Vec<Obj> = Vec::new();
            items.push(o);
            proof {
                assert(values(items@) =~= before.skip(n - 1));
                assert(values(stack@) =~= before.take(n - 1));
                if n > 1 {
                    assert(stack@.last().value() == values(stack@)[n - 2]);
                    assert(values(stack@).take(n - 2) =~= before.take(n - 2));
                }
            }
            append_items(stack, items)
        },
        Op::Appends => {
            let items = match pop_to_mark(stack) {
                Ok(items) => items,
                Err(e) => {
                    return Err(e);
                },
            };
            proof {
                let at = last_mark(before)->0;
                assert(values(stack@).len() == stack@.len() && before.take(at).len() == at);
                if at > 0 {
                    assert(stack@.last().value() == values(stack@)[at - 1]);
                    assert(values(stack@).take(at - 1) =~= before.take(at - 1));
                }
            }
            append_items(stack, items)
        },
        Op::Put(k) => {
            if stack.len() == 0 {
                return Err(PickleError::EmptyStack);
            }
            let top = stack[stack.len() - 1].dup();
            memo.insert(k, top);
            assert(memo_values(memo@) =~= memo_values(old(memo)@).insert(k, before.last()));
            Ok(())
        },
        Op::Get(k) => {
            let entry = match memo.get(&k) {
                Some(entry) => entry.dup(),
                None => {
                    return Err(PickleError::BadMemoIndex);
                },
            };
            let ghost v = entry.value();
            stack.push(entry);
            assert(values(stack@) =~= before.push(v));
            Ok(())
        },
        Op::Reduce => {
            let args = match pop(stack) {
                Ok(args) => args,
                Err(e) => {
                    return Err(e);
                },
            };
            let callable = match pop(stack) {
                Ok(callable) => callable,
                Err(e) => {
                    return Err(e);
                },
            };
            let o = match reduce(callable, args) {
                Ok(o) => o,
                Err(e) => {
                    return Err(e);
                },
            };
            let ghost v = o.value();
            stack.push(o);
            assert(values(stack@) =~= before.take(n - 2).push(v));
            Ok(())
        },
        Op::PersId => {
            let pid = match pop(stack) {
                Ok(pid) => pid,
                Err(e) => {
                    return Err(e);
                },
            };
            stack.push(Obj::PersId(Box::new(pid)));
            assert(values(stack@) =~= before.take(n - 1).push(
                Value::PersId(Box::new(before[n - 1])),
            ));
            Ok(())
        },
        Op::Drop => {
            match pop(stack) {
                Ok(_) => {
                    assert(values(stack@) =~= before.take(n - 1));
                    Ok(())
                },
                Err(e) => Err(e),
            }
        },
    }
}

/// Reads the pickle at the cursor and leaves the cursor behind what was read.
pub fn run_pickle(c: &mut Cursor) -> (r: Result<Obj, PickleError>)
    requires
        old(c).wf(),
    ensures
        final(c).wf(),
        final(c).bytes == old(c).bytes,
        match r {
            Ok(o) => unpickled(old(c).bytes@, old(c).pos as int) == Ok::<(Value, int), PickleError>(
                (o.value(), final(c).pos as int),
            ),
            Err(e) => unpickled(old(c).bytes@, old(c).pos as int) == Err::<
                (Value, int),
                PickleError,
            >(e),
        },
        final(c).pos == unpickle_stop(old(c).bytes@, old(c).pos as int),
{
    let mut stack: Vec<Obj> = Vec::new();
    let mut memo: HashMap<u32, Obj> = HashMap::new();
    let ghost bytes = c.bytes@;
    let ghost start = c.pos as int;
    proof {
        assert(values(stack@) =~= Seq::empty());
        assert(memo_values(memo@) =~= Map::empty());
    }
    loop
        invariant
            c.wf(),
            c.bytes == old(c).bytes,
            bytes == c.bytes@,
            start == old(c).pos,
            run(bytes, c.pos as int, machine(stack@, memo@)) == unpickled(bytes, start),
            run_stop(bytes, c.pos as int, machine(stack@, memo@)) == unpickle_stop(bytes, start),
        decreases bytes.len() - c.pos,
    {
        proof {
            lemma_fetch_advances(bytes, c.pos as int);
        }
        let op = match fetch(c) {
            Ok(op) => op,
            Err(e) => {
                return Err(e);
            },
        };
        if let Op::Stop = op {
            assert(stack@.len() > 0 ==> values(stack@).last() == stack@.last().value());
            return pop(&mut stack);
        }
        match apply(op, &mut stack, &mut memo) {
            Ok(_) => {},
            Err(e) => {
                return Err(e);
            },
        }
    }
}

// ---------- laws ----------

proof fn lemma_newline_prefix(bytes: Seq<u8>, more: Seq<u8>, pos: int)
    requires
        0 <= pos,
        newline_from(bytes, pos) is Some,
    ensures
        newline_from(bytes + more, pos) == newline_from(bytes, pos),
    decreases bytes.len() - pos,
{
    if bytes[pos] != 10 {
        lemma_newline_prefix(bytes, more, pos + 1);
    }
}

proof fn lemma_subrange_prefix(bytes: Seq<u8>, more: Seq<u8>, from: int, to: int)
    requires
        0 <= from <= to <= bytes.len(),
    ensures
        (bytes + more).subrange(from, to) == bytes.subrange(from, to),
{
    assert((bytes + more).subrange(from, to) =~= bytes.subrange(from, to));
}

proof fn lemma_fetch_prefix(bytes: Seq<u8>, more: Seq<u8>, pos: int)
    requires
        0 <= pos,
        fetch_at(bytes, pos) is Ok,
    ensures
        fetch_at(bytes + more, pos) == fetch_at(bytes, pos),
{
    let all = bytes + more;
    let at = pos + 1;
    assert(all[pos] == bytes[pos]);
    if at < bytes.len() {
        assert(all[at] == bytes[at]);
        let n = bytes[at] as int;
        if at + 1 + n <= bytes.len() {
            lemma_subrange_prefix(bytes, more, at + 1, at + 1 + n);
            lemma_subrange_prefix(bytes, more, at + 1, at + 1 + if n < 8 { n } else { 8 });
        }
    }
    if at + 2 <= bytes.len() {
        lemma_subrange_prefix(bytes, more, at, at + 2);
    }
    if at + 4 <= bytes.len() {
        lemma_subrange_prefix(bytes, more, at, at + 4);
        let n = le_at(bytes, at, 4) as int;
        if at + 4 + n <= bytes.len() {
            lemma_subrange_prefix(bytes, more, at + 4, at + 4 + n);
        }
    }
    if let Some(first) = newline_from(bytes, at) {
        lemma_newline_from(bytes, at);
        lemma_newline_prefix(bytes, more, at);
        lemma_subrange_prefix(bytes, more, at, first);
        if let Some(second) = newline_from(bytes, first + 1) {
            lemma_newline_from(bytes, first + 1);
            lemma_newline_prefix(bytes, more, first + 1);
            lemma_subrange_prefix(bytes, more, first + 1, second);
        }
    }
}

proof fn lemma_run_prefix(bytes: Seq<u8>, more: Seq<u8>, pos: int, m: Machine)
    requires
        0 <= pos,
        run(bytes, pos, m) is Ok,
    ensures
        run(bytes + more, pos, m) == run(bytes, pos, m),
    decreases bytes.len() - pos,
{
    lemma_fetch_prefix(bytes, more, pos);
    lemma_fetch_advances(bytes, pos);
    match fetch_at(bytes, pos)->Ok_0 {
        (Instr::Stop, _) => {},
        (i, next) => {
            lemma_run_prefix(bytes, more, next, m.applied(i)->Ok_0);
        },
    }
}

proof fn lemma_run_end(bytes: Seq<u8>, pos: int, m: Machine)
    requires
        0 <= pos,
        run(bytes, pos, m) is Ok,
    ensures
        pos < run(bytes, pos, m)->Ok_0.1 <= bytes.len(),
        bytes[run(bytes, pos, m)->Ok_0.1 - 1] == STOP,
    decreases bytes.len() - pos,
{
    lemma_fetch_advances(bytes, pos);
    match fetch_at(bytes, pos)->Ok_0 {
        (Instr::Stop, _) => {},
        (i, next) => {
            lemma_run_end(bytes, next, m.applied(i)->Ok_0);
        },
    }
}

/// What a complete pickle spells does not depend on the bytes that follow it.
pub proof fn law_pickle_ignores_what_follows(bytes: Seq<u8>, more: Seq<u8>, pos: int)
    requires
        0 <= pos,
        unpickled(bytes, pos) is Ok,
    ensures
        unpickled(bytes + more, pos) == unpickled(bytes, pos),
{
    lemma_run_prefix(bytes, more, pos, Machine { stack: Seq::empty(), memo: Map::empty() });
}

/// A pickle that was read ends inside the bytes, right behind its stop instruction.
pub proof fn law_pickle_ends_behind_its_stop(bytes: Seq<u8>, pos: int)
    requires
        0 <= pos,
        unpickled(bytes, pos) is Ok,
    ensures
        pos < unpickled(bytes, pos)->Ok_0.1 <= bytes.len(),
        bytes[unpickled(bytes, pos)->Ok_0.1 - 1] == STOP,
{
    lemma_run_end(bytes, pos, Machine { stack: Seq::empty(), memo: Map::empty() });
}

// ---------- what the machine does ----------

/// The topmost values become a tuple in the order in which they were pushed.
pub proof fn law_tuples_keep_their_order(m: Machine, below: Seq<Value>, items: Seq<Value>)
    requires
        m.stack == below + items,
    ensures
        m.applied(Instr::Tuple(items.len())) == Ok::<Machine, PickleError>(
            Machine { stack: below.push(Value::Tuple(items)), memo: m.memo },
        ),
{
    let n = m.stack.len();
    assert(m.stack.take(n - items.len()) =~= below);
    assert(m.stack.skip(n - items.len()) =~= items);
}

proof fn lemma_mark_below(below: Seq<Value>, items: Seq<Value>)
    requires
        forall|k: int| 0 <= k < items.len() ==> !(#[trigger] items[k] is Mark),
    ensures
        ({
            let stack = below.push(Value::Mark) + items;
            &&& last_mark(stack) == Some(below.len() as int)
            &&& stack.take(below.len() as int) == below
            &&& stack.skip(below.len() as int + 1) == items
        }),
{
    let stack = below.push(Value::Mark) + items;
    let at = below.len() as int;
    assert forall|k: int| at + 1 <= k < stack.len() implies !(stack[k] is Mark) by {
        assert(stack[k] == items[k - at - 1]);
    }
    lemma_last_mark(stack, at + 1);
    assert(stack.take(at + 1) =~= below.push(Value::Mark));
    assert(stack.take(at) =~= below);
    assert(stack.skip(at + 1) =~= items);
}

/// What was pushed since the last mark is collected in order, and the mark goes with it: into a
/// tuple, into the list below the mark, or by twos into the dict below it.
pub proof fn law_marks_bound_what_is_collected(
    m: Machine,
    below: Seq<Value>,
    items: Seq<Value>,
    list: Seq<Value>,
    dict: Seq<(Value, Value)>,
)
    requires
        forall|k: int| 0 <= k < items.len() ==> !(#[trigger] items[k] is Mark),
    ensures
        m.stack == below.push(Value::Mark) + items ==> m.applied(Instr::TupleToMark) == Ok::<
            Machine,
            PickleError,
        >(Machine { stack: below.push(Value::Tuple(items)), memo: m.memo }),
        m.stack == below.push(Value::List(list)).push(Value::Mark) + items ==> m.applied(
            Instr::Appends,
        ) == Ok::<Machine, PickleError>(
            Machine { stack: below.push(Value::List(list + items)), memo: m.memo },
        ),
        m.stack == below.push(Value::Dict(dict)).push(Value::Mark) + items ==> m.applied(
            Instr::SetItems,
        ) == Ok::<Machine, PickleError>(
            Machine {
                stack: below.push(
                    Value::Dict(
                        dict + Seq::new(
                            items.len() / 2,
                            |i: int| (items[2 * i], items[2 * i + 1]),
                        ),
                    ),
                ),
                memo: m.memo,
            },
        ),
{
    lemma_mark_below(below, items);
    lemma_mark_below(below.push(Value::List(list)), items);
    lemma_mark_below(below.push(Value::Dict(dict)), items);
    let a = below.push(Value::List(list));
    let b = below.push(Value::Dict(dict));
    if m.stack == a.push(Value::Mark) + items {
        assert(m.stack[a.len() - 1] == Value::List(list));
        assert(m.stack.take(a.len() - 1) =~= below);
    }
    if m.stack == b.push(Value::Mark) + items {
        assert(m.stack[b.len() - 1] == Value::Dict(dict));
        assert(m.stack.take(b.len() - 1) =~= below);
        assert(paired(items) =~= Seq::new(
            items.len() / 2,
            |i: int| (items[2 * i], items[2 * i + 1]),
        ));
    }
}

/// A single value goes to the end of the list below it, and a key with its value to the end of the
/// dict below them.
pub proof fn law_single_items_are_collected(
    m: Machine,
    below: Seq<Value>,
    list: Seq<Value>,
    dict: Seq<(Value, Value)>,
    k: Value,
    v: Value,
)
    ensures
        m.stack == below.push(Value::List(list)).push(v) ==> m.applied(Instr::Append) == Ok::<
            Machine,
            PickleError,
        >(Machine { stack: below.push(Value::List(list.push(v))), memo: m.memo }),
        m.stack == below.push(Value::Dict(dict)).push(k).push(v) ==> m.applied(Instr::SetItem)
            == Ok::<Machine, PickleError>(
            Machine { stack: below.push(Value::Dict(dict.push((k, v)))), memo: m.memo },
        ),
{
    let n = m.stack.len();
    if m.stack == below.push(Value::List(list)).push(v) {
        assert(m.stack.skip(n - 1) =~= seq![v]);
        assert(m.stack.take(n - 2) =~= below);
        assert(list + seq![v] =~= list.push(v));
    }
    if m.stack == below.push(Value::Dict(dict)).push(k).push(v) {
        assert(m.stack.skip(n - 2) =~= seq![k, v]);
        assert(m.stack.take(n - 3) =~= below);
        assert(paired(seq![k, v]) =~= seq![(k, v)]);
        assert(dict + seq![(k, v)] =~= dict.push((k, v)));
    }
}

/// What was put into the memo is pushed again by its number, until something else is put there.
/// Other numbers are not touched by it, and neither is the stack.
pub proof fn law_the_memo_gives_back_what_was_put(
    m: Machine,
    below: Seq<Value>,
    v: Value,
    k: u32,
    other: u32,
)
    requires
        m.stack == below.push(v),
    ensures
        m.applied(Instr::Put(k)) matches Ok(after) && {
            &&& after.stack == m.stack
            &&& after.applied(Instr::Get(k)) == Ok::<Machine, PickleError>(
                Machine { stack: m.stack.push(v), memo: after.memo },
            )
            &&& other != k && m.memo.contains_key(other) ==> after.applied(Instr::Get(other))
                == Ok::<Machine, PickleError>(
                Machine { stack: m.stack.push(m.memo[other]), memo: after.memo },
            )
            &&& other != k && !m.memo.contains_key(other) ==> after.applied(Instr::Get(other))
                == Err::<Machine, PickleError>(PickleError::BadMemoIndex)
        },
{
}

/// A tensor is rebuilt from its storage, its offset, its shape and its stride, in that order, and
/// takes the place of the call. The storage is one of single-precision numbers, told by its key.
pub proof fn law_tensors_are_rebuilt(
    m: Machine,
    below: Seq<Value>,
    pid: Seq<Value>,
    args: Seq<Value>,
    key: Seq<char>,
    offset: int,
    shape: Seq<usize>,
    stride: Seq<usize>,
)
    requires
        m.stack == below.push(Value::Global("torch._utils._rebuild_tensor_v2"@)).push(
            Value::Tuple(args),
        ),
        args.len() >= 4,
        args[0] == Value::PersId(Box::new(Value::Tuple(pid))),
        pid.len() >= 3,
        pid[0] == Value::Str("storage"@),
        pid[1] == Value::Global("torch.FloatStorage"@),
        pid[2] == Value::Str(key),
        args[1] == Value::Int(offset),
        args[2] == Value::Tuple(Seq::new(shape.len(), |i: int| Value::Int(shape[i] as int))),
        args[3] == Value::Tuple(Seq::new(stride.len(), |i: int| Value::Int(stride[i] as int))),
    ensures
        m.applied(Instr::Reduce) == Ok::<Machine, PickleError>(
            Machine {
                stack: below.push(Value::Tensor { key, offset, shape, stride }),
                memo: m.memo,
            },
        ),
{
    reveal_strlit("torch._utils._rebuild_tensor_v2");
    reveal_strlit("collections.OrderedDict");
    assert("torch._utils._rebuild_tensor_v2"@.len() != "collections.OrderedDict"@.len());
    let n = m.stack.len();
    assert(m.stack.take(n - 2) =~= below);
    assert(sizes(args[2]) is Ok && sizes(args[2])->Ok_0 =~= shape);
    assert(sizes(args[3]) is Ok && sizes(args[3])->Ok_0 =~= stride);
}

/// An ordered dict is made empty, and the state that is set on an object is dropped.
pub proof fn law_dicts_are_made_and_states_dropped(m: Machine, below: Seq<Value>, args: Seq<Value>, v: Value)
    ensures
        m.stack == below.push(Value::Global("collections.OrderedDict"@)).push(Value::Tuple(args))
            ==> m.applied(Instr::Reduce) == Ok::<Machine, PickleError>(
            Machine { stack: below.push(Value::Dict(Seq::empty())), memo: m.memo },
        ),
        m.stack == below.push(v) ==> m.applied(Instr::Drop) == Ok::<Machine, PickleError>(
            Machine { stack: below, memo: m.memo },
        ),
        m.stack == below.push(v) ==> m.applied(Instr::PersId) == Ok::<Machine, PickleError>(
            Machine { stack: below.push(Value::PersId(Box::new(v))), memo: m.memo },
        ),
        m.applied(Instr::Push(v)) == Ok::<Machine, PickleError>(
            Machine { stack: m.stack.push(v), memo: m.memo },
        ),
        m.applied(Instr::Skip) == Ok::<Machine, PickleError>(m),
{
    let n = m.stack.len();
    if m.stack == below.push(Value::Global("collections.OrderedDict"@)).push(Value::Tuple(args)) {
        assert(m.stack.take(n - 2) =~= below);
    }
    if m.stack == below.push(v) {
        assert(m.stack.take(n - 1) =~= below);
    }
}

/// A pickle is read instruction by instruction, and gives what is on top of the stack where it
/// stops. It begins with nothing on the stack.
pub proof fn law_pickles_are_read_step_by_step(bytes: Seq<u8>, pos: int, m: Machine)
    requires
        0 <= pos,
    ensures
        fetch_at(bytes, pos) matches Ok((i, next)) ==> {
            &&& i == Instr::Stop && m.stack.len() > 0 ==> run(bytes, pos, m) == Ok::<
                (Value, int),
                PickleError,
            >((m.stack.last(), next))
            &&& i == Instr::Stop && m.stack.len() == 0 ==> run(bytes, pos, m) == Err::<
                (Value, int),
                PickleError,
            >(PickleError::StackUnderflow)
            &&& i != Instr::Stop ==> (m.applied(i) matches Ok(after) ==> run(bytes, pos, m) == run(
                bytes,
                next,
                after,
            ))
            &&& i != Instr::Stop ==> (m.applied(i) matches Err(e) ==> run(bytes, pos, m) == Err::<
                (Value, int),
                PickleError,
            >(e))
        },
        fetch_at(bytes, pos) matches Err(e) ==> run(bytes, pos, m) == Err::<
            (Value, int),
            PickleError,
        >(e),
        unpickled(bytes, pos) == run(
            bytes,
            pos,
            Machine { stack: Seq::empty(), memo: Map::empty() },
        ),
{
    lemma_fetch_advances(bytes, pos);
    reveal_with_fuel(run, 2);
}

} // verus!
