//! The values and the instructions of the Ahola virtual machine.

use vstd::prelude::*;
use crate::numbers::{signed_text_ok, unsigned_text_ok};

verus! {

#[derive(Debug, PartialEq)]
/// A value of Ahola.  The three big-integer kinds hold the decimal text of
/// their value, in the form that num-bigint reads (see `crate::numbers`).
pub enum AholaData {
    I4M(String),
    U4M(String),
    Int5M(String),
    String(String),
    DbRef(String),
    Card(Vec<AholaData>),
    Nil,
}

/// The mathematical form of a value.
pub enum DataV {
    I4M(Seq<char>),
    U4M(Seq<char>),
    Int5M(Seq<char>),
    Str(Seq<char>),
    DbRef(Seq<char>),
    Card(Seq<DataV>),
    Nothing,
}

impl AholaData {
    /// The mathematical form of this value.
    pub open spec fn data(&self) -> DataV
        decreases self,
    {
        match self {
            AholaData::I4M(t) => DataV::I4M(t@),
            AholaData::U4M(t) => DataV::U4M(t@),
            AholaData::Int5M(t) => DataV::Int5M(t@),
            AholaData::String(s) => DataV::Str(s@),
            AholaData::DbRef(s) => DataV::DbRef(s@),
            AholaData::Card(items) => DataV::Card(
                Seq::new(
                    items@.len(),
                    |k: int|
                        if 0 <= k < items@.len() {
                            items@[k].data()
                        } else {
                            DataV::Nothing
                        },
                ),
            ),
            AholaData::Nil => DataV::Nothing,
        }
    }
}

/// A copy of `d`.
pub fn copy_data(d: &AholaData) -> (r: AholaData)
    ensures
        r.data() == d.data(),
    decreases d,
{
    match d {
        AholaData::I4M(t) => AholaData::I4M(t.clone()),
        AholaData::U4M(t) => AholaData::U4M(t.clone()),
        AholaData::Int5M(t) => AholaData::Int5M(t.clone()),
        AholaData::String(s) => AholaData::String(s.clone()),
        AholaData::DbRef(s) => AholaData::DbRef(s.clone()),
        AholaData::Card(items) => {
            let mut copy: Vec<AholaData> = Vec::new();
            let mut k: usize = 0;
            while k < items.len()
                invariant
                    k <= items.len(),
                    *d == AholaData::Card(*items),
                    copy@.len() == k,
                    forall|j: int| 0 <= j < k ==> (#[trigger] copy@[j]).data() == items@[j].data(),
                decreases items.len() - k,
            {
                proof {
                    assert(decreases_to!(*d => d->Card_0));
                    assert(decreases_to!(d->Card_0 => d->Card_0@));
                    assert(decreases_to!(d->Card_0@ => items@[k as int]));
                }
                let item = copy_data(&items[k]);
                copy.push(item);
                k = k + 1;
            }
            proof {
                lemma_card_data(copy);
                lemma_card_data(*items);
                assert(datas(copy@) =~= datas(items@));
            }
            AholaData::Card(copy)
        },
        AholaData::Nil => AholaData::Nil,
    }
}

impl Clone for AholaData {
    /// A copy with the same mathematical form.
    fn clone(&self) -> (r: Self)
        ensures
            r.data() == self.data(),
    {
        copy_data(self)
    }
}

/// The numbers of a value are texts that num-bigint reads (and so are those
/// of the items of a list).
pub open spec fn data_ok(d: DataV) -> bool
    decreases d,
{
    match d {
        DataV::I4M(t) => signed_text_ok(t),
        DataV::U4M(t) => unsigned_text_ok(t),
        DataV::Int5M(t) => signed_text_ok(t),
        DataV::Card(items) => forall|k: int| 0 <= k < items.len() ==> data_ok(#[trigger] items[k]),
        _ => true,
    }
}

/// A list is well formed when all its items are.
pub proof fn lemma_data_ok_card(s: Seq<DataV>)
    ensures
        data_ok(DataV::Card(s)) <==> forall|k: int| 0 <= k < s.len() ==> data_ok(#[trigger] s[k]),
{
    let c = DataV::Card(s);
    assert forall|k: int| 0 <= k < s.len() && data_ok(c) implies data_ok(#[trigger] s[k]) by {
        assert(decreases_to!(c => c->Card_0));
        assert(decreases_to!(c->Card_0 => s[k]));
    }
    if !data_ok(c) {
        let k = choose|k: int| 0 <= k < s.len() && !data_ok(#[trigger] s[k]);
        assert(decreases_to!(c => c->Card_0));
        assert(decreases_to!(c->Card_0 => s[k]));
    }
}

/// The mathematical forms of a sequence of values.
pub open spec fn datas(v: Seq<AholaData>) -> Seq<DataV> {
    Seq::new(v.len(), |k: int| v[k].data())
}

/// The mathematical form of a list is that of its items.
pub proof fn lemma_card_data(v: Vec<AholaData>)
    ensures
        AholaData::Card(v).data() == DataV::Card(datas(v@)),
{
    let d = AholaData::Card(v).data();
    match d {
        DataV::Card(items) => {
            assert(items =~= datas(v@));
        },
        _ => {},
    }
}

/// An instruction of the virtual machine.
#[derive(Debug, Clone, PartialEq)]
pub enum OpCode {
    Store(usize, AholaData),
    PlusEqual(usize, AholaData),
    Stamp(String),
    Dump(usize),
    Jump(usize),
    JumpIfFalse(usize),
    ReadFile(usize, usize),
    InlineRust(String),
    CallRustFunc { func_name: String, arg: String },
    ExternalFileHook(String),
    Call(usize),
    Return,
    /// Reads the keys `start..=end` of a database: into `target_slot`, or
    /// to the output when there is none.  `start` and `end` are decimal texts
    /// that num-bigint reads as unsigned integers.
    DbRangeRequest { target_slot: Option<usize>, db_var_slot: usize, start: String, end: String },
    Ban(usize, String),
}

/// The mathematical form of an instruction.
pub enum OpV {
    Store(usize, DataV),
    PlusEqual(usize, DataV),
    Stamp(Seq<char>),
    Dump(usize),
    Jump(usize),
    JumpIfFalse(usize),
    ReadFile(usize, usize),
    InlineRust(Seq<char>),
    CallRustFunc(Seq<char>, Seq<char>),
    ExternalFileHook(Seq<char>),
    Call(usize),
    Return,
    DbRangeRequest(Option<usize>, usize, Seq<char>, Seq<char>),
    Ban(usize, Seq<char>),
}

impl View for OpCode {
    type V = OpV;

    open spec fn view(&self) -> OpV {
        match self {
            OpCode::Store(slot, d) => OpV::Store(*slot, d.data()),
            OpCode::PlusEqual(slot, d) => OpV::PlusEqual(*slot, d.data()),
            OpCode::Stamp(m) => OpV::Stamp(m@),
            OpCode::Dump(slot) => OpV::Dump(*slot),
            OpCode::Jump(t) => OpV::Jump(*t),
            OpCode::JumpIfFalse(t) => OpV::JumpIfFalse(*t),
            OpCode::ReadFile(a, b) => OpV::ReadFile(*a, *b),
            OpCode::InlineRust(c) => OpV::InlineRust(c@),
            OpCode::CallRustFunc { func_name, arg } => OpV::CallRustFunc(func_name@, arg@),
            OpCode::ExternalFileHook(f) => OpV::ExternalFileHook(f@),
            OpCode::Call(t) => OpV::Call(*t),
            OpCode::Return => OpV::Return,
            OpCode::DbRangeRequest { target_slot, db_var_slot, start, end } => OpV::DbRangeRequest(
                *target_slot,
                *db_var_slot,
                start@,
                end@,
            ),
            OpCode::Ban(slot, name) => OpV::Ban(*slot, name@),
        }
    }
}

/// The values that an instruction carries are well formed, and so are the
/// bounds of a range request.
pub open spec fn op_data_ok(op: OpV) -> bool {
    match op {
        OpV::Store(_, d) => data_ok(d),
        OpV::PlusEqual(_, d) => data_ok(d),
        OpV::DbRangeRequest(_, _, start, end) => unsigned_text_ok(start) && unsigned_text_ok(end),
        _ => true,
    }
}

/// The mathematical form of a sequence of instructions.
pub open spec fn ops_view(code: Seq<OpCode>) -> Seq<OpV> {
    Seq::new(code.len(), |k: int| code[k]@)
}

} // verus!
