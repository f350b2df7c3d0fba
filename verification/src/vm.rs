//! The virtual machine: its memory, and what one instruction does to it.
//!
//! The machine itself only touches memory.  What an instruction asks of the
//! world (printing, files, databases) it hands back as an `Effect`, which the
//! caller carries out.

use vstd::prelude::*;
use crate::bytecode::{
    AholaData, DataV, OpCode, OpV, copy_data, data_ok, datas, lemma_card_data, lemma_data_ok_card, op_data_ok,
};
use crate::numbers::{
    add_signed, add_unsigned, be_bytes, bigint_accepts, biguint_accepts, decimal_text, lemma_decimal_text_value,
    unsigned_at_most, unsigned_body, unsigned_bytes_be, unsigned_text_ok, digits_value, digit_value, lemma_decimal_text_ok, lemma_unsigned_value_nonneg, show_signed, show_unsigned,
    signed_value, unsigned_value,
};
use crate::compiler::{CState, compile_spec, law_compiled_slots_in_range, op_ok, slots_below, slots_in_range};
use crate::optimizer::{kept_by, lemma_filter_from, optimized, read_slots};
use crate::symbols::{Symbol, SymbolTable};
use crate::tokens::Token;
use crate::text::{
    chars_of, first_occurrence_from, lemma_first_occurrence_from, matches_at, push_char, string_of, string_of_char,
};
use vstd::string::StringExecFns;

verus! {

broadcast use vstd::string::group_string_axioms;

/// The machine: one optional value per memory slot.
pub struct VirtualMachine {
    pub memory: Vec<Option<AholaData>>,
}

/// The mathematical form of the memory.
pub open spec fn memory_view(m: Seq<Option<AholaData>>) -> Seq<Option<DataV>> {
    Seq::new(
        m.len(),
        |k: int|
            match m[k] {
                Some(d) => Some(d.data()),
                None => None,
            },
    )
}

/// Every value in memory is well formed.
pub open spec fn memory_ok(m: Seq<Option<DataV>>) -> bool {
    forall|k: int| 0 <= k < m.len() ==> (#[trigger] m[k] matches Some(d) ==> data_ok(d))
}

/// What an instruction asks of the world.
#[derive(Debug, Clone, PartialEq)]
pub enum Effect {
    /// Nothing.
    Quiet,
    /// Print the stamp message, each `\(name)` in it replaced by the value of `name`.
    Stamp(String),
    /// Print the value in the slot.
    Dump(usize),
    /// Report the embedded Rust code.
    Embed(String),
    /// Report a call of a native function with its argument.
    CallRust { func_name: String, arg: String },
    /// Report a link to a native module.
    FileHook(String),
    /// Read the file `filename` into `target_slot`, as a string, if it can be read.
    ReadFile { target_slot: usize, filename: String },
    /// Read the keys `start..=end` of the database `db_name`: into
    /// `target_slot` as a list, or to the output when there is no slot.
    DbRange { target_slot: Option<usize>, db_name: String, start: String, end: String },
    /// Delete the database of `name` and report it.
    Banned(String),
}

/// Why an instruction cannot be carried out.
#[derive(Debug, Clone, PartialEq)]
pub enum Fault {
    /// `+=` between values whose kinds do not go together.
    TypeMismatch,
    /// A slot beyond the end of the memory.
    SlotOutOfRange(usize),
}

/// What an instruction does: the instruction to run next and the effect to
/// carry out, or a fault.
#[derive(Debug, Clone, PartialEq)]
pub enum Step {
    Next { pc: usize, effect: Effect },
    Fault(Fault),
}

/// The mathematical form of an effect.
pub enum EffectV {
    Quiet,
    Stamp(Seq<char>),
    Dump(usize),
    Embed(Seq<char>),
    CallRust(Seq<char>, Seq<char>),
    FileHook(Seq<char>),
    ReadFile(usize, Seq<char>),
    DbRange(Option<usize>, Seq<char>, Seq<char>, Seq<char>),
    Banned(Seq<char>),
}

/// The mathematical form of a step.
pub enum StepV {
    Next(int, EffectV),
    TypeMismatch,
    SlotOutOfRange(usize),
}

impl View for Effect {
    type V = EffectV;

    open spec fn view(&self) -> EffectV {
        match self {
            Effect::Quiet => EffectV::Quiet,
            Effect::Stamp(m) => EffectV::Stamp(m@),
            Effect::Dump(s) => EffectV::Dump(*s),
            Effect::Embed(c) => EffectV::Embed(c@),
            Effect::CallRust { func_name, arg } => EffectV::CallRust(func_name@, arg@),
            Effect::FileHook(f) => EffectV::FileHook(f@),
            Effect::ReadFile { target_slot, filename } => EffectV::ReadFile(*target_slot, filename@),
            Effect::DbRange { target_slot, db_name, start, end } => EffectV::DbRange(
                *target_slot,
                db_name@,
                start@,
                end@,
            ),
            Effect::Banned(n) => EffectV::Banned(n@),
        }
    }
}

impl View for Step {
    type V = StepV;

    open spec fn view(&self) -> StepV {
        match self {
            Step::Next { pc, effect } => StepV::Next(*pc as int, effect@),
            Step::Fault(Fault::TypeMismatch) => StepV::TypeMismatch,
            Step::Fault(Fault::SlotOutOfRange(s)) => StepV::SlotOutOfRange(*s),
        }
    }
}

/// The value that `existing += m` leaves, if the kinds of the two go together.
pub open spec fn plus_equal(existing: DataV, m: DataV) -> Option<DataV> {
    match (existing, m) {
        (DataV::I4M(a), DataV::I4M(b)) => Some(DataV::I4M(decimal_text(signed_value(a) + signed_value(b)))),
        (DataV::U4M(a), DataV::U4M(b)) => Some(
            DataV::U4M(decimal_text(unsigned_value(a) + unsigned_value(b))),
        ),
        (DataV::Int5M(a), DataV::Int5M(b)) => Some(
            DataV::Int5M(decimal_text(signed_value(a) + signed_value(b))),
        ),
        (DataV::Str(a), DataV::Str(b)) => Some(DataV::Str(a + b)),
        (DataV::Card(items), m) => Some(DataV::Card(items.push(m))),
        _ => None,
    }
}

/// The value in `slot`, if the slot exists and holds one.
pub open spec fn slot_value(mem: Seq<Option<DataV>>, slot: usize) -> Option<DataV> {
    if slot < mem.len() {
        mem[slot as int]
    } else {
        None
    }
}

/// The memory after an instruction.
pub open spec fn step_memory(mem: Seq<Option<DataV>>, op: OpV) -> Seq<Option<DataV>> {
    match op {
        OpV::Store(slot, d) => if slot < mem.len() {
            mem.update(slot as int, Some(d))
        } else {
            mem
        },
        OpV::PlusEqual(slot, m) => if slot < mem.len() && mem[slot as int] is Some && plus_equal(
            mem[slot as int]->0,
            m,
        ) is Some {
            mem.update(slot as int, plus_equal(mem[slot as int]->0, m))
        } else {
            mem
        },
        OpV::Ban(slot, _) => if slot < mem.len() {
            mem.update(slot as int, None)
        } else {
            mem
        },
        _ => mem,
    }
}

/// What running the instruction `op` at `pc` comes to, with the memory `mem`.
pub open spec fn step_result(mem: Seq<Option<DataV>>, op: OpV, pc: int) -> StepV {
    match op {
        OpV::PlusEqual(slot, m) => if slot < mem.len() && mem[slot as int] is Some && plus_equal(
            mem[slot as int]->0,
            m,
        ) is None {
            StepV::TypeMismatch
        } else {
            StepV::Next(pc + 1, EffectV::Quiet)
        },
        OpV::Stamp(msg) => StepV::Next(pc + 1, EffectV::Stamp(msg)),
        OpV::Dump(slot) => StepV::Next(
            pc + 1,
            if slot < mem.len() && mem[slot as int] is Some {
                EffectV::Dump(slot)
            } else {
                EffectV::Quiet
            },
        ),
        OpV::Jump(target) => StepV::Next(target as int, EffectV::Quiet),
        OpV::JumpIfFalse(target) => StepV::Next(target as int, EffectV::Quiet),
        OpV::ReadFile(target, source) => StepV::Next(
            pc + 1,
            match slot_value(mem, source) {
                Some(DataV::Str(f)) => EffectV::ReadFile(target, f),
                _ => EffectV::Quiet,
            },
        ),
        OpV::InlineRust(code) => StepV::Next(pc + 1, EffectV::Embed(code)),
        OpV::CallRustFunc(f, a) => StepV::Next(pc + 1, EffectV::CallRust(f, a)),
        OpV::ExternalFileHook(f) => StepV::Next(pc + 1, EffectV::FileHook(f)),
        OpV::DbRangeRequest(target, db, start, end) => StepV::Next(
            pc + 1,
            match slot_value(mem, db) {
                Some(DataV::DbRef(name)) => EffectV::DbRange(target, name, start, end),
                _ => EffectV::Quiet,
            },
        ),
        OpV::Ban(slot, name) => if slot < mem.len() {
            StepV::Next(pc + 1, EffectV::Banned(name))
        } else {
            StepV::SlotOutOfRange(slot)
        },
        _ => StepV::Next(pc + 1, EffectV::Quiet),
    }
}

impl VirtualMachine {
    /// A machine with `slots + 50` empty memory slots.
    pub fn new(slots: usize) -> (r: Self)
        requires
            slots + 50 <= usize::MAX,
        ensures
            r.memory@.len() == slots + 50,
            forall|k: int| 0 <= k < r.memory@.len() ==> r.memory@[k] is None,
            memory_ok(memory_view(r.memory@)),
    {
        let mut memory: Vec<Option<AholaData>> = Vec::new();
        let mut k: usize = 0;
        while k < slots + 50
            invariant
                k <= slots + 50,
                slots + 50 <= usize::MAX,
                memory@.len() == k,
                forall|j: int| 0 <= j < k ==> memory@[j] is None,
            decreases slots + 50 - k,
        {
            memory.push(None);
            k = k + 1;
        }
        VirtualMachine { memory }
    }

    /// Puts `value` into `slot`.
    pub fn put(&mut self, slot: usize, value: Option<AholaData>)
        requires
            slot < old(self).memory@.len(),
            memory_ok(memory_view(old(self).memory@)),
            value matches Some(d) ==> data_ok(d.data()),
        ensures
            memory_ok(memory_view(final(self).memory@)),
            memory_view(final(self).memory@) == memory_view(old(self).memory@).update(
                slot as int,
                match value {
                    Some(d) => Some(d.data()),
                    None => None,
                },
            ),
    {
        let ghost before = self.memory@;
        let ghost v = match &value {
            Some(d) => Some(d.data()),
            None => None,
        };
        self.memory.set(slot, value);
        assert(memory_view(self.memory@) =~= memory_view(before).update(slot as int, v));
        proof {
            let now = memory_view(self.memory@);
            assert forall|k: int| 0 <= k < now.len() implies (#[trigger] now[k] matches Some(e) ==> data_ok(e)) by {
                if k != slot {
                    assert(now[k] == memory_view(before)[k]);
                }
            }
        }
    }

    /// `memory[slot] += m`, when the slot holds a value; false when the kinds
    /// of that value and of `m` do not go together.
    fn plus_equal_at(&mut self, slot: usize, m: &AholaData) -> (r: bool)
        requires
            memory_ok(memory_view(old(self).memory@)),
            data_ok(m.data()),
        ensures
            r == !(slot < old(self).memory@.len() && memory_view(old(self).memory@)[slot as int] is Some
                && plus_equal(memory_view(old(self).memory@)[slot as int]->0, m.data()) is None),
            r ==> memory_view(final(self).memory@) == step_memory(
                memory_view(old(self).memory@),
                OpV::PlusEqual(slot, m.data()),
            ),
            !r ==> memory_view(final(self).memory@) == memory_view(old(self).memory@),
            memory_ok(memory_view(final(self).memory@)),
    {
        let ghost mem = memory_view(self.memory@);
        if slot >= self.memory.len() || self.memory[slot].is_none() {
            return true;
        }
        let mut taken: Option<AholaData> = None;
        self.memory.set_and_swap(slot, &mut taken);
        assert(memory_view(self.memory@) =~= mem.update(slot as int, None));
        let existing = match taken {
            Some(d) => d,
            None => {
                return true;
            },
        };
        assert(mem[slot as int] == Some(existing.data()));
        assert(data_ok(existing.data()));
        let updated = match (existing, m) {
            (AholaData::I4M(a), AholaData::I4M(b)) => {
                let sum = add_signed(&a, b);
                proof {
                    lemma_decimal_text_ok(signed_value(a@) + signed_value(b@));
                }
                assert(data_ok(AholaData::I4M(sum).data()));
                Ok(AholaData::I4M(sum))
            },
            (AholaData::U4M(a), AholaData::U4M(b)) => {
                let sum = add_unsigned(&a, b);
                proof {
                    lemma_unsigned_value_nonneg(a@);
                    lemma_unsigned_value_nonneg(b@);
                    lemma_decimal_text_ok(unsigned_value(a@) + unsigned_value(b@));
                }
                assert(data_ok(AholaData::U4M(sum).data()));
                Ok(AholaData::U4M(sum))
            },
            (AholaData::Int5M(a), AholaData::Int5M(b)) => {
                let sum = add_signed(&a, b);
                proof {
                    lemma_decimal_text_ok(signed_value(a@) + signed_value(b@));
                }
                assert(data_ok(AholaData::Int5M(sum).data()));
                Ok(AholaData::Int5M(sum))
            },
            (AholaData::String(a), AholaData::String(b)) => {
                let mut joined = a;
                joined.append(b.as_str());
                Ok(AholaData::String(joined))
            },
            (AholaData::Card(items), m) => {
                let mut items = items;
                let ghost before = items@;
                proof {
                    lemma_card_data(items);
                }
                items.push(copy_data(m));
                proof {
                    lemma_card_data(items);
                    assert(datas(items@) =~= datas(before).push(m.data()));
                    let all = datas(items@);
                    assert forall|k: int| 0 <= k < all.len() implies data_ok(#[trigger] all[k]) by {
                        if k < before.len() {
                            assert(all[k] == datas(before)[k]);
                        }
                    }
                }
                assert(data_ok(AholaData::Card(items).data()));
                Ok(AholaData::Card(items))
            },
            (other, _) => Err(other),
        };
        match updated {
            Ok(d) => {
                assert(plus_equal(mem[slot as int]->0, m.data()) == Some(d.data()));
                assert(data_ok(d.data()));
                self.put(slot, Some(d));
                proof {
                    assert(memory_view(self.memory@) =~= mem.update(slot as int, Some(d.data())));
                    let now = memory_view(self.memory@);
                    assert forall|k: int| 0 <= k < now.len() implies (#[trigger] now[k] matches Some(e)
                        ==> data_ok(e)) by {
                        if k != slot {
                            assert(now[k] == mem[k]);
                        }
                    }
                }
                true
            },
            Err(existing) => {
                self.put(slot, Some(existing));
                assert(memory_view(self.memory@) =~= mem);
                false
            },
        }
    }

    /// Runs the instruction `op`, which stands at `pc`: changes the memory as
    /// it says, and tells which instruction comes next and what to do.
    pub fn step(&mut self, op: &OpCode, pc: usize) -> (r: Step)
        requires
            pc < usize::MAX,
            memory_ok(memory_view(old(self).memory@)),
            op_data_ok(op@),
        ensures
            r@ == step_result(memory_view(old(self).memory@), op@, pc as int),
            r@ is Next ==> memory_view(final(self).memory@) == step_memory(memory_view(old(self).memory@), op@),
            !(r@ is Next) ==> memory_view(final(self).memory@) == memory_view(old(self).memory@),
            memory_ok(memory_view(final(self).memory@)),
    {
        let ghost mem = memory_view(self.memory@);
        let len = self.memory.len();
        match op {
            OpCode::Store(slot, data) => {
                if *slot < len {
                    self.put(*slot, Some(copy_data(data)));
                }
                Step::Next { pc: pc + 1, effect: Effect::Quiet }
            },
            OpCode::PlusEqual(slot, m) => {
                if self.plus_equal_at(*slot, m) {
                    Step::Next { pc: pc + 1, effect: Effect::Quiet }
                } else {
                    Step::Fault(Fault::TypeMismatch)
                }
            },
            OpCode::Stamp(message) => Step::Next { pc: pc + 1, effect: Effect::Stamp(message.clone()) },
            OpCode::Dump(slot) => {
                if *slot < len && self.memory[*slot].is_some() {
                    Step::Next { pc: pc + 1, effect: Effect::Dump(*slot) }
                } else {
                    Step::Next { pc: pc + 1, effect: Effect::Quiet }
                }
            },
            OpCode::Jump(target) => Step::Next { pc: *target, effect: Effect::Quiet },
            OpCode::JumpIfFalse(target) => Step::Next { pc: *target, effect: Effect::Quiet },
            OpCode::ReadFile(target, source) => {
                if *source < len {
                    match &self.memory[*source] {
                        Some(AholaData::String(filename)) => {
                            return Step::Next {
                                pc: pc + 1,
                                effect: Effect::ReadFile { target_slot: *target, filename: filename.clone() },
                            };
                        },
                        _ => {},
                    }
                }
                Step::Next { pc: pc + 1, effect: Effect::Quiet }
            },
            OpCode::InlineRust(code) => Step::Next { pc: pc + 1, effect: Effect::Embed(code.clone()) },
            OpCode::CallRustFunc { func_name, arg } => Step::Next {
                pc: pc + 1,
                effect: Effect::CallRust { func_name: func_name.clone(), arg: arg.clone() },
            },
            OpCode::ExternalFileHook(target) => Step::Next { pc: pc + 1, effect: Effect::FileHook(target.clone()) },
            OpCode::DbRangeRequest { target_slot, db_var_slot, start, end } => {
                if *db_var_slot < len {
                    match &self.memory[*db_var_slot] {
                        Some(AholaData::DbRef(name)) => {
                            return Step::Next {
                                pc: pc + 1,
                                effect: Effect::DbRange {
                                    target_slot: *target_slot,
                                    db_name: name.clone(),
                                    start: start.clone(),
                                    end: end.clone(),
                                },
                            };
                        },
                        _ => {},
                    }
                }
                Step::Next { pc: pc + 1, effect: Effect::Quiet }
            },
            OpCode::Ban(slot, name) => {
                if *slot < len {
                    self.put(*slot, None);
                    Step::Next { pc: pc + 1, effect: Effect::Banned(name.clone()) }
                } else {
                    Step::Fault(Fault::SlotOutOfRange(*slot))
                }
            },
            OpCode::Call(_) => Step::Next { pc: pc + 1, effect: Effect::Quiet },
            OpCode::Return => Step::Next { pc: pc + 1, effect: Effect::Quiet },
        }
    }
}

/// What a store writes, the slot gives back: after `Store(slot, d)` the slot
/// holds `d` and no other slot changes, a `Dump` of it prints it, and `+=` on
/// it starts from `d`.  After a `Ban` of the slot it holds nothing, and a
/// `Dump` of it prints nothing.
pub proof fn law_store_then_read(
    mem: Seq<Option<DataV>>,
    slot: usize,
    d: DataV,
    m: DataV,
    name: Seq<char>,
    pc: int,
)
    requires
        slot < mem.len(),
    ensures
        slot_value(step_memory(mem, OpV::Store(slot, d)), slot) == Some(d),
        forall|k: int|
            0 <= k < mem.len() && k != slot ==> #[trigger] step_memory(mem, OpV::Store(slot, d))[k] == mem[k],
        step_result(step_memory(mem, OpV::Store(slot, d)), OpV::Dump(slot), pc) == StepV::Next(
            pc + 1,
            EffectV::Dump(slot),
        ),
        plus_equal(d, m) matches Some(v) ==> slot_value(
            step_memory(step_memory(mem, OpV::Store(slot, d)), OpV::PlusEqual(slot, m)),
            slot,
        ) == Some(v),
        slot_value(step_memory(mem, OpV::Ban(slot, name)), slot) is None,
        step_result(step_memory(mem, OpV::Ban(slot, name)), OpV::Dump(slot), pc) == StepV::Next(
            pc + 1,
            EffectV::Quiet,
        ),
{
}

/// A run of the machine over `code` from `pc` for at most `n` steps, from the
/// memory `mem`: the steps it takes, one per instruction, and the memory it
/// ends with.  It stops at the end of the code or at a fault.  After each
/// step that goes on, `world(k, effect, memory)` is the memory once the
/// caller has carried out the effect of step `k` (reading a file or a
/// database into a slot, or leaving the memory as it is).
pub open spec fn run_steps(
    mem: Seq<Option<DataV>>,
    code: Seq<OpV>,
    pc: int,
    n: nat,
    k: int,
    world: spec_fn(int, EffectV, Seq<Option<DataV>>) -> Seq<Option<DataV>>,
) -> (Seq<StepV>, Seq<Option<DataV>>)
    decreases n,
{
    if n == 0 || pc < 0 || pc >= code.len() {
        (Seq::empty(), mem)
    } else {
        let r = step_result(mem, code[pc], pc);
        match r {
            StepV::Next(next, effect) => {
                let after = world(k, effect, step_memory(mem, code[pc]));
                let rest = run_steps(after, code, next, (n - 1) as nat, k + 1, world);
                (seq![r] + rest.0, rest.1)
            },
            _ => (seq![r], mem),
        }
    }
}

/// `code` with each `JumpIfFalse(t)` replaced by `Jump(t)`.
pub open spec fn unconditional(code: Seq<OpV>) -> Seq<OpV> {
    Seq::new(
        code.len(),
        |i: int|
            match code[i] {
                OpV::JumpIfFalse(t) => OpV::Jump(t),
                op => op,
            },
    )
}

/// `JumpIfFalse(t)` reads no condition and jumps to `t` as `Jump(t)` does:
/// a run of a program and a run of the same program with each `JumpIfFalse`
/// replaced by a `Jump` to the same place take the same steps, hand back the
/// same effects and end with the same memory, whatever the caller does with
/// the effects.
pub proof fn law_jump_if_false_is_jump(
    mem: Seq<Option<DataV>>,
    code: Seq<OpV>,
    pc: int,
    n: nat,
    k: int,
    world: spec_fn(int, EffectV, Seq<Option<DataV>>) -> Seq<Option<DataV>>,
)
    ensures
        run_steps(mem, unconditional(code), pc, n, k, world) == run_steps(mem, code, pc, n, k, world),
    decreases n,
{
    let u = unconditional(code);
    if !(n == 0 || pc < 0 || pc >= code.len()) {
        assert(step_result(mem, u[pc], pc) == step_result(mem, code[pc], pc));
        assert(step_memory(mem, u[pc]) == step_memory(mem, code[pc]));
        if let StepV::Next(next, effect) = step_result(mem, code[pc], pc) {
            let after = world(k, effect, step_memory(mem, code[pc]));
            law_jump_if_false_is_jump(after, code, next, (n - 1) as nat, k + 1, world);
        }
    }
}

/// `s` from `i` on, each occurrence of `pat` (found from left to right,
/// without overlaps) replaced by `rep`.
pub open spec fn replace_from(s: Seq<char>, pat: Seq<char>, rep: Seq<char>, i: int) -> Seq<char>
    decreases s.len() + 1 - i,
{
    if pat.len() == 0 || i < 0 || i > s.len() {
        Seq::empty()
    } else {
        proof {
            lemma_first_occurrence_from(s, pat, i);
        }
        match first_occurrence_from(s, pat, i) {
            Some(k) => s.subrange(i, k) + rep + replace_from(s, pat, rep, k + pat.len()),
            None => s.subrange(i, s.len() as int),
        }
    }
}

/// `s` with each occurrence of the non-empty `pat` replaced by `rep` (`str::replace`).
pub open spec fn replace_all(s: Seq<char>, pat: Seq<char>, rep: Seq<char>) -> Seq<char> {
    replace_from(s, pat, rep, 0)
}

/// `text` with the replacements `fills` made one after the other.
pub open spec fn fill_all(text: Seq<char>, fills: Seq<(Seq<char>, Seq<char>)>) -> Seq<char>
    decreases fills.len(),
{
    if fills.len() == 0 {
        text
    } else {
        replace_all(fill_all(text, fills.drop_last()), fills.last().0, fills.last().1)
    }
}

fn first_from(s: &Vec<char>, pat: &Vec<char>, i: usize) -> (r: Option<usize>)
    requires
        i <= s.len(),
    ensures
        r matches Some(k) ==> first_occurrence_from(s@, pat@, i as int) == Some(k as int),
        r is None ==> first_occurrence_from(s@, pat@, i as int) is None,
{
    let mut j = i;
    while j <= s.len()
        invariant
            i <= j <= s.len() + 1,
            first_occurrence_from(s@, pat@, i as int) == first_occurrence_from(s@, pat@, j as int),
        decreases s.len() + 1 - j,
    {
        if matches_at(s, pat, j) {
            return Some(j);
        }
        if j == s.len() {
            assert(first_occurrence_from(s@, pat@, j + 1) is None);
            return None;
        }
        j = j + 1;
    }
    None
}

/// `s` with each occurrence of `pat` replaced by `rep`.
pub fn replace_chars(s: &Vec<char>, pat: &Vec<char>, rep: &Vec<char>) -> (r: Vec<char>)
    requires
        pat.len() > 0,
    ensures
        r@ == replace_all(s@, pat@, rep@),
{
    let mut out: Vec<char> = Vec::new();
    let mut i: usize = 0;
    assert(out@ + replace_from(s@, pat@, rep@, 0) =~= replace_from(s@, pat@, rep@, 0));
    loop
        invariant
            pat.len() > 0,
            i <= s.len(),
            replace_all(s@, pat@, rep@) == out@ + replace_from(s@, pat@, rep@, i as int),
        decreases s.len() + 1 - i,
    {
        proof {
            lemma_first_occurrence_from(s@, pat@, i as int);
        }
        match first_from(s, pat, i) {
            Some(k) => {
                let ghost before = out@;
                let mut j = i;
                while j < k
                    invariant
                        i <= j <= k <= s.len(),
                        out@ == before + s@.subrange(i as int, j as int),
                    decreases k - j,
                {
                    out.push(s[j]);
                    j = j + 1;
                    assert(out@ =~= before + s@.subrange(i as int, j as int));
                }
                let ghost mid = out@;
                let mut q: usize = 0;
                while q < rep.len()
                    invariant
                        q <= rep.len(),
                        out@ == mid + rep@.subrange(0, q as int),
                    decreases rep.len() - q,
                {
                    out.push(rep[q]);
                    q = q + 1;
                    assert(out@ =~= mid + rep@.subrange(0, q as int));
                }
                assert(rep@.subrange(0, rep@.len() as int) =~= rep@);
                assert(out@ =~= before + (s@.subrange(i as int, k as int) + rep@));
                assert(before + (s@.subrange(i as int, k as int) + rep@ + replace_from(s@, pat@, rep@, k + pat.len()))
                    =~= out@ + replace_from(s@, pat@, rep@, k + pat.len()));
                i = k + pat.len();
            },
            None => {
                let ghost before = out@;
                let mut j = i;
                while j < s.len()
                    invariant
                        i <= j <= s.len(),
                        out@ == before + s@.subrange(i as int, j as int),
                    decreases s.len() - j,
                {
                    out.push(s[j]);
                    j = j + 1;
                    assert(out@ =~= before + s@.subrange(i as int, j as int));
                }
                assert(out@ =~= before + replace_from(s@, pat@, rep@, i as int));
                return out;
            },
        }
    }
}

/// Makes the replacements `fills` in `message`, one after the other.
pub fn fill_in(message: &String, fills: &Vec<(String, String)>) -> (r: String)
    requires
        forall|k: int| 0 <= k < fills.len() ==> (#[trigger] fills@[k]).0@.len() > 0,
    ensures
        r@ == fill_all(message@, Seq::new(fills.len() as nat, |k: int| (fills@[k].0@, fills@[k].1@))),
{
    let ghost all = Seq::new(fills.len() as nat, |k: int| (fills@[k].0@, fills@[k].1@));
    let mut text = chars_of(message.as_str());
    let mut k: usize = 0;
    assert(all.take(0) =~= Seq::<(Seq<char>, Seq<char>)>::empty());
    while k < fills.len()
        invariant
            k <= fills.len(),
            all == Seq::new(fills.len() as nat, |k: int| (fills@[k].0@, fills@[k].1@)),
            forall|k: int| 0 <= k < fills.len() ==> (#[trigger] fills@[k]).0@.len() > 0,
            text@ == fill_all(message@, all.take(k as int)),
        decreases fills.len() - k,
    {
        let pat = chars_of(fills[k].0.as_str());
        let rep = chars_of(fills[k].1.as_str());
        text = replace_chars(&text, &pat, &rep);
        proof {
            assert(all.take(k + 1).drop_last() =~= all.take(k as int));
            assert(all.take(k + 1).last() == all[k as int]);
        }
        k = k + 1;
    }
    assert(all.take(fills.len() as int) =~= all);
    string_of(&text)
}

/// What a `\(name)` of a stamp becomes: a text, or the list in a slot, which
/// the caller writes out.
#[derive(Debug, Clone, PartialEq)]
pub enum FillValue {
    Text(String),
    List(usize),
}

/// The mathematical form of a fill value.
pub enum FillV {
    Text(Seq<char>),
    List(usize),
}

/// A replacement of a stamp: `pattern` is `\(name)`.
#[derive(Debug, Clone, PartialEq)]
pub struct Fill {
    pub pattern: String,
    pub value: FillValue,
}

impl View for Fill {
    type V = (Seq<char>, FillV);

    open spec fn view(&self) -> (Seq<char>, FillV) {
        (
            self.pattern@,
            match self.value {
                FillValue::Text(t) => FillV::Text(t@),
                FillValue::List(slot) => FillV::List(slot),
            },
        )
    }
}

/// How a stamp writes a value that is not a list.
pub open spec fn value_text(d: DataV) -> Seq<char> {
    match d {
        DataV::I4M(t) => decimal_text(signed_value(t)),
        DataV::U4M(t) => decimal_text(unsigned_value(t)),
        DataV::Int5M(t) => decimal_text(signed_value(t)),
        DataV::Str(s) => s,
        DataV::DbRef(db) => ".db reference ("@ + db + seq![')'],
        DataV::Card(_) => Seq::empty(),
        DataV::Nothing => "None"@,
    }
}

/// The pattern that a stamp replaces for `name`.
pub open spec fn stamp_pattern(name: Seq<char>) -> Seq<char> {
    seq!['\\', '('] + name + seq![')']
}

/// The replacements of a stamp: for each symbol, in the order of the table,
/// whose slot holds a value, its pattern and that value.
pub open spec fn stamp_fills_spec(entries: Seq<(String, Symbol)>, mem: Seq<Option<DataV>>) -> Seq<(Seq<char>, FillV)>
    decreases entries.len(),
{
    if entries.len() == 0 {
        Seq::empty()
    } else {
        let before = stamp_fills_spec(entries.drop_last(), mem);
        let (name, sym) = entries.last();
        match slot_value(mem, sym.slot) {
            Some(DataV::Card(_)) => before.push((stamp_pattern(name@), FillV::List(sym.slot))),
            Some(d) => before.push((stamp_pattern(name@), FillV::Text(value_text(d)))),
            None => before,
        }
    }
}

fn value_text_exec(d: &AholaData) -> (r: String)
    requires
        data_ok(d.data()),
    ensures
        r@ == value_text(d.data()),
{
    match d {
        AholaData::I4M(t) => show_signed(t),
        AholaData::U4M(t) => show_unsigned(t),
        AholaData::Int5M(t) => show_signed(t),
        AholaData::String(s) => s.clone(),
        AholaData::DbRef(db) => {
            let mut r = ".db reference (".to_string();
            r.append(db.as_str());
            push_char(&mut r, ')');
            r
        },
        AholaData::Card(_) => String::new(),
        AholaData::Nil => "None".to_string(),
    }
}

impl VirtualMachine {
    /// The replacements that a stamp makes, with the symbols of `table`.
    pub fn stamp_fills(&self, table: &SymbolTable) -> (r: Vec<Fill>)
        requires
            memory_ok(memory_view(self.memory@)),
        ensures
            Seq::new(r@.len(), |k: int| r@[k]@) == stamp_fills_spec(table.symbols@, memory_view(self.memory@)),
    {
        let ghost mem = memory_view(self.memory@);
        let entries = &table.symbols;
        let mut r: Vec<Fill> = Vec::new();
        let mut k: usize = 0;
        while k < entries.len()
            invariant
                k <= entries.len(),
                mem == memory_view(self.memory@),
                memory_ok(mem),
                Seq::new(r@.len(), |j: int| r@[j]@) == stamp_fills_spec(entries@.take(k as int), mem),
            decreases entries.len() - k,
        {
            let ghost before = r@;
            proof {
                assert(entries@.take(k + 1).drop_last() =~= entries@.take(k as int));
                assert(entries@.take(k + 1).last() == entries@[k as int]);
            }
            let name = &entries[k].0;
            let slot = entries[k].1.slot;
            if slot < self.memory.len() {
                match &self.memory[slot] {
                    Some(d) => {
                        let mut pattern = string_of_char_pair('\\', '(');
                        pattern.append(name.as_str());
                        push_char(&mut pattern, ')');
                        assert(pattern@ =~= stamp_pattern(name@));
                        assert(mem[slot as int] == Some(d.data()));
                        let value = match d {
                            AholaData::Card(_) => FillValue::List(slot),
                            _ => FillValue::Text(value_text_exec(d)),
                        };
                        r.push(Fill { pattern, value });
                        proof {
                            assert(Seq::new(r@.len(), |j: int| r@[j]@) =~= Seq::new(
                                before.len(),
                                |j: int| before[j]@,
                            ).push(r@[before.len() as int]@));
                        }
                    },
                    None => {},
                }
            }
            proof {
                assert(Seq::new(r@.len(), |j: int| r@[j]@) == stamp_fills_spec(entries@.take(k + 1), mem));
            }
            k = k + 1;
        }
        assert(entries@.take(entries@.len() as int) =~= entries@);
        r
    }
}

fn string_of_char_pair(a: char, b: char) -> (r: String)
    ensures
        r@ == seq![a, b],
{
    let mut r = String::new();
    push_char(&mut r, a);
    push_char(&mut r, b);
    assert(r@ =~= seq![a, b]);
    r
}

/// One step of the walk over the keys `cur..=end` of a range request: while
/// `cur` is at most `end`, the key of `cur` (its big-endian bytes, as
/// num-bigint writes them) and the text of the key after it; `None` once
/// `cur` is past `end`.
pub fn range_next(cur: &String, end: &String) -> (r: Option<(Vec<u8>, String)>)
    requires
        unsigned_text_ok(cur@),
        unsigned_text_ok(end@),
    ensures
        r is Some <==> unsigned_value(cur@) <= unsigned_value(end@),
        r matches Some((key, next)) ==> key@ == be_bytes(unsigned_value(cur@) as nat) && next@ == decimal_text(
            unsigned_value(cur@) + 1,
        ) && unsigned_text_ok(next@) && unsigned_value(next@) == unsigned_value(cur@) + 1,
{
    if !unsigned_at_most(cur, end) {
        return None;
    }
    let key = unsigned_bytes_be(cur);
    let one = string_of_char('1');
    assert(one@.drop_last() =~= Seq::<char>::empty());
    assert(unsigned_body(one@) == one@);
    assert(unsigned_text_ok(one@));
    assert(digits_value(one@) == digits_value(one@.drop_last()) * 10 + digit_value('1'));
    assert(unsigned_value(one@) == 1);
    let next = add_unsigned(cur, &one);
    proof {
        lemma_unsigned_value_nonneg(cur@);
        lemma_decimal_text_value(unsigned_value(cur@) + 1);
    }
    Some((key, next))
}

/// Whether the numbers of `d` are texts that num-bigint reads.
pub fn data_is_ok(d: &AholaData) -> (r: bool)
    ensures
        r == data_ok(d.data()),
    decreases d,
{
    match d {
        AholaData::I4M(t) => bigint_accepts(t.as_str()),
        AholaData::U4M(t) => biguint_accepts(t.as_str()),
        AholaData::Int5M(t) => bigint_accepts(t.as_str()),
        AholaData::Card(items) => {
            proof {
                lemma_card_data(*items);
            }
            let mut k: usize = 0;
            while k < items.len()
                invariant
                    k <= items.len(),
                    *d == AholaData::Card(*items),
                    d.data() == DataV::Card(datas(items@)),
                    forall|j: int| 0 <= j < k ==> data_ok(#[trigger] datas(items@)[j]),
                decreases items.len() - k,
            {
                proof {
                    assert(decreases_to!(*d => d->Card_0));
                    assert(decreases_to!(d->Card_0 => d->Card_0@));
                    assert(decreases_to!(d->Card_0@ => items@[k as int]));
                }
                if !data_is_ok(&items[k]) {
                    assert(!data_ok(datas(items@)[k as int]));
                    proof {
                        lemma_data_ok_card(datas(items@));
                    }
                    return false;
                }
                k = k + 1;
            }
            proof {
                lemma_data_ok_card(datas(items@));
            }
            true
        },
        _ => true,
    }
}

/// Whether the values and bounds that `op` carries are well formed.
pub fn op_is_ok(op: &OpCode) -> (r: bool)
    ensures
        r == op_data_ok(op@),
{
    match op {
        OpCode::Store(_, d) => data_is_ok(d),
        OpCode::PlusEqual(_, d) => data_is_ok(d),
        OpCode::DbRangeRequest { start, end, .. } => biguint_accepts(start.as_str()) && biguint_accepts(end.as_str()),
        _ => true,
    }
}

/// A program compiled from a well-formed state (every slot of its symbols
/// and instructions below its next free slot, distinct names at distinct
/// slots, every value well formed; a fresh symbol table with no bytecode is
/// one, see `law_fresh_state`) fits the machine made for it, before and after
/// optimizing: every slot that an instruction names is below the table's
/// next free slot (and so within the memory of `VirtualMachine::new(next_slot)`),
/// and every value it carries is one that `step` accepts.
pub proof fn law_compiled_program_fits_machine(toks: Seq<Token>, st: CState)
    requires
        slots_in_range(st),
        st.next_slot + toks.len() <= usize::MAX,
    ensures
        compile_spec(toks, st) matches Ok(s) ==> s.next_slot <= st.next_slot + toks.len() && (forall|i: int|
            0 <= i < s.code.len() ==> slots_below(#[trigger] s.code[i], s.next_slot) && op_data_ok(s.code[i]))
            && forall|i: int|
            0 <= i < optimized(s.code).len() ==> slots_below(#[trigger] optimized(s.code)[i], s.next_slot)
                && op_data_ok(optimized(s.code)[i]),
{
    law_compiled_slots_in_range(toks, st);
    if let Ok(s) = compile_spec(toks, st) {
        let p = kept_by(read_slots(s.code));
        lemma_filter_from(s.code, p);
        assert forall|i: int| 0 <= i < s.code.len() implies slots_below(#[trigger] s.code[i], s.next_slot)
            && op_data_ok(s.code[i]) by {
            assert(op_ok(s.code[i], s.next_slot));
        }
        assert forall|i: int| 0 <= i < optimized(s.code).len() implies slots_below(
            #[trigger] optimized(s.code)[i],
            s.next_slot,
        ) && op_data_ok(optimized(s.code)[i]) by {
            let op = optimized(s.code)[i];
            let j = choose|j: int| 0 <= j < s.code.len() && s.code[j] == op;
            assert(op_ok(s.code[j], s.next_slot));
        }
    }
}

/// No instruction of a program compiled from a well-formed state (see
/// `law_compiled_program_fits_machine`), optimized or not, names a slot
/// beyond the memory of a machine made for it (one with at least as many
/// slots as the table handed out): running any of its instructions, from any
/// memory of that size, never faults for a missing slot.
pub proof fn law_compiled_program_never_misses_a_slot(toks: Seq<Token>, st: CState)
    requires
        slots_in_range(st),
        st.next_slot + toks.len() <= usize::MAX,
    ensures
        compile_spec(toks, st) matches Ok(s) ==> (forall|mem: Seq<Option<DataV>>, i: int, pc: int|
            s.next_slot <= mem.len() && 0 <= i < s.code.len() ==> !(#[trigger] step_result(
                mem,
                s.code[i],
                pc,
            ) is SlotOutOfRange)) && forall|mem: Seq<Option<DataV>>, i: int, pc: int|
            s.next_slot <= mem.len() && 0 <= i < optimized(s.code).len() ==> !(#[trigger] step_result(
                mem,
                optimized(s.code)[i],
                pc,
            ) is SlotOutOfRange),
{
    law_compiled_program_fits_machine(toks, st);
    if let Ok(s) = compile_spec(toks, st) {
        assert forall|mem: Seq<Option<DataV>>, i: int, pc: int|
            s.next_slot <= mem.len() && 0 <= i < s.code.len() implies !(#[trigger] step_result(
            mem,
            s.code[i],
            pc,
        ) is SlotOutOfRange) by {
            assert(slots_below(s.code[i], s.next_slot));
        }
        assert forall|mem: Seq<Option<DataV>>, i: int, pc: int|
            s.next_slot <= mem.len() && 0 <= i < optimized(s.code).len() implies !(#[trigger] step_result(
            mem,
            optimized(s.code)[i],
            pc,
        ) is SlotOutOfRange) by {
            assert(slots_below(optimized(s.code)[i], s.next_slot));
        }
    }
}

/// A range request reads the database that its slot refers to, with or
/// without a slot to fill: when the slot holds a reference to the database
/// `name`, the request hands back a database read of `name` carrying the
/// request's own target, start and end, goes on with the next instruction
/// and leaves the memory as it is; when the slot holds anything else (or
/// lies beyond the memory) it does nothing.  Which of the two happens does
/// not depend on the target.
pub proof fn law_range_request_reads_its_database(
    mem: Seq<Option<DataV>>,
    target: Option<usize>,
    other_target: Option<usize>,
    db: usize,
    start: Seq<char>,
    end: Seq<char>,
    pc: int,
)
    ensures
        step_memory(mem, OpV::DbRangeRequest(target, db, start, end)) == mem,
        slot_value(mem, db) matches Some(DataV::DbRef(name)) ==> step_result(
            mem,
            OpV::DbRangeRequest(target, db, start, end),
            pc,
        ) == StepV::Next(pc + 1, EffectV::DbRange(target, name, start, end)),
        !(slot_value(mem, db) matches Some(DataV::DbRef(_))) ==> step_result(
            mem,
            OpV::DbRangeRequest(target, db, start, end),
            pc,
        ) == StepV::Next(pc + 1, EffectV::Quiet),
        (step_result(mem, OpV::DbRangeRequest(target, db, start, end), pc) matches StepV::Next(
            _,
            EffectV::DbRange(..),
        )) == (step_result(mem, OpV::DbRangeRequest(other_target, db, start, end), pc) matches StepV::Next(
            _,
            EffectV::DbRange(..),
        )),
{
}

/// A stamp writes every integer the same way, whatever its kind: the text
/// filled in for a variable whose slot holds a signed number (`i4M` or
/// `int5M`) is the decimal text of its value, and likewise for an unsigned
/// one (`u4M`); a signed and a wide signed number of the same text are
/// written alike.
pub proof fn law_stamp_writes_numbers_as_decimals(
    entries: Seq<(String, Symbol)>,
    name: String,
    sym: Symbol,
    mem: Seq<Option<DataV>>,
    t: Seq<char>,
)
    ensures
        slot_value(mem, sym.slot) == Some(DataV::I4M(t)) || slot_value(mem, sym.slot) == Some(DataV::Int5M(t))
            ==> stamp_fills_spec(entries.push((name, sym)), mem).last() == (
            seq!['\\', '('] + name@ + seq![')'],
            FillV::Text(decimal_text(signed_value(t))),
        ),
        slot_value(mem, sym.slot) == Some(DataV::U4M(t)) ==> stamp_fills_spec(entries.push((name, sym)), mem).last()
            == (seq!['\\', '('] + name@ + seq![')'], FillV::Text(decimal_text(unsigned_value(t)))),
        value_text(DataV::Int5M(t)) == value_text(DataV::I4M(t)),
{
    assert(entries.push((name, sym)).drop_last() =~= entries);
}

} // verus!
