//! The optimizer: drops the stores to slots that nothing reads.

use vstd::prelude::*;
use std::collections::HashSet;
use crate::bytecode::{OpCode, OpV, ops_view};

verus! {

broadcast use vstd::std_specs::hash::group_hash_axioms;

/// `op` reads the slot `slot`: it dumps it or adds to it.
pub open spec fn reads_slot(op: OpV, slot: usize) -> bool {
    match op {
        OpV::Dump(s) => s == slot,
        OpV::PlusEqual(s, _) => s == slot,
        _ => false,
    }
}

/// The slots that some instruction of `code` reads.
pub open spec fn read_slots(code: Seq<OpV>) -> Set<usize> {
    Set::new(|slot: usize| exists|i: int| 0 <= i < code.len() && reads_slot(#[trigger] code[i], slot))
}

/// An instruction that the optimizer keeps: all but the stores to a slot
/// that is not read (slot 0 is always kept).
pub open spec fn is_kept(op: OpV, read: Set<usize>) -> bool {
    match op {
        OpV::Store(slot, _) => read.contains(slot) || slot == 0,
        _ => true,
    }
}

/// The instructions of `code` that the optimizer keeps, in their order.
pub open spec fn optimized(code: Seq<OpV>) -> Seq<OpV> {
    code.filter(kept_by(read_slots(code)))
}

/// `is_kept` as a predicate.
pub open spec fn kept_by(read: Set<usize>) -> spec_fn(OpV) -> bool {
    |op: OpV| is_kept(op, read)
}

/// Drops from `bytecode` each store to a slot (other than 0) that no
/// instruction dumps or adds to; keeps all else, in order.
pub fn optimize_bytecode(bytecode: Vec<OpCode>) -> (r: Vec<OpCode>)
    ensures
        ops_view(r@) == optimized(ops_view(bytecode@)),
{
    let ghost code = ops_view(bytecode@);
    let mut used: HashSet<usize> = HashSet::new();
    let mut k: usize = 0;
    while k < bytecode.len()
        invariant
            k <= bytecode.len(),
            code == ops_view(bytecode@),
            used@ == Set::new(
                |slot: usize| exists|i: int| 0 <= i < k && reads_slot(#[trigger] code[i], slot),
            ),
        decreases bytecode.len() - k,
    {
        let ghost before = used@;
        match &bytecode[k] {
            OpCode::Dump(slot) => {
                used.insert(*slot);
            },
            OpCode::PlusEqual(slot, _) => {
                used.insert(*slot);
            },
            _ => {},
        }
        proof {
            assert(code[k as int] == bytecode@[k as int]@);
            assert(used@ =~= Set::new(
                |slot: usize| exists|i: int| 0 <= i < k + 1 && reads_slot(#[trigger] code[i], slot),
            )) by {
                assert forall|slot: usize|
                    (exists|i: int| 0 <= i < k + 1 && reads_slot(#[trigger] code[i], slot))
                        implies used@.contains(slot) by {
                    let i = choose|i: int| 0 <= i < k + 1 && reads_slot(#[trigger] code[i], slot);
                    if i < k {
                        assert(before.contains(slot));
                    }
                }
            }
        }
        k = k + 1;
    }
    assert(used@ =~= read_slots(code));
    let ghost original = bytecode@;
    let mut out: Vec<OpCode> = Vec::new();
    proof {
        assert(ops_view(out@) =~= code.take(0).filter(kept_by(read_slots(code))));
    }
    for instr in it: bytecode
        invariant
            code == ops_view(original),
            it.seq() == original,
            used@ == read_slots(code),
            ops_view(out@) == code.take(it.index() as int).filter(kept_by(read_slots(code))),
    {
        let ghost i = it.index() as int;
        let ghost before = out@;
        proof {
            assert(instr == original[i]);
            assert(code[i] == instr@);
        }
        let keep = match &instr {
            OpCode::Store(slot, _) => {
                let known = used.contains(slot);
                proof {
                    assert(known == read_slots(code).contains(*slot));
                    assert(is_kept(code[i], read_slots(code)) == (known || *slot == 0));
                }
                known || *slot == 0
            },
            _ => true,
        };
        proof {
            assert(keep == is_kept(code[i], read_slots(code)));
            assert(keep == kept_by(read_slots(code))(code[i]));
            assert(code.take(i + 1).drop_last() =~= code.take(i));
            assert(code.take(i + 1).last() == code[i]);
            reveal(Seq::filter);
        }
        if keep {
            out.push(instr);
            proof {
                assert(ops_view(out@) =~= ops_view(before).push(code[i]));
            }
        }
    }
    proof {
        assert(code.take(code.len() as int) =~= code);
    }
    out
}

/// What `filter` keeps comes from the sequence and meets the predicate.
pub(crate) proof fn lemma_filter_from(s: Seq<OpV>, p: spec_fn(OpV) -> bool)
    ensures
        forall|i: int|
            0 <= i < s.filter(p).len() ==> p(#[trigger] s.filter(p)[i]) && s.contains(s.filter(p)[i]),
    decreases s.len(),
{
    reveal(Seq::filter);
    if s.len() > 0 {
        let rest = s.drop_last();
        lemma_filter_from(rest, p);
        let f = s.filter(p);
        assert forall|i: int| 0 <= i < f.len() implies p(#[trigger] f[i]) && s.contains(f[i]) by {
            if i < rest.filter(p).len() {
                assert(f[i] == rest.filter(p)[i]);
                let j = choose|j: int| 0 <= j < rest.len() && rest[j] == rest.filter(p)[i];
                assert(s[j] == f[i]);
            } else {
                assert(f[i] == s.last());
                assert(s[s.len() - 1] == f[i]);
            }
        }
    }
}

/// `filter` keeps all of a sequence whose items all meet the predicate.
proof fn lemma_filter_all(s: Seq<OpV>, p: spec_fn(OpV) -> bool)
    requires
        forall|i: int| 0 <= i < s.len() ==> p(#[trigger] s[i]),
    ensures
        s.filter(p) == s,
    decreases s.len(),
{
    reveal(Seq::filter);
    if s.len() > 0 {
        let rest = s.drop_last();
        assert forall|i: int| 0 <= i < rest.len() implies p(#[trigger] rest[i]) by {
            assert(rest[i] == s[i]);
        }
        lemma_filter_all(rest, p);
        assert(p(s[s.len() - 1]));
        assert(s.filter(p) =~= s);
    }
}

/// Optimizing keeps every instruction that reads a slot, so the slots read
/// are the same before and after.
pub proof fn law_optimize_keeps_reads(code: Seq<OpV>)
    ensures
        read_slots(optimized(code)) == read_slots(code),
{
    let p = kept_by(read_slots(code));
    let f = code.filter(p);
    lemma_filter_from(code, p);
    assert forall|slot: usize| read_slots(f).contains(slot) == read_slots(code).contains(slot) by {
        if read_slots(f).contains(slot) {
            let i = choose|i: int| 0 <= i < f.len() && reads_slot(#[trigger] f[i], slot);
            let j = choose|j: int| 0 <= j < code.len() && code[j] == f[i];
            assert(reads_slot(code[j], slot));
        }
        if read_slots(code).contains(slot) {
            let j = choose|j: int| 0 <= j < code.len() && reads_slot(#[trigger] code[j], slot);
            assert(p(code[j]));
            code.lemma_filter_contains(p, j);
            let i = choose|i: int| 0 <= i < f.len() && f[i] == code[j];
            assert(reads_slot(f[i], slot));
        }
    }
    assert(read_slots(f) =~= read_slots(code));
}

/// Optimizing twice is optimizing once.
pub proof fn law_optimize_idempotent(code: Seq<OpV>)
    ensures
        optimized(optimized(code)) == optimized(code),
{
    let p = kept_by(read_slots(code));
    let f = code.filter(p);
    law_optimize_keeps_reads(code);
    lemma_filter_from(code, p);
    assert(kept_by(read_slots(f)) == p);
    lemma_filter_all(f, p);
}

/// The instructions of `code` that are not stores, in their order.
pub open spec fn non_stores(code: Seq<OpV>) -> Seq<OpV> {
    code.filter(|op: OpV| !(op is Store))
}

/// Filtering by `p` and then by a stricter `q` is filtering by `q`.
proof fn lemma_filter_then_stricter(s: Seq<OpV>, p: spec_fn(OpV) -> bool, q: spec_fn(OpV) -> bool)
    requires
        forall|x: OpV| #[trigger] q(x) ==> p(x),
    ensures
        s.filter(p).filter(q) == s.filter(q),
    decreases s.len(),
{
    reveal(Seq::filter);
    if s.len() > 0 {
        let rest = s.drop_last();
        let x = s.last();
        lemma_filter_then_stricter(rest, p, q);
        if p(x) {
            let f = rest.filter(p);
            assert(f.push(x).drop_last() =~= f);
            assert(f.push(x).last() == x);
            assert(s.filter(p) == f.push(x));
        }
    }
}

/// Optimizing drops only stores: every other instruction is kept, and in
/// the same order, so the instructions that are not stores are the same
/// before and after; what is kept comes from the code; and a store to a
/// slot that some instruction dumps or adds to is kept.
pub proof fn law_optimize_keeps_all_but_stores(code: Seq<OpV>)
    ensures
        non_stores(optimized(code)) == non_stores(code),
        forall|i: int| 0 <= i < optimized(code).len() ==> code.contains(#[trigger] optimized(code)[i]),
        forall|i: int, j: int|
            #![trigger code[i], code[j]]
            0 <= i < code.len() && 0 <= j < code.len() && code[i] is Store && (code[j] == OpV::Dump(
                code[i]->Store_0,
            ) || code[j] is PlusEqual && code[j]->PlusEqual_0 == code[i]->Store_0) ==> optimized(code).contains(
                code[i],
            ),
{
    let p = kept_by(read_slots(code));
    let q = |op: OpV| !(op is Store);
    assert forall|x: OpV| #[trigger] q(x) implies p(x) by {}
    lemma_filter_then_stricter(code, p, q);
    lemma_filter_from(code, p);
    assert forall|i: int, j: int|
        #![trigger code[i], code[j]]
        0 <= i < code.len() && 0 <= j < code.len() && code[i] is Store && (code[j] == OpV::Dump(
            code[i]->Store_0,
        ) || code[j] is PlusEqual && code[j]->PlusEqual_0 == code[i]->Store_0) implies optimized(code).contains(
            code[i],
        ) by {
        let slot = code[i]->Store_0;
        assert(reads_slot(code[j], slot));
        assert(read_slots(code).contains(slot));
        assert(p(code[i]));
        code.lemma_filter_contains(p, i);
    }
}

} // verus!
