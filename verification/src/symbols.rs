//! The symbol table: what the compiler knows of each variable name.

use vstd::prelude::*;

verus! {

broadcast use vstd::string::group_string_axioms;

/// What the compiler knows of a variable: its memory slot, its type name,
/// whether it may be changed, and whether it was declared with a type.
#[derive(Debug, Clone, PartialEq)]
pub struct Symbol {
    pub slot: usize,
    pub var_type: String,
    pub changeable: bool,
    pub is_private: bool,
}

/// The mathematical form of a symbol.
pub struct SymbolV {
    pub slot: usize,
    pub var_type: Seq<char>,
    pub changeable: bool,
    pub is_private: bool,
}

impl View for Symbol {
    type V = SymbolV;

    open spec fn view(&self) -> SymbolV {
        SymbolV {
            slot: self.slot,
            var_type: self.var_type@,
            changeable: self.changeable,
            is_private: self.is_private,
        }
    }
}

/// The symbols by name, and the next free memory slot.
///
/// Each name occurs once in `symbols`; every slot handed out is below `next_slot`.
#[derive(Debug, Clone)]
pub struct SymbolTable {
    pub symbols: Vec<(String, Symbol)>,
    pub next_slot: usize,
}

/// The symbol recorded for `name` in `entries`.
pub open spec fn find_symbol(entries: Seq<(String, Symbol)>, name: Seq<char>) -> Option<Symbol>
    decreases entries.len(),
{
    if entries.len() == 0 {
        None
    } else if entries.last().0@ == name {
        Some(entries.last().1)
    } else {
        find_symbol(entries.drop_last(), name)
    }
}

/// No name occurs twice in `entries`.
pub open spec fn names_distinct(entries: Seq<(String, Symbol)>) -> bool {
    forall|i: int, j: int|
        0 <= i < entries.len() && 0 <= j < entries.len() && i != j ==> (#[trigger] entries[i]).0@
            != (#[trigger] entries[j]).0@
}

/// Where `name` stands in `entries`, the symbol recorded for it is the one there.
pub proof fn lemma_find_symbol(entries: Seq<(String, Symbol)>, name: Seq<char>)
    requires
        names_distinct(entries),
    ensures
        find_symbol(entries, name) is None <==> forall|i: int|
            0 <= i < entries.len() ==> (#[trigger] entries[i]).0@ != name,
        forall|i: int|
            0 <= i < entries.len() && (#[trigger] entries[i]).0@ == name ==> find_symbol(entries, name)
                == Some(entries[i].1),
    decreases entries.len(),
{
    if entries.len() > 0 {
        let n = entries.len() - 1;
        let rest = entries.drop_last();
        assert(entries.last() == entries[n]);
        assert forall|i: int| 0 <= i < rest.len() implies #[trigger] rest[i] == entries[i] by {}
        assert(names_distinct(rest)) by {
            assert forall|i: int, j: int|
                0 <= i < rest.len() && 0 <= j < rest.len() && i != j implies (#[trigger] rest[i]).0@
                != (#[trigger] rest[j]).0@ by {
                assert(entries[i].0@ != entries[j].0@);
            }
        }
        lemma_find_symbol(rest, name);
        if entries[n].0@ != name {
            assert(find_symbol(entries, name) == find_symbol(rest, name));
            assert((forall|i: int| 0 <= i < entries.len() ==> (#[trigger] entries[i]).0@ != name)
                <==> (forall|i: int| 0 <= i < rest.len() ==> (#[trigger] rest[i]).0@ != name)) by {
                if forall|i: int| 0 <= i < rest.len() ==> (#[trigger] rest[i]).0@ != name {
                    assert forall|i: int| 0 <= i < entries.len() implies (#[trigger] entries[i]).0@
                        != name by {
                        if i < n {
                            assert(rest[i] == entries[i]);
                        }
                    }
                }
            }
        } else {
            assert forall|i: int|
                0 <= i < entries.len() && (#[trigger] entries[i]).0@ == name implies find_symbol(
                entries,
                name,
            ) == Some(entries[i].1) by {
                if i != n {
                    assert(entries[i].0@ != entries[n].0@);
                }
            }
        }
    }
}

/// Replacing the symbol of a name that is there changes what that name finds, and nothing else.
pub proof fn lemma_find_symbol_update(
    entries: Seq<(String, Symbol)>,
    idx: int,
    entry: (String, Symbol),
    name: Seq<char>,
)
    requires
        names_distinct(entries),
        0 <= idx < entries.len(),
        entries[idx].0@ == entry.0@,
    ensures
        find_symbol(entries.update(idx, entry), name) == if name == entry.0@ {
            Some(entry.1)
        } else {
            find_symbol(entries, name)
        },
        names_distinct(entries.update(idx, entry)),
    decreases entries.len(),
{
    let updated = entries.update(idx, entry);
    assert(names_distinct(updated)) by {
        assert forall|i: int, j: int|
            0 <= i < updated.len() && 0 <= j < updated.len() && i != j implies (#[trigger] updated[i]).0@
            != (#[trigger] updated[j]).0@ by {
            assert(entries[i].0@ != entries[j].0@);
        }
    }
    if idx == entries.len() - 1 {
        assert(updated.drop_last() =~= entries.drop_last());
    } else {
        let rest = entries.drop_last();
        assert(names_distinct(rest));
        assert(updated.drop_last() =~= rest.update(idx, entry));
        lemma_find_symbol_update(rest, idx, entry, name);
        assert(entries.last() == entries[entries.len() - 1]);
        assert(entries[idx].0@ != entries[entries.len() - 1].0@);
    }
}

impl View for SymbolTable {
    type V = Map<Seq<char>, SymbolV>;

    /// The symbols by the text of their names.
    open spec fn view(&self) -> Map<Seq<char>, SymbolV> {
        Map::new(
            |name: Seq<char>| find_symbol(self.symbols@, name) is Some,
            |name: Seq<char>| find_symbol(self.symbols@, name)->0@,
        )
    }
}

impl SymbolTable {
    /// The table is well formed: no name occurs twice, and every slot handed
    /// out is below `next_slot`.
    pub open spec fn wf(&self) -> bool {
        &&& names_distinct(self.symbols@)
        &&& forall|i: int|
            0 <= i < self.symbols@.len() ==> (#[trigger] self.symbols@[i]).1.slot < self.next_slot
    }

    /// An empty table whose first free slot is 0.
    pub fn new() -> (r: Self)
        ensures
            r@ == Map::<Seq<char>, SymbolV>::empty(),
            r.next_slot == 0,
            r.wf(),
    {
        let r = SymbolTable { symbols: Vec::new(), next_slot: 0 };
        assert(r@ =~= Map::<Seq<char>, SymbolV>::empty());
        r
    }

    /// Where `name` stands in `symbols`, if it does.
    fn position(&self, name: &String) -> (r: Option<usize>)
        requires
            self.wf(),
        ensures
            r matches Some(i) ==> i < self.symbols@.len() && self.symbols@[i as int].0@ == name@,
            r is None ==> forall|i: int|
                0 <= i < self.symbols@.len() ==> (#[trigger] self.symbols@[i]).0@ != name@,
    {
        let mut i: usize = 0;
        while i < self.symbols.len()
            invariant
                i <= self.symbols@.len(),
                forall|j: int| 0 <= j < i ==> (#[trigger] self.symbols@[j]).0@ != name@,
            decreases self.symbols.len() - i,
        {
            if self.symbols[i].0 == *name {
                return Some(i);
            }
            i = i + 1;
        }
        None
    }

    /// The symbol recorded for `name`, if any.
    pub fn get(&self, name: &String) -> (r: Option<&Symbol>)
        requires
            self.wf(),
        ensures
            r matches Some(s) ==> self@.contains_key(name@) && s@ == self@[name@],
            r is None ==> !self@.contains_key(name@),
            r matches Some(s) ==> s.slot < self.next_slot,
    {
        proof {
            lemma_find_symbol(self.symbols@, name@);
        }
        match self.position(name) {
            Some(i) => Some(&self.symbols[i].1),
            None => None,
        }
    }

    /// Records `name` with the next free slot and the given type and flags
    /// (replacing what was recorded for it), and returns that slot.
    pub fn register(&mut self, name: &str, var_type: String, changeable: bool, is_private: bool) -> (r: usize)
        requires
            old(self).wf(),
            old(self).next_slot < usize::MAX,
        ensures
            r == old(self).next_slot,
            final(self).next_slot == old(self).next_slot + 1,
            final(self)@ == old(self)@.insert(
                name@,
                SymbolV { slot: r, var_type: var_type@, changeable, is_private },
            ),
            final(self).wf(),
    {
        let slot = self.next_slot;
        let key = name.to_string();
        let symbol = Symbol { slot, var_type, changeable, is_private };
        let ghost old_entries = self.symbols@;
        proof {
            lemma_find_symbol(old_entries, name@);
        }
        match self.position(&key) {
            Some(i) => {
                self.symbols.set(i, (key, symbol));
                proof {
                    let entry = self.symbols@[i as int];
                    assert(self.symbols@ == old_entries.update(i as int, entry));
                    assert forall|k: Seq<char>| #[trigger] find_symbol(self.symbols@, k) == if k == name@ {
                        Some(entry.1)
                    } else {
                        find_symbol(old_entries, k)
                    } by {
                        lemma_find_symbol_update(old_entries, i as int, entry, k);
                    }
                    lemma_find_symbol_update(old_entries, i as int, entry, name@);
                }
            },
            None => {
                self.symbols.push((key, symbol));
                proof {
                    let entries = self.symbols@;
                    assert(entries.drop_last() =~= old_entries);
                    assert forall|i: int, j: int|
                        0 <= i < entries.len() && 0 <= j < entries.len() && i != j implies (
                    #[trigger] entries[i]).0@ != (#[trigger] entries[j]).0@ by {
                        if i < old_entries.len() && j < old_entries.len() {
                            assert(old_entries[i].0@ != old_entries[j].0@);
                        } else if i < old_entries.len() {
                            assert(old_entries[i].0@ != name@);
                        } else {
                            assert(old_entries[j].0@ != name@);
                        }
                    }
                }
            },
        }
        self.next_slot = self.next_slot + 1;
        proof {
            assert(self@ =~= old(self)@.insert(
                name@,
                SymbolV { slot, var_type: self@[name@].var_type, changeable, is_private },
            ));
        }
        slot
    }
}

/// Distinct names of `syms` have distinct slots.
pub open spec fn slots_distinct(syms: Map<Seq<char>, SymbolV>) -> bool {
    forall|a: Seq<char>, b: Seq<char>|
        #[trigger] syms.contains_key(a) && #[trigger] syms.contains_key(b) && a != b ==> syms[a].slot != syms[b].slot
}

/// `register` keeps distinct names at distinct slots: if they are in `t`,
/// they are in the table that `register` leaves (`t@` with `name` recorded at
/// the slot `t.next_slot`), whose slots are all below the new `next_slot`.
pub proof fn law_register_keeps_slots_distinct(
    t: SymbolTable,
    name: Seq<char>,
    var_type: Seq<char>,
    changeable: bool,
    is_private: bool,
)
    requires
        t.wf(),
        slots_distinct(t@),
    ensures
        slots_distinct(
            t@.insert(name, SymbolV { slot: t.next_slot, var_type, changeable, is_private }),
        ),
        forall|k: Seq<char>|
            #[trigger] t@.insert(name, SymbolV { slot: t.next_slot, var_type, changeable, is_private }).contains_key(k)
                ==> t@.insert(name, SymbolV { slot: t.next_slot, var_type, changeable, is_private })[k].slot
                < t.next_slot + 1,
{
    law_register_fresh_slot(t);
}

/// What `register` records, `get` gives back: after `name` is recorded with
/// the symbol `s` (`register` leaves the table `t.insert(name, s)`), the table
/// holds `s` for `name` and, for every other name, what it held before.
pub proof fn law_get_after_register(t: Map<Seq<char>, SymbolV>, name: Seq<char>, s: SymbolV)
    ensures
        t.insert(name, s).contains_key(name),
        t.insert(name, s)[name] == s,
        forall|other: Seq<char>|
            other != name ==> (#[trigger] t.insert(name, s).contains_key(other) == t.contains_key(other)),
        forall|other: Seq<char>|
            other != name && t.contains_key(other) ==> #[trigger] t.insert(name, s)[other] == t[other],
{
}

/// The slot that `register` hands out (the table's `next_slot`) is not the
/// slot of any symbol already in the table.
pub proof fn law_register_fresh_slot(t: SymbolTable)
    requires
        t.wf(),
    ensures
        forall|name: Seq<char>| #[trigger] t@.contains_key(name) ==> t@[name].slot < t.next_slot,
{
    assert forall|name: Seq<char>| #[trigger] t@.contains_key(name) implies t@[name].slot < t.next_slot by {
        lemma_find_symbol(t.symbols@, name);
        let i = choose|i: int| 0 <= i < t.symbols@.len() && (#[trigger] t.symbols@[i]).0@ == name;
        assert(find_symbol(t.symbols@, name) == Some(t.symbols@[i].1));
    }
}

} // verus!
