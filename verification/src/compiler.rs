//! The compiler: from tokens to bytecode, with the symbol table it fills.
//!
//! The tokens are read from left to right.  At each place the compiler tries,
//! in this order: an assignment from a database (`x = .db`) or from a range
//! request (`x = db.request[a-b]`), a standalone range request
//! (`db.request[a-b]`), a ban (`.ban x`), and then the statement that the
//! kind of the token opens.  What it does not understand it skips, one token
//! at a time.

use vstd::prelude::*;
use crate::bytecode::{AholaData, DataV, OpCode, OpV, data_ok, datas, lemma_card_data, op_data_ok, ops_view};
use crate::numbers::{
    lemma_or_zero_ok, signed_number, signed_or_zero, signed_text_ok, unsigned_number, unsigned_or_zero,
    unsigned_text_ok,
};
use crate::symbols::{Symbol, SymbolTable, SymbolV, slots_distinct};
use crate::text::{char_is_uppercase, chars_of, is_uppercase_char, push_char, string_is};
use vstd::string::StringExecFns;
use crate::tokens::{Token, TokenType};

verus! {

broadcast use vstd::string::group_string_axioms;

/// Why compiling stops.
#[derive(Debug, Clone, PartialEq)]
pub enum CompileError {
    /// `name += value` where `name` may not be changed.
    ImmutableVariable { name: String },
    /// A constant (a name that starts with an uppercase letter) marked `*c`.
    ChangeableConstant { name: String },
    /// `name = value` where `value` is a name, not a literal.
    NonLiteralAssignment { name: String, value: String },
}

/// The mathematical form of a compile error.
pub enum ErrV {
    ImmutableVariable(Seq<char>),
    ChangeableConstant(Seq<char>),
    NonLiteralAssignment(Seq<char>, Seq<char>),
}

impl View for CompileError {
    type V = ErrV;

    open spec fn view(&self) -> ErrV {
        match self {
            CompileError::ImmutableVariable { name } => ErrV::ImmutableVariable(name@),
            CompileError::ChangeableConstant { name } => ErrV::ChangeableConstant(name@),
            CompileError::NonLiteralAssignment { name, value } => ErrV::NonLiteralAssignment(
                name@,
                value@,
            ),
        }
    }
}

/// What the compiler has built so far: the symbols by name, the next free
/// slot, and the instructions.
pub struct CState {
    pub syms: Map<Seq<char>, SymbolV>,
    pub next_slot: nat,
    pub code: Seq<OpV>,
}

/// The compiler state that a symbol table and a bytecode stand for.
pub open spec fn state_of(table: SymbolTable, code: Seq<OpCode>) -> CState {
    CState { syms: table@, next_slot: table.next_slot as nat, code: ops_view(code) }
}

/// `st` with `op` appended to its instructions.
pub open spec fn emit(st: CState, op: OpV) -> CState {
    CState { code: st.code.push(op), ..st }
}

/// `st` with `name` recorded at the next free slot (which moves on by one).
pub open spec fn record(st: CState, name: Seq<char>, var_type: Seq<char>, changeable: bool, is_private: bool) -> CState {
    CState {
        syms: st.syms.insert(
            name,
            SymbolV { slot: st.next_slot as usize, var_type, changeable, is_private },
        ),
        next_slot: st.next_slot + 1,
        code: st.code,
    }
}

/// The kind of token `i`.
pub open spec fn kind(toks: Seq<Token>, i: int) -> TokenType {
    toks[i].token_type
}

/// The text of token `i`.
pub open spec fn text(toks: Seq<Token>, i: int) -> Seq<char> {
    toks[i].value@
}

/// The first position at or after `i` whose token is not a number literal.
pub open spec fn number_run_end(toks: Seq<Token>, i: int) -> int
    decreases toks.len() - i,
{
    if i >= toks.len() || kind(toks, i) != TokenType::NumberLiteral {
        i
    } else {
        number_run_end(toks, i + 1)
    }
}

/// The first position at or after `i` whose token has kind `k`, or the number of tokens.
pub open spec fn find_kind(toks: Seq<Token>, i: int, k: TokenType) -> int
    decreases toks.len() - i,
{
    if i >= toks.len() {
        toks.len() as int
    } else if kind(toks, i) == k {
        i
    } else {
        find_kind(toks, i + 1, k)
    }
}

/// The texts of the tokens `i..j`, one after the other.
pub open spec fn joined(toks: Seq<Token>, i: int, j: int) -> Seq<char>
    decreases j - i,
{
    if j <= i {
        Seq::empty()
    } else {
        joined(toks, i, j - 1) + text(toks, j - 1)
    }
}

/// The texts of the tokens `i..j`, each followed by a space.
pub open spec fn spaced(toks: Seq<Token>, i: int, j: int) -> Seq<char>
    decreases j - i,
{
    if j <= i {
        Seq::empty()
    } else {
        spaced(toks, i, j - 1) + text(toks, j - 1) + seq![' ']
    }
}

/// The bounds `[a-b]` of a range request whose `[` is expected at `i`: the
/// two texts (runs of number literals) and the position of the `]`.
pub open spec fn range_bounds(toks: Seq<Token>, i: int) -> Option<(Seq<char>, Seq<char>, int)> {
    let n = toks.len() as int;
    if i < n && kind(toks, i) == TokenType::LeftBracket {
        let a = i + 1;
        let b = number_run_end(toks, a);
        if b < n && kind(toks, b) == TokenType::Minus {
            let c = b + 1;
            let d = number_run_end(toks, c);
            if d < n && kind(toks, d) == TokenType::RightBracket {
                Some((joined(toks, a, b), joined(toks, c, d), d))
            } else {
                None
            }
        } else {
            None
        }
    } else {
        None
    }
}

/// `target = .db` or `target = db.request[a-b]` at `idx`: where reading goes
/// on, and the new state, when the tokens there are one of these.
pub open spec fn assignment_step(toks: Seq<Token>, idx: int, st: CState) -> Option<(int, CState)> {
    let n = toks.len() as int;
    if kind(toks, idx) == TokenType::Identifier && idx + 1 < n && kind(toks, idx + 1) == TokenType::Equals {
        let target = text(toks, idx);
        let scan = idx + 2;
        if scan < n && kind(toks, scan) == TokenType::Dot && scan + 1 < n && text(toks, scan + 1) == "db"@ {
            let s1 = record(st, target, "db"@, true, false);
            Some((scan + 2, emit(s1, OpV::Store(st.next_slot as usize, DataV::DbRef(target)))))
        } else if scan + 2 < n && kind(toks, scan) == TokenType::Identifier && kind(toks, scan + 1)
            == TokenType::Dot && text(toks, scan + 2) == "request"@ && st.syms.contains_key(
            text(toks, scan),
        ) {
            match range_bounds(toks, scan + 3) {
                Some((a, b, close)) => {
                    let s1 = record(st, target, "card"@, true, false);
                    Some(
                        (
                            close + 1,
                            emit(
                                s1,
                                OpV::DbRangeRequest(
                                    Some(st.next_slot as usize),
                                    st.syms[text(toks, scan)].slot,
                                    unsigned_or_zero(a),
                                    unsigned_or_zero(b),
                                ),
                            ),
                        ),
                    )
                },
                None => None,
            }
        } else {
            None
        }
    } else {
        None
    }
}

/// `db.request[a-b]` at `idx`, standing alone.
pub open spec fn request_step(toks: Seq<Token>, idx: int, st: CState) -> Option<(int, CState)> {
    let n = toks.len() as int;
    if kind(toks, idx) == TokenType::Identifier && idx + 2 < n && kind(toks, idx + 1) == TokenType::Dot
        && text(toks, idx + 2) == "request"@ && st.syms.contains_key(text(toks, idx)) {
        match range_bounds(toks, idx + 3) {
            Some((a, b, close)) => Some(
                (
                    close + 1,
                    emit(
                        st,
                        OpV::DbRangeRequest(
                            None,
                            st.syms[text(toks, idx)].slot,
                            unsigned_or_zero(a),
                            unsigned_or_zero(b),
                        ),
                    ),
                ),
            ),
            None => None,
        }
    } else {
        None
    }
}

/// `.ban name` at `idx`: the ban is emitted when `name` is known.
pub open spec fn ban_step(toks: Seq<Token>, idx: int, st: CState) -> Option<(int, CState)> {
    let n = toks.len() as int;
    if kind(toks, idx) == TokenType::Dot && idx + 1 < n && text(toks, idx + 1) == "ban"@ && idx + 2 < n {
        let name = text(toks, idx + 2);
        if st.syms.contains_key(name) {
            Some((idx + 3, emit(st, OpV::Ban(st.syms[name].slot, name))))
        } else {
            Some((idx + 3, st))
        }
    } else {
        None
    }
}

/// The value of a number literal `raw` that is added to a variable of type `var_type`.
pub open spec fn number_for_type(var_type: Seq<char>, raw: Seq<char>) -> DataV {
    if var_type == "i4M"@ {
        DataV::I4M(signed_or_zero(raw))
    } else if var_type == "u4M"@ {
        DataV::U4M(unsigned_or_zero(raw))
    } else {
        DataV::Int5M(signed_or_zero(raw))
    }
}

/// The value of a number literal `raw` assigned with the type written `declared`.
pub open spec fn number_as_declared(declared: Seq<char>, raw: Seq<char>) -> DataV {
    if declared == "u4M"@ {
        DataV::U4M(unsigned_or_zero(raw))
    } else if declared == "int5M"@ {
        DataV::Int5M(signed_or_zero(raw))
    } else {
        DataV::I4M(signed_or_zero(raw))
    }
}

/// The items of a list literal whose tokens are `i..j`: its string and number literals.
pub open spec fn list_items(toks: Seq<Token>, i: int, j: int) -> Seq<DataV>
    decreases j - i,
{
    if j <= i {
        Seq::empty()
    } else {
        let last = j - 1;
        let before = list_items(toks, i, last);
        if kind(toks, last) == TokenType::StringLiteral {
            before.push(DataV::Str(text(toks, last)))
        } else if kind(toks, last) == TokenType::NumberLiteral {
            before.push(DataV::I4M(signed_or_zero(text(toks, last))))
        } else {
            before
        }
    }
}

/// The type name that a value gives its variable when none is written.
pub open spec fn deduced_type(d: DataV) -> Seq<char> {
    match d {
        DataV::I4M(_) => "i4M"@,
        DataV::U4M(_) => "u4M"@,
        DataV::Int5M(_) => "int5M"@,
        DataV::Card(_) => "card"@,
        _ => "string"@,
    }
}

/// The name of a constant starts with an uppercase letter.
pub open spec fn is_constant_name(name: Seq<char>) -> bool {
    name.len() > 0 && is_uppercase_char(name[0])
}

/// A declaration, assignment or `+=` whose name is the identifier at `cur`
/// (`idx` being where the statement starts).
pub open spec fn declaration_step(toks: Seq<Token>, idx: int, cur: int, st: CState) -> Result<(int, CState), ErrV> {
    let n = toks.len() as int;
    let name = text(toks, cur);
    if cur + 2 < n && kind(toks, cur + 1) == TokenType::PlusEquals && st.syms.contains_key(name) {
        let sym = st.syms[name];
        let m = cur + 2;
        if !sym.changeable {
            Err(ErrV::ImmutableVariable(name))
        } else {
            let data = if kind(toks, m) == TokenType::NumberLiteral {
                number_for_type(sym.var_type, text(toks, m))
            } else {
                DataV::Str(text(toks, m))
            };
            Ok((m + 1, emit(st, OpV::PlusEqual(sym.slot, data))))
        }
    } else {
        let c1 = cur + 1;
        let marked = c1 < n && kind(toks, c1) == TokenType::ChangeableModifier;
        if marked && is_constant_name(name) {
            Err(ErrV::ChangeableConstant(name))
        } else {
            let c2 = if marked {
                c1 + 1
            } else {
                c1
            };
            let typed = c2 < n && kind(toks, c2) == TokenType::Colon;
            let declared = if typed && c2 + 1 < n {
                text(toks, c2 + 1)
            } else {
                "deduced"@
            };
            let c3 = if typed && c2 + 1 < n {
                c2 + 2
            } else {
                c2
            };
            if c3 + 1 < n && kind(toks, c3) == TokenType::Equals {
                let vi = c3 + 1;
                let raw = text(toks, vi);
                if kind(toks, vi) == TokenType::Identifier {
                    Err(ErrV::NonLiteralAssignment(name, raw))
                } else {
                    let close = find_kind(toks, vi + 1, TokenType::RightBracket);
                    let data = if kind(toks, vi) == TokenType::NumberLiteral {
                        number_as_declared(declared, raw)
                    } else if kind(toks, vi) == TokenType::LeftBracket {
                        DataV::Card(list_items(toks, vi + 1, close))
                    } else {
                        DataV::Str(raw)
                    };
                    let after = if kind(toks, vi) == TokenType::LeftBracket {
                        close + 1
                    } else {
                        vi + 1
                    };
                    let var_type = if declared == "deduced"@ {
                        deduced_type(data)
                    } else {
                        declared
                    };
                    if st.syms.contains_key(name) {
                        Ok((after, emit(st, OpV::Store(st.syms[name].slot, data))))
                    } else {
                        let s1 = record(st, name, var_type, marked, typed);
                        Ok((after, emit(s1, OpV::Store(st.next_slot as usize, data))))
                    }
                }
            } else {
                Ok((idx + 1, st))
            }
        }
    }
}

/// The statement that the kind of token `idx` opens, but for `pub struct`.
pub open spec fn statement_step(toks: Seq<Token>, idx: int, st: CState) -> Result<(int, CState), ErrV> {
    let n = toks.len() as int;
    let k = kind(toks, idx);
    if k == TokenType::Let || k == TokenType::Type || k == TokenType::Disguise || k == TokenType::Identifier {
        let cur = if k == TokenType::Identifier {
            idx
        } else {
            idx + 1
        };
        if cur < n && kind(toks, cur) == TokenType::Identifier {
            declaration_step(toks, idx, cur, st)
        } else {
            Ok((idx + 1, st))
        }
    } else if k == TokenType::Stamp {
        if idx + 1 < n {
            Ok((idx + 2, emit(st, OpV::Stamp(text(toks, idx + 1)))))
        } else {
            Ok((idx + 1, st))
        }
    } else if k == TokenType::Dump {
        if idx + 1 < n {
            let name = text(toks, idx + 1);
            if st.syms.contains_key(name) {
                Ok((idx + 2, emit(st, OpV::Dump(st.syms[name].slot))))
            } else {
                Ok((idx + 2, st))
            }
        } else {
            Ok((idx + 1, st))
        }
    } else if k == TokenType::CallRust {
        if idx + 2 < n && kind(toks, idx + 1) == TokenType::Identifier {
            Ok((idx + 3, emit(st, OpV::CallRustFunc(text(toks, idx + 1), text(toks, idx + 2)))))
        } else {
            Ok((idx + 1, st))
        }
    } else if k == TokenType::FileHook {
        Ok((idx + 1, emit(st, OpV::ExternalFileHook(text(toks, idx)))))
    } else if k == TokenType::Embed {
        if idx + 3 < n && text(toks, idx + 1) == "rust"@ && kind(toks, idx + 2) == TokenType::LeftBrace {
            let close = find_kind(toks, idx + 3, TokenType::RightBrace);
            Ok((close + 1, emit(st, OpV::InlineRust(spaced(toks, idx + 3, close)))))
        } else {
            Ok((idx + 1, st))
        }
    } else {
        Ok((idx + 1, st))
    }
}

/// The position of the `}` that closes a block whose inside starts at `i`,
/// `depth` blocks being open there (the number of tokens when none does).
pub open spec fn block_end(toks: Seq<Token>, i: int, depth: int) -> int
    decreases toks.len() - i,
{
    if i < 0 || i >= toks.len() {
        toks.len() as int
    } else {
        let d1 = if kind(toks, i) == TokenType::LeftBrace {
            depth + 1
        } else {
            depth
        };
        let d2 = if kind(toks, i) == TokenType::RightBrace {
            d1 - 1
        } else {
            d1
        };
        if d2 <= 0 {
            i
        } else {
            block_end(toks, i + 1, d2)
        }
    }
}

/// `pub struct @main { ... }` starts at `idx`.
pub open spec fn opens_main_block(toks: Seq<Token>, idx: int) -> bool {
    idx + 3 < toks.len() && kind(toks, idx) == TokenType::Pub && kind(toks, idx + 1) == TokenType::Struct
        && text(toks, idx + 2) == "@main"@ && kind(toks, idx + 3) == TokenType::LeftBrace
}

/// Compiling the tokens from `idx` on, from the state `st`.
pub open spec fn compile_from(toks: Seq<Token>, idx: int, st: CState) -> Result<CState, ErrV>
    decreases toks.len(), toks.len() + 1 - idx, 1int,
{
    if idx < 0 || idx >= toks.len() {
        Ok(st)
    } else {
        match compile_step(toks, idx, st) {
            Ok((j, s)) => if idx < j <= toks.len() + 1 {
                compile_from(toks, j, s)
            } else {
                Ok(s)
            },
            Err(e) => Err(e),
        }
    }
}

/// One statement at `idx`: where reading goes on, and the new state.
pub open spec fn compile_step(toks: Seq<Token>, idx: int, st: CState) -> Result<(int, CState), ErrV>
    decreases toks.len(), toks.len() + 1 - idx, 0int,
{
    if !(0 <= idx < toks.len()) {
        Ok((idx + 1, st))
    } else if let Some(r) = assignment_step(toks, idx, st) {
        Ok(r)
    } else if let Some(r) = request_step(toks, idx, st) {
        Ok(r)
    } else if let Some(r) = ban_step(toks, idx, st) {
        Ok(r)
    } else if opens_main_block(toks, idx) {
        let close = block_end(toks, idx + 4, 1);
        let after = if close < toks.len() {
            close + 1
        } else {
            toks.len() as int
        };
        if idx + 4 <= close <= toks.len() {
            match compile_from(toks.subrange(idx + 4, close), 0, st) {
                Ok(s) => Ok((after, s)),
                Err(e) => Err(e),
            }
        } else {
            Ok((after, st))
        }
    } else {
        statement_step(toks, idx, st)
    }
}

/// Compiling all of `toks` from the state `st`.
pub open spec fn compile_spec(toks: Seq<Token>, st: CState) -> Result<CState, ErrV> {
    compile_from(toks, 0, st)
}

fn emit_op(bytecode: &mut Vec<OpCode>, op: OpCode)
    ensures
        ops_view(final(bytecode)@) == ops_view(old(bytecode)@).push(op@),
{
    let ghost before = bytecode@;
    bytecode.push(op);
    assert(ops_view(bytecode@) =~= ops_view(before).push(op@));
}

fn number_run_end_exec(tokens: &[Token], i: usize) -> (r: usize)
    requires
        i <= tokens.len(),
    ensures
        r == number_run_end(tokens@, i as int),
        i <= r <= tokens.len(),
{
    let mut k = i;
    while k < tokens.len() && tokens[k].token_type == TokenType::NumberLiteral
        invariant
            i <= k <= tokens.len(),
            number_run_end(tokens@, i as int) == number_run_end(tokens@, k as int),
        decreases tokens.len() - k,
    {
        k = k + 1;
    }
    k
}

fn find_kind_exec(tokens: &[Token], i: usize, wanted: TokenType) -> (r: usize)
    requires
        i <= tokens.len(),
    ensures
        r == find_kind(tokens@, i as int, wanted),
        i <= r <= tokens.len(),
{
    let mut k = i;
    while k < tokens.len() && tokens[k].token_type != wanted
        invariant
            i <= k <= tokens.len(),
            find_kind(tokens@, i as int, wanted) == find_kind(tokens@, k as int, wanted),
        decreases tokens.len() - k,
    {
        k = k + 1;
    }
    k
}

fn joined_exec(tokens: &[Token], i: usize, j: usize) -> (r: String)
    requires
        i <= j <= tokens.len(),
    ensures
        r@ == joined(tokens@, i as int, j as int),
{
    let mut r = String::new();
    let mut k = i;
    while k < j
        invariant
            i <= k <= j <= tokens.len(),
            r@ == joined(tokens@, i as int, k as int),
        decreases j - k,
    {
        r.append(tokens[k].value.as_str());
        k = k + 1;
    }
    r
}

fn spaced_exec(tokens: &[Token], i: usize, j: usize) -> (r: String)
    requires
        i <= j <= tokens.len(),
    ensures
        r@ == spaced(tokens@, i as int, j as int),
{
    let mut r = String::new();
    let mut k = i;
    while k < j
        invariant
            i <= k <= j <= tokens.len(),
            r@ == spaced(tokens@, i as int, k as int),
        decreases j - k,
    {
        r.append(tokens[k].value.as_str());
        push_char(&mut r, ' ');
        k = k + 1;
    }
    r
}

fn range_bounds_exec(tokens: &[Token], i: usize) -> (r: Option<(String, String, usize)>)
    requires
        i <= tokens.len(),
    ensures
        match range_bounds(tokens@, i as int) {
            Some((a, b, close)) => r matches Some((ra, rb, rc)) && ra@ == a && rb@ == b && rc == close
                && i < close < tokens.len(),
            None => r is None,
        },
{
    let n = tokens.len();
    if i < n && tokens[i].token_type == TokenType::LeftBracket {
        let a = i + 1;
        let b = number_run_end_exec(tokens, a);
        if b < n && tokens[b].token_type == TokenType::Minus {
            let c = b + 1;
            let d = number_run_end_exec(tokens, c);
            if d < n && tokens[d].token_type == TokenType::RightBracket {
                return Some((joined_exec(tokens, a, b), joined_exec(tokens, c, d), d));
            }
        }
    }
    None
}

fn assignment_exec(tokens: &[Token], idx: usize, table: &mut SymbolTable, bytecode: &mut Vec<OpCode>) -> (r: Option<usize>)
    requires
        old(table).wf(),
        idx < tokens.len(),
        old(table).next_slot < usize::MAX,
    ensures
        match assignment_step(tokens@, idx as int, state_of(*old(table), old(bytecode)@)) {
            Some((j, s)) => r matches Some(x) && x as int == j && state_of(*final(table), final(bytecode)@) == s,
            None => r is None && state_of(*final(table), final(bytecode)@) == state_of(
                *old(table),
                old(bytecode)@,
            ),
        },
        r matches Some(j) ==> idx < j <= tokens.len() + 1,
        final(table).wf(),
        final(table).next_slot <= old(table).next_slot + 1,
{
    let n = tokens.len();
    if tokens[idx].token_type == TokenType::Identifier && n - idx > 1 && tokens[idx + 1].token_type
        == TokenType::Equals {
        let scan = idx + 2;
        if scan < n && tokens[scan].token_type == TokenType::Dot && n - scan > 1 && string_is(
            &tokens[scan + 1].value,
            "db",
        ) {
            let target = &tokens[idx].value;
            let slot = table.register(target.as_str(), "db".to_string(), true, false);
            emit_op(bytecode, OpCode::Store(slot, AholaData::DbRef(target.clone())));
            return Some(scan + 2);
        }
        if n - scan > 2 && tokens[scan].token_type == TokenType::Identifier && tokens[scan + 1].token_type
            == TokenType::Dot && string_is(&tokens[scan + 2].value, "request") {
            let db_slot = match table.get(&tokens[scan].value) {
                Some(sym) => sym.slot,
                None => {
                    return None;
                },
            };
            match range_bounds_exec(tokens, scan + 3) {
                Some((a, b, close)) => {
                    let start = unsigned_number(&a);
                    let end = unsigned_number(&b);
                    let target = &tokens[idx].value;
                    let slot = table.register(target.as_str(), "card".to_string(), true, false);
                    emit_op(
                        bytecode,
                        OpCode::DbRangeRequest { target_slot: Some(slot), db_var_slot: db_slot, start, end },
                    );
                    return Some(close + 1);
                },
                None => {
                    return None;
                },
            }
        }
    }
    None
}

fn request_exec(tokens: &[Token], idx: usize, table: &SymbolTable, bytecode: &mut Vec<OpCode>) -> (r: Option<usize>)
    requires
        table.wf(),
        idx < tokens.len(),
    ensures
        match request_step(tokens@, idx as int, state_of(*table, old(bytecode)@)) {
            Some((j, s)) => r matches Some(x) && x as int == j && state_of(*table, final(bytecode)@) == s,
            None => r is None && final(bytecode)@ == old(bytecode)@,
        },
        r matches Some(j) ==> idx < j <= tokens.len() + 1,
{
    let n = tokens.len();
    if tokens[idx].token_type == TokenType::Identifier && n - idx > 2 && tokens[idx + 1].token_type
        == TokenType::Dot && string_is(&tokens[idx + 2].value, "request") {
        let db_slot = match table.get(&tokens[idx].value) {
            Some(sym) => sym.slot,
            None => {
                return None;
            },
        };
        match range_bounds_exec(tokens, idx + 3) {
            Some((a, b, close)) => {
                let start = unsigned_number(&a);
                let end = unsigned_number(&b);
                emit_op(
                    bytecode,
                    OpCode::DbRangeRequest { target_slot: None, db_var_slot: db_slot, start, end },
                );
                return Some(close + 1);
            },
            None => {
                return None;
            },
        }
    }
    None
}

fn ban_exec(tokens: &[Token], idx: usize, table: &SymbolTable, bytecode: &mut Vec<OpCode>) -> (r: Option<usize>)
    requires
        table.wf(),
        idx < tokens.len(),
    ensures
        match ban_step(tokens@, idx as int, state_of(*table, old(bytecode)@)) {
            Some((j, s)) => r matches Some(x) && x as int == j && state_of(*table, final(bytecode)@) == s,
            None => r is None && final(bytecode)@ == old(bytecode)@,
        },
        r matches Some(j) ==> idx < j <= tokens.len() + 1,
{
    let n = tokens.len();
    if tokens[idx].token_type == TokenType::Dot && n - idx > 1 && string_is(&tokens[idx + 1].value, "ban")
        && n - idx > 2 {
        let name = &tokens[idx + 2].value;
        match table.get(name) {
            Some(sym) => {
                emit_op(bytecode, OpCode::Ban(sym.slot, name.clone()));
            },
            None => {},
        }
        return Some(idx + 3);
    }
    None
}

fn number_for_type_exec(var_type: &String, raw: &String) -> (r: AholaData)
    ensures
        r.data() == number_for_type(var_type@, raw@),
{
    if string_is(var_type, "i4M") {
        AholaData::I4M(signed_number(raw))
    } else if string_is(var_type, "u4M") {
        AholaData::U4M(unsigned_number(raw))
    } else {
        AholaData::Int5M(signed_number(raw))
    }
}

fn number_as_declared_exec(declared: &String, raw: &String) -> (r: AholaData)
    ensures
        r.data() == number_as_declared(declared@, raw@),
{
    if string_is(declared, "u4M") {
        AholaData::U4M(unsigned_number(raw))
    } else if string_is(declared, "int5M") {
        AholaData::Int5M(signed_number(raw))
    } else {
        AholaData::I4M(signed_number(raw))
    }
}

fn list_items_exec(tokens: &[Token], i: usize, j: usize) -> (r: Vec<AholaData>)
    requires
        i <= j <= tokens.len(),
    ensures
        datas(r@) == list_items(tokens@, i as int, j as int),
{
    let mut r: Vec<AholaData> = Vec::new();
    let mut k = i;
    while k < j
        invariant
            i <= k <= j <= tokens.len(),
            datas(r@) == list_items(tokens@, i as int, k as int),
        decreases j - k,
    {
        let ghost before = r@;
        if tokens[k].token_type == TokenType::StringLiteral {
            r.push(AholaData::String(tokens[k].value.clone()));
            assert(datas(r@) =~= datas(before).push(DataV::Str(text(tokens@, k as int))));
        } else if tokens[k].token_type == TokenType::NumberLiteral {
            r.push(AholaData::I4M(signed_number(&tokens[k].value)));
            assert(datas(r@) =~= datas(before).push(
                DataV::I4M(signed_or_zero(text(tokens@, k as int))),
            ));
        }
        k = k + 1;
    }
    r
}

fn deduced_type_exec(data: &AholaData) -> (r: String)
    ensures
        r@ == deduced_type(data.data()),
{
    match data {
        AholaData::I4M(_) => "i4M".to_string(),
        AholaData::U4M(_) => "u4M".to_string(),
        AholaData::Int5M(_) => "int5M".to_string(),
        AholaData::Card(_) => "card".to_string(),
        _ => "string".to_string(),
    }
}

fn constant_name(name: &String) -> (r: bool)
    ensures
        r == is_constant_name(name@),
{
    let cs = chars_of(name.as_str());
    cs.len() > 0 && char_is_uppercase(cs[0])
}

fn declaration_exec(
    tokens: &[Token],
    idx: usize,
    cur: usize,
    table: &mut SymbolTable,
    bytecode: &mut Vec<OpCode>,
) -> (r: Result<usize, CompileError>)
    requires
        old(table).wf(),
        idx <= cur < tokens.len(),
        cur <= idx + 1,
        tokens.len() < usize::MAX,
        old(table).next_slot < usize::MAX,
    ensures
        match declaration_step(tokens@, idx as int, cur as int, state_of(*old(table), old(bytecode)@)) {
            Ok((j, s)) => r matches Ok(x) && x as int == j && state_of(
                *final(table),
                final(bytecode)@,
            ) == s,
            Err(e) => r matches Err(x) && x@ == e,
        },
        r matches Ok(j) ==> idx < j <= tokens.len() + 1,
        final(table).wf(),
        final(table).next_slot <= old(table).next_slot + 1,
{
    let n = tokens.len();
    let name = &tokens[cur].value;
    if n - cur > 2 && tokens[cur + 1].token_type == TokenType::PlusEquals {
        match table.get(name) {
            Some(sym) => {
                if !sym.changeable {
                    return Err(CompileError::ImmutableVariable { name: name.clone() });
                }
                let m = cur + 2;
                let data = if tokens[m].token_type == TokenType::NumberLiteral {
                    number_for_type_exec(&sym.var_type, &tokens[m].value)
                } else {
                    AholaData::String(tokens[m].value.clone())
                };
                emit_op(bytecode, OpCode::PlusEqual(sym.slot, data));
                return Ok(m + 1);
            },
            None => {},
        }
    }
    let c1 = cur + 1;
    let marked = c1 < n && tokens[c1].token_type == TokenType::ChangeableModifier;
    if marked && constant_name(name) {
        return Err(CompileError::ChangeableConstant { name: name.clone() });
    }
    let c2 = if marked {
        c1 + 1
    } else {
        c1
    };
    let typed = c2 < n && tokens[c2].token_type == TokenType::Colon;
    let has_declared = typed && n - c2 > 1;
    let declared: String = if has_declared {
        tokens[c2 + 1].value.clone()
    } else {
        "deduced".to_string()
    };
    let c3 = if has_declared {
        c2 + 2
    } else {
        c2
    };
    if c3 < n && n - c3 > 1 && tokens[c3].token_type == TokenType::Equals {
        let vi = c3 + 1;
        let raw = &tokens[vi].value;
        if tokens[vi].token_type == TokenType::Identifier {
            return Err(CompileError::NonLiteralAssignment { name: name.clone(), value: raw.clone() });
        }
        let close = find_kind_exec(tokens, vi + 1, TokenType::RightBracket);
        let data = if tokens[vi].token_type == TokenType::NumberLiteral {
            number_as_declared_exec(&declared, raw)
        } else if tokens[vi].token_type == TokenType::LeftBracket {
            let items = list_items_exec(tokens, vi + 1, close);
            proof {
                lemma_card_data(items);
            }
            AholaData::Card(items)
        } else {
            AholaData::String(raw.clone())
        };
        let after = if tokens[vi].token_type == TokenType::LeftBracket {
            close + 1
        } else {
            vi + 1
        };
        let var_type = if string_is(&declared, "deduced") {
            deduced_type_exec(&data)
        } else {
            declared
        };
        let existing = match table.get(name) {
            Some(sym) => Some(sym.slot),
            None => None,
        };
        let slot = match existing {
            Some(slot) => slot,
            None => table.register(name.as_str(), var_type, marked, typed),
        };
        emit_op(bytecode, OpCode::Store(slot, data));
        return Ok(after);
    }
    Ok(idx + 1)
}

fn statement_exec(tokens: &[Token], idx: usize, table: &mut SymbolTable, bytecode: &mut Vec<OpCode>) -> (r: Result<usize, CompileError>)
    requires
        old(table).wf(),
        idx < tokens.len(),
        tokens.len() < usize::MAX,
        old(table).next_slot < usize::MAX,
    ensures
        match statement_step(tokens@, idx as int, state_of(*old(table), old(bytecode)@)) {
            Ok((j, s)) => r matches Ok(x) && x as int == j && state_of(
                *final(table),
                final(bytecode)@,
            ) == s,
            Err(e) => r matches Err(x) && x@ == e,
        },
        r matches Ok(j) ==> idx < j <= tokens.len() + 1,
        final(table).wf(),
        final(table).next_slot <= old(table).next_slot + 1,
{
    let n = tokens.len();
    let k = tokens[idx].token_type;
    if k == TokenType::Let || k == TokenType::Type || k == TokenType::Disguise || k == TokenType::Identifier {
        let cur = if k == TokenType::Identifier {
            idx
        } else {
            idx + 1
        };
        if cur < n && tokens[cur].token_type == TokenType::Identifier {
            return declaration_exec(tokens, idx, cur, table, bytecode);
        }
        return Ok(idx + 1);
    }
    if k == TokenType::Stamp {
        if n - idx > 1 {
            emit_op(bytecode, OpCode::Stamp(tokens[idx + 1].value.clone()));
            return Ok(idx + 2);
        }
        return Ok(idx + 1);
    }
    if k == TokenType::Dump {
        if n - idx > 1 {
            match table.get(&tokens[idx + 1].value) {
                Some(sym) => {
                    emit_op(bytecode, OpCode::Dump(sym.slot));
                },
                None => {},
            }
            return Ok(idx + 2);
        }
        return Ok(idx + 1);
    }
    if k == TokenType::CallRust {
        if n - idx > 2 && tokens[idx + 1].token_type == TokenType::Identifier {
            emit_op(
                bytecode,
                OpCode::CallRustFunc {
                    func_name: tokens[idx + 1].value.clone(),
                    arg: tokens[idx + 2].value.clone(),
                },
            );
            return Ok(idx + 3);
        }
        return Ok(idx + 1);
    }
    if k == TokenType::FileHook {
        emit_op(bytecode, OpCode::ExternalFileHook(tokens[idx].value.clone()));
        return Ok(idx + 1);
    }
    if k == TokenType::Embed {
        if n - idx > 3 && string_is(&tokens[idx + 1].value, "rust") && tokens[idx + 2].token_type
            == TokenType::LeftBrace {
            let close = find_kind_exec(tokens, idx + 3, TokenType::RightBrace);
            let code = spaced_exec(tokens, idx + 3, close);
            emit_op(bytecode, OpCode::InlineRust(code));
            return Ok(close + 1);
        }
        return Ok(idx + 1);
    }
    Ok(idx + 1)
}

fn block_end_exec(tokens: &[Token], i: usize) -> (r: usize)
    requires
        i <= tokens.len() < usize::MAX,
    ensures
        r == block_end(tokens@, i as int, 1),
        i <= r <= tokens.len(),
{
    let n = tokens.len();
    let mut k = i;
    let mut depth: usize = 1;
    while k < n
        invariant
            i <= k <= n == tokens.len(),
            n < usize::MAX,
            1 <= depth <= k - i + 1,
            block_end(tokens@, i as int, 1) == block_end(tokens@, k as int, depth as int),
        decreases n - k,
    {
        let mut d = depth;
        if tokens[k].token_type == TokenType::LeftBrace {
            d = d + 1;
        }
        if tokens[k].token_type == TokenType::RightBrace {
            d = d - 1;
        }
        if d == 0 {
            return k;
        }
        depth = d;
        k = k + 1;
    }
    k
}

/// The lesser of `a` and `b`.
pub open spec fn min_int(a: int, b: int) -> int {
    if a <= b {
        a
    } else {
        b
    }
}

fn compile_step_exec(tokens: &[Token], idx: usize, table: &mut SymbolTable, bytecode: &mut Vec<OpCode>) -> (r: Result<usize, CompileError>)
    requires
        old(table).wf(),
        idx < tokens.len(),
        tokens.len() < usize::MAX,
        old(table).next_slot + (tokens.len() - idx) <= usize::MAX,
    ensures
        match compile_step(tokens@, idx as int, state_of(*old(table), old(bytecode)@)) {
            Ok((j, s)) => r matches Ok(x) && x as int == j && state_of(
                *final(table),
                final(bytecode)@,
            ) == s,
            Err(e) => r matches Err(x) && x@ == e,
        },
        r matches Ok(j) ==> idx < j <= tokens.len() + 1 && final(table).next_slot <= old(table).next_slot
            + (min_int(j as int, tokens.len() as int) - idx),
        final(table).wf(),
    decreases tokens.len(), 0int,
{
    let n = tokens.len();
    let ghost st = state_of(*table, bytecode@);
    match assignment_exec(tokens, idx, table, bytecode) {
        Some(j) => {
            return Ok(j);
        },
        None => {},
    }
    match request_exec(tokens, idx, table, bytecode) {
        Some(j) => {
            return Ok(j);
        },
        None => {},
    }
    match ban_exec(tokens, idx, table, bytecode) {
        Some(j) => {
            return Ok(j);
        },
        None => {},
    }
    assert(state_of(*table, bytecode@) == st);
    if n - idx > 3 && tokens[idx].token_type == TokenType::Pub && tokens[idx + 1].token_type
        == TokenType::Struct && string_is(&tokens[idx + 2].value, "@main") && tokens[idx + 3].token_type
        == TokenType::LeftBrace {
        let close = block_end_exec(tokens, idx + 4);
        let mut inner: Vec<Token> = Vec::new();
        let mut k = idx + 4;
        while k < close
            invariant
                idx + 4 <= k <= close <= n == tokens.len(),
                inner@ == tokens@.subrange(idx + 4, k as int),
            decreases close - k,
        {
            inner.push(tokens[k].duplicate());
            k = k + 1;
            assert(inner@ =~= tokens@.subrange(idx + 4, k as int));
        }
        let after = if close < n {
            close + 1
        } else {
            n
        };
        match compile_tokens(inner.as_slice(), table, bytecode) {
            Ok(()) => {
                return Ok(after);
            },
            Err(e) => {
                return Err(e);
            },
        }
    }
    statement_exec(tokens, idx, table, bytecode)
}

/// Compiles `tokens` into `bytecode`, recording in `symbol_table` each
/// variable it meets.  It stops at the first statement it must refuse:
/// `+=` on a variable that may not change, `*c` on a constant, or an
/// assignment from a name.
pub fn compile_tokens(tokens: &[Token], symbol_table: &mut SymbolTable, bytecode: &mut Vec<OpCode>) -> (r: Result<(), CompileError>)
    requires
        old(symbol_table).wf(),
        old(symbol_table).next_slot + tokens.len() < usize::MAX,
    ensures
        match compile_spec(tokens@, state_of(*old(symbol_table), old(bytecode)@)) {
            Ok(s) => r is Ok && state_of(*final(symbol_table), final(bytecode)@) == s,
            Err(e) => r matches Err(x) && x@ == e,
        },
        final(symbol_table).wf(),
        r is Ok ==> final(symbol_table).next_slot <= old(symbol_table).next_slot + tokens.len(),
    decreases tokens.len(), 1int,
{
    let n = tokens.len();
    let ghost start = state_of(*symbol_table, bytecode@);
    let ghost first_slot = symbol_table.next_slot;
    let mut idx: usize = 0;
    while idx < n
        invariant
            n == tokens.len(),
            n < usize::MAX,
            first_slot == old(symbol_table).next_slot,
            start == state_of(*old(symbol_table), old(bytecode)@),
            first_slot + n < usize::MAX,
            idx <= n + 1,
            symbol_table.wf(),
            symbol_table.next_slot <= first_slot + min_int(idx as int, n as int),
            compile_spec(tokens@, start) == compile_from(
                tokens@,
                idx as int,
                state_of(*symbol_table, bytecode@),
            ),
        decreases n + 1 - idx,
    {
        let ghost before = state_of(*symbol_table, bytecode@);
        match compile_step_exec(tokens, idx, symbol_table, bytecode) {
            Ok(j) => {
                assert(compile_from(tokens@, idx as int, before) == compile_from(
                    tokens@,
                    j as int,
                    state_of(*symbol_table, bytecode@),
                ));
                idx = j;
            },
            Err(e) => {
                assert(compile_from(tokens@, idx as int, before) == Err::<CState, ErrV>(e@));
                return Err(e);
            },
        }
    }
    Ok(())
}

/// The slots that `op` names are below `bound`.
pub open spec fn slots_below(op: OpV, bound: nat) -> bool {
    match op {
        OpV::Store(slot, _) => slot < bound,
        OpV::PlusEqual(slot, _) => slot < bound,
        OpV::Dump(slot) => slot < bound,
        OpV::ReadFile(target, source) => target < bound && source < bound,
        OpV::DbRangeRequest(target, db, _, _) => db < bound && (target matches Some(t) ==> t < bound),
        OpV::Ban(slot, _) => slot < bound,
        _ => true,
    }
}

/// `op` names only slots below `bound`, and carries well-formed values.
pub open spec fn op_ok(op: OpV, bound: nat) -> bool {
    slots_below(op, bound) && op_data_ok(op)
}

/// The symbols of `st` name only slots below its next free slot, and
/// distinct names have distinct slots.
pub open spec fn table_ok(st: CState) -> bool {
    &&& forall|name: Seq<char>| #[trigger] st.syms.contains_key(name) ==> st.syms[name].slot < st.next_slot
    &&& slots_distinct(st.syms)
}

/// Every instruction that `s` has beyond those of `st` names only slots
/// below the next free slot of `s`, and carries well-formed values.
pub open spec fn appended_ok(st: CState, s: CState) -> bool {
    forall|i: int| st.code.len() <= i < s.code.len() ==> op_ok(#[trigger] s.code[i], s.next_slot)
}

/// Every slot that the symbols or the instructions of `st` name is below
/// its next free slot, distinct names have distinct slots, and every value
/// that the instructions carry is well formed.
pub open spec fn slots_in_range(st: CState) -> bool {
    &&& table_ok(st)
    &&& forall|i: int| 0 <= i < st.code.len() ==> op_ok(#[trigger] st.code[i], st.next_slot)
}

/// `s` extends `st`: no slot handed back, no name forgotten, no instruction taken back.
pub open spec fn extends(st: CState, s: CState) -> bool {
    &&& st.next_slot <= s.next_slot
    &&& forall|name: Seq<char>| #[trigger] st.syms.contains_key(name) ==> s.syms.contains_key(name)
    &&& st.code.len() <= s.code.len()
    &&& s.code.subrange(0, st.code.len() as int) == st.code
}

/// `s` is a state that compiling from `st` may reach: it extends `st`; and
/// when the symbols of `st` are well formed and `limit` holds, so are those
/// of `s`, and every instruction appended is well formed.
pub open spec fn grows_well(st: CState, s: CState, limit: bool) -> bool {
    &&& extends(st, s)
    &&& (table_ok(st) && limit ==> table_ok(s) && appended_ok(st, s))
}

proof fn lemma_grows_trans(a: CState, b: CState, c: CState, l0: bool, l1: bool, l2: bool)
    requires
        grows_well(a, b, l1),
        grows_well(b, c, l2),
        l0 ==> l1,
        l0 && table_ok(b) ==> l2,
    ensures
        grows_well(a, c, l0),
{
    lemma_extends_trans(a, b, c);
    if table_ok(a) && l0 {
        assert forall|i: int| a.code.len() <= i < c.code.len() implies op_ok(#[trigger] c.code[i], c.next_slot) by {
            if i < b.code.len() {
                assert(c.code[i] == c.code.subrange(0, b.code.len() as int)[i]);
                lemma_slots_below_grow(b.code[i], b.next_slot, c.next_slot);
            }
        }
    }
}

proof fn lemma_extends_trans(a: CState, b: CState, c: CState)
    requires
        extends(a, b),
        extends(b, c),
    ensures
        extends(a, c),
{
    assert(c.code.subrange(0, a.code.len() as int) =~= c.code.subrange(0, b.code.len() as int).subrange(
        0,
        a.code.len() as int,
    ));
}

proof fn lemma_extends_refl(a: CState)
    ensures
        extends(a, a),
{
    assert(a.code.subrange(0, a.code.len() as int) =~= a.code);
}

proof fn lemma_emit(st: CState, op: OpV)
    ensures
        grows_well(st, emit(st, op), op_ok(op, st.next_slot)),
        slots_in_range(st) && op_ok(op, st.next_slot) ==> slots_in_range(emit(st, op)),
{
    let s = emit(st, op);
    assert forall|i: int| 0 <= i < s.code.len() && (slots_in_range(st) || i >= st.code.len()) && op_ok(
        op,
        st.next_slot,
    ) implies op_ok(#[trigger] s.code[i], s.next_slot) by {
        if i < st.code.len() {
            assert(s.code[i] == st.code[i]);
        }
    }
    assert(s.code.subrange(0, st.code.len() as int) =~= st.code);
}

proof fn lemma_slots_below_grow(op: OpV, a: nat, b: nat)
    requires
        slots_below(op, a),
        a <= b,
    ensures
        slots_below(op, b),
{
}

proof fn lemma_record(st: CState, name: Seq<char>, var_type: Seq<char>, changeable: bool, is_private: bool)
    ensures
        grows_well(st, record(st, name, var_type, changeable, is_private), st.next_slot < usize::MAX),
        st.next_slot < usize::MAX ==> record(st, name, var_type, changeable, is_private).syms[name].slot
            == st.next_slot,
{
    let s = record(st, name, var_type, changeable, is_private);
    assert(s.code.subrange(0, st.code.len() as int) =~= st.code);
}

proof fn lemma_record_emit(st: CState, name: Seq<char>, var_type: Seq<char>, changeable: bool, is_private: bool, op: OpV)
    ensures
        grows_well(
            st,
            emit(record(st, name, var_type, changeable, is_private), op),
            st.next_slot < usize::MAX && op_ok(op, st.next_slot + 1),
        ),
{
    let s1 = record(st, name, var_type, changeable, is_private);
    lemma_record(st, name, var_type, changeable, is_private);
    lemma_emit(s1, op);
    lemma_grows_trans(
        st,
        s1,
        emit(s1, op),
        st.next_slot < usize::MAX && op_ok(op, st.next_slot + 1),
        st.next_slot < usize::MAX,
        op_ok(op, s1.next_slot),
    );
}

proof fn lemma_number_run_end(toks: Seq<Token>, i: int)
    requires
        0 <= i <= toks.len(),
    ensures
        i <= number_run_end(toks, i) <= toks.len(),
    decreases toks.len() - i,
{
    if i < toks.len() && kind(toks, i) == TokenType::NumberLiteral {
        lemma_number_run_end(toks, i + 1);
    }
}

proof fn lemma_find_kind(toks: Seq<Token>, i: int, k: TokenType)
    requires
        0 <= i <= toks.len(),
    ensures
        i <= find_kind(toks, i, k) <= toks.len(),
    decreases toks.len() - i,
{
    if i < toks.len() && kind(toks, i) != k {
        lemma_find_kind(toks, i + 1, k);
    }
}

proof fn lemma_block_end(toks: Seq<Token>, i: int, depth: int)
    requires
        0 <= i <= toks.len(),
    ensures
        i <= block_end(toks, i, depth) <= toks.len(),
    decreases toks.len() - i,
{
    if i < toks.len() {
        let d1 = if kind(toks, i) == TokenType::LeftBrace {
            depth + 1
        } else {
            depth
        };
        let d2 = if kind(toks, i) == TokenType::RightBrace {
            d1 - 1
        } else {
            d1
        };
        lemma_block_end(toks, i + 1, d2);
    }
}

proof fn lemma_range_bounds(toks: Seq<Token>, i: int)
    requires
        0 <= i <= toks.len(),
    ensures
        range_bounds(toks, i) matches Some((_, _, close)) ==> i < close < toks.len(),
{
    if i < toks.len() {
        lemma_number_run_end(toks, i + 1);
        let b = number_run_end(toks, i + 1);
        if b < toks.len() {
            lemma_number_run_end(toks, b + 1);
        }
    }
}

proof fn lemma_list_items_ok(toks: Seq<Token>, i: int, j: int)
    ensures
        forall|k: int| 0 <= k < list_items(toks, i, j).len() ==> data_ok(#[trigger] list_items(toks, i, j)[k]),
    decreases j - i,
{
    if j > i {
        lemma_list_items_ok(toks, i, j - 1);
        lemma_or_zero_ok(text(toks, j - 1));
        let before = list_items(toks, i, j - 1);
        let all = list_items(toks, i, j);
        assert forall|k: int| 0 <= k < all.len() implies data_ok(#[trigger] all[k]) by {
            if k < before.len() {
                assert(all[k] == before[k]);
            }
        }
    }
}

proof fn lemma_side_steps(toks: Seq<Token>, idx: int, st: CState)
    requires
        0 <= idx < toks.len(),
    ensures
        assignment_step(toks, idx, st) matches Some((j, s)) ==> grows_well(st, s, st.next_slot < usize::MAX)
            && idx < j <= toks.len() && s.next_slot <= st.next_slot + 1,
        request_step(toks, idx, st) matches Some((j, s)) ==> grows_well(st, s, st.next_slot < usize::MAX)
            && idx < j <= toks.len() && s.next_slot <= st.next_slot,
        ban_step(toks, idx, st) matches Some((j, s)) ==> grows_well(st, s, st.next_slot < usize::MAX)
            && idx < j <= toks.len() && s.next_slot <= st.next_slot,
{
    let n = toks.len() as int;
    if idx + 3 <= n {
        lemma_range_bounds(toks, idx + 3);
    }
    if idx + 5 <= n {
        lemma_range_bounds(toks, idx + 5);
    }
    if assignment_step(toks, idx, st) is Some {
        let target = text(toks, idx);
        let scan = idx + 2;
        if scan < n && kind(toks, scan) == TokenType::Dot && scan + 1 < n && text(toks, scan + 1) == "db"@ {
            lemma_record_emit(st, target, "db"@, true, false, OpV::Store(st.next_slot as usize, DataV::DbRef(target)));
        } else {
            let (a, b, close) = range_bounds(toks, scan + 3)->0;
            lemma_or_zero_ok(a);
            lemma_or_zero_ok(b);
            lemma_record_emit(
                st,
                target,
                "card"@,
                true,
                false,
                OpV::DbRangeRequest(
                    Some(st.next_slot as usize),
                    st.syms[text(toks, scan)].slot,
                    unsigned_or_zero(a),
                    unsigned_or_zero(b),
                ),
            );
        }
    }
    if request_step(toks, idx, st) is Some {
        let (a, b, close) = range_bounds(toks, idx + 3)->0;
        lemma_or_zero_ok(a);
        lemma_or_zero_ok(b);
        lemma_emit(
            st,
            OpV::DbRangeRequest(None, st.syms[text(toks, idx)].slot, unsigned_or_zero(a), unsigned_or_zero(b)),
        );
    }
    if ban_step(toks, idx, st) is Some {
        let name = text(toks, idx + 2);
        if st.syms.contains_key(name) {
            lemma_emit(st, OpV::Ban(st.syms[name].slot, name));
        } else {
            lemma_extends_refl(st);
        }
    }
}

proof fn lemma_declaration_step(toks: Seq<Token>, idx: int, cur: int, st: CState)
    requires
        0 <= idx <= cur < toks.len(),
    ensures
        declaration_step(toks, idx, cur, st) matches Ok((j, s)) ==> grows_well(st, s, st.next_slot < usize::MAX)
            && idx < j <= toks.len() + 1 && s.next_slot <= st.next_slot + 1,
{
    let n = toks.len() as int;
    if cur + 2 <= n {
        lemma_find_kind(toks, cur + 2, TokenType::RightBracket);
    }
    if cur + 3 <= n {
        lemma_find_kind(toks, cur + 3, TokenType::RightBracket);
    }
    if cur + 4 <= n {
        lemma_find_kind(toks, cur + 4, TokenType::RightBracket);
    }
    if cur + 5 <= n {
        lemma_find_kind(toks, cur + 5, TokenType::RightBracket);
    }
    let name = text(toks, cur);
    if cur + 2 < n && kind(toks, cur + 1) == TokenType::PlusEquals && st.syms.contains_key(name) {
        let sym = st.syms[name];
        let m = cur + 2;
        if sym.changeable {
            lemma_or_zero_ok(text(toks, m));
            let data = if kind(toks, m) == TokenType::NumberLiteral {
                number_for_type(sym.var_type, text(toks, m))
            } else {
                DataV::Str(text(toks, m))
            };
            lemma_emit(st, OpV::PlusEqual(sym.slot, data));
        }
    } else if let Ok((j, s)) = declaration_step(toks, idx, cur, st) {
        let c1 = cur + 1;
        let marked = c1 < n && kind(toks, c1) == TokenType::ChangeableModifier;
        let c2 = if marked {
            c1 + 1
        } else {
            c1
        };
        let typed = c2 < n && kind(toks, c2) == TokenType::Colon;
        let declared = if typed && c2 + 1 < n {
            text(toks, c2 + 1)
        } else {
            "deduced"@
        };
        let c3 = if typed && c2 + 1 < n {
            c2 + 2
        } else {
            c2
        };
        if c3 + 1 < n && kind(toks, c3) == TokenType::Equals {
            let vi = c3 + 1;
            let raw = text(toks, vi);
            let close = find_kind(toks, vi + 1, TokenType::RightBracket);
            lemma_or_zero_ok(raw);
            lemma_list_items_ok(toks, vi + 1, close);
            let data = if kind(toks, vi) == TokenType::NumberLiteral {
                number_as_declared(declared, raw)
            } else if kind(toks, vi) == TokenType::LeftBracket {
                DataV::Card(list_items(toks, vi + 1, close))
            } else {
                DataV::Str(raw)
            };
            let var_type = if declared == "deduced"@ {
                deduced_type(data)
            } else {
                declared
            };
            if st.syms.contains_key(name) {
                lemma_emit(st, OpV::Store(st.syms[name].slot, data));
            } else {
                lemma_record_emit(st, name, var_type, marked, typed, OpV::Store(st.next_slot as usize, data));
            }
        } else {
            lemma_extends_refl(st);
        }
    }
}

proof fn lemma_statement_step(toks: Seq<Token>, idx: int, st: CState)
    requires
        0 <= idx < toks.len(),
    ensures
        statement_step(toks, idx, st) matches Ok((j, s)) ==> grows_well(st, s, st.next_slot < usize::MAX)
            && idx < j <= toks.len() + 1 && s.next_slot <= st.next_slot + 1,
{
    let n = toks.len() as int;
    if idx + 3 <= n {
        lemma_find_kind(toks, idx + 3, TokenType::RightBrace);
    }
    let k = kind(toks, idx);
    lemma_extends_refl(st);
    if k == TokenType::Let || k == TokenType::Type || k == TokenType::Disguise || k == TokenType::Identifier {
        let cur = if k == TokenType::Identifier {
            idx
        } else {
            idx + 1
        };
        if cur < n && kind(toks, cur) == TokenType::Identifier {
            lemma_declaration_step(toks, idx, cur, st);
        }
    } else if k == TokenType::Stamp {
        if idx + 1 < n {
            lemma_emit(st, OpV::Stamp(text(toks, idx + 1)));
        }
    } else if k == TokenType::Dump {
        if idx + 1 < n && st.syms.contains_key(text(toks, idx + 1)) {
            lemma_emit(st, OpV::Dump(st.syms[text(toks, idx + 1)].slot));
        }
    } else if k == TokenType::CallRust {
        if idx + 2 < n && kind(toks, idx + 1) == TokenType::Identifier {
            lemma_emit(st, OpV::CallRustFunc(text(toks, idx + 1), text(toks, idx + 2)));
        }
    } else if k == TokenType::FileHook {
        lemma_emit(st, OpV::ExternalFileHook(text(toks, idx)));
    } else if k == TokenType::Embed {
        if idx + 3 < n && text(toks, idx + 1) == "rust"@ && kind(toks, idx + 2) == TokenType::LeftBrace {
            let close = find_kind(toks, idx + 3, TokenType::RightBrace);
            lemma_emit(st, OpV::InlineRust(spaced(toks, idx + 3, close)));
        }
    }
}

/// `idx` brought into `0..=len`.
pub open spec fn clamp(idx: int, len: int) -> int {
    if idx < 0 {
        0
    } else if idx > len {
        len
    } else {
        idx
    }
}

proof fn lemma_compile_from(toks: Seq<Token>, idx: int, st: CState)
    ensures
        compile_from(toks, idx, st) matches Ok(s) ==> grows_well(
            st,
            s,
            st.next_slot + toks.len() - clamp(idx, toks.len() as int) <= usize::MAX,
        ) && s.next_slot <= st.next_slot + toks.len() - clamp(idx, toks.len() as int),
    decreases toks.len(), toks.len() + 1 - idx, 1int,
{
    if 0 <= idx < toks.len() {
        lemma_compile_step(toks, idx, st);
        match compile_step(toks, idx, st) {
            Ok((j, s1)) => {
                if idx < j <= toks.len() + 1 {
                    lemma_compile_from(toks, j, s1);
                    if let Ok(s) = compile_from(toks, j, s1) {
                        lemma_grows_trans(
                            st,
                            s1,
                            s,
                            st.next_slot + toks.len() - clamp(idx, toks.len() as int) <= usize::MAX,
                            st.next_slot + toks.len() - idx <= usize::MAX,
                            s1.next_slot + toks.len() - clamp(j, toks.len() as int) <= usize::MAX,
                        );
                    }
                } else {
                }
            },
            Err(_) => {},
        }
    } else {
        lemma_extends_refl(st);
    }
}

proof fn lemma_compile_step(toks: Seq<Token>, idx: int, st: CState)
    requires
        0 <= idx < toks.len(),
    ensures
        compile_step(toks, idx, st) matches Ok((j, s)) ==> grows_well(
            st,
            s,
            st.next_slot + toks.len() - idx <= usize::MAX,
        ) && s.next_slot <= st.next_slot + min_int(j, toks.len() as int) - idx,
    decreases toks.len(), toks.len() + 1 - idx, 0int,
{
    lemma_side_steps(toks, idx, st);
    if assignment_step(toks, idx, st) is Some {
        assert(compile_step(toks, idx, st) == Ok::<(int, CState), ErrV>(assignment_step(toks, idx, st)->0));
    } else if request_step(toks, idx, st) is Some {
        assert(compile_step(toks, idx, st) == Ok::<(int, CState), ErrV>(request_step(toks, idx, st)->0));
    } else if ban_step(toks, idx, st) is Some {
        assert(compile_step(toks, idx, st) == Ok::<(int, CState), ErrV>(ban_step(toks, idx, st)->0));
    } else if opens_main_block(toks, idx) {
        let close = block_end(toks, idx + 4, 1);
        lemma_block_end(toks, idx + 4, 1);
        if idx + 4 <= close <= toks.len() {
            let inner = toks.subrange(idx + 4, close);
            lemma_compile_from(inner, 0, st);
            let after = if close < toks.len() {
                close + 1
            } else {
                toks.len() as int
            };
            if let Ok(s) = compile_from(inner, 0, st) {
                assert(compile_step(toks, idx, st) == Ok::<(int, CState), ErrV>((after, s)));
                assert(s.next_slot <= st.next_slot + inner.len());
                assert(min_int(after, toks.len() as int) - idx >= inner.len());
            }
        } else {
            lemma_extends_refl(st);
        }
    } else {
        lemma_statement_step(toks, idx, st);
        assert(compile_step(toks, idx, st) == statement_step(toks, idx, st));
    }
}

/// The state of a compiler that has a fresh symbol table and no bytecode yet.
pub open spec fn fresh_state() -> CState {
    CState { syms: Map::empty(), next_slot: 0, code: Seq::empty() }
}

/// Compiling only adds to what was there (symbols, slots, instructions);
/// every slot that the compiled symbols and instructions name has been
/// handed out by the symbol table (it is below the table's next free slot);
/// distinct names keep distinct slots; and at most one slot is handed out
/// per token.
pub proof fn law_compiled_slots_in_range(toks: Seq<Token>, st: CState)
    requires
        slots_in_range(st),
        st.next_slot + toks.len() <= usize::MAX,
    ensures
        compile_spec(toks, st) matches Ok(s) ==> slots_in_range(s) && extends(st, s) && s.next_slot
            <= st.next_slot + toks.len(),
{
    lemma_compile_from(toks, 0, st);
    if let Ok(s) = compile_spec(toks, st) {
        assert forall|i: int| 0 <= i < s.code.len() implies op_ok(#[trigger] s.code[i], s.next_slot) by {
            if i < st.code.len() {
                assert(s.code[i] == s.code.subrange(0, st.code.len() as int)[i]);
                lemma_slots_below_grow(st.code[i], st.next_slot, s.next_slot);
            }
        }
    }
}

/// Compiling, from any state, only adds: it forgets no name, hands back no
/// slot, takes back no instruction (the bytecode that was there stays its
/// beginning), and hands out at most one slot per token.
pub proof fn law_compile_only_appends(toks: Seq<Token>, st: CState)
    ensures
        compile_spec(toks, st) matches Ok(s) ==> extends(st, s) && s.next_slot <= st.next_slot + toks.len(),
{
    lemma_compile_from(toks, 0, st);
}

/// Compiling keeps a symbol table well formed, whatever bytecode was there
/// before: when every symbol's slot is below the next free slot and
/// distinct names have distinct slots, this holds again after compiling,
/// and every instruction that compiling appends names only slots below the
/// new next free slot and carries well-formed values.
pub proof fn law_compile_keeps_table_ok(toks: Seq<Token>, st: CState)
    requires
        table_ok(st),
        st.next_slot + toks.len() <= usize::MAX,
    ensures
        compile_spec(toks, st) matches Ok(s) ==> table_ok(s) && appended_ok(st, s),
{
    lemma_compile_from(toks, 0, st);
}

/// A well-formed symbol table whose distinct names have distinct slots is,
/// with any bytecode, a state whose symbols are well formed (`table_ok`, what
/// `law_compile_keeps_table_ok` starts from); with a bytecode whose
/// instructions name only slots it handed out and carry well-formed values,
/// the whole state is well formed.
pub proof fn law_table_state_in_range(table: SymbolTable, code: Seq<OpCode>)
    requires
        table.wf(),
        slots_distinct(table@),
    ensures
        table_ok(state_of(table, code)),
        (forall|i: int| 0 <= i < code.len() ==> op_ok(#[trigger] code[i]@, table.next_slot as nat)) ==> slots_in_range(
            state_of(table, code),
        ),
{
    crate::symbols::law_register_fresh_slot(table);
    let st = state_of(table, code);
    if forall|i: int| 0 <= i < code.len() ==> op_ok(#[trigger] code[i]@, table.next_slot as nat) {
        assert forall|i: int| 0 <= i < st.code.len() implies op_ok(#[trigger] st.code[i], st.next_slot) by {
            assert(st.code[i] == code[i]@);
        }
    }
}

/// The number of `{` minus the number of `}` among the first `i` tokens.
pub open spec fn brace_depth(toks: Seq<Token>, i: int) -> int
    decreases i,
{
    if i <= 0 {
        0
    } else {
        let k = kind(toks, i - 1);
        brace_depth(toks, i - 1) + if k == TokenType::LeftBrace {
            1int
        } else if k == TokenType::RightBrace {
            -1int
        } else {
            0int
        }
    }
}

/// The braces of `toks` balance: no prefix closes more than it opens, and
/// the whole closes all it opens.
pub open spec fn braces_balance(toks: Seq<Token>) -> bool {
    &&& forall|i: int| 0 <= i <= toks.len() ==> #[trigger] brace_depth(toks, i) >= 0
    &&& brace_depth(toks, toks.len() as int) == 0
}

/// In `head + body + [close]`, with `head` four tokens, `close` a `}` and the
/// braces of `body` balanced, the block opened before `body` closes at `close`.
proof fn lemma_block_closes(head: Seq<Token>, body: Seq<Token>, close: Token, i: int)
    requires
        head.len() == 4,
        close.token_type == TokenType::RightBrace,
        braces_balance(body),
        0 <= i <= body.len(),
    ensures
        block_end(head + body + seq![close], 4 + i, 1 + brace_depth(body, i)) == 4 + body.len(),
    decreases body.len() - i,
{
    let toks = head + body + seq![close];
    if i < body.len() {
        assert(toks[4 + i] == body[i]);
        assert(brace_depth(body, i + 1) >= 0);
        lemma_block_closes(head, body, close, i + 1);
    } else {
        assert(toks[4 + i] == close);
    }
}

/// The body of `pub struct @main { ... }` is compiled as it would be at the
/// top level: when the braces inside the block balance, compiling the block
/// is compiling its body, from the same state.
pub proof fn law_main_block_is_its_body(head: Seq<Token>, body: Seq<Token>, close: Token, st: CState)
    requires
        head.len() == 4,
        kind(head, 0) == TokenType::Pub,
        kind(head, 1) == TokenType::Struct,
        text(head, 2) == "@main"@,
        kind(head, 3) == TokenType::LeftBrace,
        close.token_type == TokenType::RightBrace,
        braces_balance(body),
    ensures
        compile_spec(head + body + seq![close], st) == compile_spec(body, st),
{
    let toks = head + body + seq![close];
    let n = toks.len() as int;
    assert(toks[0] == head[0] && toks[1] == head[1] && toks[2] == head[2] && toks[3] == head[3]);
    assert(opens_main_block(toks, 0));
    assert(brace_depth(body, 0) == 0);
    lemma_block_closes(head, body, close, 0);
    let close_at = block_end(toks, 4, 1);
    assert(close_at == 4 + body.len());
    assert(toks.subrange(4, close_at) =~= body);
    assert(assignment_step(toks, 0, st) is None);
    assert(request_step(toks, 0, st) is None);
    assert(ban_step(toks, 0, st) is None);
    match compile_from(body, 0, st) {
        Ok(s) => {
            assert(compile_step(toks, 0, st) == Ok::<(int, CState), ErrV>((n, s)));
            assert(compile_from(toks, n, s) == Ok::<CState, ErrV>(s));
        },
        Err(e) => {
            assert(compile_step(toks, 0, st) == Err::<(int, CState), ErrV>(e));
        },
    }
}

/// The type name of a number value: `i4M`, `u4M` or `int5M`.
pub open spec fn number_type(d: DataV) -> Option<Seq<char>> {
    match d {
        DataV::I4M(_) => Some("i4M"@),
        DataV::U4M(_) => Some("u4M"@),
        DataV::Int5M(_) => Some("int5M"@),
        _ => None,
    }
}

/// A typed declaration of a number, then `+=` of a number on it:
/// `let name *c: ty = a` then `name += b`, with `ty` one of `i4M`, `u4M` and
/// `int5M` and `name` new.  The variable is recorded with the type `ty`, the
/// number stored is of that type, so is the number added, and the machine
/// can add the one to the other.
pub proof fn law_declared_numbers_keep_their_type(toks: Seq<Token>, st: CState)
    requires
        toks.len() == 10,
        kind(toks, 0) == TokenType::Let,
        kind(toks, 1) == TokenType::Identifier,
        kind(toks, 2) == TokenType::ChangeableModifier,
        kind(toks, 3) == TokenType::Colon,
        text(toks, 4) == "i4M"@ || text(toks, 4) == "u4M"@ || text(toks, 4) == "int5M"@,
        kind(toks, 5) == TokenType::Equals,
        kind(toks, 6) == TokenType::NumberLiteral,
        kind(toks, 7) == TokenType::Identifier,
        text(toks, 7) == text(toks, 1),
        kind(toks, 8) == TokenType::PlusEquals,
        kind(toks, 9) == TokenType::NumberLiteral,
        text(toks, 1).len() > 0 && !is_uppercase_char(text(toks, 1)[0]),
        !st.syms.contains_key(text(toks, 1)),
    ensures
        compile_spec(toks, st) matches Ok(s) && s.syms.contains_key(text(toks, 1)) && s.syms[text(
            toks,
            1,
        )].var_type == text(toks, 4) && s.code.len() == st.code.len() + 2 && (s.code[st.code.len() as int] matches OpV::Store(
            slot,
            a,
        ) && s.code[st.code.len() + 1int] matches OpV::PlusEqual(slot2, b) && slot == slot2 && slot
            == s.syms[text(toks, 1)].slot && number_type(a) == Some(text(toks, 4)) && number_type(b) == Some(
            text(toks, 4),
        ) && crate::vm::plus_equal(a, b) is Some),
{
    let name = text(toks, 1);
    let ty = text(toks, 4);
    reveal_strlit("i4M");
    reveal_strlit("u4M");
    reveal_strlit("int5M");
    reveal_strlit("deduced");
    assert("deduced"@.len() == 7);
    assert(ty.len() != "deduced"@.len());
    assert(!opens_main_block(toks, 0));
    let r1 = declaration_step(toks, 0, 1, st);
    assert(compile_step(toks, 0, st) == statement_step(toks, 0, st));
    assert(statement_step(toks, 0, st) == r1);
    let d1 = number_as_declared(ty, text(toks, 6));
    let s1 = emit(record(st, name, ty, true, true), OpV::Store(st.next_slot as usize, d1));
    assert(r1 == Ok::<(int, CState), ErrV>((7, s1)));
    assert(!opens_main_block(toks, 7));
    assert(s1.syms.contains_key(name));
    assert(s1.syms[name].changeable);
    assert(s1.syms[name].var_type == ty);
    let d2 = number_for_type(ty, text(toks, 9));
    let s2 = emit(s1, OpV::PlusEqual(s1.syms[name].slot, d2));
    assert(declaration_step(toks, 7, 7, s1) == Ok::<(int, CState), ErrV>((10, s2)));
    assert(compile_step(toks, 7, s1) == Ok::<(int, CState), ErrV>((10, s2)));
    assert(compile_from(toks, 10, s2) == Ok::<CState, ErrV>(s2));
    assert(compile_from(toks, 7, s1) == Ok::<CState, ErrV>(s2));
    assert(compile_from(toks, 0, st) == Ok::<CState, ErrV>(s2));
    assert("i4M"@ != "u4M"@ && "i4M"@ != "int5M"@ && "u4M"@ != "int5M"@) by {
        assert("i4M"@[0] != "u4M"@[0]);
        assert("int5M"@.len() != "i4M"@.len());
    }
    assert(s2.code[st.code.len() as int] == OpV::Store(st.next_slot as usize, d1));
    assert(s2.code[st.code.len() + 1int] == OpV::PlusEqual(s1.syms[name].slot, d2));
    if ty == "i4M"@ {
        assert(d1 is I4M && d2 is I4M);
    } else if ty == "u4M"@ {
        assert(d1 is U4M && d2 is U4M);
    } else {
        assert(d1 is Int5M && d2 is Int5M);
    }
}

/// A number declared without a type is a signed 4M number: `let name = a`,
/// with `name` new, records `name` with the type `i4M` and stores a number
/// of that type in its slot.
pub proof fn law_untyped_number_is_i4m(toks: Seq<Token>, st: CState)
    requires
        toks.len() == 4,
        kind(toks, 0) == TokenType::Let,
        kind(toks, 1) == TokenType::Identifier,
        kind(toks, 2) == TokenType::Equals,
        kind(toks, 3) == TokenType::NumberLiteral,
        !st.syms.contains_key(text(toks, 1)),
    ensures
        compile_spec(toks, st) matches Ok(s) && s.syms.contains_key(text(toks, 1)) && s.syms[text(
            toks,
            1,
        )].var_type == "i4M"@ && s.code.len() == st.code.len() + 1 && (s.code[st.code.len() as int] matches OpV::Store(
            slot,
            a,
        ) && slot == s.syms[text(toks, 1)].slot && number_type(a) == Some("i4M"@)),
{
    let name = text(toks, 1);
    reveal_strlit("deduced");
    reveal_strlit("u4M");
    reveal_strlit("int5M");
    assert(!opens_main_block(toks, 0));
    assert(compile_step(toks, 0, st) == statement_step(toks, 0, st));
    let d = number_as_declared("deduced"@, text(toks, 3));
    assert("deduced"@ != "u4M"@ && "deduced"@ != "int5M"@) by {
        assert("deduced"@.len() != "u4M"@.len());
        assert("deduced"@.len() != "int5M"@.len());
    }
    assert(d is I4M);
    let s1 = emit(record(st, name, deduced_type(d), false, false), OpV::Store(st.next_slot as usize, d));
    assert(declaration_step(toks, 0, 1, st) == Ok::<(int, CState), ErrV>((4, s1)));
    assert(compile_from(toks, 4, s1) == Ok::<CState, ErrV>(s1));
    assert(compile_from(toks, 0, st) == Ok::<CState, ErrV>(s1));
    assert(s1.code[st.code.len() as int] == OpV::Store(st.next_slot as usize, d));
}

/// A fresh symbol table with an empty bytecode is where compiling starts.
pub proof fn law_fresh_state(table: SymbolTable, code: Seq<OpCode>)
    requires
        table@ == Map::<Seq<char>, SymbolV>::empty(),
        table.next_slot == 0,
        code.len() == 0,
    ensures
        state_of(table, code) == fresh_state(),
        slots_in_range(fresh_state()),
{
    assert(ops_view(code) =~= Seq::<OpV>::empty());
}

} // verus!
