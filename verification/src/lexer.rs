//! The lexer: from source text to tokens, line by line.
//!
//! Each line is cut at its first `//`; what is left is read from left to
//! right.  A word directly followed by `(` is a call of a math function: the
//! text up to the next `)` is its argument list, and the token it gives is a
//! number literal whose text is the value of that call.

use vstd::prelude::*;
use crate::text::{
    char_is_numeric, char_is_whitespace, chars_of, contains_chars, find_first, first_occurrence, is_numeric_char,
    lemma_first_occurrence,
    is_whitespace_char, matches_at, occurs_at, push_char, string_is, string_of_char,
    string_of_range,
};
use crate::tokens::{Token, TokenType};

verus! {

broadcast use vstd::string::group_string_axioms;

/// What the lexer finds at some place of a line: a token, or a call
/// `name(args)` of a math function, which becomes a number literal.
pub enum LexItem {
    Tok(TokenType, Seq<char>),
    Call(Seq<char>, Seq<char>),
}

/// How the reading of a whole text ends: with the items it found, with an
/// error message, or never (the reader stops advancing at a stray `)`).
pub enum ScanOutcome {
    Done(Seq<LexItem>),
    Failed(Seq<char>),
    Stuck,
}

/// One move of the reader at some position of a line.
pub enum LexStep {
    Skip(int),
    Emit(LexItem, int),
    Fail(Seq<char>),
    Stuck,
}

/// The error for a `*` that is not followed by `c`.
pub open spec fn star_message() -> Seq<char> {
    "Expected 'c' after '*' for changeable modifier"@
}

/// The error for a `+` that is not followed by `=`.
pub open spec fn plus_message() -> Seq<char> {
    "Unsupported operator '+' without '='"@
}

/// The characters that end a word.
pub open spec fn is_word_delimiter(c: char) -> bool {
    c == '"' || c == ':' || c == '[' || c == ']' || c == '{' || c == '}' || c == ','
        || c == '=' || c == '+' || c == '>' || c == '(' || c == ')' || c == '.' || c == '-'
}

/// The kind of the tokens made of the single character `c`, if `c` is one of those.
pub open spec fn single_char_kind(c: char) -> Option<TokenType> {
    if c == ':' {
        Some(TokenType::Colon)
    } else if c == '[' {
        Some(TokenType::LeftBracket)
    } else if c == ']' {
        Some(TokenType::RightBracket)
    } else if c == '{' {
        Some(TokenType::LeftBrace)
    } else if c == '}' {
        Some(TokenType::RightBrace)
    } else if c == '>' {
        Some(TokenType::GreaterThan)
    } else if c == ',' {
        Some(TokenType::Comma)
    } else if c == '=' {
        Some(TokenType::Equals)
    } else {
        None
    }
}

/// The kind of the keyword `w`, if `w` is one.
pub open spec fn keyword_kind(w: Seq<char>) -> Option<TokenType> {
    if w == "let"@ {
        Some(TokenType::Let)
    } else if w == "type"@ {
        Some(TokenType::Type)
    } else if w == "pub"@ {
        Some(TokenType::Pub)
    } else if w == "struct"@ {
        Some(TokenType::Struct)
    } else if w == "stamp"@ {
        Some(TokenType::Stamp)
    } else if w == "dump"@ {
        Some(TokenType::Dump)
    } else if w == "disguise"@ {
        Some(TokenType::Disguise)
    } else if w == "if"@ {
        Some(TokenType::If)
    } else if w == "else"@ {
        Some(TokenType::Else)
    } else if w == "loop"@ {
        Some(TokenType::Loop)
    } else if w == "while"@ {
        Some(TokenType::While)
    } else if w == "fn"@ {
        Some(TokenType::Fn)
    } else if w == "return"@ {
        Some(TokenType::Return)
    } else if w == "read_file"@ {
        Some(TokenType::ReadFile)
    } else if w == "embed"@ {
        Some(TokenType::Embed)
    } else if w == "call_rust"@ {
        Some(TokenType::CallRust)
    } else {
        None
    }
}

/// A word that starts with `call.` and ends with `.rs` names a file hook.
pub open spec fn is_file_hook(w: Seq<char>) -> bool {
    occurs_at(w, "call."@, 0) && occurs_at(w, ".rs"@, w.len() - ".rs"@.len())
}

/// Every character of `w` is numeric.
pub open spec fn all_numeric(w: Seq<char>) -> bool {
    forall|k: int| 0 <= k < w.len() ==> is_numeric_char(#[trigger] w[k])
}

/// The first position at or after `i` that holds `c`, or the length of `cs`.
pub open spec fn find_char_from(cs: Seq<char>, i: int, c: char) -> int
    decreases cs.len() - i,
{
    if i >= cs.len() {
        cs.len() as int
    } else if cs[i] == c {
        i
    } else {
        find_char_from(cs, i + 1, c)
    }
}

/// The end of the word that starts at `i`: the first whitespace or delimiter.
pub open spec fn word_end(cs: Seq<char>, i: int) -> int
    decreases cs.len() - i,
{
    if i >= cs.len() {
        cs.len() as int
    } else if is_whitespace_char(cs[i]) || is_word_delimiter(cs[i]) {
        i
    } else {
        word_end(cs, i + 1)
    }
}

/// Where the reading goes on after the closing character at `k` (or after
/// the end of the line, when there is none).
pub open spec fn past(cs: Seq<char>, k: int) -> int {
    if k < cs.len() {
        k + 1
    } else {
        cs.len() as int
    }
}

/// The move of the reader on a word (or on `(` and `)`) that starts at `i`.
pub open spec fn word_step(cs: Seq<char>, i: int) -> LexStep {
    let n = cs.len() as int;
    let e = word_end(cs, i);
    let w = cs.subrange(i, e);
    let p = if e < n && cs[e] == 'c' && w.len() == 0 {
        e + 1
    } else {
        e
    };
    if p < n && cs[p] == '(' {
        let q = find_char_from(cs, p + 1, ')');
        LexStep::Emit(LexItem::Call(w, cs.subrange(p + 1, q)), past(cs, q))
    } else if w.len() == 0 {
        if p > i {
            LexStep::Skip(p)
        } else {
            LexStep::Stuck
        }
    } else if is_file_hook(w) {
        LexStep::Emit(LexItem::Tok(TokenType::FileHook, w), p)
    } else if keyword_kind(w) is Some {
        LexStep::Emit(LexItem::Tok(keyword_kind(w)->0, w), p)
    } else if all_numeric(w) {
        LexStep::Emit(LexItem::Tok(TokenType::NumberLiteral, w), p)
    } else {
        LexStep::Emit(LexItem::Tok(TokenType::Identifier, w), p)
    }
}

/// The move of the reader at position `i` of the line `cs`.
pub open spec fn lex_step(cs: Seq<char>, i: int) -> LexStep {
    let n = cs.len() as int;
    let ch = cs[i];
    if is_whitespace_char(ch) {
        LexStep::Skip(i + 1)
    } else if ch == '"' {
        let k = find_char_from(cs, i + 1, '"');
        LexStep::Emit(LexItem::Tok(TokenType::StringLiteral, cs.subrange(i + 1, k)), past(cs, k))
    } else if ch == '.' {
        LexStep::Emit(LexItem::Tok(TokenType::Dot, seq!['.']), i + 1)
    } else if ch == '-' {
        LexStep::Emit(LexItem::Tok(TokenType::Minus, seq!['-']), i + 1)
    } else if ch == '*' {
        if i + 1 < n && cs[i + 1] == 'c' {
            LexStep::Emit(LexItem::Tok(TokenType::ChangeableModifier, seq!['*', 'c']), i + 2)
        } else {
            LexStep::Fail(star_message())
        }
    } else if single_char_kind(ch) is Some {
        LexStep::Emit(LexItem::Tok(single_char_kind(ch)->0, seq![ch]), i + 1)
    } else if ch == '+' {
        if i + 1 < n && cs[i + 1] == '=' {
            LexStep::Emit(LexItem::Tok(TokenType::PlusEquals, seq!['+', '=']), i + 2)
        } else {
            LexStep::Fail(plus_message())
        }
    } else {
        word_step(cs, i)
    }
}

pub proof fn lemma_find_char_from(cs: Seq<char>, i: int, c: char)
    requires
        0 <= i <= cs.len(),
    ensures
        i <= find_char_from(cs, i, c) <= cs.len(),
        find_char_from(cs, i, c) < cs.len() ==> cs[find_char_from(cs, i, c)] == c,
        forall|j: int| i <= j < find_char_from(cs, i, c) ==> cs[j] != c,
    decreases cs.len() - i,
{
    if i < cs.len() && cs[i] != c {
        lemma_find_char_from(cs, i + 1, c);
    }
}

pub proof fn lemma_word_end(cs: Seq<char>, i: int)
    requires
        0 <= i <= cs.len(),
    ensures
        i <= word_end(cs, i) <= cs.len(),
        word_end(cs, i) < cs.len() ==> is_whitespace_char(cs[word_end(cs, i)])
            || is_word_delimiter(cs[word_end(cs, i)]),
        forall|j: int| i <= j < word_end(cs, i) ==> !is_whitespace_char(cs[j]) && !is_word_delimiter(cs[j]),
    decreases cs.len() - i,
{
    if i < cs.len() && !is_whitespace_char(cs[i]) && !is_word_delimiter(cs[i]) {
        lemma_word_end(cs, i + 1);
    }
}

/// Every move of the reader but `Stuck` and `Fail` goes forward, and stays in the line.
pub proof fn lemma_lex_step_advances(cs: Seq<char>, i: int)
    requires
        0 <= i < cs.len(),
    ensures
        lex_step(cs, i) matches LexStep::Skip(j) ==> i < j <= cs.len(),
        lex_step(cs, i) matches LexStep::Emit(_, j) ==> i < j <= cs.len(),
{
    lemma_find_char_from(cs, i + 1, '"');
    lemma_word_end(cs, i);
    let e = word_end(cs, i);
    if e < cs.len() {
        lemma_find_char_from(cs, e + 1, ')');
    }
    if e + 1 < cs.len() {
        lemma_find_char_from(cs, e + 2, ')');
    }
}

/// Reading the line `cs` from position `i`, with the items `acc` found so far.
pub open spec fn lex_from(cs: Seq<char>, i: int, acc: Seq<LexItem>) -> ScanOutcome
    decreases cs.len() - i,
{
    if i < 0 || i >= cs.len() {
        ScanOutcome::Done(acc)
    } else {
        proof {
            lemma_lex_step_advances(cs, i);
        }
        match lex_step(cs, i) {
            LexStep::Skip(j) => lex_from(cs, j, acc),
            LexStep::Emit(item, j) => lex_from(cs, j, acc.push(item)),
            LexStep::Fail(m) => ScanOutcome::Failed(m),
            LexStep::Stuck => ScanOutcome::Stuck,
        }
    }
}

/// A line without its trailing carriage return.
pub open spec fn strip_cr(l: Seq<char>) -> Seq<char> {
    if l.len() > 0 && l.last() == '\r' {
        l.drop_last()
    } else {
        l
    }
}

/// The line of `cs` that starts at `start`, as `str::lines` gives it: a line
/// that ends with a newline loses it and a carriage return before it.
pub open spec fn line_at(cs: Seq<char>, start: int) -> Seq<char> {
    let k = find_char_from(cs, start, '\n');
    if k < cs.len() {
        strip_cr(cs.subrange(start, k))
    } else {
        cs.subrange(start, cs.len() as int)
    }
}

/// A line cut at its first `//`.
pub open spec fn clean_line(l: Seq<char>) -> Seq<char> {
    match first_occurrence(l, "//"@) {
        Some(k) => l.subrange(0, k),
        None => l,
    }
}

/// Reading the text `cs` line by line from the line that starts at `start`.
pub open spec fn lex_text(cs: Seq<char>, start: int, acc: Seq<LexItem>) -> ScanOutcome
    decreases cs.len() - start,
{
    if start < 0 || start >= cs.len() {
        ScanOutcome::Done(acc)
    } else {
        let k = find_char_from(cs, start, '\n');
        proof {
            lemma_find_char_from(cs, start, '\n');
        }
        match lex_from(clean_line(line_at(cs, start)), 0, acc) {
            ScanOutcome::Done(found) => if k < cs.len() {
                lex_text(cs, k + 1, found)
            } else {
                ScanOutcome::Done(found)
            },
            other => other,
        }
    }
}

/// How reading the whole of `code` ends.
pub open spec fn scan_spec(code: Seq<char>) -> ScanOutcome {
    lex_text(code, 0, Seq::empty())
}

/// The outcome of reading one part of a text and then, if that part was
/// read to its end, the part after it.
pub open spec fn then_outcome(first: ScanOutcome, rest: ScanOutcome) -> ScanOutcome {
    match first {
        ScanOutcome::Done(a) => match rest {
            ScanOutcome::Done(b) => ScanOutcome::Done(a + b),
            other => other,
        },
        other => other,
    }
}

/// Reading a line with the items `acc` already found is reading it from
/// scratch, after those items.
proof fn lemma_lex_from_acc(cs: Seq<char>, i: int, acc: Seq<LexItem>)
    requires
        0 <= i,
    ensures
        lex_from(cs, i, acc) == then_outcome(ScanOutcome::Done(acc), lex_from(cs, i, Seq::empty())),
    decreases cs.len() - i,
{
    if i >= cs.len() {
        assert(acc + Seq::<LexItem>::empty() =~= acc);
    } else {
        lemma_lex_step_advances(cs, i);
        match lex_step(cs, i) {
            LexStep::Skip(j) => {
                lemma_lex_from_acc(cs, j, acc);
            },
            LexStep::Emit(item, j) => {
                let none = Seq::<LexItem>::empty();
                lemma_lex_from_acc(cs, j, acc.push(item));
                lemma_lex_from_acc(cs, j, none.push(item));
                if let ScanOutcome::Done(b) = lex_from(cs, j, none) {
                    assert(acc.push(item) + b =~= acc + (none.push(item) + b));
                }
            },
            _ => {},
        }
    }
}

/// Reading from the line at `start` with the items `acc` already found is
/// reading from there from scratch, after those items.
proof fn lemma_lex_text_acc(cs: Seq<char>, start: int, acc: Seq<LexItem>)
    requires
        0 <= start,
    ensures
        lex_text(cs, start, acc) == then_outcome(ScanOutcome::Done(acc), lex_text(cs, start, Seq::empty())),
    decreases cs.len() - start,
{
    let none = Seq::<LexItem>::empty();
    if start >= cs.len() {
        assert(acc + none =~= acc);
    } else {
        let k = find_char_from(cs, start, '\n');
        lemma_find_char_from(cs, start, '\n');
        let line = clean_line(line_at(cs, start));
        lemma_lex_from_acc(line, 0, acc);
        if let ScanOutcome::Done(f) = lex_from(line, 0, none) {
            if k < cs.len() {
                lemma_lex_text_acc(cs, k + 1, acc + f);
                lemma_lex_text_acc(cs, k + 1, f);
                if let ScanOutcome::Done(b) = lex_text(cs, k + 1, none) {
                    assert(acc + f + b =~= acc + (f + b));
                }
            }
        }
    }
}

/// Looking for `c` from a place of `r` finds the same place in `p + r`.
proof fn lemma_find_char_shift(p: Seq<char>, r: Seq<char>, j: int, c: char)
    requires
        0 <= j,
    ensures
        find_char_from(p + r, p.len() + j, c) == p.len() + find_char_from(r, j, c),
    decreases r.len() - j,
{
    if j < r.len() {
        assert((p + r)[p.len() + j] == r[j]);
        lemma_find_char_shift(p, r, j + 1, c);
    }
}

/// What comes before a place of a text does not change how the text is
/// read from there.
proof fn lemma_lex_text_shift(p: Seq<char>, r: Seq<char>, j: int, acc: Seq<LexItem>)
    requires
        0 <= j,
    ensures
        lex_text(p + r, p.len() + j, acc) == lex_text(r, j, acc),
    decreases r.len() - j,
{
    let cs = p + r;
    if j < r.len() {
        lemma_find_char_shift(p, r, j, '\n');
        lemma_find_char_from(r, j, '\n');
        let k = find_char_from(r, j, '\n');
        assert(cs.subrange(p.len() + j, p.len() + k) =~= r.subrange(j, k));
        assert(cs.subrange(p.len() + j, cs.len() as int) =~= r.subrange(j, r.len() as int));
        assert(line_at(cs, p.len() + j) == line_at(r, j));
        if k < r.len() {
            lemma_lex_text_shift(p, r, k + 1, lex_from(clean_line(line_at(r, j)), 0, acc)->Done_0);
        }
    }
}

/// A line cut at its first `//` is no longer than the line.
proof fn lemma_clean_line_len(l: Seq<char>)
    ensures
        clean_line(l).len() <= l.len(),
{
    lemma_first_occurrence(l, "//"@);
}

/// The lines of a text are read in turn: reading a line, a newline and the
/// rest of the text is reading the line (without the carriage return before
/// the newline) and then, if no error or stray `)` stopped it, reading the
/// rest, whose tokens follow those of the line.
pub proof fn law_lines_read_in_turn(line: Seq<char>, rest: Seq<char>)
    requires
        !line.contains('\n'),
    ensures
        scan_spec(line + seq!['\n'] + rest) == then_outcome(scan_spec(strip_cr(line)), scan_spec(rest)),
{
    let none = Seq::<LexItem>::empty();
    let p = line + seq!['\n'];
    let cs = p + rest;
    let n = line.len() as int;
    lemma_find_char_from(cs, 0, '\n');
    let k = find_char_from(cs, 0, '\n');
    assert(cs[n] == '\n');
    if k < n {
        assert(line[k] == cs[k]);
        assert(line.contains('\n'));
    }
    assert(k == n);
    assert(cs.subrange(0, n) =~= line);
    let l2 = strip_cr(line);
    assert(line_at(cs, 0) == l2);
    let first = lex_from(clean_line(l2), 0, none);
    lemma_clean_line_len(l2);
    if l2.len() == 0 {
        assert(scan_spec(l2) == ScanOutcome::Done(none));
        assert(first == ScanOutcome::Done(none));
    } else {
        lemma_find_char_from(l2, 0, '\n');
        let k2 = find_char_from(l2, 0, '\n');
        if k2 < l2.len() {
            assert(line[k2] == l2[k2]);
            assert(line.contains('\n'));
        }
        assert(l2.subrange(0, l2.len() as int) =~= l2);
        assert(line_at(l2, 0) == l2);
    }
    assert(scan_spec(l2) == first);
    if let ScanOutcome::Done(f) = first {
        lemma_lex_text_shift(p, rest, 0, f);
        lemma_lex_text_acc(rest, 0, f);
    }
}

/// Reading three parts in turn does not depend on how they are grouped.
proof fn lemma_then_outcome_assoc(x: ScanOutcome, y: ScanOutcome, z: ScanOutcome)
    ensures
        then_outcome(x, then_outcome(y, z)) == then_outcome(then_outcome(x, y), z),
{
    if let ScanOutcome::Done(a) = x {
        if let ScanOutcome::Done(b) = y {
            if let ScanOutcome::Done(c) = z {
                assert(a + (b + c) =~= a + b + c);
            }
        }
    }
}

/// The lines of a text are read in turn, however many lines its first part
/// has: reading `first`, a newline and `rest` is reading `first` (without a
/// carriage return at its very end, which the newline takes away) and then,
/// if no error or stray `)` stopped it, reading `rest`, whose tokens follow
/// those of `first`.
pub proof fn law_text_read_in_turn(first: Seq<char>, rest: Seq<char>)
    ensures
        scan_spec(first + seq!['\n'] + rest) == then_outcome(scan_spec(strip_cr(first)), scan_spec(rest)),
    decreases first.len(),
{
    if !first.contains('\n') {
        law_lines_read_in_turn(first, rest);
    } else {
        lemma_find_char_from(first, 0, '\n');
        let k = find_char_from(first, 0, '\n');
        if k >= first.len() {
            let j = choose|j: int| 0 <= j < first.len() && first[j] == '\n';
            assert(first[j] != '\n');
        }
        let l = first.subrange(0, k);
        let a2 = first.subrange(k + 1, first.len() as int);
        assert(first =~= l + seq!['\n'] + a2);
        if l.contains('\n') {
            let j = choose|j: int| 0 <= j < l.len() && l[j] == '\n';
            assert(first[j] == l[j]);
        }
        assert(first + seq!['\n'] + rest =~= l + seq!['\n'] + (a2 + seq!['\n'] + rest));
        law_lines_read_in_turn(l, a2 + seq!['\n'] + rest);
        law_text_read_in_turn(a2, rest);
        if a2.len() > 0 {
            assert(first.last() == a2.last());
            assert(strip_cr(first) =~= l + seq!['\n'] + strip_cr(a2));
        } else {
            assert(first.last() == '\n');
            assert(strip_cr(first) =~= l + seq!['\n'] + strip_cr(a2));
        }
        law_lines_read_in_turn(l, strip_cr(a2));
        lemma_then_outcome_assoc(scan_spec(strip_cr(l)), scan_spec(strip_cr(a2)), scan_spec(rest));
    }
}

/// A word of source text: not empty, and made of characters that are
/// neither whitespace nor punctuation with a meaning of its own
/// (`"` `:` `[` `]` `{` `}` `,` `=` `+` `>` `(` `)` `.` `-`).
pub open spec fn plain_word(w: Seq<char>) -> bool {
    &&& w.len() > 0
    &&& forall|k: int|
        0 <= k < w.len() ==> {
            let c = #[trigger] w[k];
            &&& !is_whitespace_char(c)
            &&& c != '"' && c != ':' && c != '[' && c != ']' && c != '{' && c != '}' && c != ','
            &&& c != '=' && c != '+' && c != '>' && c != '(' && c != ')' && c != '.' && c != '-'
        }
}

/// An identifier or a number literal found by the lexer is a plain word.
pub open spec fn word_item_plain(item: LexItem) -> bool {
    match item {
        LexItem::Tok(k, v) => (k == TokenType::Identifier || k == TokenType::NumberLiteral) ==> plain_word(v),
        LexItem::Call(_, _) => true,
    }
}

proof fn lemma_step_word_plain(cs: Seq<char>, i: int)
    requires
        0 <= i < cs.len(),
    ensures
        lex_step(cs, i) matches LexStep::Emit(item, _) ==> word_item_plain(item),
{
    lemma_word_end(cs, i);
    let e = word_end(cs, i);
    let w = cs.subrange(i, e);
    assert forall|k: int| 0 <= k < w.len() implies !is_whitespace_char(#[trigger] w[k]) && !is_word_delimiter(w[k]) by {
        assert(w[k] == cs[i + k]);
    }
}

proof fn lemma_lex_from_plain(cs: Seq<char>, i: int, acc: Seq<LexItem>)
    requires
        0 <= i,
        forall|k: int| 0 <= k < acc.len() ==> word_item_plain(#[trigger] acc[k]),
    ensures
        lex_from(cs, i, acc) matches ScanOutcome::Done(items) ==> forall|k: int|
            0 <= k < items.len() ==> word_item_plain(#[trigger] items[k]),
    decreases cs.len() - i,
{
    if i < cs.len() {
        lemma_lex_step_advances(cs, i);
        lemma_step_word_plain(cs, i);
        match lex_step(cs, i) {
            LexStep::Skip(j) => {
                lemma_lex_from_plain(cs, j, acc);
            },
            LexStep::Emit(item, j) => {
                let next = acc.push(item);
                assert forall|k: int| 0 <= k < next.len() implies word_item_plain(#[trigger] next[k]) by {
                    if k < acc.len() {
                        assert(next[k] == acc[k]);
                    }
                }
                lemma_lex_from_plain(cs, j, next);
            },
            _ => {},
        }
    }
}

proof fn lemma_lex_text_plain(cs: Seq<char>, start: int, acc: Seq<LexItem>)
    requires
        0 <= start,
        forall|k: int| 0 <= k < acc.len() ==> word_item_plain(#[trigger] acc[k]),
    ensures
        lex_text(cs, start, acc) matches ScanOutcome::Done(items) ==> forall|k: int|
            0 <= k < items.len() ==> word_item_plain(#[trigger] items[k]),
    decreases cs.len() - start,
{
    if start < cs.len() {
        let k = find_char_from(cs, start, '\n');
        lemma_find_char_from(cs, start, '\n');
        let line = clean_line(line_at(cs, start));
        lemma_lex_from_plain(line, 0, acc);
        if let ScanOutcome::Done(f) = lex_from(line, 0, acc) {
            if k < cs.len() {
                lemma_lex_text_plain(cs, k + 1, f);
            }
        }
    }
}

/// Identifiers and number literals are plain words: none holds whitespace
/// or a punctuation character that makes a token of its own, so `a=b` is
/// read as `a`, `=` and `b`, as `a = b` is.
pub proof fn law_words_are_plain(code: Seq<char>)
    ensures
        scan_spec(code) matches ScanOutcome::Done(items) ==> forall|k: int|
            0 <= k < items.len() ==> word_item_plain(#[trigger] items[k]),
{
    lemma_lex_text_plain(code, 0, Seq::empty());
}

/// An item that the lexer found, before the math calls are evaluated.
#[derive(Debug, Clone)]
pub enum Scanned {
    Token(Token),
    MathCall(String, String),
}

impl View for Scanned {
    type V = LexItem;

    open spec fn view(&self) -> LexItem {
        match self {
            Scanned::Token(t) => LexItem::Tok(t.token_type, t.value@),
            Scanned::MathCall(name, args) => LexItem::Call(name@, args@),
        }
    }
}

/// The items of a sequence of scanned items.
pub open spec fn items_view(s: Seq<Scanned>) -> Seq<LexItem> {
    Seq::new(s.len(), |k: int| s[k]@)
}

/// How reading a whole text ended.
#[derive(Debug, Clone)]
pub enum ScanResult {
    Items(Vec<Scanned>),
    Failed(String),
    Stuck,
}

impl ScanResult {
    pub open spec fn outcome(&self) -> ScanOutcome {
        match self {
            ScanResult::Items(v) => ScanOutcome::Done(items_view(v@)),
            ScanResult::Failed(m) => ScanOutcome::Failed(m@),
            ScanResult::Stuck => ScanOutcome::Stuck,
        }
    }
}

enum StepResult {
    Skip(usize),
    Emit(Scanned, usize),
    Fail(String),
    Stuck,
}

impl StepResult {
    spec fn step(&self) -> LexStep {
        match self {
            StepResult::Skip(j) => LexStep::Skip(*j as int),
            StepResult::Emit(item, j) => LexStep::Emit(item@, *j as int),
            StepResult::Fail(m) => LexStep::Fail(m@),
            StepResult::Stuck => LexStep::Stuck,
        }
    }
}

fn find_char(cs: &Vec<char>, from: usize, c: char) -> (r: usize)
    requires
        from <= cs.len(),
    ensures
        r == find_char_from(cs@, from as int, c),
        from <= r <= cs.len(),
{
    proof {
        lemma_find_char_from(cs@, from as int, c);
    }
    let mut k = from;
    while k < cs.len() && cs[k] != c
        invariant
            from <= k <= cs.len(),
            find_char_from(cs@, from as int, c) == find_char_from(cs@, k as int, c),
        decreases cs.len() - k,
    {
        k = k + 1;
    }
    k
}

fn is_delimiter(c: char) -> (r: bool)
    ensures
        r == is_word_delimiter(c),
{
    c == '"' || c == ':' || c == '[' || c == ']' || c == '{' || c == '}' || c == ','
        || c == '=' || c == '+' || c == '>' || c == '(' || c == ')' || c == '.' || c == '-'
}

fn find_word_end(cs: &Vec<char>, i: usize) -> (r: usize)
    requires
        i <= cs.len(),
    ensures
        r == word_end(cs@, i as int),
        i <= r <= cs.len(),
{
    proof {
        lemma_word_end(cs@, i as int);
    }
    let mut k = i;
    while k < cs.len() && !char_is_whitespace(cs[k]) && !is_delimiter(cs[k])
        invariant
            i <= k <= cs.len(),
            word_end(cs@, i as int) == word_end(cs@, k as int),
        decreases cs.len() - k,
    {
        k = k + 1;
    }
    k
}

fn single_char_kind_of(c: char) -> (r: Option<TokenType>)
    ensures
        r == single_char_kind(c),
{
    if c == ':' {
        Some(TokenType::Colon)
    } else if c == '[' {
        Some(TokenType::LeftBracket)
    } else if c == ']' {
        Some(TokenType::RightBracket)
    } else if c == '{' {
        Some(TokenType::LeftBrace)
    } else if c == '}' {
        Some(TokenType::RightBrace)
    } else if c == '>' {
        Some(TokenType::GreaterThan)
    } else if c == ',' {
        Some(TokenType::Comma)
    } else if c == '=' {
        Some(TokenType::Equals)
    } else {
        None
    }
}

fn keyword_kind_of(w: &String) -> (r: Option<TokenType>)
    ensures
        r == keyword_kind(w@),
{
    if string_is(w, "let") {
        Some(TokenType::Let)
    } else if string_is(w, "type") {
        Some(TokenType::Type)
    } else if string_is(w, "pub") {
        Some(TokenType::Pub)
    } else if string_is(w, "struct") {
        Some(TokenType::Struct)
    } else if string_is(w, "stamp") {
        Some(TokenType::Stamp)
    } else if string_is(w, "dump") {
        Some(TokenType::Dump)
    } else if string_is(w, "disguise") {
        Some(TokenType::Disguise)
    } else if string_is(w, "if") {
        Some(TokenType::If)
    } else if string_is(w, "else") {
        Some(TokenType::Else)
    } else if string_is(w, "loop") {
        Some(TokenType::Loop)
    } else if string_is(w, "while") {
        Some(TokenType::While)
    } else if string_is(w, "fn") {
        Some(TokenType::Fn)
    } else if string_is(w, "return") {
        Some(TokenType::Return)
    } else if string_is(w, "read_file") {
        Some(TokenType::ReadFile)
    } else if string_is(w, "embed") {
        Some(TokenType::Embed)
    } else if string_is(w, "call_rust") {
        Some(TokenType::CallRust)
    } else {
        None
    }
}

fn file_hook_word(w: &String) -> (r: bool)
    ensures
        r == is_file_hook(w@),
{
    let cs = chars_of(w.as_str());
    let prefix = chars_of("call.");
    let suffix = chars_of(".rs");
    if !matches_at(&cs, &prefix, 0) {
        return false;
    }
    if suffix.len() > cs.len() {
        return false;
    }
    matches_at(&cs, &suffix, cs.len() - suffix.len())
}

fn all_numeric_range(cs: &Vec<char>, lo: usize, hi: usize) -> (r: bool)
    requires
        lo <= hi <= cs.len(),
    ensures
        r == all_numeric(cs@.subrange(lo as int, hi as int)),
{
    let mut k = lo;
    while k < hi
        invariant
            lo <= k <= hi <= cs.len(),
            forall|j: int| lo <= j < k ==> is_numeric_char(cs@[j]),
        decreases hi - k,
    {
        if !char_is_numeric(cs[k]) {
            assert(!is_numeric_char(cs@.subrange(lo as int, hi as int)[k - lo]));
            return false;
        }
        k = k + 1;
    }
    assert forall|j: int| 0 <= j < hi - lo implies is_numeric_char(
        #[trigger] cs@.subrange(lo as int, hi as int)[j],
    ) by {
        assert(cs@.subrange(lo as int, hi as int)[j] == cs@[lo + j]);
    }
    true
}

fn plain(kind: TokenType, value: String) -> (r: Scanned)
    ensures
        r@ == LexItem::Tok(kind, value@),
{
    Scanned::Token(Token { token_type: kind, value })
}

fn word_step_at(cs: &Vec<char>, i: usize) -> (r: StepResult)
    requires
        i < cs.len(),
    ensures
        r.step() == word_step(cs@, i as int),
{
    let n = cs.len();
    let e = find_word_end(cs, i);
    let p = if e < n && cs[e] == 'c' && e == i {
        e + 1
    } else {
        e
    };
    let w = string_of_range(cs, i, e);
    if p < n && cs[p] == '(' {
        let q = find_char(cs, p + 1, ')');
        let args = string_of_range(cs, p + 1, q);
        let next = if q < n {
            q + 1
        } else {
            n
        };
        return StepResult::Emit(Scanned::MathCall(w, args), next);
    }
    if e == i {
        if p > i {
            return StepResult::Skip(p);
        } else {
            return StepResult::Stuck;
        }
    }
    if file_hook_word(&w) {
        return StepResult::Emit(plain(TokenType::FileHook, w), p);
    }
    match keyword_kind_of(&w) {
        Some(kind) => {
            return StepResult::Emit(plain(kind, w), p);
        },
        None => {},
    }
    if all_numeric_range(cs, i, e) {
        StepResult::Emit(plain(TokenType::NumberLiteral, w), p)
    } else {
        StepResult::Emit(plain(TokenType::Identifier, w), p)
    }
}

fn step_at(cs: &Vec<char>, i: usize) -> (r: StepResult)
    requires
        i < cs.len(),
    ensures
        r.step() == lex_step(cs@, i as int),
{
    let n = cs.len();
    let ch = cs[i];
    if char_is_whitespace(ch) {
        return StepResult::Skip(i + 1);
    }
    if ch == '"' {
        let k = find_char(cs, i + 1, '"');
        let value = string_of_range(cs, i + 1, k);
        let next = if k < n {
            k + 1
        } else {
            n
        };
        return StepResult::Emit(plain(TokenType::StringLiteral, value), next);
    }
    if ch == '.' {
        return StepResult::Emit(plain(TokenType::Dot, string_of_char('.')), i + 1);
    }
    if ch == '-' {
        return StepResult::Emit(plain(TokenType::Minus, string_of_char('-')), i + 1);
    }
    if ch == '*' {
        if i + 1 < n && cs[i + 1] == 'c' {
            let mut v = string_of_char('*');
            push_char(&mut v, 'c');
            assert(v@ =~= seq!['*', 'c']);
            return StepResult::Emit(plain(TokenType::ChangeableModifier, v), i + 2);
        } else {
            return StepResult::Fail("Expected 'c' after '*' for changeable modifier".to_string());
        }
    }
    match single_char_kind_of(ch) {
        Some(kind) => {
            return StepResult::Emit(plain(kind, string_of_char(ch)), i + 1);
        },
        None => {},
    }
    if ch == '+' {
        if i + 1 < n && cs[i + 1] == '=' {
            let mut v = string_of_char('+');
            push_char(&mut v, '=');
            assert(v@ =~= seq!['+', '=']);
            return StepResult::Emit(plain(TokenType::PlusEquals, v), i + 2);
        } else {
            return StepResult::Fail("Unsupported operator '+' without '='".to_string());
        }
    }
    word_step_at(cs, i)
}

enum LineEnd {
    Finished,
    Failed(String),
    Stuck,
}

fn lex_line(cs: &Vec<char>, acc: &mut Vec<Scanned>) -> (r: LineEnd)
    ensures
        match lex_from(cs@, 0, items_view(old(acc)@)) {
            ScanOutcome::Done(found) => r is Finished && items_view(final(acc)@) == found,
            ScanOutcome::Failed(m) => r matches LineEnd::Failed(e) && e@ == m,
            ScanOutcome::Stuck => r is Stuck,
        },
{
    let ghost start = items_view(acc@);
    let mut i: usize = 0;
    while i < cs.len()
        invariant
            i <= cs.len(),
            start == items_view(old(acc)@),
            lex_from(cs@, 0, start) == lex_from(cs@, i as int, items_view(acc@)),
        decreases cs.len() - i,
    {
        proof {
            lemma_lex_step_advances(cs@, i as int);
        }
        match step_at(cs, i) {
            StepResult::Skip(j) => {
                i = j;
            },
            StepResult::Emit(item, j) => {
                let ghost before = acc@;
                acc.push(item);
                assert(items_view(acc@) =~= items_view(before).push(item@));
                i = j;
            },
            StepResult::Fail(m) => {
                assert(lex_from(cs@, i as int, items_view(acc@)) == ScanOutcome::Failed(m@));
                return LineEnd::Failed(m);
            },
            StepResult::Stuck => {
                assert(lex_from(cs@, i as int, items_view(acc@)) == ScanOutcome::Stuck);
                return LineEnd::Stuck;
            },
        }
    }
    LineEnd::Finished
}

/// Reads the whole of `code`, line by line, without evaluating the math calls.
pub fn scan(code: &str) -> (r: ScanResult)
    ensures
        r.outcome() == scan_spec(code@),
{
    let cs = chars_of(code);
    let comment = chars_of("//");
    let n = cs.len();
    let mut acc: Vec<Scanned> = Vec::new();
    let mut start: usize = 0;
    assert(items_view(acc@) =~= Seq::<LexItem>::empty());
    while start < n
        invariant
            n == cs.len(),
            cs@ == code@,
            comment@ == "//"@,
            start <= n,
            scan_spec(code@) == lex_text(cs@, start as int, items_view(acc@)),
        decreases n - start,
    {
        let k = find_char(&cs, start, '\n');
        let mut line: Vec<char> = Vec::new();
        let mut j = start;
        while j < k
            invariant
                start <= j <= k <= n,
                n == cs.len(),
                line@ == cs@.subrange(start as int, j as int),
            decreases k - j,
        {
            line.push(cs[j]);
            j = j + 1;
            assert(line@ =~= cs@.subrange(start as int, j as int));
        }
        if k < n && line.len() > 0 && line[line.len() - 1] == '\r' {
            line.pop();
            assert(line@ =~= cs@.subrange(start as int, k as int).drop_last());
        }
        assert(line@ == line_at(cs@, start as int));
        match find_first(&line, &comment) {
            Some(c) => {
                line.truncate(c);
                assert(line@ =~= line_at(cs@, start as int).subrange(0, c as int));
            },
            None => {},
        }
        assert(line@ == clean_line(line_at(cs@, start as int)));
        match lex_line(&line, &mut acc) {
            LineEnd::Finished => {},
            LineEnd::Failed(m) => {
                return ScanResult::Failed(m);
            },
            LineEnd::Stuck => {
                return ScanResult::Stuck;
            },
        }
        if k < n {
            start = k + 1;
        } else {
            start = n;
        }
    }
    ScanResult::Items(acc)
}

/// Whether reading `code` comes to an end (it does not at a stray `)`).
pub fn lex_halts(code: &str) -> (r: bool)
    ensures
        r == !(scan_spec(code@) is Stuck),
{
    match scan(code) {
        ScanResult::Stuck => false,
        _ => true,
    }
}

/// Whether the token `t` is what `item` stands for, the value of a math call
/// being what `evaluate` gave for its name and its arguments.
pub open spec fn token_for<F: Fn(String, String) -> String>(item: LexItem, t: Token, evaluate: F) -> bool {
    match item {
        LexItem::Tok(kind, value) => t.token_type == kind && t.value@ == value,
        LexItem::Call(name, args) => t.token_type == TokenType::NumberLiteral && exists|
            n: String,
            a: String,
        | #![trigger call_ensures(evaluate, (n, a), t.value)]
            n@ == name && a@ == args && call_ensures(evaluate, (n, a), t.value),
    }
}

/// Splits `code` into tokens.  A call `name(args)` of a math function becomes
/// a number literal whose text is `evaluate(name, args)`.  The error is that
/// of the first `*` not followed by `c` or `+` not followed by `=`.
pub fn lex<F: Fn(String, String) -> String>(code: &str, evaluate: F) -> (r: Result<Vec<Token>, String>)
    requires
        !(scan_spec(code@) is Stuck),
        forall|n: String, a: String| call_requires(evaluate, (n, a)),
    ensures
        match scan_spec(code@) {
            ScanOutcome::Done(items) => r matches Ok(tokens) && tokens.len() == items.len()
                && forall|k: int| 0 <= k < items.len() ==> token_for(items[k], #[trigger] tokens@[k], evaluate),
            ScanOutcome::Failed(m) => r matches Err(e) && e@ == m,
            ScanOutcome::Stuck => false,
        },
{
    match scan(code) {
        ScanResult::Items(items) => {
            let mut tokens: Vec<Token> = Vec::new();
            let mut k: usize = 0;
            while k < items.len()
                invariant
                    k <= items.len(),
                    tokens.len() == k,
                    forall|n: String, a: String| call_requires(evaluate, (n, a)),
                    forall|j: int| 0 <= j < k ==> token_for(items@[j]@, #[trigger] tokens@[j], evaluate),
                decreases items.len() - k,
            {
                match &items[k] {
                    Scanned::Token(t) => {
                        tokens.push(t.duplicate());
                    },
                    Scanned::MathCall(name, args) => {
                        let n = name.clone();
                        let a = args.clone();
                        let value = evaluate(n, a);
                        proof {
                            assert(n@ == name@ && a@ == args@ && call_ensures(evaluate, (n, a), value));
                        }
                        tokens.push(Token { token_type: TokenType::NumberLiteral, value });
                        proof {
                            assert(call_ensures(evaluate, (n, a), tokens@[k as int].value));
                        }
                    },
                }
                proof {
                    assert(token_for(items@[k as int]@, tokens@[k as int], evaluate));
                }
                k = k + 1;
            }
            Ok(tokens)
        },
        ScanResult::Failed(m) => Err(m),
        ScanResult::Stuck => {
            proof {
                assert(false);
            }
            Err(String::new())
        },
    }
}

/// `lex` on `code` when reading it comes to an end, and `None` when it would
/// never end (at a stray `)`).
pub fn lex_checked<F: Fn(String, String) -> String>(code: &str, evaluate: F) -> (r: Option<
    Result<Vec<Token>, String>,
>)
    requires
        forall|n: String, a: String| call_requires(evaluate, (n, a)),
    ensures
        match scan_spec(code@) {
            ScanOutcome::Done(items) => r matches Some(Ok(tokens)) && tokens.len() == items.len()
                && forall|k: int| 0 <= k < items.len() ==> token_for(items[k], #[trigger] tokens@[k], evaluate),
            ScanOutcome::Failed(m) => r matches Some(Err(e)) && e@ == m,
            ScanOutcome::Stuck => r is None,
        },
{
    if lex_halts(code) {
        Some(lex(code, evaluate))
    } else {
        None
    }
}

/// Whether `code` holds `w` anywhere.
pub open spec fn mentions(code: Seq<char>, w: Seq<char>) -> bool {
    exists|i: int| occurs_at(code, w, i)
}

/// Whether `code` looks like plain Rust rather than Ahola: it mentions
/// `fn main`, `println!`, `let mut` or `use std::`.
pub fn detects_pure_rust(code: &str) -> (r: bool)
    ensures
        r == (mentions(code@, "fn main"@) || mentions(code@, "println!"@) || mentions(
            code@,
            "let mut"@,
        ) || mentions(code@, "use std::"@)),
{
    let cs = chars_of(code);
    contains_chars(&cs, &chars_of("fn main")) || contains_chars(&cs, &chars_of("println!"))
        || contains_chars(&cs, &chars_of("let mut")) || contains_chars(&cs, &chars_of("use std::"))
}

} // verus!
