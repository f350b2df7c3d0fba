//! Character-level helpers on which the lexer and the compiler are built.

use vstd::prelude::*;

verus! {

broadcast use vstd::string::group_string_axioms;

/// Whether `c` has the Unicode `White_Space` property (`char::is_whitespace`):
/// U+0009 to U+000D, U+0020, U+0085, U+00A0, U+1680, U+2000 to U+200A,
/// U+2028, U+2029, U+202F, U+205F and U+3000.
pub open spec fn is_whitespace_char(c: char) -> bool {
    ('\u{9}' <= c && c <= '\u{d}') || c == ' ' || c == '\u{85}' || c == '\u{a0}' || c == '\u{1680}'
        || ('\u{2000}' <= c && c <= '\u{200a}') || c == '\u{2028}' || c == '\u{2029}' || c == '\u{202f}'
        || c == '\u{205f}' || c == '\u{3000}'
}

/// Whether `c`, beyond ASCII, is in one of the Unicode numeric categories
/// Nd, Nl and No (what `char::is_numeric` answers there).
pub uninterp spec fn numeric_beyond_ascii(c: char) -> bool;

/// Whether `c`, beyond ASCII, has the Unicode `Uppercase` property (what
/// `char::is_uppercase` answers there).
pub uninterp spec fn uppercase_beyond_ascii(c: char) -> bool;

/// Whether `c` is numeric (`char::is_numeric`): among ASCII characters the
/// digits `0` to `9` are, and no other.
pub open spec fn is_numeric_char(c: char) -> bool {
    if '\u{7f}' >= c {
        '0' <= c && c <= '9'
    } else {
        numeric_beyond_ascii(c)
    }
}

/// Whether `c` is uppercase (`char::is_uppercase`): among ASCII characters
/// the letters `A` to `Z` are, and no other.
pub open spec fn is_uppercase_char(c: char) -> bool {
    if '\u{7f}' >= c {
        'A' <= c && c <= 'Z'
    } else {
        uppercase_beyond_ascii(c)
    }
}

/// `char::is_whitespace` of std: whether `c` has the Unicode `White_Space`
/// property, whose characters `is_whitespace_char` lists.
#[verifier::external_body]
pub(crate) fn char_is_whitespace(c: char) -> (r: bool)
    ensures
        r == is_whitespace_char(c),
{
    c.is_whitespace()
}

/// `char::is_numeric` of std: on ASCII, true exactly for `0` to `9`; beyond
/// ASCII its answer (the Unicode categories Nd, Nl and No, not written out)
/// is named `numeric_beyond_ascii`.
#[verifier::external_body]
pub(crate) fn char_is_numeric(c: char) -> (r: bool)
    ensures
        r == (if '\u{7f}' >= c {
            '0' <= c && c <= '9'
        } else {
            numeric_beyond_ascii(c)
        }),
{
    c.is_numeric()
}

/// `char::is_uppercase` of std: on ASCII, true exactly for `A` to `Z`;
/// beyond ASCII its answer (the Unicode `Uppercase` property, not written
/// out) is named `uppercase_beyond_ascii`.
#[verifier::external_body]
pub(crate) fn char_is_uppercase(c: char) -> (r: bool)
    ensures
        r == (if '\u{7f}' >= c {
            'A' <= c && c <= 'Z'
        } else {
            uppercase_beyond_ascii(c)
        }),
{
    c.is_uppercase()
}

/// `String::push` of std: appends `c` at the end of `s`.
#[verifier::external_body]
pub(crate) fn push_char(s: &mut String, c: char)
    ensures
        final(s)@ == old(s)@.push(c),
{
    s.push(c)
}

/// The characters of `s`, in order.
pub fn chars_of(s: &str) -> (r: Vec<char>)
    ensures
        r@ == s@,
{
    let mut r: Vec<char> = Vec::new();
    for c in it: s.chars()
        invariant
            r@ == it.seq().take(it.index() as int),
    {
        r.push(c);
    }
    r
}

/// The string made of the characters `cs[lo..hi]`.
pub fn string_of_range(cs: &Vec<char>, lo: usize, hi: usize) -> (r: String)
    requires
        lo <= hi <= cs.len(),
    ensures
        r@ == cs@.subrange(lo as int, hi as int),
{
    let mut r = String::new();
    let mut k = lo;
    while k < hi
        invariant
            lo <= k <= hi <= cs.len(),
            r@ == cs@.subrange(lo as int, k as int),
        decreases hi - k,
    {
        push_char(&mut r, cs[k]);
        k = k + 1;
        assert(r@ =~= cs@.subrange(lo as int, k as int));
    }
    r
}

/// The string made of all the characters of `cs`.
pub fn string_of(cs: &Vec<char>) -> (r: String)
    ensures
        r@ == cs@,
{
    let r = string_of_range(cs, 0, cs.len());
    assert(cs@.subrange(0, cs@.len() as int) =~= cs@);
    r
}

/// The one-character string `c`.
pub fn string_of_char(c: char) -> (r: String)
    ensures
        r@ == seq![c],
{
    let mut r = String::new();
    push_char(&mut r, c);
    assert(r@ =~= seq![c]);
    r
}

/// Whether `s` reads exactly `w`.
pub fn string_is(s: &String, w: &str) -> (r: bool)
    ensures
        r == (s@ == w@),
{
    *s == w.to_string()
}

/// `needle` occurs in `hay` at position `i`.
pub open spec fn occurs_at(hay: Seq<char>, needle: Seq<char>, i: int) -> bool {
    0 <= i && i + needle.len() <= hay.len() && hay.subrange(i, i + needle.len()) == needle
}

/// Whether `needle` occurs at position `i` of `hay`.
pub fn matches_at(hay: &Vec<char>, needle: &Vec<char>, i: usize) -> (r: bool)
    requires
        i <= hay.len(),
    ensures
        r == occurs_at(hay@, needle@, i as int),
{
    if needle.len() > hay.len() - i {
        return false;
    }
    let mut k: usize = 0;
    while k < needle.len()
        invariant
            i + needle.len() <= hay.len(),
            k <= needle.len(),
            forall|j: int| 0 <= j < k ==> hay@[i + j] == needle@[j],
        decreases needle.len() - k,
    {
        if hay[i + k] != needle[k] {
            assert(hay@.subrange(i as int, i + needle.len())[k as int] != needle@[k as int]);
            return false;
        }
        k = k + 1;
    }
    assert(hay@.subrange(i as int, i + needle.len()) =~= needle@);
    true
}

/// The first position, at or after `i`, at which `needle` occurs in `hay`.
pub open spec fn first_occurrence_from(hay: Seq<char>, needle: Seq<char>, i: int) -> Option<int>
    decreases hay.len() + 1 - i,
{
    if i < 0 || i > hay.len() {
        None
    } else if occurs_at(hay, needle, i) {
        Some(i)
    } else {
        first_occurrence_from(hay, needle, i + 1)
    }
}

/// The first position at which `needle` occurs in `hay`, if any.
pub open spec fn first_occurrence(hay: Seq<char>, needle: Seq<char>) -> Option<int> {
    first_occurrence_from(hay, needle, 0)
}

/// `first_occurrence_from` finds the least occurrence at or after `i`.
pub proof fn lemma_first_occurrence_from(hay: Seq<char>, needle: Seq<char>, i: int)
    requires
        0 <= i,
    ensures
        first_occurrence_from(hay, needle, i) matches Some(k) ==> i <= k && occurs_at(hay, needle, k)
            && forall|j: int| i <= j < k ==> !occurs_at(hay, needle, j),
        first_occurrence_from(hay, needle, i) is None ==> forall|j: int| i <= j ==> !occurs_at(hay, needle, j),
    decreases hay.len() + 1 - i,
{
    if i <= hay.len() && !occurs_at(hay, needle, i) {
        lemma_first_occurrence_from(hay, needle, i + 1);
        assert forall|j: int| i <= j && (first_occurrence_from(hay, needle, i) is None
            || j < first_occurrence_from(hay, needle, i)->0) implies !occurs_at(hay, needle, j) by {
            if j > i {
            }
        }
    }
}

/// `first_occurrence` is the least position at which `needle` occurs.
pub proof fn lemma_first_occurrence(hay: Seq<char>, needle: Seq<char>)
    ensures
        first_occurrence(hay, needle) matches Some(k) ==> occurs_at(hay, needle, k)
            && forall|j: int| 0 <= j < k ==> !occurs_at(hay, needle, j),
        first_occurrence(hay, needle) is None <==> forall|j: int| !occurs_at(hay, needle, j),
{
    lemma_first_occurrence_from(hay, needle, 0);
    if first_occurrence(hay, needle) is None {
        assert forall|j: int| !occurs_at(hay, needle, j) by {
            if j >= 0 {
            }
        }
    }
}

/// The first position at which `needle` occurs in `hay` (`str::find` of std).
pub fn find_first(hay: &Vec<char>, needle: &Vec<char>) -> (r: Option<usize>)
    ensures
        r matches Some(k) ==> first_occurrence(hay@, needle@) == Some(k as int),
        r is None ==> first_occurrence(hay@, needle@) is None,
        r matches Some(k) ==> k <= hay.len(),
{
    let mut i: usize = 0;
    while i <= hay.len()
        invariant
            i <= hay.len() + 1,
            first_occurrence(hay@, needle@) == first_occurrence_from(hay@, needle@, i as int),
        decreases hay.len() + 1 - i,
    {
        if matches_at(hay, needle, i) {
            return Some(i);
        }
        if i == hay.len() {
            assert(first_occurrence_from(hay@, needle@, i + 1) is None);
            return None;
        }
        i = i + 1;
    }
    None
}

/// Whether `needle` occurs anywhere in `hay` (`str::contains` of std).
pub fn contains_chars(hay: &Vec<char>, needle: &Vec<char>) -> (r: bool)
    ensures
        r == exists|i: int| occurs_at(hay@, needle@, i),
{
    proof {
        lemma_first_occurrence(hay@, needle@);
    }
    match find_first(hay, needle) {
        Some(i) => true,
        None => false,
    }
}

} // verus!
