//! The big integers of Ahola, held as the decimal text that num-bigint reads.

use vstd::prelude::*;
use std::str::FromStr;
use crate::text::string_of_char;

verus! {

broadcast use vstd::string::group_string_axioms;

/// A decimal digit or the separator `_`.
pub open spec fn is_digit_or_separator(c: char) -> bool {
    ('0' <= c && c <= '9') || c == '_'
}

/// `s` without the one leading `+` that num-bigint drops (none when a second `+` follows it).
pub open spec fn unsigned_body(s: Seq<char>) -> Seq<char> {
    if s.len() > 0 && s[0] == '+' && !(s.len() > 1 && s[1] == '+') {
        s.drop_first()
    } else {
        s
    }
}

/// `s` starts with the `-` that num-bigint takes as a sign (not when a `+` follows it).
pub open spec fn has_minus(s: Seq<char>) -> bool {
    s.len() > 0 && s[0] == '-' && !(s.len() > 1 && s[1] == '+')
}

/// The text that num-bigint reads as an unsigned decimal integer: one
/// leading `+` may be dropped (unless a second `+` follows it); what is left
/// is not empty, does not start with `_`, and holds only digits and `_`.
pub open spec fn unsigned_text_ok(s: Seq<char>) -> bool {
    let t = unsigned_body(s);
    t.len() > 0 && t[0] != '_' && forall|k: int| 0 <= k < t.len() ==> is_digit_or_separator(#[trigger] t[k])
}

/// The text that num-bigint reads as a signed decimal integer: one leading
/// `-` may be dropped (unless a `+` follows it); what is left is read as an
/// unsigned integer.
pub open spec fn signed_text_ok(s: Seq<char>) -> bool {
    if has_minus(s) {
        unsigned_text_ok(s.drop_first())
    } else {
        unsigned_text_ok(s)
    }
}

/// The value of a decimal digit.
pub open spec fn digit_value(c: char) -> int {
    (c as int) - ('0' as int)
}

/// The value of a run of decimal digits, the separators `_` being skipped.
pub open spec fn digits_value(t: Seq<char>) -> int
    decreases t.len(),
{
    if t.len() == 0 {
        0
    } else if t.last() == '_' {
        digits_value(t.drop_last())
    } else {
        digits_value(t.drop_last()) * 10 + digit_value(t.last())
    }
}

/// The value of an unsigned decimal text.
pub open spec fn unsigned_value(s: Seq<char>) -> int {
    digits_value(unsigned_body(s))
}

/// The value of a signed decimal text.
pub open spec fn signed_value(s: Seq<char>) -> int {
    if has_minus(s) {
        -unsigned_value(s.drop_first())
    } else {
        unsigned_value(s)
    }
}

/// The digit that stands for `d` (below ten).
pub open spec fn digit_char(d: nat) -> char {
    ((d + ('0' as nat)) as char)
}

/// The decimal digits of `n`, without leading zeros.
pub open spec fn natural_text(n: nat) -> Seq<char>
    decreases n,
{
    if n < 10 {
        seq![digit_char(n)]
    } else {
        natural_text(n / 10) + seq![digit_char(n % 10)]
    }
}

/// How num-bigint writes the integer `v`: a `-` when it is negative, then
/// its decimal digits without leading zeros.
pub open spec fn decimal_text(v: int) -> Seq<char> {
    if v < 0 {
        seq!['-'] + natural_text((-v) as nat)
    } else {
        natural_text(v as nat)
    }
}

/// `BigInt::from_str` of num-bigint: it succeeds exactly on the texts that
/// `signed_text_ok` describes (as `BigInt::from_str_radix` and
/// `BigUint::from_str_radix` with radix 10 check them).
#[verifier::external_body]
pub(crate) fn bigint_accepts(s: &str) -> (r: bool)
    ensures
        r == signed_text_ok(s@),
{
    num_bigint::BigInt::from_str(s).is_ok()
}

/// `BigUint::from_str` of num-bigint: it succeeds exactly on the texts that
/// `unsigned_text_ok` describes.
#[verifier::external_body]
pub(crate) fn biguint_accepts(s: &str) -> (r: bool)
    ensures
        r == unsigned_text_ok(s@),
{
    num_bigint::BigUint::from_str(s).is_ok()
}

/// The signed number that the text `t` stands for: `t` itself when
/// num-bigint reads it, else `0`.
pub open spec fn signed_or_zero(t: Seq<char>) -> Seq<char> {
    if signed_text_ok(t) {
        t
    } else {
        seq!['0']
    }
}

/// The unsigned number that the text `t` stands for: `t` itself when
/// num-bigint reads it, else `0`.
pub open spec fn unsigned_or_zero(t: Seq<char>) -> Seq<char> {
    if unsigned_text_ok(t) {
        t
    } else {
        seq!['0']
    }
}

/// Reads `t` as a signed big integer, `0` when it is not one.
pub fn signed_number(t: &String) -> (r: String)
    ensures
        r@ == signed_or_zero(t@),
{
    if bigint_accepts(t.as_str()) {
        t.clone()
    } else {
        string_of_char('0')
    }
}

/// Reads `t` as an unsigned big integer, `0` when it is not one.
pub fn unsigned_number(t: &String) -> (r: String)
    ensures
        r@ == unsigned_or_zero(t@),
{
    if biguint_accepts(t.as_str()) {
        t.clone()
    } else {
        string_of_char('0')
    }
}

/// `+=` on two `BigInt`s of num-bigint, each read from its decimal text
/// (`BigInt::from_str`) and the sum written back (`to_string`): the text of
/// the sum of the two values.
#[verifier::external_body]
pub(crate) fn add_signed(a: &String, b: &String) -> (r: String)
    requires
        signed_text_ok(a@),
        signed_text_ok(b@),
    ensures
        r@ == decimal_text(signed_value(a@) + signed_value(b@)),
{
    let mut x = num_bigint::BigInt::from_str(a).unwrap();
    x += num_bigint::BigInt::from_str(b).unwrap();
    x.to_string()
}

/// `+=` on two `BigUint`s of num-bigint, each read from its decimal text
/// (`BigUint::from_str`) and the sum written back (`to_string`): the text of
/// the sum of the two values.
#[verifier::external_body]
pub(crate) fn add_unsigned(a: &String, b: &String) -> (r: String)
    requires
        unsigned_text_ok(a@),
        unsigned_text_ok(b@),
    ensures
        r@ == decimal_text(unsigned_value(a@) + unsigned_value(b@)),
{
    let mut x = num_bigint::BigUint::from_str(a).unwrap();
    x += num_bigint::BigUint::from_str(b).unwrap();
    x.to_string()
}

/// `to_string` of the `BigInt` that `BigInt::from_str` reads from `t`: the
/// text of its value.
#[verifier::external_body]
pub(crate) fn show_signed(t: &String) -> (r: String)
    requires
        signed_text_ok(t@),
    ensures
        r@ == decimal_text(signed_value(t@)),
{
    num_bigint::BigInt::from_str(t).unwrap().to_string()
}

/// `to_string` of the `BigUint` that `BigUint::from_str` reads from `t`:
/// the text of its value.
#[verifier::external_body]
pub(crate) fn show_unsigned(t: &String) -> (r: String)
    requires
        unsigned_text_ok(t@),
    ensures
        r@ == decimal_text(unsigned_value(t@)),
{
    num_bigint::BigUint::from_str(t).unwrap().to_string()
}

/// The bytes of `n` in big-endian order, without leading zeros (one `0` for zero).
pub open spec fn be_bytes(n: nat) -> Seq<u8>
    decreases n,
{
    if n < 256 {
        seq![n as u8]
    } else {
        be_bytes(n / 256).push((n % 256) as u8)
    }
}

/// `BigUint::from_str` then `to_bytes_be` of num-bigint: the big-endian
/// bytes of the value of `t`, without leading zeros, and `[0]` for zero
/// (`to_bytes_le` gives `vec![0]` for zero and otherwise the bytes of the
/// normalized digits, the last of which is not zero).
#[verifier::external_body]
pub(crate) fn unsigned_bytes_be(t: &String) -> (r: Vec<u8>)
    requires
        unsigned_text_ok(t@),
    ensures
        r@ == be_bytes(unsigned_value(t@) as nat),
{
    num_bigint::BigUint::from_str(t).unwrap().to_bytes_be()
}

/// `<=` between the `BigUint`s that `BigUint::from_str` reads from `a` and
/// `b`: whether the value of `a` is at most that of `b`.
#[verifier::external_body]
pub(crate) fn unsigned_at_most(a: &String, b: &String) -> (r: bool)
    requires
        unsigned_text_ok(a@),
        unsigned_text_ok(b@),
    ensures
        r == (unsigned_value(a@) <= unsigned_value(b@)),
{
    num_bigint::BigUint::from_str(a).unwrap() <= num_bigint::BigUint::from_str(b).unwrap()
}

/// The digits of a natural number are digits.
pub proof fn lemma_natural_text(n: nat)
    ensures
        natural_text(n).len() > 0,
        natural_text(n)[0] != '_',
        natural_text(n)[0] != '+',
        natural_text(n)[0] != '-',
        forall|k: int| 0 <= k < natural_text(n).len() ==> is_digit_or_separator(#[trigger] natural_text(n)[k]),
    decreases n,
{
    if n >= 10 {
        lemma_natural_text(n / 10);
        let t = natural_text(n);
        assert forall|k: int| 0 <= k < t.len() implies is_digit_or_separator(#[trigger] t[k]) by {
            if k < natural_text(n / 10).len() {
                assert(t[k] == natural_text(n / 10)[k]);
            }
        }
    }
}

/// What num-bigint writes, it reads back: a sum's text is a signed number
/// again (and an unsigned one when the value is not negative).
pub proof fn lemma_decimal_text_ok(v: int)
    ensures
        signed_text_ok(decimal_text(v)),
        v >= 0 ==> unsigned_text_ok(decimal_text(v)),
{
    if v < 0 {
        let n = (-v) as nat;
        lemma_natural_text(n);
        let t = decimal_text(v);
        assert(t.drop_first() =~= natural_text(n));
        assert(unsigned_body(natural_text(n)) == natural_text(n));
    } else {
        lemma_natural_text(v as nat);
        assert(unsigned_body(natural_text(v as nat)) == natural_text(v as nat));
    }
}

/// A run of digits and separators has a value of at least zero.
pub proof fn lemma_digits_value_nonneg(t: Seq<char>)
    requires
        forall|k: int| 0 <= k < t.len() ==> is_digit_or_separator(#[trigger] t[k]),
    ensures
        digits_value(t) >= 0,
    decreases t.len(),
{
    if t.len() > 0 {
        let rest = t.drop_last();
        assert forall|k: int| 0 <= k < rest.len() implies is_digit_or_separator(#[trigger] rest[k]) by {
            assert(rest[k] == t[k]);
        }
        lemma_digits_value_nonneg(rest);
        assert(is_digit_or_separator(t[t.len() - 1]));
    }
}

/// An unsigned text has a value of at least zero.
pub proof fn lemma_unsigned_value_nonneg(s: Seq<char>)
    requires
        unsigned_text_ok(s),
    ensures
        unsigned_value(s) >= 0,
{
    lemma_digits_value_nonneg(unsigned_body(s));
}

/// A number read with `0` in place of what num-bigint does not read is a
/// text that num-bigint reads.
pub proof fn lemma_or_zero_ok(t: Seq<char>)
    ensures
        signed_text_ok(signed_or_zero(t)),
        unsigned_text_ok(unsigned_or_zero(t)),
{
    let z = seq!['0'];
    assert(unsigned_body(z) == z);
    assert(!has_minus(z));
}

/// What num-bigint writes for a natural number is read back as that number.
pub proof fn lemma_natural_text_value(n: nat)
    ensures
        digits_value(natural_text(n)) == n,
    decreases n,
{
    let t = natural_text(n);
    let d = (n % 10) as nat;
    assert(digit_char(d) as int == d + ('0' as int));
    assert(t.last() == digit_char(d));
    assert(t.last() != '_');
    assert(digit_value(t.last()) == d);
    assert(t.len() > 0);
    assert(digits_value(t) == digits_value(t.drop_last()) * 10 + d);
    if n < 10 {
        assert(t.drop_last() =~= Seq::<char>::empty());
    } else {
        lemma_natural_text_value(n / 10);
        assert(t.drop_last() =~= natural_text(n / 10));
    }
}

/// The text of a value that is not negative is read back as that value.
pub proof fn lemma_decimal_text_value(v: int)
    requires
        v >= 0,
    ensures
        unsigned_text_ok(decimal_text(v)),
        unsigned_value(decimal_text(v)) == v,
{
    lemma_decimal_text_ok(v);
    lemma_natural_text(v as nat);
    lemma_natural_text_value(v as nat);
    assert(unsigned_body(natural_text(v as nat)) == natural_text(v as nat));
}

} // verus!
