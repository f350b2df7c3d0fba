use ahola::numbers::{signed_number, unsigned_number};

fn s(t: &str) -> String {
    t.to_string()
}

#[test]
fn signed_numbers_are_kept() {
    assert_eq!(signed_number(&s("-5")), "-5");
    assert_eq!(signed_number(&s("+5")), "+5");
    assert_eq!(signed_number(&s("12345678901234567890123")), "12345678901234567890123");
    assert_eq!(signed_number(&s("1_000")), "1_000");
}

#[test]
fn text_that_is_not_a_signed_number_becomes_zero() {
    assert_eq!(signed_number(&s("abc")), "0");
    assert_eq!(signed_number(&s("")), "0");
    assert_eq!(signed_number(&s("-")), "0");
    assert_eq!(signed_number(&s("3.5")), "0");
    assert_eq!(signed_number(&s("-+5")), "0");
    assert_eq!(signed_number(&s("_1")), "0");
    assert_eq!(signed_number(&s("\u{663}")), "0");
}

#[test]
fn unsigned_numbers() {
    assert_eq!(unsigned_number(&s("42")), "42");
    assert_eq!(unsigned_number(&s("+42")), "+42");
    assert_eq!(unsigned_number(&s("-5")), "0");
    assert_eq!(unsigned_number(&s("++5")), "0");
    assert_eq!(unsigned_number(&s("x")), "0");
}
