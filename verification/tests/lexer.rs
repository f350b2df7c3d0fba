use ahola::lexer::{scan, ScanResult, Scanned};
use ahola::{detects_pure_rust, lex, lex_halts, Token, TokenType};

fn echo_call(name: String, args: String) -> String {
    format!("{}|{}", name, args)
}

fn kinds(tokens: &[Token]) -> Vec<TokenType> {
    tokens.iter().map(|t| t.token_type.clone()).collect()
}

fn values(tokens: &[Token]) -> Vec<String> {
    tokens.iter().map(|t| t.value.clone()).collect()
}

#[test]
fn lexes_a_declaration() {
    let tokens = lex("let x = 5", echo_call).unwrap();
    assert_eq!(
        kinds(&tokens),
        vec![TokenType::Let, TokenType::Identifier, TokenType::Equals, TokenType::NumberLiteral]
    );
    assert_eq!(values(&tokens), vec!["let", "x", "=", "5"]);
}

#[test]
fn lexes_every_keyword() {
    let tokens = lex(
        "let type pub struct stamp dump disguise if else loop while fn return read_file embed call_rust",
        echo_call,
    )
    .unwrap();
    assert_eq!(
        kinds(&tokens),
        vec![
            TokenType::Let,
            TokenType::Type,
            TokenType::Pub,
            TokenType::Struct,
            TokenType::Stamp,
            TokenType::Dump,
            TokenType::Disguise,
            TokenType::If,
            TokenType::Else,
            TokenType::Loop,
            TokenType::While,
            TokenType::Fn,
            TokenType::Return,
            TokenType::ReadFile,
            TokenType::Embed,
            TokenType::CallRust,
        ]
    );
}

#[test]
fn lexes_punctuation() {
    let tokens = lex(": [ ] { } > , = . - *c +=", echo_call).unwrap();
    assert_eq!(
        kinds(&tokens),
        vec![
            TokenType::Colon,
            TokenType::LeftBracket,
            TokenType::RightBracket,
            TokenType::LeftBrace,
            TokenType::RightBrace,
            TokenType::GreaterThan,
            TokenType::Comma,
            TokenType::Equals,
            TokenType::Dot,
            TokenType::Minus,
            TokenType::ChangeableModifier,
            TokenType::PlusEquals,
        ]
    );
    assert_eq!(values(&tokens), vec![":", "[", "]", "{", "}", ">", ",", "=", ".", "-", "*c", "+="]);
}

#[test]
fn lexes_string_literals() {
    let tokens = lex("stamp \"hello \\(x)\"", echo_call).unwrap();
    assert_eq!(kinds(&tokens), vec![TokenType::Stamp, TokenType::StringLiteral]);
    assert_eq!(tokens[1].value, "hello \\(x)");
}

#[test]
fn unterminated_string_runs_to_end_of_line() {
    let tokens = lex("stamp \"abc\nx", echo_call).unwrap();
    assert_eq!(values(&tokens), vec!["stamp", "abc", "x"]);
}

#[test]
fn drops_comments() {
    let tokens = lex("x = 1 // y = 2\n// whole line\nz", echo_call).unwrap();
    assert_eq!(values(&tokens), vec!["x", "=", "1", "z"]);
}

#[test]
fn comment_marker_inside_a_string_still_cuts_the_line() {
    let tokens = lex("stamp \"a//b\"", echo_call).unwrap();
    assert_eq!(values(&tokens), vec!["stamp", "a"]);
}

#[test]
fn handles_windows_line_endings() {
    let tokens = lex("a\r\nb\r\n", echo_call).unwrap();
    assert_eq!(values(&tokens), vec!["a", "b"]);
    assert_eq!(kinds(&tokens), vec![TokenType::Identifier, TokenType::Identifier]);
}

#[test]
fn carriage_return_stays_in_an_open_string_of_the_last_line() {
    let tokens = lex("stamp \"a\r", echo_call).unwrap();
    assert_eq!(tokens[1].value, "a\r");
}

#[test]
fn star_without_c_is_an_error() {
    assert_eq!(
        lex("x * = 1", echo_call).unwrap_err(),
        "Expected 'c' after '*' for changeable modifier"
    );
}

#[test]
fn plus_without_equals_is_an_error() {
    assert_eq!(lex("x + 1", echo_call).unwrap_err(), "Unsupported operator '+' without '='");
}

#[test]
fn first_error_wins() {
    assert_eq!(lex("a + b\nc * d", echo_call).unwrap_err(), "Unsupported operator '+' without '='");
}

#[test]
fn math_calls_become_number_literals() {
    let tokens = lex("x = max(1, 5)", echo_call).unwrap();
    assert_eq!(kinds(&tokens), vec![TokenType::Identifier, TokenType::Equals, TokenType::NumberLiteral]);
    assert_eq!(tokens[2].value, "max|1, 5");
}

#[test]
fn unclosed_math_call_takes_the_rest_of_the_line() {
    let tokens = lex("min(3, 4\nq", echo_call).unwrap();
    assert_eq!(values(&tokens), vec!["min|3, 4", "q"]);
}

#[test]
fn scan_reports_math_calls() {
    match scan("abs(-2) y") {
        ScanResult::Items(items) => {
            assert_eq!(items.len(), 2);
            match &items[0] {
                Scanned::MathCall(name, args) => {
                    assert_eq!(name, "abs");
                    assert_eq!(args, "-2");
                }
                other => panic!("unexpected {:?}", other),
            }
            match &items[1] {
                Scanned::Token(t) => assert_eq!(t.value, "y"),
                other => panic!("unexpected {:?}", other),
            }
        }
        other => panic!("unexpected {:?}", other),
    }
}

#[test]
fn numbers_and_identifiers() {
    let tokens = lex("42 x42 ٣", echo_call).unwrap();
    assert_eq!(
        kinds(&tokens),
        vec![TokenType::NumberLiteral, TokenType::Identifier, TokenType::NumberLiteral]
    );
}

#[test]
fn words_stop_at_delimiters() {
    let tokens = lex("users.request[1-100]", echo_call).unwrap();
    assert_eq!(values(&tokens), vec!["users", ".", "request", "[", "1", "-", "100", "]"]);
}

#[test]
fn a_stray_closing_parenthesis_never_ends() {
    assert!(!lex_halts("x = )"));
    assert!(lex_halts("x = (1)"));
    assert!(lex_halts("stamp \")\""));
    assert!(lex_halts("// )"));
}

#[test]
fn empty_source_has_no_tokens() {
    assert!(lex("", echo_call).unwrap().is_empty());
    assert!(lex("\n\n   \t\n", echo_call).unwrap().is_empty());
}

#[test]
fn detects_rust_sources() {
    assert!(detects_pure_rust("fn main() {}"));
    assert!(detects_pure_rust("  println!(\"x\")"));
    assert!(detects_pure_rust("let mut x = 1;"));
    assert!(detects_pure_rust("use std::fs;"));
    assert!(!detects_pure_rust("let x = 1"));
    assert!(!detects_pure_rust("fn  main"));
}

#[test]
fn lines_are_read_in_turn() {
    let whole = lex("let x = \"a\"\r\nstamp y(1, 2) // note\ndump x", echo_call).unwrap();
    let mut parts = lex("let x = \"a\"", echo_call).unwrap();
    parts.extend(lex("stamp y(1, 2) // note", echo_call).unwrap());
    parts.extend(lex("dump x", echo_call).unwrap());
    assert_eq!(values(&whole), values(&parts));
    assert_eq!(kinds(&whole), kinds(&parts));
}

#[test]
fn an_error_in_an_earlier_line_wins_over_a_stray_parenthesis() {
    assert!(lex_halts("a + b\n)"));
    assert_eq!(lex("a + b\n)", echo_call).unwrap_err(), "Unsupported operator '+' without '='");
    assert!(!lex_halts(")\na + b"));
}

#[test]
fn a_text_of_several_lines_is_read_before_the_rest() {
    let whole = lex("let a = 1\r\nstamp \"x\r\n\ndump a", echo_call).unwrap();
    let mut parts = lex("let a = 1\r\nstamp \"x\r\n", echo_call).unwrap();
    parts.extend(lex("dump a", echo_call).unwrap());
    assert_eq!(values(&whole), values(&parts));
    assert_eq!(kinds(&whole), kinds(&parts));
}

#[test]
fn lex_checked_answers_none_where_reading_never_ends() {
    assert!(ahola::lex_checked("x = )", echo_call).is_none());
    let tokens = ahola::lex_checked("x = f(1)", echo_call).unwrap().unwrap();
    assert_eq!(values(&tokens), vec!["x", "=", "f|1"]);
    assert_eq!(
        ahola::lex_checked("a + b", echo_call).unwrap().unwrap_err(),
        "Unsupported operator '+' without '='"
    );
}
