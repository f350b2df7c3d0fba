//! The tokens that the lexer produces and the compiler reads.

use vstd::prelude::*;

verus! {

/// The kind of a token.
#[derive(Debug, Clone, Copy, PartialEq, Eq, Structural)]
pub enum TokenType {
    Let,
    Type,
    Stamp,
    Dump,
    Disguise,
    Identifier,
    StringLiteral,
    NumberLiteral,
    Equals,
    PlusEquals,
    Colon,
    LeftBracket,
    RightBracket,
    LeftBrace,
    RightBrace,
    GreaterThan,
    Comma,
    If,
    Else,
    Loop,
    While,
    Fn,
    Return,
    ReadFile,
    Embed,
    CallRust,
    FileHook,
    Pub,
    Struct,
    ChangeableModifier,
    Dot,
    Minus,
}

/// A token: its kind and the text it stands for.
#[derive(Debug, Clone)]
pub struct Token {
    pub token_type: TokenType,
    pub value: String,
}

impl Token {
    /// A copy of this token, with the same kind and the same text.
    pub fn duplicate(&self) -> (r: Token)
        ensures
            r == *self,
    {
        Token { token_type: self.token_type, value: self.value.clone() }
    }
}

} // verus!
