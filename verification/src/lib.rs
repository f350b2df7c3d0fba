//! Ahola: the lexer, compiler, bytecode optimizer and virtual machine of the
//! Ahola scripting language.
//!
//! Source text goes through [`lexer::lex`] to tokens, through
//! [`compiler::compile_tokens`] to bytecode and a symbol table, through
//! [`optimizer::optimize_bytecode`], and is run instruction by instruction
//! with [`vm::VirtualMachine::step`], whose caller carries out the effects
//! (printing, files, databases) that each instruction asks for.

pub mod text;
pub mod tokens;
pub mod lexer;
pub mod symbols;
pub mod numbers;
pub mod bytecode;
pub mod compiler;
pub mod optimizer;
pub mod vm;

pub use bytecode::{AholaData, OpCode};
pub use compiler::{compile_tokens, CompileError};
pub use lexer::{detects_pure_rust, lex, lex_checked, lex_halts};
pub use optimizer::optimize_bytecode;
pub use symbols::{Symbol, SymbolTable};
pub use tokens::{Token, TokenType};
pub use vm::VirtualMachine;
