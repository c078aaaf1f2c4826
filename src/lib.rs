//! A small Lua-dialect engine: a lexer, a one-pass bytecode emitter and a
//! stack-based interpreter, each verified against its specification.

pub mod bytecode;
pub mod value;
pub mod lex;
pub mod parse;
pub mod vm;
pub mod utils;
