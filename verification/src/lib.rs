//! A small scripting-language front end: lexer, parser and bytecode compiler.

pub mod span;
pub mod token;
pub mod text;
pub mod lex_error;
pub mod lexer;
pub mod lexing;
pub mod ast;
pub mod parse_error;
pub mod parser;
pub mod syntax;
pub mod grammar;
pub mod opcode;
pub mod decimal;
pub mod value;
pub mod chunk;
pub mod comp_error;
pub mod codegen;
pub mod compiler;

pub use span::Span;
