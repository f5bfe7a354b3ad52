//! A bytecode-compiled filter engine for delimiter-separated records.
//!
//! Filters are written in a small expression language, compiled once to a
//! compact bytecode, and evaluated against records by a small stack machine.

pub mod ascii;
pub mod buffer;
pub mod compiler;
pub mod lexer;
pub mod loader;
pub mod opcode;
pub mod parser;
pub mod pattern;
pub mod search;
pub mod split;
pub mod vm;

pub use opcode::Opcode;
pub use compiler::{compile, compile_expr, CompileError};
pub use lexer::{LexError, Lexer, Token};
pub use loader::{load_filter_string, LoadError};
pub use parser::{parse, Expr, ParseError, Parser, ParserConfig};
pub use split::{extract_header_value, PayloadParts, MAX_PARTS};
pub use vm::CompiledFilter;
