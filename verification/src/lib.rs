//! Rockscript: a small programming language about throwing rocks.
//!
//! The library holds the lexer, the parser and the interpreter of the
//! language; the command line tool, the REPL and the language server live
//! in `app/`.
pub mod text;
pub mod error;
pub mod lexer;
pub mod parser;
pub mod interpreter;
pub mod tokenizer;
pub mod editor;
pub mod pipeline;
