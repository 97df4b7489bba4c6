//! A library that strips TeX/LaTeX markup from document source, emitting the
//! underlying prose text.
//!
//! The core is a lexical state machine over a character stream: it recognises
//! control sequences, math modes, environments, argument lists, comments and
//! verbatim blocks, and writes the remaining prose to an in-memory output
//! buffer.  File inclusion (`\input`, `\include`) is resolved against an
//! in-memory store of named documents supplied by the caller; real file
//! handling stays outside the library.

pub mod chars;
pub mod config;
pub mod file_handler;
pub mod lexer;
pub mod states;
