//! Parser for the transcript logs written by TeX engines.
//!
//! The library recovers the tree of files the engine opened (the nested
//! `(<path> ...)` scopes of the log), collects the warnings and errors
//! announced inside each scope, and answers queries such as "which files
//! was the engine inside at this offset?".

pub mod lexer;
pub mod log;
pub mod parser;
pub mod text;
