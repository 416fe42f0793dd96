//! A formatter and linter for a section/attribute configuration language.
//!
//! The engine is a pure function of its input text: a lexer turns text into
//! tokens, a parser builds a document arena from the tokens, the formatter
//! lays the tokens out canonically and the linter reports diagnostics in
//! source order.

pub mod cli;
pub mod diagnostic;
pub mod document;
pub mod engine;
pub mod format;
pub mod layout;
pub mod lexer;
pub mod lint;
pub mod parser;
pub mod position;
pub mod relex;
pub mod render;
pub mod stable;
pub mod text;
pub mod token;
