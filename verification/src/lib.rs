//! A JSON grammar validator: a character-level source scanner, a tokenizer
//! built on it, and a non-recursive pushdown-automaton parser that accepts or
//! rejects a token stream against the JSON grammar, reporting the first
//! error's location and coarse kind.
//!
//! Data flows text -> `SourceScanner` -> `Lexer` -> token sequence ->
//! `TokenScanner` -> `SyntaxAnalyzer` -> accept/error. The validator never
//! builds a value tree and never recovers past the first fault.
//!
//! All positions (token spans, error spans, line starts) are deliberately
//! character offsets into the source text, not byte offsets; on ASCII text
//! the two coincide.

pub mod types;
pub mod source_scanner;
pub mod lexer;
pub mod token_scanner;
pub mod grammar;
pub mod syntax_analyser;
