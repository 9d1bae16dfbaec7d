//! A lexical scanner for a small programming language: the keywords `fn` and
//! `let`, identifiers, 32-bit integer literals, and single-character
//! operators, delimiters and grouping punctuation.
//!
//! [`token::Token`] is the closed set of lexical categories. [`lexer::Lexer`]
//! turns an input string into a stream of tokens, one per call to
//! [`lexer::Lexer::next_token`], ending with `EndOfInput`. The function
//! [`lexer::scan`] is the mathematical model of one scanning step, and the
//! proofs in [`laws`] state the guarantees of the scanner as a whole.

pub mod laws;
pub mod lexer;
pub mod token;
