//! A configurable, single-pass lexical scanner.
//!
//! The scanner converts raw text into a flat sequence of classified tokens
//! (words, numeric literals of several radices, quoted strings, quoted
//! characters, symbols, operators), each annotated with its source location.
//! It is meant to be embedded by a larger parser as the first stage of a
//! compilation or data-ingestion pipeline.
//!
//! Scanning is a pure function of the input text and a [`TokenizerConfig`]:
//! the contract of [`Tokenizer::tokenize`] pins the produced token sequence
//! down to the mathematical scan defined in [`model`].

/// Contains error definitions specific to tokenization
pub mod error;

/// General properties of the scan, stated and proved once and for all
pub mod laws;

/// The mathematical model of the scan that the executable contracts refer to
pub mod model;

/// Verified text building for the human-readable forms of locations and errors
pub mod text;

mod config;
mod lines;
mod scanner;
mod token;

pub use config::Choice;
pub use config::SpecConfig;
pub use config::TokenizerBuilder;
pub use config::TokenizerConfig;
pub use scanner::SpecTokenizer;
pub use scanner::Tokenizer;
pub use token::loc_text;
pub use token::Loc;
pub use token::NumberType;
pub use token::SpecToken;
pub use token::Token;
pub use token::TokenType;
