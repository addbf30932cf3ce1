use vstd::prelude::*;
use vstd::string::StringExecFns;

use crate::token::loc_text;
use crate::token::Loc;

verus! {

/// `TokenizationError` represents errors that can occur during the tokenization process.
///
/// This enum provides detailed error types with associated location data (`Loc`), indicating
/// where in the input text the error occurred.
#[derive(Debug, Clone, Copy, PartialEq, Eq, Structural)]
pub enum TokenizationError {
    /// Indicates an invalid character parsing error.
    /// This variant is returned when more than one character was decoded between
    /// single quotes while the configuration demands a single character.
    NotAValidChar(Loc),
    /// Represents an unexpected digit separator error.
    /// This error is triggered when a digit separator is not immediately followed
    /// by a digit, including when the input ends at the separator.
    UnexpectedDigitSeparator(Loc),
}

/// An error rendered for humans: its kind in words, and its location as
/// one-based `line:column`.
pub open spec fn error_text(e: TokenizationError) -> Seq<char> {
    match e {
        TokenizationError::NotAValidChar(loc) => "No valid character at "@ + loc_text(loc),
        TokenizationError::UnexpectedDigitSeparator(loc) => "Unexpected digit separator at "@
            + loc_text(loc),
    }
}

impl TokenizationError {
    /// Renders the error as a human-readable message naming its kind and
    /// location.
    pub fn message(&self) -> (r: String)
        requires
            match *self {
                TokenizationError::NotAValidChar(loc) => loc.0 < usize::MAX && loc.1
                    < usize::MAX,
                TokenizationError::UnexpectedDigitSeparator(loc) => loc.0 < usize::MAX && loc.1
                    < usize::MAX,
            },
        ensures
            r@ == error_text(*self),
    {
        match *self {
            TokenizationError::NotAValidChar(loc) => {
                let mut s = String::from_str("No valid character at ");
                let tail = loc.display_string();
                s.append(tail.as_str());
                s
            },
            TokenizationError::UnexpectedDigitSeparator(loc) => {
                let mut s = String::from_str("Unexpected digit separator at ");
                let tail = loc.display_string();
                s.append(tail.as_str());
                s
            },
        }
    }
}

/// The mathematical abstraction of a [TokenizationError]: the same two error
/// kinds, with the location carried as unbounded line and column numbers.
pub enum ScanError {
    NotAValidChar { line: int, col: int },
    UnexpectedDigitSeparator { line: int, col: int },
}

impl View for TokenizationError {
    type V = ScanError;

    open spec fn view(&self) -> ScanError {
        match *self {
            TokenizationError::NotAValidChar(loc) => ScanError::NotAValidChar {
                line: loc.0 as int,
                col: loc.1 as int,
            },
            TokenizationError::UnexpectedDigitSeparator(loc) => ScanError::UnexpectedDigitSeparator {
                line: loc.0 as int,
                col: loc.1 as int,
            },
        }
    }
}

} // verus!
