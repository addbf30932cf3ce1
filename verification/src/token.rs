use vstd::prelude::*;

use crate::text::dec_digits;
use crate::text::push_char;
use crate::text::push_decimal;

verus! {

/// Represents the types of numeric tokens recognized by the tokenizer
#[derive(Clone, Copy, Debug, PartialEq, Eq, Structural)]
pub enum NumberType {
    /// Floating-point numbers (e.g., `3.14`, `.25`)
    Float,
    /// Hexadecimal numbers (e.g., `0x1A3F`)
    Hex,
    /// Binary numbers (e.g., `0b1010`)
    Binary,
    /// Octal numbers (e.g., `0o755`)
    Octal,
    /// Sequential integers (e.g., `12345`)
    Sequential,
}

/// Represents all possible token types that can be parsed by the tokenizer
#[derive(Clone, Copy, Debug, PartialEq, Eq, Structural)]
pub enum TokenType {
    /// Any alphanumeric string
    Word,
    /// A numeric token, where [NumberType] specifies the format
    Number(NumberType),
    /// A sequence of characters surrounded by double quotes ("example")
    Str,
    /// A single character surrounded by single quotes ('a')
    Char,
    /// A character recognized as a symbol
    Symbol,
    /// A character recognized as an operator
    Operator,
}

/// Represents the location of a token in the input text, with line and column values
#[derive(Clone, Copy, Debug, PartialEq, Eq, Structural)]
pub struct Loc(
    /// Line number (0-based index)
    pub usize,
    /// Column number (0-based index)
    pub usize,
);

/// A location rendered for humans: one-based line and column, separated by a
/// colon.
pub open spec fn loc_text(loc: Loc) -> Seq<char> {
    dec_digits((loc.0 + 1) as nat) + seq![':'] + dec_digits((loc.1 + 1) as nat)
}

impl Loc {
    /// Renders the location as one-based `line:column`.
    pub fn display_string(&self) -> (r: String)
        requires
            self.0 < usize::MAX,
            self.1 < usize::MAX,
        ensures
            r@ == loc_text(*self),
    {
        let mut s = String::new();
        push_decimal(&mut s, self.0 + 1);
        push_char(&mut s, ':');
        push_decimal(&mut s, self.1 + 1);
        proof {
            let line_digits = dec_digits((self.0 + 1) as nat);
            let col_digits = dec_digits((self.1 + 1) as nat);
            assert(Seq::<char>::empty() + line_digits =~= line_digits);
            assert((line_digits.push(':')) + col_digits =~= line_digits + seq![':']
                + col_digits);
        }
        s
    }
}

/// Represents an individual token with type, value, and location
#[derive(Debug, Clone)]
pub struct Token {
    /// The [TokenType] of the token
    pub kind: TokenType,
    /// The text of the token, an owned copy independent of the input
    pub value: Box<String>,
    /// The location of the token in the input
    pub loc: Loc,
}

/// The mathematical abstraction of a [Token]: its kind, its text as a
/// sequence of characters, and the line and column where it starts.
pub struct SpecToken {
    pub kind: TokenType,
    pub text: Seq<char>,
    pub line: int,
    pub col: int,
}

impl View for Token {
    type V = SpecToken;

    open spec fn view(&self) -> SpecToken {
        SpecToken {
            kind: self.kind,
            text: self.value@,
            line: self.loc.0 as int,
            col: self.loc.1 as int,
        }
    }
}

impl DeepView for Token {
    type V = SpecToken;

    open spec fn deep_view(&self) -> SpecToken {
        self.view()
    }
}

} // verus!
