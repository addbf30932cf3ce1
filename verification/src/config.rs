use vstd::prelude::*;

use crate::model::spec_lines;
use crate::model::Pos;
use crate::scanner::SpecTokenizer;
use crate::scanner::Tokenizer;

verus! {

/// Configurable option for specific settings in [TokenizerConfig]
#[derive(Debug, Clone, Copy)]
pub enum Choice<T> where T: Copy + Clone {
    /// An active choice with a specified value of type T
    Yes(T),
    /// No active choice
    No,
}

impl<T> Default for Choice<T> where T: Copy + Clone {
    fn default() -> (r: Self)
        ensures
            r is No,
    {
        Choice::No
    }
}

/// Configuration struct for the tokenizer, allowing customization of tokenization behavior
#[derive(Debug, Clone)]
pub struct TokenizerConfig {
    /// Whether single characters should be treated as strings and therefore may contain more
    /// than one character
    pub parse_char_as_string: bool,
    /// Considers numbers as words
    pub ignore_numbers: bool,
    /// Allows a specific character as a digit separator (e.g., `_`)
    pub allow_digit_separator: Choice<char>,
    /// List of characters to be treated as symbols
    pub consider_as_symbols: Vec<char>,
    /// List of characters to be treated as operators
    pub consider_as_operators: Vec<char>,
}

/// The mathematical abstraction of a [TokenizerConfig]: the same options, with
/// the character lists as sequences and the separator as an `Option`.
pub struct SpecConfig {
    pub parse_char_as_string: bool,
    pub ignore_numbers: bool,
    pub digit_separator: Option<char>,
    pub symbols: Seq<char>,
    pub operators: Seq<char>,
}

impl View for TokenizerConfig {
    type V = SpecConfig;

    open spec fn view(&self) -> SpecConfig {
        SpecConfig {
            parse_char_as_string: self.parse_char_as_string,
            ignore_numbers: self.ignore_numbers,
            digit_separator: match self.allow_digit_separator {
                Choice::Yes(c) => Some(c),
                Choice::No => None,
            },
            symbols: self.consider_as_symbols@,
            operators: self.consider_as_operators@,
        }
    }
}

impl Default for TokenizerConfig {
    fn default() -> (r: Self)
        ensures
            r@ == (SpecConfig {
                parse_char_as_string: false,
                ignore_numbers: false,
                digit_separator: None,
                symbols: Seq::<char>::empty(),
                operators: Seq::<char>::empty(),
            }),
    {
        TokenizerConfig {
            parse_char_as_string: false,
            ignore_numbers: false,
            allow_digit_separator: Choice::No,
            consider_as_symbols: Vec::new(),
            consider_as_operators: Vec::new(),
        }
    }
}

/// A builder struct for creating a [TokenizerConfig] instance with customized options
#[derive(Clone, Debug)]
pub struct TokenizerBuilder {
    conf: TokenizerConfig,
}

impl View for TokenizerBuilder {
    type V = SpecConfig;

    closed spec fn view(&self) -> SpecConfig {
        self.conf@
    }
}

impl TokenizerBuilder {
    /// Creates a default [TokenizerBuilder]; the symbol list starts out holding `.`
    pub fn new() -> (r: TokenizerBuilder)
        ensures
            r@ == (SpecConfig {
                parse_char_as_string: false,
                ignore_numbers: false,
                digit_separator: None,
                symbols: seq!['.'],
                operators: Seq::<char>::empty(),
            }),
    {
        let mut symbols: Vec<char> = Vec::new();
        symbols.push('.');
        TokenizerBuilder {
            conf: TokenizerConfig {
                parse_char_as_string: false,
                ignore_numbers: false,
                allow_digit_separator: Choice::No,
                consider_as_symbols: symbols,
                consider_as_operators: Vec::new(),
            },
        }
    }

    /// Configures character parsing behavior
    pub fn parse_char_as_string(self, set_to: bool) -> (r: Self)
        ensures
            r@ == (SpecConfig { parse_char_as_string: set_to, ..self@ }),
    {
        let mut lb = self;
        lb.conf.parse_char_as_string = set_to;
        lb
    }

    /// Configures number parsing behaviour
    pub fn ignore_numbers(self, set_to: bool) -> (r: Self)
        ensures
            r@ == (SpecConfig { ignore_numbers: set_to, ..self@ }),
    {
        let mut lb = self;
        lb.conf.ignore_numbers = set_to;
        lb
    }

    /// Sets the digit separator
    pub fn allow_digit_separator(self, choice: Choice<char>) -> (r: Self)
        ensures
            r@ == (SpecConfig {
                digit_separator: match choice {
                    Choice::Yes(c) => Some(c),
                    Choice::No => None,
                },
                ..self@
            }),
    {
        let mut lb = self;
        lb.conf.allow_digit_separator = choice;
        lb
    }

    /// Adds a symbol character
    pub fn add_symbol(self, sym: char) -> (r: Self)
        ensures
            r@ == (SpecConfig { symbols: self@.symbols.push(sym), ..self@ }),
    {
        let mut lb = self;
        lb.conf.consider_as_symbols.push(sym);
        lb
    }

    /// Adds multiple symbol characters
    pub fn add_symbols(self, syms: &[char]) -> (r: Self)
        ensures
            r@ == (SpecConfig { symbols: self@.symbols + syms@, ..self@ }),
    {
        let mut lb = self;
        let mut i: usize = 0;
        while i < syms.len()
            invariant
                i <= syms@.len(),
                lb.conf.consider_as_symbols@ == self@.symbols + syms@.subrange(0, i as int),
                lb.conf.parse_char_as_string == self@.parse_char_as_string,
                lb.conf.ignore_numbers == self@.ignore_numbers,
                lb.conf@.digit_separator == self@.digit_separator,
                lb.conf.consider_as_operators@ == self@.operators,
            decreases syms@.len() - i,
        {
            proof {
                assert(syms@.subrange(0, i as int + 1)
                    =~= syms@.subrange(0, i as int).push(syms@[i as int]));
            }
            lb.conf.consider_as_symbols.push(syms[i]);
            i = i + 1;
        }
        proof {
            assert(syms@.subrange(0, syms@.len() as int) =~= syms@);
        }
        lb
    }

    /// Adds an operator character
    pub fn add_operator(self, op: char) -> (r: Self)
        ensures
            r@ == (SpecConfig { operators: self@.operators.push(op), ..self@ }),
    {
        let mut lb = self;
        lb.conf.consider_as_operators.push(op);
        lb
    }

    /// Constructs a [Tokenizer] with the specified input and configuration.
    pub fn build(self, with_input: &str) -> (r: Tokenizer)
        ensures
            r@ == (SpecTokenizer {
                lines: spec_lines(with_input@),
                pos: Pos { ln: 0, col: 0 },
                cfg: self@,
            }),
            r.wf(),
    {
        Tokenizer::new(with_input, self.conf)
    }

    /// Adds multiple operator characters
    pub fn add_operators(self, ops: &[char]) -> (r: Self)
        ensures
            r@ == (SpecConfig { operators: self@.operators + ops@, ..self@ }),
    {
        let mut lb = self;
        let mut i: usize = 0;
        while i < ops.len()
            invariant
                i <= ops@.len(),
                lb.conf.consider_as_operators@ == self@.operators + ops@.subrange(0, i as int),
                lb.conf.parse_char_as_string == self@.parse_char_as_string,
                lb.conf.ignore_numbers == self@.ignore_numbers,
                lb.conf@.digit_separator == self@.digit_separator,
                lb.conf.consider_as_symbols@ == self@.symbols,
            decreases ops@.len() - i,
        {
            proof {
                assert(ops@.subrange(0, i as int + 1)
                    =~= ops@.subrange(0, i as int).push(ops@[i as int]));
            }
            lb.conf.consider_as_operators.push(ops[i]);
            i = i + 1;
        }
        proof {
            assert(ops@.subrange(0, ops@.len() as int) =~= ops@);
        }
        lb
    }
}

} // verus!
