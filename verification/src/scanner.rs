use vstd::prelude::*;
use vstd::string::StrSliceExecFns;

use crate::config::SpecConfig;
use crate::config::TokenizerBuilder;
use crate::config::TokenizerConfig;
use crate::error::ScanError;
use crate::error::TokenizationError;
use crate::lines::split_lines;
use crate::model::advanced;
use crate::model::classify;
use crate::model::cur_at;
use crate::model::binary_pred;
use crate::model::fake_advanced;
use crate::model::fake_stepped;
use crate::model::hex_pred;
use crate::model::is_binary_char;
use crate::model::is_digit_char;
use crate::model::is_hex_char;
use crate::model::is_octal_char;
use crate::model::is_word_char;
use crate::model::octal_pred;
use crate::model::peek_at;
use crate::model::pos_wf;
use crate::model::rem;
use crate::model::scan_binary;
use crate::model::scan_hex;
use crate::model::scan_octal;
use crate::model::scan_run;
use crate::model::scan_word;
use crate::model::spec_token;
use crate::model::stepped;
use crate::model::weights_from;
use crate::model::word_pred;
use crate::model::OutOfBound;
use crate::model::Pos;
use crate::text::push_char;
use crate::token::Loc;
use crate::token::NumberType;
use crate::token::Token;
use crate::token::TokenType;

verus! {

/// Primary struct for tokenizing an input string, with methods for parsing and generating tokens
pub struct Tokenizer {
    pub lines: Vec<Vec<char>>,
    ln: usize,
    col: usize,
    config: TokenizerConfig,
}

/// The mathematical abstraction of a [Tokenizer]: the line grid, the cursor
/// position, and the configuration.
pub struct SpecTokenizer {
    pub lines: Seq<Seq<char>>,
    pub pos: Pos,
    pub cfg: SpecConfig,
}

impl View for Tokenizer {
    type V = SpecTokenizer;

    closed spec fn view(&self) -> SpecTokenizer {
        SpecTokenizer {
            lines: self.lines.deep_view(),
            pos: Pos { ln: self.ln as int, col: self.col as int },
            cfg: self.config@,
        }
    }
}

/// Whether `c` is an ASCII decimal digit.
fn is_ascii_digit(c: char) -> (r: bool)
    ensures
        r == is_digit_char(c),
{
    let u = c as u32;
    48 <= u && u <= 57
}

/// Whether `c` is an ASCII hexadecimal digit.
fn is_ascii_hexdigit(c: char) -> (r: bool)
    ensures
        r == is_hex_char(c),
{
    let u = c as u32;
    (48 <= u && u <= 57) || (97 <= u && u <= 102) || (65 <= u && u <= 70)
}

/// Whether `c` is an ASCII octal digit.
fn is_ascii_octdigit(c: char) -> (r: bool)
    ensures
        r == is_octal_char(c),
{
    let u = c as u32;
    48 <= u && u <= 55
}

/// Whether `c` is a binary digit.
fn is_binary_digit(c: char) -> (r: bool)
    ensures
        r == is_binary_char(c),
{
    c == '0' || c == '1'
}

/// Whether `c` occurs in the character list `chars`.
fn contains_char(chars: &Vec<char>, c: char) -> (r: bool)
    ensures
        r == chars@.contains(c),
{
    let mut i: usize = 0;
    while i < chars.len()
        invariant
            i <= chars@.len(),
            forall|j: int| 0 <= j < i ==> chars@[j] != c,
        decreases chars@.len() - i,
    {
        if chars[i] == c {
            return true;
        }
        i = i + 1;
    }
    false
}

impl Tokenizer {
    /// The states a scan can observe: the cursor is well formed and the
    /// whole measure of the grid fits the machine's word, which every
    /// tokenizer built by [`Tokenizer::new`] satisfies.
    pub open spec fn wf(&self) -> bool {
        &&& pos_wf(self@.lines, self@.pos)
        &&& weights_from(self@.lines, 0) <= usize::MAX
    }

    /// Creates a TokenizerBuilder instance for configuring and initializing the tokenizer
    pub fn builder() -> (r: TokenizerBuilder)
        ensures
            r@ == (SpecConfig {
                parse_char_as_string: false,
                ignore_numbers: false,
                digit_separator: None,
                symbols: seq!['.'],
                operators: Seq::<char>::empty(),
            }),
    {
        TokenizerBuilder::new()
    }

    /// Initializes the tokenizer with input text and a configuration
    pub fn new(input: &str, config: TokenizerConfig) -> (r: Self)
        ensures
            r@ == (SpecTokenizer {
                lines: crate::model::spec_lines(input@),
                pos: Pos { ln: 0, col: 0 },
                cfg: config@,
            }),
            r.wf(),
    {
        let lines = split_lines(input);
        Tokenizer { lines, ln: 0, col: 0, config }
    }

    /// Classifies the live cursor against the input grid.
    fn is_out_of_bound(&self) -> (r: OutOfBound)
        ensures
            r == classify(self@.lines, self@.pos),
    {
        proof {
            assert(self@.lines.len() == self.lines@.len());
            if self.ln < self.lines.len() {
                assert(self@.lines[self.ln as int] =~= self.lines@[self.ln as int]@);
            }
        }
        if self.ln >= self.lines.len() {
            return OutOfBound::Out;
        } else if !(self.lines[self.ln].len() == 0) {
            if self.col >= self.lines[self.ln].len() {
                return OutOfBound::Out;
            }
        } else {
            return OutOfBound::Empty;
        }
        OutOfBound::Within
    }

    /// Classifies an arbitrary hypothetical position against the input grid.
    fn is_out_of_bound_for(&self, ln: usize, col: usize) -> (r: OutOfBound)
        ensures
            r == classify(self@.lines, Pos { ln: ln as int, col: col as int }),
    {
        proof {
            assert(self@.lines.len() == self.lines@.len());
            if ln < self.lines.len() {
                assert(self@.lines[ln as int] =~= self.lines@[ln as int]@);
            }
        }
        if ln >= self.lines.len() {
            return OutOfBound::Out;
        } else if !(self.lines[ln].len() == 0) {
            if col >= self.lines[ln].len() {
                return OutOfBound::Out;
            }
        } else {
            return OutOfBound::Empty;
        }
        OutOfBound::Within
    }

    /// Moves the cursor forward by `len` characters, crossing line
    /// boundaries; past the input it is a no-op.
    fn consume(&mut self, len: usize)
        requires
            pos_wf(old(self)@.lines, old(self)@.pos),
        ensures
            final(self)@ == (SpecTokenizer {
                pos: advanced(old(self)@.lines, old(self)@.pos, len as nat),
                ..old(self)@
            }),
            pos_wf(final(self)@.lines, final(self)@.pos),
    {
        let ghost lines0 = self@.lines;
        let ghost pos0 = self@.pos;
        let ghost cfg0 = self@.cfg;
        let mut todo: usize = len;
        let ln_max = self.lines.len();
        while todo > 0
            invariant
                self@.lines == lines0,
                self@.cfg == cfg0,
                ln_max == lines0.len(),
                pos_wf(lines0, self@.pos),
                advanced(lines0, pos0, len as nat) == advanced(lines0, self@.pos, todo as nat),
            ensures
                self@.lines == lines0,
                self@.cfg == cfg0,
                pos_wf(lines0, self@.pos),
                self@.pos == advanced(lines0, pos0, len as nat),
            decreases todo,
        {
            let ghost cur = self@.pos;
            if self.ln >= ln_max {
                // The cursor is already out of bound: advancing has no
                // effect, so the remaining advances are dropped at once.
                proof {
                    crate::model::lemma_advanced_out(lines0, cur, todo as nat);
                }
                break;
            } else {
                let col_max = self.lines[self.ln].len();
                proof {
                    assert(self@.lines[self.ln as int] =~= self.lines@[self.ln as int]@);
                    assert(col_max == lines0[self.ln as int].len());
                }
                if self.col + 1 >= col_max {
                    self.next_line();
                } else {
                    self.col = self.col + 1;
                }
                proof {
                    assert(self@.pos == stepped(lines0, cur));
                    crate::model::lemma_step_wf(lines0, cur);
                }
            }
            todo = todo - 1;
            proof {
                assert(advanced(lines0, cur, (todo + 1) as nat) == advanced(
                    lines0,
                    self@.pos,
                    todo as nat,
                ));
            }
        }
    }

    /// Computes the hypothetical position `len` characters ahead, without
    /// mutating the cursor, and classifies it.
    fn fake_consume(&self, len: usize) -> (r: (OutOfBound, Loc))
        requires
            pos_wf(self@.lines, self@.pos),
        ensures
            ({
                let q = fake_advanced(self@.lines, self@.pos, len as nat);
                &&& r.0 == classify(self@.lines, q)
                &&& (r.0 == OutOfBound::Within ==> r.1.0 as int == q.ln && r.1.1 as int == q.col)
            }),
    {
        let ghost lines0 = self@.lines;
        let ghost pos0 = self@.pos;
        let mut todo: usize = len;
        let ln_max = self.lines.len();
        let mut ln = self.ln;
        let mut col = self.col;
        while todo > 0
            invariant
                lines0 == self@.lines,
                ln_max == lines0.len(),
                ln <= lines0.len(),
                col == 0 || (ln < lines0.len() && col < lines0[ln as int].len()),
                fake_advanced(lines0, pos0, len as nat) == fake_advanced(
                    lines0,
                    Pos { ln: ln as int, col: col as int },
                    todo as nat,
                ),
            ensures
                ln <= lines0.len(),
                col == 0 || (ln < lines0.len() && col < lines0[ln as int].len()),
                classify(lines0, fake_advanced(lines0, pos0, len as nat)) == classify(
                    lines0,
                    Pos { ln: ln as int, col: col as int },
                ),
                classify(lines0, Pos { ln: ln as int, col: col as int }) == OutOfBound::Within
                    ==> (Pos { ln: ln as int, col: col as int }) == fake_advanced(
                    lines0,
                    pos0,
                    len as nat,
                ),
            decreases todo,
        {
            let ghost cur = Pos { ln: ln as int, col: col as int };
            if ln >= ln_max {
                // Every further lookahead advance stays past the input, so
                // the classification is settled at once.
                proof {
                    crate::model::lemma_fake_advanced_out(lines0, cur, todo as nat);
                }
                break;
            } else {
                let col_max = self.lines[ln].len();
                proof {
                    assert(self@.lines[ln as int] =~= self.lines@[ln as int]@);
                    assert(col_max == lines0[ln as int].len());
                }
                if col + 1 >= col_max {
                    ln = ln + 1;
                    col = 0;
                } else {
                    col = col + 1;
                }
            }
            todo = todo - 1;
            proof {
                assert(Pos { ln: ln as int, col: col as int } == fake_stepped(lines0, cur));
                assert(fake_advanced(lines0, cur, (todo + 1) as nat) == fake_advanced(
                    lines0,
                    Pos { ln: ln as int, col: col as int },
                    todo as nat,
                ));
            }
        }
        (self.is_out_of_bound_for(ln, col), Loc(ln, col))
    }

    /// Advances the cursor to the start of the next line.
    #[inline]
    fn next_line(&mut self)
        requires
            old(self)@.pos.ln < old(self)@.lines.len(),
        ensures
            final(self)@ == (SpecTokenizer {
                pos: Pos { ln: old(self)@.pos.ln + 1, col: 0 },
                ..old(self)@
            }),
    {
        let ln_max = self.lines.len();
        assert(self.ln < ln_max);
        self.ln = self.ln + 1;
        self.col = 0;
    }

    /// The character under the cursor, if the cursor rests on one.
    fn get_next_char(&self) -> (r: Option<char>)
        ensures
            r == cur_at(self@.lines, self@.pos),
    {
        if self.is_out_of_bound() == OutOfBound::Within {
            proof {
                assert(self@.lines[self.ln as int] =~= self.lines@[self.ln as int]@);
            }
            Some(self.lines[self.ln][self.col])
        } else {
            None
        }
    }

    /// One character of lookahead, without mutating the cursor: the
    /// character one advance ahead, `'\n'` if that position lands on an
    /// empty line, or nothing past the input.
    fn peek_tok(&self) -> (r: Option<char>)
        requires
            pos_wf(self@.lines, self@.pos),
        ensures
            r == peek_at(self@.lines, self@.pos),
    {
        let (bound, loc) = self.fake_consume(1);
        proof {
            assert(fake_advanced(self@.lines, self@.pos, 1) == fake_advanced(
                self@.lines,
                fake_stepped(self@.lines, self@.pos),
                0,
            ));
        }
        match bound {
            OutOfBound::Empty => Some('\n'),
            OutOfBound::Out => None,
            OutOfBound::Within => {
                proof {
                    assert(self@.lines[loc.0 as int] =~= self.lines@[loc.0 as int]@);
                }
                Some(self.lines[loc.0][loc.1])
            },
        }
    }
    /// Scans a word: accumulates characters until a space, a configured
    /// symbol or operator character, or the end of the input ends it.
    fn parse_word(&mut self) -> (r: Result<Token, TokenizationError>)
        requires
            pos_wf(old(self)@.lines, old(self)@.pos),
        ensures
            pos_wf(final(self)@.lines, final(self)@.pos),
            ({
                let s = scan_word(old(self)@.lines, old(self)@.cfg, old(self)@.pos);
                &&& final(self)@ == (SpecTokenizer { pos: s.end, ..old(self)@ })
                &&& r matches Ok(t) && t@ == spec_token(TokenType::Word, s.text, old(self)@.pos)
            }),
    {
        let ghost lines0 = self@.lines;
        let ghost cfg0 = self@.cfg;
        let ghost pos0 = self@.pos;
        let ghost pred = word_pred(cfg0);
        let mut word = String::new();
        let start_ln = self.ln;
        let start_col = self.col;
        loop
            invariant
                self@.lines == lines0,
                self@.cfg == cfg0,
                pred == word_pred(cfg0),
                pos_wf(lines0, self@.pos),
                scan_run(lines0, pos0, pred).text == word@ + scan_run(
                    lines0,
                    self@.pos,
                    pred,
                ).text,
                scan_run(lines0, pos0, pred).end == scan_run(lines0, self@.pos, pred).end,
            ensures
                self@.lines == lines0,
                self@.cfg == cfg0,
                pos_wf(lines0, self@.pos),
                word@ == scan_run(lines0, pos0, pred).text,
                self@.pos == scan_run(lines0, pos0, pred).end,
            decreases rem(lines0, self@.pos),
        {
            let ghost cur = self@.pos;
            let c_opt = self.get_next_char();
            match c_opt {
                Some(c) => {
                    if c != ' ' && !contains_char(&self.config.consider_as_symbols, c)
                        && !contains_char(&self.config.consider_as_operators, c) {
                        proof {
                            assert(pred(c) == is_word_char(cfg0, c));
                            assert(scan_run(lines0, cur, pred).text == seq![c] + scan_run(
                                lines0,
                                stepped(lines0, cur),
                                pred,
                            ).text);
                            crate::model::lemma_advanced_one(lines0, cur);
                            crate::model::lemma_step_decreases(lines0, cur);
                        }
                        let ghost word0 = word@;
                        push_char(&mut word, c);
                        self.consume(1);
                        proof {
                            let rest = scan_run(lines0, self@.pos, pred).text;
                            assert(word0.push(c) =~= word0 + seq![c]);
                            assert(word0 + (seq![c] + rest) =~= (word0 + seq![c]) + rest);
                        }
                    } else {
                        proof {
                            assert(!pred(c));
                            assert(scan_run(lines0, cur, pred).text =~= Seq::<char>::empty());
                            assert(word@ + Seq::<char>::empty() =~= word@);
                        }
                        break;
                    }
                },
                None => {
                    proof {
                        assert(scan_run(lines0, cur, pred).text =~= Seq::<char>::empty());
                        assert(word@ + Seq::<char>::empty() =~= word@);
                    }
                    break;
                },
            }
        }
        proof {
            assert(start_ln as int == pos0.ln && start_col as int == pos0.col);
        }
        Ok(
            Token {
                kind: TokenType::Word,
                value: Box::new(word),
                loc: Loc(start_ln, start_col),
            },
        )
    }

    /// Scans a binary literal: consumes the `0b` prefix, which is not
    /// retained, then accumulates binary digits.
    fn parse_binary(&mut self) -> (r: Result<Token, TokenizationError>)
        requires
            pos_wf(old(self)@.lines, old(self)@.pos),
        ensures
            pos_wf(final(self)@.lines, final(self)@.pos),
            ({
                let s = scan_binary(old(self)@.lines, old(self)@.pos);
                &&& final(self)@ == (SpecTokenizer { pos: s.end, ..old(self)@ })
                &&& r matches Ok(t) && t@ == spec_token(
                    TokenType::Number(NumberType::Binary),
                    s.text,
                    old(self)@.pos,
                )
            }),
    {
        let ghost lines0 = self@.lines;
        let ghost pos0 = self@.pos;
        let ghost pred = binary_pred();
        let mut num = String::new();
        let start_ln = self.ln;
        let start_col = self.col;
        self.consume(2);
        proof {
            assert(Seq::<char>::empty() + scan_run(lines0, self@.pos, pred).text =~= scan_run(
                lines0,
                self@.pos,
                pred,
            ).text);
        }
        loop
            invariant
                self@.lines == lines0,
                self@.cfg == old(self)@.cfg,
                pred == binary_pred(),
                pos_wf(lines0, self@.pos),
                scan_run(lines0, advanced(lines0, pos0, 2), pred).text == num@ + scan_run(
                    lines0,
                    self@.pos,
                    pred,
                ).text,
                scan_run(lines0, advanced(lines0, pos0, 2), pred).end == scan_run(
                    lines0,
                    self@.pos,
                    pred,
                ).end,
            ensures
                self@.lines == lines0,
                self@.cfg == old(self)@.cfg,
                pos_wf(lines0, self@.pos),
                num@ == scan_run(lines0, advanced(lines0, pos0, 2), pred).text,
                self@.pos == scan_run(lines0, advanced(lines0, pos0, 2), pred).end,
            decreases rem(lines0, self@.pos),
        {
            let ghost cur = self@.pos;
            match self.get_next_char() {
                Some(c) => {
                    if is_binary_digit(c) {
                        proof {
                            assert(pred(c) == is_binary_char(c));
                            assert(scan_run(lines0, cur, pred).text == seq![c] + scan_run(
                                lines0,
                                stepped(lines0, cur),
                                pred,
                            ).text);
                            crate::model::lemma_advanced_one(lines0, cur);
                            crate::model::lemma_step_decreases(lines0, cur);
                        }
                        let ghost num0 = num@;
                        push_char(&mut num, c);
                        self.consume(1);
                        proof {
                            let rest = scan_run(lines0, self@.pos, pred).text;
                            assert(num0.push(c) =~= num0 + seq![c]);
                            assert(num0 + (seq![c] + rest) =~= (num0 + seq![c]) + rest);
                        }
                    } else {
                        proof {
                            assert(!pred(c));
                            assert(num@ + Seq::<char>::empty() =~= num@);
                        }
                        break;
                    }
                },
                None => {
                    proof {
                        assert(num@ + Seq::<char>::empty() =~= num@);
                    }
                    break;
                },
            }
        }
        Ok(
            Token {
                kind: TokenType::Number(NumberType::Binary),
                value: Box::new(num),
                loc: Loc(start_ln, start_col),
            },
        )
    }

    /// Scans a hexadecimal literal: consumes the `0x` prefix, which is not
    /// retained, then accumulates hexadecimal digits.
    fn parse_hex(&mut self) -> (r: Result<Token, TokenizationError>)
        requires
            pos_wf(old(self)@.lines, old(self)@.pos),
        ensures
            pos_wf(final(self)@.lines, final(self)@.pos),
            ({
                let s = scan_hex(old(self)@.lines, old(self)@.pos);
                &&& final(self)@ == (SpecTokenizer { pos: s.end, ..old(self)@ })
                &&& r matches Ok(t) && t@ == spec_token(
                    TokenType::Number(NumberType::Hex),
                    s.text,
                    old(self)@.pos,
                )
            }),
    {
        let ghost lines0 = self@.lines;
        let ghost pos0 = self@.pos;
        let ghost pred = hex_pred();
        let mut num = String::new();
        let start_ln = self.ln;
        let start_col = self.col;
        self.consume(2);
        proof {
            assert(Seq::<char>::empty() + scan_run(lines0, self@.pos, pred).text =~= scan_run(
                lines0,
                self@.pos,
                pred,
            ).text);
        }
        loop
            invariant
                self@.lines == lines0,
                self@.cfg == old(self)@.cfg,
                pred == hex_pred(),
                pos_wf(lines0, self@.pos),
                scan_run(lines0, advanced(lines0, pos0, 2), pred).text == num@ + scan_run(
                    lines0,
                    self@.pos,
                    pred,
                ).text,
                scan_run(lines0, advanced(lines0, pos0, 2), pred).end == scan_run(
                    lines0,
                    self@.pos,
                    pred,
                ).end,
            ensures
                self@.lines == lines0,
                self@.cfg == old(self)@.cfg,
                pos_wf(lines0, self@.pos),
                num@ == scan_run(lines0, advanced(lines0, pos0, 2), pred).text,
                self@.pos == scan_run(lines0, advanced(lines0, pos0, 2), pred).end,
            decreases rem(lines0, self@.pos),
        {
            let ghost cur = self@.pos;
            match self.get_next_char() {
                Some(c) => {
                    if is_ascii_hexdigit(c) {
                        proof {
                            assert(pred(c) == is_hex_char(c));
                            assert(scan_run(lines0, cur, pred).text == seq![c] + scan_run(
                                lines0,
                                stepped(lines0, cur),
                                pred,
                            ).text);
                            crate::model::lemma_advanced_one(lines0, cur);
                            crate::model::lemma_step_decreases(lines0, cur);
                        }
                        let ghost num0 = num@;
                        push_char(&mut num, c);
                        self.consume(1);
                        proof {
                            let rest = scan_run(lines0, self@.pos, pred).text;
                            assert(num0.push(c) =~= num0 + seq![c]);
                            assert(num0 + (seq![c] + rest) =~= (num0 + seq![c]) + rest);
                        }
                    } else {
                        proof {
                            assert(!pred(c));
                            assert(num@ + Seq::<char>::empty() =~= num@);
                        }
                        break;
                    }
                },
                None => {
                    proof {
                        assert(num@ + Seq::<char>::empty() =~= num@);
                    }
                    break;
                },
            }
        }
        Ok(
            Token {
                kind: TokenType::Number(NumberType::Hex),
                value: Box::new(num),
                loc: Loc(start_ln, start_col),
            },
        )
    }

    /// Scans an octal literal: consumes the `0o` prefix, which is not
    /// retained, then accumulates octal digits.
    fn parse_octal(&mut self) -> (r: Result<Token, TokenizationError>)
        requires
            pos_wf(old(self)@.lines, old(self)@.pos),
        ensures
            pos_wf(final(self)@.lines, final(self)@.pos),
            ({
                let s = scan_octal(old(self)@.lines, old(self)@.pos);
                &&& final(self)@ == (SpecTokenizer { pos: s.end, ..old(self)@ })
                &&& r matches Ok(t) && t@ == spec_token(
                    TokenType::Number(NumberType::Octal),
                    s.text,
                    old(self)@.pos,
                )
            }),
    {
        let ghost lines0 = self@.lines;
        let ghost pos0 = self@.pos;
        let ghost pred = octal_pred();
        let mut num = String::new();
        let start_ln = self.ln;
        let start_col = self.col;
        self.consume(2);
        proof {
            assert(Seq::<char>::empty() + scan_run(lines0, self@.pos, pred).text =~= scan_run(
                lines0,
                self@.pos,
                pred,
            ).text);
        }
        loop
            invariant
                self@.lines == lines0,
                self@.cfg == old(self)@.cfg,
                pred == octal_pred(),
                pos_wf(lines0, self@.pos),
                scan_run(lines0, advanced(lines0, pos0, 2), pred).text == num@ + scan_run(
                    lines0,
                    self@.pos,
                    pred,
                ).text,
                scan_run(lines0, advanced(lines0, pos0, 2), pred).end == scan_run(
                    lines0,
                    self@.pos,
                    pred,
                ).end,
            ensures
                self@.lines == lines0,
                self@.cfg == old(self)@.cfg,
                pos_wf(lines0, self@.pos),
                num@ == scan_run(lines0, advanced(lines0, pos0, 2), pred).text,
                self@.pos == scan_run(lines0, advanced(lines0, pos0, 2), pred).end,
            decreases rem(lines0, self@.pos),
        {
            let ghost cur = self@.pos;
            match self.get_next_char() {
                Some(c) => {
                    if is_ascii_octdigit(c) {
                        proof {
                            assert(pred(c) == is_octal_char(c));
                            assert(scan_run(lines0, cur, pred).text == seq![c] + scan_run(
                                lines0,
                                stepped(lines0, cur),
                                pred,
                            ).text);
                            crate::model::lemma_advanced_one(lines0, cur);
                            crate::model::lemma_step_decreases(lines0, cur);
                        }
                        let ghost num0 = num@;
                        push_char(&mut num, c);
                        self.consume(1);
                        proof {
                            let rest = scan_run(lines0, self@.pos, pred).text;
                            assert(num0.push(c) =~= num0 + seq![c]);
                            assert(num0 + (seq![c] + rest) =~= (num0 + seq![c]) + rest);
                        }
                    } else {
                        proof {
                            assert(!pred(c));
                            assert(num@ + Seq::<char>::empty() =~= num@);
                        }
                        break;
                    }
                },
                None => {
                    proof {
                        assert(num@ + Seq::<char>::empty() =~= num@);
                    }
                    break;
                },
            }
        }
        Ok(
            Token {
                kind: TokenType::Number(NumberType::Octal),
                value: Box::new(num),
                loc: Loc(start_ln, start_col),
            },
        )
    }

    /// Scans a float: a leading `.` is consumed and stands for `0.`; then
    /// digits and at most one further `.` are accumulated, a second `.`
    /// ending the scan before it.
    fn parse_float(&mut self) -> (r: Result<Token, TokenizationError>)
        requires
            pos_wf(old(self)@.lines, old(self)@.pos),
            classify(old(self)@.lines, old(self)@.pos) == OutOfBound::Within,
        ensures
            pos_wf(final(self)@.lines, final(self)@.pos),
            ({
                let s = crate::model::scan_float(old(self)@.lines, old(self)@.pos);
                &&& final(self)@ == (SpecTokenizer { pos: s.end, ..old(self)@ })
                &&& r matches Ok(t) && t@ == spec_token(
                    TokenType::Number(NumberType::Float),
                    s.text,
                    old(self)@.pos,
                )
            }),
    {
        let ghost lines0 = self@.lines;
        let ghost pos0 = self@.pos;
        let mut float = String::new();
        let start_ln = self.ln;
        let start_col = self.col;
        let mut encountered_dot = false;
        if self.get_next_char().unwrap() == '.' {
            push_char(&mut float, '0');
            push_char(&mut float, '.');
            encountered_dot = true;
            self.consume(1);
            proof {
                crate::model::lemma_advanced_one(lines0, pos0);
                assert(float@ =~= seq!['0', '.']);
                assert(seq!['0', '.'] + crate::model::scan_float_tail(
                    lines0,
                    self@.pos,
                    true,
                ).text =~= float@ + crate::model::scan_float_tail(lines0, self@.pos, true).text);
            }
        } else {
            proof {
                assert(Seq::<char>::empty() + crate::model::scan_float_tail(
                    lines0,
                    self@.pos,
                    false,
                ).text =~= crate::model::scan_float_tail(lines0, self@.pos, false).text);
            }
        }
        loop
            invariant
                self@.lines == lines0,
                self@.cfg == old(self)@.cfg,
                pos_wf(lines0, self@.pos),
                crate::model::scan_float(lines0, pos0).text == float@
                    + crate::model::scan_float_tail(lines0, self@.pos, encountered_dot).text,
                crate::model::scan_float(lines0, pos0).end == crate::model::scan_float_tail(
                    lines0,
                    self@.pos,
                    encountered_dot,
                ).end,
            ensures
                self@.lines == lines0,
                self@.cfg == old(self)@.cfg,
                pos_wf(lines0, self@.pos),
                float@ == crate::model::scan_float(lines0, pos0).text,
                self@.pos == crate::model::scan_float(lines0, pos0).end,
            decreases rem(lines0, self@.pos),
        {
            let ghost cur = self@.pos;
            let ghost dot0 = encountered_dot;
            match self.get_next_char() {
                Some(c) => {
                    if is_ascii_digit(c) {
                        proof {
                            assert(crate::model::scan_float_tail(lines0, cur, dot0).text == seq![c]
                                + crate::model::scan_float_tail(
                                lines0,
                                stepped(lines0, cur),
                                dot0,
                            ).text);
                            crate::model::lemma_advanced_one(lines0, cur);
                            crate::model::lemma_step_decreases(lines0, cur);
                        }
                        let ghost float0 = float@;
                        push_char(&mut float, c);
                        self.consume(1);
                        proof {
                            let rest = crate::model::scan_float_tail(
                                lines0,
                                self@.pos,
                                encountered_dot,
                            ).text;
                            assert(float0.push(c) =~= float0 + seq![c]);
                            assert(float0 + (seq![c] + rest) =~= (float0 + seq![c]) + rest);
                        }
                    } else if c == '.' {
                        if encountered_dot {
                            proof {
                                assert(crate::model::scan_float_tail(lines0, cur, dot0).text
                                    =~= Seq::<char>::empty());
                                assert(float@ + Seq::<char>::empty() =~= float@);
                            }
                            break;
                        } else {
                            proof {
                                assert(crate::model::scan_float_tail(lines0, cur, false).text
                                    == seq!['.'] + crate::model::scan_float_tail(
                                    lines0,
                                    stepped(lines0, cur),
                                    true,
                                ).text);
                                crate::model::lemma_advanced_one(lines0, cur);
                                crate::model::lemma_step_decreases(lines0, cur);
                            }
                            let ghost float0 = float@;
                            push_char(&mut float, '.');
                            encountered_dot = true;
                            self.consume(1);
                            proof {
                                let rest = crate::model::scan_float_tail(
                                    lines0,
                                    self@.pos,
                                    true,
                                ).text;
                                assert(float0.push('.') =~= float0 + seq!['.']);
                                assert(float0 + (seq!['.'] + rest) =~= (float0 + seq!['.'])
                                    + rest);
                            }
                        }
                    } else {
                        proof {
                            assert(crate::model::scan_float_tail(lines0, cur, dot0).text
                                =~= Seq::<char>::empty());
                            assert(float@ + Seq::<char>::empty() =~= float@);
                        }
                        break;
                    }
                },
                None => {
                    proof {
                        assert(crate::model::scan_float_tail(lines0, cur, dot0).text
                            =~= Seq::<char>::empty());
                        assert(float@ + Seq::<char>::empty() =~= float@);
                    }
                    break;
                },
            }
        }
        Ok(
            Token {
                kind: TokenType::Number(NumberType::Float),
                value: Box::new(float),
                loc: Loc(start_ln, start_col),
            },
        )
    }

    /// Scans a decimal number: digits, at most one `.` (which makes it a
    /// float), and, where configured, digit separators that must be followed
    /// by a digit and are not retained in the text. A separator not followed
    /// by a digit aborts with `UnexpectedDigitSeparator`, located at the
    /// token's line and the running column count.
    fn parse_number(&mut self) -> (r: Result<Token, TokenizationError>)
        requires
            pos_wf(old(self)@.lines, old(self)@.pos),
            weights_from(old(self)@.lines, 0) <= usize::MAX,
            classify(old(self)@.lines, old(self)@.pos) == OutOfBound::Within,
        ensures
            pos_wf(final(self)@.lines, final(self)@.pos),
            final(self)@.lines == old(self)@.lines,
            final(self)@.cfg == old(self)@.cfg,
            ({
                match crate::model::num_step(old(self)@.lines, old(self)@.cfg, old(self)@.pos) {
                    Ok(te) => r matches Ok(t) && t@ == te.0 && final(self)@.pos == te.1,
                    Err(e) => r matches Err(x) && x@ == e,
                }
            }),
    {
        let ghost lines0 = self@.lines;
        let ghost cfg0 = self@.cfg;
        let ghost pos0 = self@.pos;
        let ghost sep = cfg0.digit_separator;
        let mut num_type = NumberType::Sequential;
        let mut parsing_float = false;
        let mut num = String::new();
        let start_ln = self.ln;
        let start_col = self.col;
        let mut inner_col = self.col;
        proof {
            crate::model::lemma_col_rem_bound(lines0, pos0);
            assert(Seq::<char>::empty() + Seq::<char>::empty() =~= Seq::<char>::empty());
        }
        loop
            invariant
                lines0 == old(self)@.lines,
                cfg0 == old(self)@.cfg,
                pos0 == old(self)@.pos,
                self@.lines == lines0,
                self@.cfg == cfg0,
                sep == cfg0.digit_separator,
                start_ln as int == pos0.ln,
                pos_wf(lines0, self@.pos),
                weights_from(lines0, 0) <= usize::MAX,
                inner_col as int + rem(lines0, self@.pos) <= weights_from(lines0, 0),
                num_type == (if parsing_float {
                    NumberType::Float
                } else {
                    NumberType::Sequential
                }),
                crate::model::scan_number_tail(lines0, sep, pos0, false, pos0.col) == (match crate::model::scan_number_tail(
                    lines0,
                    sep,
                    self@.pos,
                    parsing_float,
                    inner_col as int,
                ) {
                    Ok(rest) => Ok::<crate::model::NumOut, int>(crate::model::NumOut {
                        text: num@ + rest.text,
                        end: rest.end,
                        is_float: rest.is_float,
                    }),
                    Err(e) => Err(e),
                }),
            ensures
                self@.lines == lines0,
                self@.cfg == cfg0,
                pos_wf(lines0, self@.pos),
                num_type == (if parsing_float {
                    NumberType::Float
                } else {
                    NumberType::Sequential
                }),
                crate::model::scan_number_tail(lines0, sep, pos0, false, pos0.col) == Ok::<
                    crate::model::NumOut,
                    int,
                >(crate::model::NumOut { text: num@, end: self@.pos, is_float: parsing_float }),
            decreases rem(lines0, self@.pos),
        {
            let ghost cur = self@.pos;
            let ghost dot0 = parsing_float;
            let ghost icol0 = inner_col as int;
            match self.get_next_char() {
                Some(c) => {
                    if is_ascii_digit(c) {
                        proof {
                            crate::model::lemma_advanced_one(lines0, cur);
                            crate::model::lemma_step_decreases(lines0, cur);
                        }
                        let ghost num0 = num@;
                        push_char(&mut num, c);
                        inner_col = inner_col + 1;
                        self.consume(1);
                        proof {
                            match crate::model::scan_number_tail(
                                lines0,
                                sep,
                                self@.pos,
                                parsing_float,
                                inner_col as int,
                            ) {
                                Ok(rest) => {
                                    assert(num0.push(c) =~= num0 + seq![c]);
                                    assert(num0 + (seq![c] + rest.text) =~= (num0 + seq![c])
                                        + rest.text);
                                },
                                Err(_) => {},
                            }
                        }
                    } else if c == '.' {
                        if parsing_float {
                            proof {
                                assert(num@ + Seq::<char>::empty() =~= num@);
                            }
                            break;
                        } else {
                            proof {
                                crate::model::lemma_advanced_one(lines0, cur);
                                crate::model::lemma_step_decreases(lines0, cur);
                            }
                            let ghost num0 = num@;
                            parsing_float = true;
                            num_type = NumberType::Float;
                            push_char(&mut num, '.');
                            inner_col = inner_col + 1;
                            self.consume(1);
                            proof {
                                match crate::model::scan_number_tail(
                                    lines0,
                                    sep,
                                    self@.pos,
                                    true,
                                    inner_col as int,
                                ) {
                                    Ok(rest) => {
                                        assert(num0.push('.') =~= num0 + seq!['.']);
                                        assert(num0 + (seq!['.'] + rest.text) =~= (num0
                                            + seq!['.']) + rest.text);
                                    },
                                    Err(_) => {},
                                }
                            }
                        }
                    } else {
                        let sep_matches = match self.config.allow_digit_separator {
                            crate::config::Choice::Yes(with) => c == with,
                            crate::config::Choice::No => false,
                        };
                        if sep_matches {
                            {
                                proof {
                                    crate::model::lemma_advanced_one(lines0, cur);
                                    crate::model::lemma_step_decreases(lines0, cur);
                                }
                                self.consume(1);
                                let ghost q = self@.pos;
                                match self.get_next_char() {
                                    Some(next_char) => {
                                        if !is_ascii_digit(next_char) {
                                            return Err(
                                                TokenizationError::UnexpectedDigitSeparator(
                                                    Loc(start_ln, inner_col),
                                                ),
                                            );
                                        } else {
                                            proof {
                                                crate::model::lemma_advanced_one(lines0, q);
                                                crate::model::lemma_step_decreases(lines0, q);
                                            }
                                            let ghost num0 = num@;
                                            push_char(&mut num, next_char);
                                            inner_col = inner_col + 1;
                                            self.consume(1);
                                            proof {
                                                match crate::model::scan_number_tail(
                                                    lines0,
                                                    sep,
                                                    self@.pos,
                                                    parsing_float,
                                                    inner_col as int,
                                                ) {
                                                    Ok(rest) => {
                                                        assert(num0.push(next_char) =~= num0
                                                            + seq![next_char]);
                                                        assert(num0 + (seq![next_char]
                                                            + rest.text) =~= (num0
                                                            + seq![next_char]) + rest.text);
                                                    },
                                                    Err(_) => {},
                                                }
                                            }
                                        }
                                    },
                                    None => {
                                        return Err(
                                            TokenizationError::UnexpectedDigitSeparator(
                                                Loc(start_ln, inner_col),
                                            ),
                                        );
                                    },
                                }
                            }
                        } else {
                            proof {
                                assert(num@ + Seq::<char>::empty() =~= num@);
                            }
                            break;
                        }
                    }
                },
                None => {
                    proof {
                        assert(num@ + Seq::<char>::empty() =~= num@);
                    }
                    break;
                },
            }
        }
        Ok(
            Token {
                kind: TokenType::Number(num_type),
                value: Box::new(num),
                loc: Loc(start_ln, start_col),
            },
        )
    }

    /// Scans a quoted literal with the given delimiter (`"` if none is
    /// given): the delimiters are not retained, the five recognized escapes
    /// are decoded, unrecognized escapes are kept verbatim, and an
    /// unterminated literal silently yields everything scanned.
    fn parse_string(&mut self, delim: Option<char>) -> (r: Result<Token, TokenizationError>)
        requires
            pos_wf(old(self)@.lines, old(self)@.pos),
        ensures
            pos_wf(final(self)@.lines, final(self)@.pos),
            ({
                let d = match delim {
                    Some(d) => d,
                    None => '"',
                };
                let s = crate::model::scan_quoted(old(self)@.lines, d, old(self)@.pos);
                &&& final(self)@ == (SpecTokenizer { pos: s.end, ..old(self)@ })
                &&& r matches Ok(t) && t@ == spec_token(TokenType::Str, s.text, old(self)@.pos)
            }),
    {
        let ghost lines0 = self@.lines;
        let ghost pos0 = self@.pos;
        let mut string = String::new();
        let mut is_escaped = false;
        let start_ln = self.ln;
        let start_col = self.col;
        let delim = match delim {
            Some(d) => d,
            None => '"',
        };
        self.consume(1);
        proof {
            crate::model::lemma_advanced_one(lines0, pos0);
            assert(Seq::<char>::empty() + crate::model::scan_quoted_tail(
                lines0,
                delim,
                self@.pos,
                false,
            ).text =~= crate::model::scan_quoted_tail(lines0, delim, self@.pos, false).text);
        }
        loop
            invariant_except_break
                crate::model::scan_quoted(lines0, delim, pos0).text == string@
                    + crate::model::scan_quoted_tail(lines0, delim, self@.pos, is_escaped).text,
                crate::model::scan_quoted(lines0, delim, pos0).end == crate::model::scan_quoted_tail(
                    lines0,
                    delim,
                    self@.pos,
                    is_escaped,
                ).end,
            invariant
                lines0 == old(self)@.lines,
                pos0 == old(self)@.pos,
                self@.lines == lines0,
                self@.cfg == old(self)@.cfg,
                pos_wf(lines0, self@.pos),
            ensures
                self@.lines == lines0,
                self@.cfg == old(self)@.cfg,
                pos_wf(lines0, self@.pos),
                string@ == crate::model::scan_quoted(lines0, delim, pos0).text,
                self@.pos == crate::model::scan_quoted(lines0, delim, pos0).end,
            decreases rem(lines0, self@.pos),
        {
            let ghost cur = self@.pos;
            let ghost esc0 = is_escaped;
            match self.get_next_char() {
                None => {
                    proof {
                        assert(string@ + Seq::<char>::empty() =~= string@);
                    }
                    break;
                },
                Some(c) => {
                    if c == delim && !is_escaped {
                        proof {
                            crate::model::lemma_advanced_one(lines0, cur);
                            crate::model::lemma_step_decreases(lines0, cur);
                        }
                        self.consume(1);
                        proof {
                            assert(string@ + Seq::<char>::empty() =~= string@);
                        }
                        break;
                    }
                    if c == '\\' && !is_escaped {
                        is_escaped = true;
                        proof {
                            crate::model::lemma_advanced_one(lines0, cur);
                            crate::model::lemma_step_decreases(lines0, cur);
                        }
                        self.consume(1);
                        continue;
                    }
                    if is_escaped {
                        let ghost str0 = string@;
                        if c == 'n' {
                            push_char(&mut string, '\n');
                        } else if c == '0' {
                            push_char(&mut string, '\0');
                        } else if c == 't' {
                            push_char(&mut string, '\t');
                        } else if c == 'r' {
                            push_char(&mut string, '\r');
                        } else if c == '\\' {
                            push_char(&mut string, '\\');
                        } else {
                            push_char(&mut string, '\\');
                            push_char(&mut string, c);
                        }
                        is_escaped = false;
                        proof {
                            assert(string@ =~= str0 + crate::model::escape_decoded(c));
                            crate::model::lemma_advanced_one(lines0, cur);
                            crate::model::lemma_step_decreases(lines0, cur);
                        }
                        self.consume(1);
                        proof {
                            let rest = crate::model::scan_quoted_tail(
                                lines0,
                                delim,
                                self@.pos,
                                false,
                            ).text;
                            assert(str0 + (crate::model::escape_decoded(c) + rest) =~= (str0
                                + crate::model::escape_decoded(c)) + rest);
                        }
                    } else {
                        let ghost str0 = string@;
                        push_char(&mut string, c);
                        proof {
                            crate::model::lemma_advanced_one(lines0, cur);
                            crate::model::lemma_step_decreases(lines0, cur);
                        }
                        self.consume(1);
                        proof {
                            let rest = crate::model::scan_quoted_tail(
                                lines0,
                                delim,
                                self@.pos,
                                false,
                            ).text;
                            assert(str0.push(c) =~= str0 + seq![c]);
                            assert(str0 + (seq![c] + rest) =~= (str0 + seq![c]) + rest);
                        }
                    }
                },
            }
        }
        Ok(
            Token {
                kind: TokenType::Str,
                value: Box::new(string),
                loc: Loc(start_ln, start_col),
            },
        )
    }

    /// Scans what stands between single quotes, through the one shared
    /// quoted-literal routine with `'` as its delimiter. With char-as-string
    /// set the result is a string token; otherwise the decoded content must
    /// be at most one character, and more is a `NotAValidChar` error.
    fn parse_char(&mut self) -> (r: Result<Token, TokenizationError>)
        requires
            pos_wf(old(self)@.lines, old(self)@.pos),
        ensures
            pos_wf(final(self)@.lines, final(self)@.pos),
            ({
                let s = crate::model::scan_quoted(old(self)@.lines, '\'', old(self)@.pos);
                &&& final(self)@ == (SpecTokenizer { pos: s.end, ..old(self)@ })
                &&& if old(self)@.cfg.parse_char_as_string {
                    r matches Ok(t) && t@ == spec_token(TokenType::Str, s.text, old(self)@.pos)
                } else if s.text.len() > 1 {
                    r matches Err(x) && x@ == (ScanError::NotAValidChar {
                        line: old(self)@.pos.ln,
                        col: old(self)@.pos.col,
                    })
                } else {
                    r matches Ok(t) && t@ == spec_token(TokenType::Char, s.text, old(self)@.pos)
                }
            }),
    {
        if self.config.parse_char_as_string {
            self.parse_string(Some('\''))
        } else {
            match self.parse_string(Some('\'')) {
                Ok(t) => {
                    if t.value.as_str().unicode_len() > 1 {
                        Err(TokenizationError::NotAValidChar(t.loc))
                    } else {
                        Ok(Token { kind: TokenType::Char, value: t.value, loc: t.loc })
                    }
                },
                Err(e) => {
                    proof {
                        assert(false);
                    }
                    Err(e)
                },
            }
        }
    }

    /// Tokenizes the input and returns a list of Tokens or a [TokenizationError] if parsing fails.
    ///
    /// The contract pins the result down completely: it is exactly the
    /// mathematical scan [`crate::model::scan_at`] of the tokenizer's line
    /// grid under its configuration, both on success and on failure.
    pub fn tokenize(self) -> (r: Result<Vec<Token>, TokenizationError>)
        requires
            self.wf(),
        ensures
            ({
                let outcome = crate::model::scan_at(self@.lines, self@.cfg, self@.pos);
                match r {
                    Ok(tokens) => outcome matches Ok(ts) && tokens.deep_view() == ts,
                    Err(e) => outcome matches Err(m) && e@ == m,
                }
            }),
    {
        let ghost lines0 = self@.lines;
        let ghost cfg0 = self@.cfg;
        let ghost pos0 = self@.pos;
        let mut this = self;
        let mut tokens: Vec<Token> = Vec::new();
        proof {
            assert(tokens.deep_view() =~= Seq::<crate::token::SpecToken>::empty());
            match crate::model::scan_at(lines0, cfg0, pos0) {
                Ok(ts) => {
                    assert(Seq::<crate::token::SpecToken>::empty() + ts =~= ts);
                },
                Err(_) => {},
            }
        }
        loop
            invariant
                lines0 == self@.lines,
                cfg0 == self@.cfg,
                pos0 == self@.pos,
                this@.lines == lines0,
                this@.cfg == cfg0,
                pos_wf(lines0, this@.pos),
                weights_from(lines0, 0) <= usize::MAX,
                crate::model::scan_at(lines0, cfg0, pos0) == (match crate::model::scan_at(
                    lines0,
                    cfg0,
                    this@.pos,
                ) {
                    Ok(ts) => Ok::<Seq<crate::token::SpecToken>, ScanError>(
                        tokens.deep_view() + ts,
                    ),
                    Err(e) => Err(e),
                }),
            ensures
                crate::model::scan_at(lines0, cfg0, pos0) == Ok::<
                    Seq<crate::token::SpecToken>,
                    ScanError,
                >(tokens.deep_view()),
            decreases rem(lines0, this@.pos),
        {
            let ghost cur = this@.pos;
            let ghost toks0 = tokens.deep_view();
            let bound = this.is_out_of_bound();
            if bound == OutOfBound::Out {
                proof {
                    assert(tokens.deep_view() + Seq::<crate::token::SpecToken>::empty()
                        =~= tokens.deep_view());
                }
                break;
            }
            if bound == OutOfBound::Empty {
                proof {
                    crate::model::lemma_rem_at_line_start(lines0, cur.ln + 1);
                }
                this.next_line();
            } else {
                let next_char = this.get_next_char().unwrap();
                if next_char == ' ' {
                    proof {
                        crate::model::lemma_advanced_one(lines0, cur);
                        crate::model::lemma_step_decreases(lines0, cur);
                    }
                    this.consume(1);
                } else if is_ascii_digit(next_char) && !this.config.ignore_numbers {
                    let mut radix_done = false;
                    if next_char == '0' {
                        match this.peek_tok() {
                            Some(c) => {
                                if c == 'x' {
                                    let ghost s = crate::model::scan_hex(lines0, cur);
                                    match this.parse_hex() {
                                        Ok(t) => {
                                            tokens.push(t);
                                            proof {
                                                assert(tokens.deep_view() =~= toks0 + seq![t@]);
                                                crate::model::lemma_cons_step(
                                                    crate::model::scan_at(lines0, cfg0, pos0),
                                                    lines0,
                                                    cfg0,
                                                    cur,
                                                    s.end,
                                                    t@,
                                                    toks0,
                                                    tokens.deep_view(),
                                                );
                                                crate::model::lemma_scan_radix_lt(lines0, cur);
                                            }
                                        },
                                        Err(e) => {
                                            proof {
                                                assert(false);
                                            }
                                            return Err(e);
                                        },
                                    }
                                    radix_done = true;
                                } else if c == 'o' {
                                    let ghost s = crate::model::scan_octal(lines0, cur);
                                    match this.parse_octal() {
                                        Ok(t) => {
                                            tokens.push(t);
                                            proof {
                                                assert(tokens.deep_view() =~= toks0 + seq![t@]);
                                                crate::model::lemma_cons_step(
                                                    crate::model::scan_at(lines0, cfg0, pos0),
                                                    lines0,
                                                    cfg0,
                                                    cur,
                                                    s.end,
                                                    t@,
                                                    toks0,
                                                    tokens.deep_view(),
                                                );
                                                crate::model::lemma_scan_radix_lt(lines0, cur);
                                            }
                                        },
                                        Err(e) => {
                                            proof {
                                                assert(false);
                                            }
                                            return Err(e);
                                        },
                                    }
                                    radix_done = true;
                                } else if c == 'b' {
                                    let ghost s = crate::model::scan_binary(lines0, cur);
                                    match this.parse_binary() {
                                        Ok(t) => {
                                            tokens.push(t);
                                            proof {
                                                assert(tokens.deep_view() =~= toks0 + seq![t@]);
                                                crate::model::lemma_cons_step(
                                                    crate::model::scan_at(lines0, cfg0, pos0),
                                                    lines0,
                                                    cfg0,
                                                    cur,
                                                    s.end,
                                                    t@,
                                                    toks0,
                                                    tokens.deep_view(),
                                                );
                                                crate::model::lemma_scan_radix_lt(lines0, cur);
                                            }
                                        },
                                        Err(e) => {
                                            proof {
                                                assert(false);
                                            }
                                            return Err(e);
                                        },
                                    }
                                    radix_done = true;
                                } else if c == '.' {
                                    let ghost s = crate::model::scan_float(lines0, cur);
                                    match this.parse_float() {
                                        Ok(t) => {
                                            tokens.push(t);
                                            proof {
                                                assert(tokens.deep_view() =~= toks0 + seq![t@]);
                                                crate::model::lemma_cons_step(
                                                    crate::model::scan_at(lines0, cfg0, pos0),
                                                    lines0,
                                                    cfg0,
                                                    cur,
                                                    s.end,
                                                    t@,
                                                    toks0,
                                                    tokens.deep_view(),
                                                );
                                                crate::model::lemma_scan_float_lt(lines0, cur);
                                            }
                                        },
                                        Err(e) => {
                                            proof {
                                                assert(false);
                                            }
                                            return Err(e);
                                        },
                                    }
                                    radix_done = true;
                                }
                            },
                            None => {},
                        }
                    }
                    if !radix_done {
                        match this.parse_number() {
                            Ok(t) => {
                                tokens.push(t);
                                proof {
                                    match crate::model::num_step(lines0, cfg0, cur) {
                                        Ok(te) => {
                                            assert(crate::model::scan_at(lines0, cfg0, cur)
                                                == crate::model::cons_token(
                                                te.0,
                                                crate::model::scan_at(lines0, cfg0, te.1),
                                            ));
                                            assert(tokens.deep_view() =~= toks0 + seq![t@]);
                                            crate::model::lemma_cons_step(
                                                crate::model::scan_at(lines0, cfg0, pos0),
                                                lines0,
                                                cfg0,
                                                cur,
                                                te.1,
                                                t@,
                                                toks0,
                                                tokens.deep_view(),
                                            );
                                            crate::model::lemma_scan_number_lt(
                                                lines0,
                                                cfg0.digit_separator,
                                                cur,
                                            );
                                        },
                                        Err(_) => {
                                            assert(false);
                                        },
                                    }
                                }
                            },
                            Err(e) => {
                                return Err(e);
                            },
                        }
                    }
                } else if next_char == '.' {
                    let peeked = this.peek_tok();
                    let mut float_ahead = false;
                    match peeked {
                        Some(c) => {
                            if c == '\n' {
                                float_ahead = false;
                            } else if is_ascii_digit(c) && !this.config.ignore_numbers {
                                float_ahead = true;
                            }
                        },
                        None => {},
                    }
                    if float_ahead {
                        let ghost s = crate::model::scan_float(lines0, cur);
                        match this.parse_float() {
                            Ok(t) => {
                                tokens.push(t);
                                proof {
                                    assert(tokens.deep_view() =~= toks0 + seq![t@]);
                                    crate::model::lemma_cons_step(
                                        crate::model::scan_at(lines0, cfg0, pos0),
                                        lines0,
                                        cfg0,
                                        cur,
                                        s.end,
                                        t@,
                                        toks0,
                                        tokens.deep_view(),
                                    );
                                    crate::model::lemma_scan_float_lt(lines0, cur);
                                }
                            },
                            Err(e) => {
                                proof {
                                    assert(false);
                                }
                                return Err(e);
                            },
                        }
                    } else {
                        let mut text = String::new();
                        push_char(&mut text, '.');
                        let t = Token {
                            kind: TokenType::Symbol,
                            value: Box::new(text),
                            loc: Loc(this.ln, this.col),
                        };
                        proof {
                            assert(t@.text =~= seq!['.']);
                        }
                        tokens.push(t);
                        proof {
                            assert(tokens.deep_view() =~= toks0 + seq![t@]);
                            crate::model::lemma_advanced_one(lines0, cur);
                            crate::model::lemma_step_decreases(lines0, cur);
                            crate::model::lemma_cons_step(
                                crate::model::scan_at(lines0, cfg0, pos0),
                                lines0,
                                cfg0,
                                cur,
                                stepped(lines0, cur),
                                t@,
                                toks0,
                                tokens.deep_view(),
                            );
                        }
                        this.consume(1);
                    }
                } else if next_char == '"' {
                    let ghost s = crate::model::scan_quoted(lines0, '"', cur);
                    match this.parse_string(None) {
                        Ok(t) => {
                            tokens.push(t);
                            proof {
                                assert(tokens.deep_view() =~= toks0 + seq![t@]);
                                crate::model::lemma_cons_step(
                                    crate::model::scan_at(lines0, cfg0, pos0),
                                    lines0,
                                    cfg0,
                                    cur,
                                    s.end,
                                    t@,
                                    toks0,
                                    tokens.deep_view(),
                                );
                                crate::model::lemma_scan_quoted_lt(lines0, '"', cur);
                            }
                        },
                        Err(e) => {
                            proof {
                                assert(false);
                            }
                            return Err(e);
                        },
                    }
                } else if next_char == '\'' {
                    match this.parse_char() {
                        Ok(t) => {
                            tokens.push(t);
                            proof {
                                assert(tokens.deep_view() =~= toks0 + seq![t@]);
                                if cfg0.parse_char_as_string {
                                    let s = crate::model::scan_quoted(lines0, '\'', cur);
                                    crate::model::lemma_cons_step(
                                        crate::model::scan_at(lines0, cfg0, pos0),
                                        lines0,
                                        cfg0,
                                        cur,
                                        s.end,
                                        t@,
                                        toks0,
                                        tokens.deep_view(),
                                    );
                                    crate::model::lemma_scan_quoted_lt(lines0, '\'', cur);
                                } else {
                                    let s = crate::model::scan_quoted(lines0, '\'', cur);
                                    crate::model::lemma_cons_step(
                                        crate::model::scan_at(lines0, cfg0, pos0),
                                        lines0,
                                        cfg0,
                                        cur,
                                        s.end,
                                        t@,
                                        toks0,
                                        tokens.deep_view(),
                                    );
                                    crate::model::lemma_scan_quoted_lt(lines0, '\'', cur);
                                }
                            }
                        },
                        Err(e) => {
                            return Err(e);
                        },
                    }
                } else if contains_char(&this.config.consider_as_symbols, next_char) {
                    let mut text = String::new();
                    push_char(&mut text, next_char);
                    let t = Token {
                        kind: TokenType::Symbol,
                        value: Box::new(text),
                        loc: Loc(this.ln, this.col),
                    };
                    proof {
                        assert(t@.text =~= seq![next_char]);
                    }
                    tokens.push(t);
                    proof {
                        assert(tokens.deep_view() =~= toks0 + seq![t@]);
                        crate::model::lemma_advanced_one(lines0, cur);
                        crate::model::lemma_step_decreases(lines0, cur);
                        crate::model::lemma_cons_step(
                            crate::model::scan_at(lines0, cfg0, pos0),
                            lines0,
                            cfg0,
                            cur,
                            stepped(lines0, cur),
                            t@,
                            toks0,
                            tokens.deep_view(),
                        );
                    }
                    this.consume(1);
                } else if contains_char(&this.config.consider_as_operators, next_char) {
                    let mut text = String::new();
                    push_char(&mut text, next_char);
                    let t = Token {
                        kind: TokenType::Operator,
                        value: Box::new(text),
                        loc: Loc(this.ln, this.col),
                    };
                    proof {
                        assert(t@.text =~= seq![next_char]);
                    }
                    tokens.push(t);
                    proof {
                        assert(tokens.deep_view() =~= toks0 + seq![t@]);
                        crate::model::lemma_advanced_one(lines0, cur);
                        crate::model::lemma_step_decreases(lines0, cur);
                        crate::model::lemma_cons_step(
                            crate::model::scan_at(lines0, cfg0, pos0),
                            lines0,
                            cfg0,
                            cur,
                            stepped(lines0, cur),
                            t@,
                            toks0,
                            tokens.deep_view(),
                        );
                    }
                    this.consume(1);
                } else {
                    let ghost s = crate::model::scan_word(lines0, cfg0, cur);
                    match this.parse_word() {
                        Ok(t) => {
                            tokens.push(t);
                            proof {
                                assert(tokens.deep_view() =~= toks0 + seq![t@]);
                                crate::model::lemma_cons_step(
                                    crate::model::scan_at(lines0, cfg0, pos0),
                                    lines0,
                                    cfg0,
                                    cur,
                                    s.end,
                                    t@,
                                    toks0,
                                    tokens.deep_view(),
                                );
                                assert(word_pred(cfg0)(next_char) == is_word_char(
                                    cfg0,
                                    next_char,
                                ));
                                crate::model::lemma_scan_run_lt(lines0, cur, word_pred(cfg0));
                            }
                        },
                        Err(e) => {
                            proof {
                                assert(false);
                            }
                            return Err(e);
                        },
                    }
                }
            }
        }
        Ok(tokens)
    }


}

} // verus!
