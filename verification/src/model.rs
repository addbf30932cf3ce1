//! The mathematical model of the scan.
//!
//! The input is modelled as a grid of characters: a sequence of lines, each a
//! sequence of characters. A cursor is a line/column pair. The spec functions
//! here classify cursor positions, advance them, and define, for every
//! position and configuration, exactly which tokens the scan produces. The
//! executable scanner's contracts equate its results with these functions.

use vstd::prelude::*;

use crate::config::SpecConfig;
use crate::error::ScanError;
use crate::token::NumberType;
use crate::token::SpecToken;
use crate::token::TokenType;

verus! {

/// A cursor position in the line grid: line `ln`, column `col`.
pub struct Pos {
    pub ln: int,
    pub col: int,
}

/// Classification of a cursor position relative to the input grid.
#[derive(Clone, Copy, Debug, PartialEq, Eq, Structural)]
pub enum OutOfBound {
    /// The position's line exists but holds no characters
    Empty,
    /// The position lies past the input
    Out,
    /// The position rests on a character
    Within,
}

/// Where a position lies: past the last line is `Out`; on an existing line
/// without characters is `Empty`; past the end of a non-empty line is `Out`;
/// otherwise the position rests on a character and is `Within`.
pub open spec fn classify(lines: Seq<Seq<char>>, p: Pos) -> OutOfBound {
    if p.ln < 0 || p.ln >= lines.len() {
        OutOfBound::Out
    } else if lines[p.ln].len() == 0 {
        OutOfBound::Empty
    } else if p.col < 0 || p.col >= lines[p.ln].len() {
        OutOfBound::Out
    } else {
        OutOfBound::Within
    }
}

/// The character under a `Within` position.
pub open spec fn char_at(lines: Seq<Seq<char>>, p: Pos) -> char {
    lines[p.ln][p.col]
}

/// The character under the cursor, if the cursor rests on one.
pub open spec fn cur_at(lines: Seq<Seq<char>>, p: Pos) -> Option<char> {
    if classify(lines, p) == OutOfBound::Within {
        Some(char_at(lines, p))
    } else {
        None
    }
}

/// One cursor advance. Past the input it is a no-op; at the last column of a
/// line (or on an empty line) it moves to column 0 of the next line;
/// otherwise it moves one column to the right.
pub open spec fn stepped(lines: Seq<Seq<char>>, p: Pos) -> Pos {
    if p.ln >= lines.len() {
        p
    } else if p.col + 1 >= lines[p.ln].len() {
        Pos { ln: p.ln + 1, col: 0 }
    } else {
        Pos { ln: p.ln, col: p.col + 1 }
    }
}

/// `n` cursor advances.
pub open spec fn advanced(lines: Seq<Seq<char>>, p: Pos, n: nat) -> Pos
    decreases n,
{
    if n == 0 {
        p
    } else {
        advanced(lines, stepped(lines, p), (n - 1) as nat)
    }
}

/// One advance of the hypothetical lookahead cursor. It agrees with
/// [`stepped`] on every position inside the input; past the input it keeps
/// counting lines instead of standing still.
pub open spec fn fake_stepped(lines: Seq<Seq<char>>, p: Pos) -> Pos {
    if p.ln >= lines.len() {
        Pos { ln: p.ln + 1, col: p.col }
    } else if p.col + 1 >= lines[p.ln].len() {
        Pos { ln: p.ln + 1, col: 0 }
    } else {
        Pos { ln: p.ln, col: p.col + 1 }
    }
}

/// `n` advances of the hypothetical lookahead cursor.
pub open spec fn fake_advanced(lines: Seq<Seq<char>>, p: Pos, n: nat) -> Pos
    decreases n,
{
    if n == 0 {
        p
    } else {
        fake_advanced(lines, fake_stepped(lines, p), (n - 1) as nat)
    }
}

/// One character of lookahead: the character one advance ahead of `p`, the
/// synthetic `'\n'` if that position lands on an empty line, or nothing if it
/// lands past the input.
pub open spec fn peek_at(lines: Seq<Seq<char>>, p: Pos) -> Option<char> {
    let q = fake_stepped(lines, p);
    match classify(lines, q) {
        OutOfBound::Empty => Some('\n'),
        OutOfBound::Out => None,
        OutOfBound::Within => Some(char_at(lines, q)),
    }
}

/// How many cursor advances a line absorbs: its length, or one advance for an
/// empty line.
pub open spec fn line_weight(line: Seq<char>) -> nat {
    if line.len() == 0 {
        1
    } else {
        line.len()
    }
}

/// The cursor advances absorbed by the lines from index `i` on.
pub open spec fn weights_from(lines: Seq<Seq<char>>, i: int) -> nat
    decreases lines.len() - i,
{
    if i < 0 || i >= lines.len() {
        0
    } else {
        line_weight(lines[i]) + weights_from(lines, i + 1)
    }
}

/// The cursor advances left from position `p` to past the input: the measure
/// every scanning recursion decreases.
pub open spec fn rem(lines: Seq<Seq<char>>, p: Pos) -> nat {
    if p.ln < 0 || p.ln >= lines.len() {
        0
    } else {
        let here: nat = if lines[p.ln].len() == 0 {
            1
        } else if p.col >= lines[p.ln].len() {
            0
        } else {
            (lines[p.ln].len() - p.col) as nat
        };
        here + weights_from(lines, p.ln + 1)
    }
}

/// The positions a scan can reach: at most one line past the input, and the
/// column either 0 or inside the position's line.
pub open spec fn pos_wf(lines: Seq<Seq<char>>, p: Pos) -> bool {
    &&& 0 <= p.ln <= lines.len()
    &&& (p.col == 0 || (p.ln < lines.len() && 0 < p.col < lines[p.ln].len()))
}

/// The suffix sums of line weights do not grow as the start index grows.
pub proof fn lemma_weights_from_mono(lines: Seq<Seq<char>>, i: int, j: int)
    requires
        0 <= i <= j,
    ensures
        weights_from(lines, i) >= weights_from(lines, j),
    decreases j - i,
{
    if i < j {
        lemma_weights_from_mono(lines, i + 1, j);
    }
}

/// At column 0 of a line inside the input, the remaining advances are exactly
/// the weights of the lines from there on.
pub proof fn lemma_rem_at_line_start(lines: Seq<Seq<char>>, ln: int)
    requires
        0 <= ln,
    ensures
        rem(lines, Pos { ln, col: 0 }) == weights_from(lines, ln),
{
}

/// An advance never increases the measure.
pub proof fn lemma_step_le(lines: Seq<Seq<char>>, p: Pos)
    requires
        0 <= p.ln,
        0 <= p.col,
    ensures
        rem(lines, stepped(lines, p)) <= rem(lines, p),
        0 <= stepped(lines, p).ln,
        0 <= stepped(lines, p).col,
{
    let q = stepped(lines, p);
    if p.ln < lines.len() && p.col + 1 >= lines[p.ln].len() {
        lemma_rem_at_line_start(lines, p.ln + 1);
    }
}

/// An advance from a position that is not past the input strictly decreases
/// the measure.
pub proof fn lemma_step_decreases(lines: Seq<Seq<char>>, p: Pos)
    requires
        classify(lines, p) != OutOfBound::Out,
        0 <= p.col,
    ensures
        rem(lines, stepped(lines, p)) < rem(lines, p),
{
    lemma_rem_at_line_start(lines, p.ln + 1);
}

/// An advance keeps a position well formed.
pub proof fn lemma_step_wf(lines: Seq<Seq<char>>, p: Pos)
    requires
        pos_wf(lines, p),
    ensures
        pos_wf(lines, stepped(lines, p)),
{
}

/// Past the input, advancing is a no-op.
pub proof fn lemma_advanced_out(lines: Seq<Seq<char>>, p: Pos, n: nat)
    requires
        p.ln >= lines.len(),
    ensures
        advanced(lines, p, n) == p,
    decreases n,
{
    if n > 0 {
        lemma_advanced_out(lines, p, (n - 1) as nat);
    }
}

/// A single advance is one step.
pub proof fn lemma_advanced_one(lines: Seq<Seq<char>>, p: Pos)
    ensures
        advanced(lines, p, 1) == stepped(lines, p),
{
    assert(advanced(lines, p, 1) == advanced(lines, stepped(lines, p), 0));
}

/// From a position on a character, the column plus the measure is bounded by
/// the whole measure: the ground for the scanner's column arithmetic.
pub proof fn lemma_col_rem_bound(lines: Seq<Seq<char>>, p: Pos)
    requires
        classify(lines, p) == OutOfBound::Within,
    ensures
        p.col + rem(lines, p) <= weights_from(lines, 0),
{
    lemma_weights_from_mono(lines, 0, p.ln);
}

/// An ASCII decimal digit.
pub open spec fn is_digit_char(c: char) -> bool {
    '0' as int <= c as int <= '9' as int
}

/// An ASCII hexadecimal digit.
pub open spec fn is_hex_char(c: char) -> bool {
    ||| is_digit_char(c)
    ||| 'a' as int <= c as int <= 'f' as int
    ||| 'A' as int <= c as int <= 'F' as int
}

/// An ASCII octal digit.
pub open spec fn is_octal_char(c: char) -> bool {
    '0' as int <= c as int <= '7' as int
}

/// A binary digit.
pub open spec fn is_binary_char(c: char) -> bool {
    c == '0' || c == '1'
}

/// A character that continues a word: not a space and not one of the
/// configured symbol or operator characters.
pub open spec fn is_word_char(cfg: SpecConfig, c: char) -> bool {
    c != ' ' && !cfg.symbols.contains(c) && !cfg.operators.contains(c)
}

/// What a sub-scanner leaves behind: the accumulated text and the position of
/// the first character it did not consume.
pub struct ScanOut {
    pub text: Seq<char>,
    pub end: Pos,
}

/// Accumulates the characters satisfying `pred` from `p` on, advancing one at
/// a time and crossing line boundaries; stops at the first character that
/// does not satisfy `pred`, or past the input, without consuming it.
pub open spec fn scan_run(lines: Seq<Seq<char>>, p: Pos, pred: spec_fn(char) -> bool) -> ScanOut
    decreases rem(lines, p),
    via scan_run_dec
{
    if classify(lines, p) == OutOfBound::Within && pred(char_at(lines, p)) {
        let rest = scan_run(lines, stepped(lines, p), pred);
        ScanOut { text: seq![char_at(lines, p)] + rest.text, end: rest.end }
    } else {
        ScanOut { text: Seq::<char>::empty(), end: p }
    }
}

#[via_fn]
proof fn scan_run_dec(lines: Seq<Seq<char>>, p: Pos, pred: spec_fn(char) -> bool) {
    if classify(lines, p) == OutOfBound::Within && pred(char_at(lines, p)) {
        lemma_step_decreases(lines, p);
    }
}

/// The word predicate as a closure value, shared by definition and lemmas.
pub open spec fn word_pred(cfg: SpecConfig) -> spec_fn(char) -> bool {
    |c: char| is_word_char(cfg, c)
}

/// The hexadecimal-digit predicate as a closure value.
pub open spec fn hex_pred() -> spec_fn(char) -> bool {
    |c: char| is_hex_char(c)
}

/// The octal-digit predicate as a closure value.
pub open spec fn octal_pred() -> spec_fn(char) -> bool {
    |c: char| is_octal_char(c)
}

/// The binary-digit predicate as a closure value.
pub open spec fn binary_pred() -> spec_fn(char) -> bool {
    |c: char| is_binary_char(c)
}

/// The word sub-scanner: a run of non-space, non-symbol, non-operator
/// characters.
pub open spec fn scan_word(lines: Seq<Seq<char>>, cfg: SpecConfig, p: Pos) -> ScanOut {
    scan_run(lines, p, word_pred(cfg))
}

/// The hexadecimal sub-scanner: skips the two-character `0x` prefix, then
/// accumulates hexadecimal digits. The prefix is not part of the text.
pub open spec fn scan_hex(lines: Seq<Seq<char>>, p: Pos) -> ScanOut {
    scan_run(lines, advanced(lines, p, 2), hex_pred())
}

/// The octal sub-scanner: skips the `0o` prefix, then accumulates octal
/// digits.
pub open spec fn scan_octal(lines: Seq<Seq<char>>, p: Pos) -> ScanOut {
    scan_run(lines, advanced(lines, p, 2), octal_pred())
}

/// The binary sub-scanner: skips the `0b` prefix, then accumulates binary
/// digits.
pub open spec fn scan_binary(lines: Seq<Seq<char>>, p: Pos) -> ScanOut {
    scan_run(lines, advanced(lines, p, 2), binary_pred())
}

/// The tail of the float sub-scanner: accumulates digits; a first `.` is
/// accumulated too, a second one ends the scan before it.
pub open spec fn scan_float_tail(lines: Seq<Seq<char>>, p: Pos, seen_dot: bool) -> ScanOut
    decreases rem(lines, p),
    via scan_float_tail_dec
{
    if classify(lines, p) == OutOfBound::Within {
        let c = char_at(lines, p);
        if is_digit_char(c) {
            let rest = scan_float_tail(lines, stepped(lines, p), seen_dot);
            ScanOut { text: seq![c] + rest.text, end: rest.end }
        } else if c == '.' && !seen_dot {
            let rest = scan_float_tail(lines, stepped(lines, p), true);
            ScanOut { text: seq!['.'] + rest.text, end: rest.end }
        } else {
            ScanOut { text: Seq::<char>::empty(), end: p }
        }
    } else {
        ScanOut { text: Seq::<char>::empty(), end: p }
    }
}

#[via_fn]
proof fn scan_float_tail_dec(lines: Seq<Seq<char>>, p: Pos, seen_dot: bool) {
    if classify(lines, p) == OutOfBound::Within {
        lemma_step_decreases(lines, p);
    }
}

/// The float sub-scanner. A leading `.` is consumed and stands for the text
/// `0.`; after that, digits and at most one further `.` are accumulated.
pub open spec fn scan_float(lines: Seq<Seq<char>>, p: Pos) -> ScanOut {
    if classify(lines, p) == OutOfBound::Within && char_at(lines, p) == '.' {
        let rest = scan_float_tail(lines, stepped(lines, p), true);
        ScanOut { text: seq!['0', '.'] + rest.text, end: rest.end }
    } else {
        scan_float_tail(lines, p, false)
    }
}

/// What the decimal sub-scanner leaves behind: the text, the end position,
/// and whether a decimal point was consumed (which turns the token into a
/// float).
pub struct NumOut {
    pub text: Seq<char>,
    pub end: Pos,
    pub is_float: bool,
}

/// The tail of the decimal sub-scanner. Digits are accumulated; a first `.`
/// is accumulated and makes the token a float; a second `.` ends the scan. A
/// configured digit separator must be followed by a digit: the separator is
/// consumed without being retained and the digit is accumulated, and if what
/// follows the separator is not a digit the scan fails with the running
/// column count `icol`, which counts one column per loop step (a separator
/// step consumes two characters but counts one column).
pub open spec fn scan_number_tail(
    lines: Seq<Seq<char>>,
    sep: Option<char>,
    p: Pos,
    seen_dot: bool,
    icol: int,
) -> Result<NumOut, int>
    decreases rem(lines, p),
    via scan_number_tail_dec
{
    if classify(lines, p) != OutOfBound::Within {
        Ok(NumOut { text: Seq::<char>::empty(), end: p, is_float: seen_dot })
    } else {
        let c = char_at(lines, p);
        if is_digit_char(c) {
            match scan_number_tail(lines, sep, stepped(lines, p), seen_dot, icol + 1) {
                Ok(rest) => Ok(NumOut { text: seq![c] + rest.text, end: rest.end, is_float: rest.is_float }),
                Err(e) => Err(e),
            }
        } else if c == '.' {
            if seen_dot {
                Ok(NumOut { text: Seq::<char>::empty(), end: p, is_float: seen_dot })
            } else {
                match scan_number_tail(lines, sep, stepped(lines, p), true, icol + 1) {
                    Ok(rest) => Ok(NumOut { text: seq!['.'] + rest.text, end: rest.end, is_float: rest.is_float }),
                    Err(e) => Err(e),
                }
            }
        } else if sep is Some && c == sep->0 {
            let q = stepped(lines, p);
            if classify(lines, q) == OutOfBound::Within && is_digit_char(char_at(lines, q)) {
                let d = char_at(lines, q);
                match scan_number_tail(lines, sep, stepped(lines, q), seen_dot, icol + 1) {
                    Ok(rest) => Ok(NumOut { text: seq![d] + rest.text, end: rest.end, is_float: rest.is_float }),
                    Err(e) => Err(e),
                }
            } else {
                Err(icol)
            }
        } else {
            Ok(NumOut { text: Seq::<char>::empty(), end: p, is_float: seen_dot })
        }
    }
}

#[via_fn]
proof fn scan_number_tail_dec(
    lines: Seq<Seq<char>>,
    sep: Option<char>,
    p: Pos,
    seen_dot: bool,
    icol: int,
) {
    if classify(lines, p) == OutOfBound::Within {
        lemma_step_decreases(lines, p);
        lemma_step_le(lines, stepped(lines, p));
    }
}

/// The decimal sub-scanner: the tail starting with no decimal point seen and
/// the column count starting at the cursor's column.
pub open spec fn scan_number(lines: Seq<Seq<char>>, sep: Option<char>, p: Pos) -> Result<
    NumOut,
    int,
> {
    scan_number_tail(lines, sep, p, false, p.col)
}

/// What one escape character decodes to: the five recognized escapes yield
/// their control character, any other character is kept verbatim together
/// with the backslash.
pub open spec fn escape_decoded(c: char) -> Seq<char> {
    if c == 'n' {
        seq!['\n']
    } else if c == '0' {
        seq!['\u{0}']
    } else if c == 't' {
        seq!['\t']
    } else if c == 'r' {
        seq!['\r']
    } else if c == '\\' {
        seq!['\\']
    } else {
        seq!['\\', c]
    }
}

/// The tail of the quoted-literal sub-scanner, after the opening delimiter:
/// an unescaped delimiter is consumed and ends the scan; a backslash enters
/// escape mode; in escape mode the character is decoded by
/// [`escape_decoded`]; anything else is accumulated as-is. Running past the
/// input ends the scan silently.
pub open spec fn scan_quoted_tail(lines: Seq<Seq<char>>, delim: char, p: Pos, esc: bool) -> ScanOut
    decreases rem(lines, p),
    via scan_quoted_tail_dec
{
    if classify(lines, p) == OutOfBound::Within {
        let c = char_at(lines, p);
        if c == delim && !esc {
            ScanOut { text: Seq::<char>::empty(), end: stepped(lines, p) }
        } else if c == '\\' && !esc {
            scan_quoted_tail(lines, delim, stepped(lines, p), true)
        } else if esc {
            let rest = scan_quoted_tail(lines, delim, stepped(lines, p), false);
            ScanOut { text: escape_decoded(c) + rest.text, end: rest.end }
        } else {
            let rest = scan_quoted_tail(lines, delim, stepped(lines, p), false);
            ScanOut { text: seq![c] + rest.text, end: rest.end }
        }
    } else {
        ScanOut { text: Seq::<char>::empty(), end: p }
    }
}

#[via_fn]
proof fn scan_quoted_tail_dec(lines: Seq<Seq<char>>, delim: char, p: Pos, esc: bool) {
    if classify(lines, p) == OutOfBound::Within {
        lemma_step_decreases(lines, p);
    }
}

/// The quoted-literal sub-scanner: consumes the opening delimiter (not
/// retained), then runs the tail.
pub open spec fn scan_quoted(lines: Seq<Seq<char>>, delim: char, p: Pos) -> ScanOut {
    scan_quoted_tail(lines, delim, stepped(lines, p), false)
}

/// A run never moves the cursor backwards in the measure, nor to negative
/// coordinates.
pub proof fn lemma_scan_run_end(lines: Seq<Seq<char>>, p: Pos, pred: spec_fn(char) -> bool)
    requires
        0 <= p.ln,
        0 <= p.col,
    ensures
        rem(lines, scan_run(lines, p, pred).end) <= rem(lines, p),
        0 <= scan_run(lines, p, pred).end.ln,
        0 <= scan_run(lines, p, pred).end.col,
    decreases rem(lines, p),
{
    if classify(lines, p) == OutOfBound::Within && pred(char_at(lines, p)) {
        lemma_step_decreases(lines, p);
        lemma_step_le(lines, p);
        lemma_scan_run_end(lines, stepped(lines, p), pred);
    }
}

/// A run whose first character matches strictly decreases the measure.
pub proof fn lemma_scan_run_lt(lines: Seq<Seq<char>>, p: Pos, pred: spec_fn(char) -> bool)
    requires
        classify(lines, p) == OutOfBound::Within,
        pred(char_at(lines, p)),
    ensures
        rem(lines, scan_run(lines, p, pred).end) < rem(lines, p),
        0 <= scan_run(lines, p, pred).end.ln,
        0 <= scan_run(lines, p, pred).end.col,
{
    lemma_step_decreases(lines, p);
    lemma_step_le(lines, p);
    lemma_scan_run_end(lines, stepped(lines, p), pred);
}

/// Two advances never increase the measure, and strictly decrease it from a
/// position on a character.
pub proof fn lemma_advanced_two(lines: Seq<Seq<char>>, p: Pos)
    requires
        classify(lines, p) == OutOfBound::Within,
    ensures
        rem(lines, advanced(lines, p, 2)) < rem(lines, p),
        0 <= advanced(lines, p, 2).ln,
        0 <= advanced(lines, p, 2).col,
{
    let q = stepped(lines, p);
    let q2 = stepped(lines, q);
    assert(advanced(lines, p, 2) == advanced(lines, q, 1));
    assert(advanced(lines, q, 1) == advanced(lines, q2, 0));
    lemma_step_decreases(lines, p);
    lemma_step_le(lines, p);
    lemma_step_le(lines, q);
}

/// The radix sub-scanners end strictly ahead of a position on a character.
pub proof fn lemma_scan_radix_lt(lines: Seq<Seq<char>>, p: Pos)
    requires
        classify(lines, p) == OutOfBound::Within,
    ensures
        rem(lines, scan_hex(lines, p).end) < rem(lines, p),
        rem(lines, scan_octal(lines, p).end) < rem(lines, p),
        rem(lines, scan_binary(lines, p).end) < rem(lines, p),
        0 <= scan_hex(lines, p).end.ln && 0 <= scan_hex(lines, p).end.col,
        0 <= scan_octal(lines, p).end.ln && 0 <= scan_octal(lines, p).end.col,
        0 <= scan_binary(lines, p).end.ln && 0 <= scan_binary(lines, p).end.col,
{
    lemma_advanced_two(lines, p);
    lemma_scan_run_end(lines, advanced(lines, p, 2), hex_pred());
    lemma_scan_run_end(lines, advanced(lines, p, 2), octal_pred());
    lemma_scan_run_end(lines, advanced(lines, p, 2), binary_pred());
}

/// The float tail never moves the cursor backwards in the measure.
pub proof fn lemma_scan_float_tail_end(lines: Seq<Seq<char>>, p: Pos, seen_dot: bool)
    requires
        0 <= p.ln,
        0 <= p.col,
    ensures
        rem(lines, scan_float_tail(lines, p, seen_dot).end) <= rem(lines, p),
        0 <= scan_float_tail(lines, p, seen_dot).end.ln,
        0 <= scan_float_tail(lines, p, seen_dot).end.col,
    decreases rem(lines, p),
{
    if classify(lines, p) == OutOfBound::Within {
        let c = char_at(lines, p);
        if is_digit_char(c) || (c == '.' && !seen_dot) {
            lemma_step_decreases(lines, p);
            lemma_step_le(lines, p);
            if is_digit_char(c) {
                lemma_scan_float_tail_end(lines, stepped(lines, p), seen_dot);
            } else {
                lemma_scan_float_tail_end(lines, stepped(lines, p), true);
            }
        }
    }
}

/// The float sub-scanner ends strictly ahead when it starts on a digit or a
/// decimal point.
pub proof fn lemma_scan_float_lt(lines: Seq<Seq<char>>, p: Pos)
    requires
        classify(lines, p) == OutOfBound::Within,
        is_digit_char(char_at(lines, p)) || char_at(lines, p) == '.',
    ensures
        rem(lines, scan_float(lines, p).end) < rem(lines, p),
        0 <= scan_float(lines, p).end.ln,
        0 <= scan_float(lines, p).end.col,
{
    lemma_step_decreases(lines, p);
    lemma_step_le(lines, p);
    if char_at(lines, p) == '.' {
        lemma_scan_float_tail_end(lines, stepped(lines, p), true);
    } else {
        lemma_scan_float_tail_end(lines, stepped(lines, p), false);
    }
}

/// The decimal tail never moves the cursor backwards in the measure.
pub proof fn lemma_scan_number_tail_end(
    lines: Seq<Seq<char>>,
    sep: Option<char>,
    p: Pos,
    seen_dot: bool,
    icol: int,
)
    requires
        0 <= p.ln,
        0 <= p.col,
    ensures
        match scan_number_tail(lines, sep, p, seen_dot, icol) {
            Ok(r) => rem(lines, r.end) <= rem(lines, p) && 0 <= r.end.ln && 0 <= r.end.col,
            Err(_) => true,
        },
    decreases rem(lines, p),
{
    if classify(lines, p) == OutOfBound::Within {
        let c = char_at(lines, p);
        let q = stepped(lines, p);
        lemma_step_decreases(lines, p);
        lemma_step_le(lines, p);
        if is_digit_char(c) {
            lemma_scan_number_tail_end(lines, sep, q, seen_dot, icol + 1);
        } else if c == '.' {
            if !seen_dot {
                lemma_scan_number_tail_end(lines, sep, q, true, icol + 1);
            }
        } else if sep is Some && c == sep->0 {
            if classify(lines, q) == OutOfBound::Within && is_digit_char(char_at(lines, q)) {
                lemma_step_le(lines, q);
                lemma_step_decreases(lines, q);
                lemma_scan_number_tail_end(lines, sep, stepped(lines, q), seen_dot, icol + 1);
            }
        }
    }
}

/// The decimal sub-scanner ends strictly ahead when it starts on a digit and
/// succeeds.
pub proof fn lemma_scan_number_lt(lines: Seq<Seq<char>>, sep: Option<char>, p: Pos)
    requires
        classify(lines, p) == OutOfBound::Within,
        is_digit_char(char_at(lines, p)),
    ensures
        match scan_number(lines, sep, p) {
            Ok(r) => rem(lines, r.end) < rem(lines, p) && 0 <= r.end.ln && 0 <= r.end.col,
            Err(_) => true,
        },
{
    lemma_step_decreases(lines, p);
    lemma_step_le(lines, p);
    lemma_scan_number_tail_end(lines, sep, stepped(lines, p), false, p.col + 1);
}

/// The quoted tail never moves the cursor backwards in the measure.
pub proof fn lemma_scan_quoted_tail_end(lines: Seq<Seq<char>>, delim: char, p: Pos, esc: bool)
    requires
        0 <= p.ln,
        0 <= p.col,
    ensures
        rem(lines, scan_quoted_tail(lines, delim, p, esc).end) <= rem(lines, p),
        0 <= scan_quoted_tail(lines, delim, p, esc).end.ln,
        0 <= scan_quoted_tail(lines, delim, p, esc).end.col,
    decreases rem(lines, p),
{
    if classify(lines, p) == OutOfBound::Within {
        let c = char_at(lines, p);
        lemma_step_decreases(lines, p);
        lemma_step_le(lines, p);
        if c == delim && !esc {
        } else if c == '\\' && !esc {
            lemma_scan_quoted_tail_end(lines, delim, stepped(lines, p), true);
        } else {
            lemma_scan_quoted_tail_end(lines, delim, stepped(lines, p), false);
        }
    }
}

/// The quoted-literal sub-scanner ends strictly ahead of its opening
/// delimiter.
pub proof fn lemma_scan_quoted_lt(lines: Seq<Seq<char>>, delim: char, p: Pos)
    requires
        classify(lines, p) == OutOfBound::Within,
    ensures
        rem(lines, scan_quoted(lines, delim, p).end) < rem(lines, p),
        0 <= scan_quoted(lines, delim, p).end.ln,
        0 <= scan_quoted(lines, delim, p).end.col,
{
    lemma_step_decreases(lines, p);
    lemma_step_le(lines, p);
    lemma_scan_quoted_tail_end(lines, delim, stepped(lines, p), false);
}

/// The token a sub-scanner's outcome yields, located at the position where
/// scanning for it began.
pub open spec fn spec_token(kind: TokenType, text: Seq<char>, p: Pos) -> SpecToken {
    SpecToken { kind, text, line: p.ln, col: p.col }
}

/// Prepends a token to the outcome of scanning the remainder, propagating a
/// failure of the remainder.
pub open spec fn cons_token(t: SpecToken, rest: Result<Seq<SpecToken>, ScanError>) -> Result<
    Seq<SpecToken>,
    ScanError,
> {
    match rest {
        Ok(ts) => Ok(seq![t] + ts),
        Err(e) => Err(e),
    }
}

/// One decimal-number dispatch: the token (or the digit-separator error,
/// located at the token's line and the running column count) and the
/// position where scanning is to continue.
pub open spec fn num_step(lines: Seq<Seq<char>>, cfg: SpecConfig, p: Pos) -> Result<
    (SpecToken, Pos),
    ScanError,
> {
    match scan_number(lines, cfg.digit_separator, p) {
        Ok(n) => Ok(
            (
                spec_token(
                    if n.is_float {
                        TokenType::Number(NumberType::Float)
                    } else {
                        TokenType::Number(NumberType::Sequential)
                    },
                    n.text,
                    p,
                ),
                n.end,
            ),
        ),
        Err(icol) => Err(ScanError::UnexpectedDigitSeparator { line: p.ln, col: icol }),
    }
}

/// The whole scan from position `p` on: the dispatcher. Blank lines and
/// spaces produce nothing; a digit (with numbers enabled) dispatches on a
/// `0x`/`0o`/`0b`/`0.` prefix to the radix, float or decimal sub-scanners; a
/// `.` is a float start when a digit follows (with numbers enabled) and a
/// bare symbol otherwise; `"` opens a string; `'` opens a string or a strict
/// character depending on the configuration; a configured symbol or operator
/// character is a one-character token; everything else starts a word. The
/// first failing sub-scanner aborts the whole scan with its error.
pub open spec fn scan_at(lines: Seq<Seq<char>>, cfg: SpecConfig, p: Pos) -> Result<
    Seq<SpecToken>,
    ScanError,
>
    decreases rem(lines, p),
    via scan_at_dec
{
    match classify(lines, p) {
        OutOfBound::Out => Ok(Seq::<SpecToken>::empty()),
        OutOfBound::Empty => scan_at(lines, cfg, Pos { ln: p.ln + 1, col: 0 }),
        OutOfBound::Within => {
            let c = char_at(lines, p);
            if c == ' ' {
                scan_at(lines, cfg, stepped(lines, p))
            } else if is_digit_char(c) && !cfg.ignore_numbers {
                if c == '0' {
                    match peek_at(lines, p) {
                        Some(k) => {
                            if k == 'x' {
                                let s = scan_hex(lines, p);
                                cons_token(
                                    spec_token(TokenType::Number(NumberType::Hex), s.text, p),
                                    scan_at(lines, cfg, s.end),
                                )
                            } else if k == 'o' {
                                let s = scan_octal(lines, p);
                                cons_token(
                                    spec_token(TokenType::Number(NumberType::Octal), s.text, p),
                                    scan_at(lines, cfg, s.end),
                                )
                            } else if k == 'b' {
                                let s = scan_binary(lines, p);
                                cons_token(
                                    spec_token(TokenType::Number(NumberType::Binary), s.text, p),
                                    scan_at(lines, cfg, s.end),
                                )
                            } else if k == '.' {
                                let s = scan_float(lines, p);
                                cons_token(
                                    spec_token(TokenType::Number(NumberType::Float), s.text, p),
                                    scan_at(lines, cfg, s.end),
                                )
                            } else {
                                match num_step(lines, cfg, p) {
                                    Ok(te) => cons_token(te.0, scan_at(lines, cfg, te.1)),
                                    Err(e) => Err(e),
                                }
                            }
                        },
                        None => match num_step(lines, cfg, p) {
                            Ok(te) => cons_token(te.0, scan_at(lines, cfg, te.1)),
                            Err(e) => Err(e),
                        },
                    }
                } else {
                    match num_step(lines, cfg, p) {
                        Ok(te) => cons_token(te.0, scan_at(lines, cfg, te.1)),
                        Err(e) => Err(e),
                    }
                }
            } else if c == '.' {
                let digit_ahead = match peek_at(lines, p) {
                    Some(k) => k != '\n' && is_digit_char(k) && !cfg.ignore_numbers,
                    None => false,
                };
                if digit_ahead {
                    let s = scan_float(lines, p);
                    cons_token(
                        spec_token(TokenType::Number(NumberType::Float), s.text, p),
                        scan_at(lines, cfg, s.end),
                    )
                } else {
                    cons_token(
                        spec_token(TokenType::Symbol, seq!['.'], p),
                        scan_at(lines, cfg, stepped(lines, p)),
                    )
                }
            } else if c == '"' {
                let s = scan_quoted(lines, '"', p);
                cons_token(spec_token(TokenType::Str, s.text, p), scan_at(lines, cfg, s.end))
            } else if c == '\'' {
                if cfg.parse_char_as_string {
                    let s = scan_quoted(lines, '\'', p);
                    cons_token(spec_token(TokenType::Str, s.text, p), scan_at(lines, cfg, s.end))
                } else {
                    let s = scan_quoted(lines, '\'', p);
                    if s.text.len() > 1 {
                        Err(ScanError::NotAValidChar { line: p.ln, col: p.col })
                    } else {
                        cons_token(
                            spec_token(TokenType::Char, s.text, p),
                            scan_at(lines, cfg, s.end),
                        )
                    }
                }
            } else if cfg.symbols.contains(c) {
                cons_token(
                    spec_token(TokenType::Symbol, seq![c], p),
                    scan_at(lines, cfg, stepped(lines, p)),
                )
            } else if cfg.operators.contains(c) {
                cons_token(
                    spec_token(TokenType::Operator, seq![c], p),
                    scan_at(lines, cfg, stepped(lines, p)),
                )
            } else {
                let s = scan_word(lines, cfg, p);
                cons_token(spec_token(TokenType::Word, s.text, p), scan_at(lines, cfg, s.end))
            }
        },
    }
}

/// The lookahead cursor never comes back from past the input.
pub proof fn lemma_fake_advanced_out(lines: Seq<Seq<char>>, p: Pos, n: nat)
    requires
        p.ln >= lines.len(),
    ensures
        classify(lines, fake_advanced(lines, p, n)) == OutOfBound::Out,
    decreases n,
{
    if n > 0 {
        lemma_fake_advanced_out(lines, fake_stepped(lines, p), (n - 1) as nat);
    }
}

/// Feeding one more token into the running scan: if the scan from `p`
/// prepends token `t` to the scan from `end`, the accumulated tokens absorb
/// `t` and the running position moves to `end`.
pub proof fn lemma_cons_step(
    g: Result<Seq<SpecToken>, ScanError>,
    lines: Seq<Seq<char>>,
    cfg: SpecConfig,
    p: Pos,
    end: Pos,
    t: SpecToken,
    toks0: Seq<SpecToken>,
    toks1: Seq<SpecToken>,
)
    requires
        g == (match scan_at(lines, cfg, p) {
            Ok(ts) => Ok::<Seq<SpecToken>, ScanError>(toks0 + ts),
            Err(e) => Err(e),
        }),
        scan_at(lines, cfg, p) == cons_token(t, scan_at(lines, cfg, end)),
        toks1 == toks0 + seq![t],
    ensures
        g == (match scan_at(lines, cfg, end) {
            Ok(ts) => Ok::<Seq<SpecToken>, ScanError>(toks1 + ts),
            Err(e) => Err(e),
        }),
{
    match scan_at(lines, cfg, end) {
        Ok(ts) => {
            assert(toks0 + (seq![t] + ts) =~= toks1 + ts);
        },
        Err(_) => {},
    }
}

/// A line as it is recorded: a `\r` immediately before the line ending is
/// dropped.
pub open spec fn strip_cr(line: Seq<char>) -> Seq<char> {
    if line.len() > 0 && line.last() == '\r' {
        line.drop_last()
    } else {
        line
    }
}

/// The lines that a pending partial line `cur` and the remaining raw
/// characters `rest` produce: a `\n` closes the pending line (dropping a
/// `\r` just before it), any other character extends it, and a non-empty
/// pending line at the end of the input is a final line of its own.
pub open spec fn lines_cont(cur: Seq<char>, rest: Seq<char>) -> Seq<Seq<char>>
    decreases rest.len(),
{
    if rest.len() == 0 {
        if cur.len() == 0 {
            Seq::<Seq<char>>::empty()
        } else {
            seq![cur]
        }
    } else if rest[0] == '\n' {
        seq![strip_cr(cur)] + lines_cont(Seq::<char>::empty(), rest.drop_first())
    } else {
        lines_cont(cur.push(rest[0]), rest.drop_first())
    }
}

/// The input split into its lines: split at `\n`, with `\r\n` counting as
/// one line ending, and no extra line for a line ending at the very end.
pub open spec fn spec_lines(s: Seq<char>) -> Seq<Seq<char>> {
    lines_cont(Seq::<char>::empty(), s)
}

/// Prepending a line shifts the suffix sums of line weights by one index.
proof fn lemma_weights_from_shift(l: Seq<char>, lines: Seq<Seq<char>>, j: int)
    requires
        0 <= j,
    ensures
        weights_from(seq![l] + lines, j + 1) == weights_from(lines, j),
    decreases lines.len() - j,
{
    if j < lines.len() {
        assert((seq![l] + lines)[j + 1] == lines[j]);
        lemma_weights_from_shift(l, lines, j + 1);
    }
}

/// The weight of the lines still to be produced is bounded by the pending
/// and remaining characters.
proof fn lemma_lines_cont_weight(cur: Seq<char>, rest: Seq<char>)
    ensures
        weights_from(lines_cont(cur, rest), 0) <= (if cur.len() == 0 {
            0
        } else {
            cur.len()
        }) + rest.len(),
    decreases rest.len(),
{
    if rest.len() == 0 {
        if cur.len() > 0 {
            assert(weights_from(seq![cur], 1) == 0);
            assert(weights_from(seq![cur], 0) == line_weight(cur));
        }
    } else if rest[0] == '\n' {
        let tail_lines = lines_cont(Seq::<char>::empty(), rest.drop_first());
        let whole = seq![strip_cr(cur)] + tail_lines;
        lemma_lines_cont_weight(Seq::<char>::empty(), rest.drop_first());
        lemma_weights_from_shift(strip_cr(cur), tail_lines, 0);
        assert(whole[0] == strip_cr(cur));
        assert(weights_from(whole, 0) == line_weight(strip_cr(cur)) + weights_from(whole, 1));
    } else {
        lemma_lines_cont_weight(cur.push(rest[0]), rest.drop_first());
    }
}

/// The whole measure of the split input is bounded by the input's length.
pub proof fn lemma_spec_lines_weight(s: Seq<char>)
    ensures
        weights_from(spec_lines(s), 0) <= s.len(),
{
    lemma_lines_cont_weight(Seq::<char>::empty(), s);
}

#[via_fn]
proof fn scan_at_dec(lines: Seq<Seq<char>>, cfg: SpecConfig, p: Pos) {
    match classify(lines, p) {
        OutOfBound::Out => {},
        OutOfBound::Empty => {
            lemma_rem_at_line_start(lines, p.ln + 1);
        },
        OutOfBound::Within => {
            let c = char_at(lines, p);
            lemma_step_decreases(lines, p);
            lemma_scan_radix_lt(lines, p);
            if is_digit_char(c) || c == '.' {
                lemma_scan_float_lt(lines, p);
            }
            if is_digit_char(c) {
                lemma_scan_number_lt(lines, cfg.digit_separator, p);
            }
            lemma_scan_quoted_lt(lines, '"', p);
            lemma_scan_quoted_lt(lines, '\'', p);
            if is_word_char(cfg, c) {
                assert(word_pred(cfg)(c) == is_word_char(cfg, c));
                lemma_scan_run_lt(lines, p, word_pred(cfg));
            }
        },
    }
}

} // verus!
