//! General properties of the scan, stated over the model in [`crate::model`]
//! and proved once and for all. Together with the contracts of
//! [`crate::Tokenizer::new`] and [`crate::Tokenizer::tokenize`], which pin the
//! executable scanner to that model, they hold of every scan the library
//! performs.

use vstd::prelude::*;

use crate::config::SpecConfig;
use crate::error::ScanError;
use crate::model::char_at;
use crate::model::classify;
use crate::model::cons_token;
use crate::model::escape_decoded;
use crate::model::is_digit_char;
use crate::model::is_word_char;
use crate::model::lemma_rem_at_line_start;
use crate::model::lemma_scan_float_lt;
use crate::model::lemma_scan_number_lt;
use crate::model::lemma_scan_quoted_lt;
use crate::model::lemma_scan_radix_lt;
use crate::model::lemma_scan_run_lt;
use crate::model::lemma_step_decreases;
use crate::model::lemma_step_le;
use crate::model::num_step;
use crate::model::peek_at;
use crate::model::rem;
use crate::model::scan_at;
use crate::model::scan_binary;
use crate::model::scan_float;
use crate::model::scan_hex;
use crate::model::scan_octal;
use crate::model::scan_quoted;
use crate::model::scan_quoted_tail;
use crate::model::scan_word;
use crate::model::spec_lines;
use crate::model::spec_token;
use crate::model::stepped;
use crate::model::word_pred;
use crate::model::OutOfBound;
use crate::model::Pos;
use crate::token::SpecToken;
use crate::token::TokenType;

verus! {

/// A grid that holds nothing but spaces and blank lines.
pub open spec fn all_blank(lines: Seq<Seq<char>>) -> bool {
    forall|i: int, j: int|
        0 <= i < lines.len() && 0 <= j < lines[i].len() ==> lines[i][j] == ' '
}

proof fn lemma_blank_scan_empty_from(lines: Seq<Seq<char>>, cfg: SpecConfig, p: Pos)
    requires
        all_blank(lines),
        0 <= p.ln,
        0 <= p.col,
    ensures
        scan_at(lines, cfg, p) == Ok::<Seq<SpecToken>, ScanError>(Seq::<SpecToken>::empty()),
    decreases rem(lines, p),
{
    match classify(lines, p) {
        OutOfBound::Out => {},
        OutOfBound::Empty => {
            lemma_rem_at_line_start(lines, p.ln + 1);
            lemma_blank_scan_empty_from(lines, cfg, Pos { ln: p.ln + 1, col: 0 });
        },
        OutOfBound::Within => {
            assert(char_at(lines, p) == ' ');
            lemma_step_decreases(lines, p);
            lemma_step_le(lines, p);
            lemma_blank_scan_empty_from(lines, cfg, stepped(lines, p));
        },
    }
}

/// An input consisting solely of spaces and blank lines scans to an empty
/// token sequence, under every configuration.
pub proof fn lemma_blank_input_yields_no_tokens(lines: Seq<Seq<char>>, cfg: SpecConfig)
    requires
        all_blank(lines),
    ensures
        scan_at(lines, cfg, Pos { ln: 0, col: 0 }) == Ok::<Seq<SpecToken>, ScanError>(
            Seq::<SpecToken>::empty(),
        ),
{
    lemma_blank_scan_empty_from(lines, cfg, Pos { ln: 0, col: 0 });
}

/// Inside a quoted literal, an escape decodes to exactly what
/// [`escape_decoded`] says: each of the five recognized escapes becomes its
/// one control character in the produced text — never the two-character
/// source form — and an unrecognized escape is kept verbatim as the
/// backslash followed by the character. The rest of the literal is scanned
/// unchanged from after the escape.
///
/// The position `p` is any point of a literal reached with no escape
/// pending, so the law speaks of every escape occurrence. It covers strings
/// and strict characters alike: the contracts of the scanner equate the text
/// of every string token, and the content checked in strict char mode, with
/// [`scan_quoted`], whose tail this law describes.
pub proof fn lemma_escape_decoding(lines: Seq<Seq<char>>, delim: char, p: Pos)
    requires
        delim != '\\',
        classify(lines, p) == OutOfBound::Within,
        char_at(lines, p) == '\\',
        classify(lines, stepped(lines, p)) == OutOfBound::Within,
    ensures
        ({
            let e = char_at(lines, stepped(lines, p));
            let rest = scan_quoted_tail(
                lines,
                delim,
                stepped(lines, stepped(lines, p)),
                false,
            ).text;
            &&& scan_quoted_tail(lines, delim, p, false).text == escape_decoded(e) + rest
            &&& e == 'n' ==> scan_quoted_tail(lines, delim, p, false).text == seq!['\n'] + rest
            &&& e == '0' ==> scan_quoted_tail(lines, delim, p, false).text == seq!['\u{0}'] + rest
            &&& e == 't' ==> scan_quoted_tail(lines, delim, p, false).text == seq!['\t'] + rest
            &&& e == 'r' ==> scan_quoted_tail(lines, delim, p, false).text == seq!['\r'] + rest
            &&& e == '\\' ==> scan_quoted_tail(lines, delim, p, false).text == seq!['\\'] + rest
            &&& (e != 'n' && e != '0' && e != 't' && e != 'r' && e != '\\') ==> scan_quoted_tail(
                lines,
                delim,
                p,
                false,
            ).text == seq!['\\', e] + rest
        }),
{
    let q = stepped(lines, p);
    assert(scan_quoted_tail(lines, delim, p, false) == scan_quoted_tail(lines, delim, q, true));
    assert(scan_quoted_tail(lines, delim, q, true).text == escape_decoded(char_at(lines, q))
        + scan_quoted_tail(lines, delim, stepped(lines, q), false).text);
}

/// What the round-trip law asserts of one token: a symbol or operator token
/// carries exactly one character of text, and that character is the one
/// standing at the token's own location in the input grid.
pub open spec fn one_char_token_ok(lines: Seq<Seq<char>>, t: SpecToken) -> bool {
    (t.kind == TokenType::Symbol || t.kind == TokenType::Operator) ==> {
        &&& t.text.len() == 1
        &&& t.text[0] == char_at(lines, Pos { ln: t.line, col: t.col })
    }
}

/// Every symbol and operator token a successful scan produces has text of
/// length one, equal to the character that triggered its dispatch.
pub proof fn lemma_symbol_operator_round_trip(
    lines: Seq<Seq<char>>,
    cfg: SpecConfig,
    p: Pos,
    ts: Seq<SpecToken>,
)
    requires
        0 <= p.ln,
        0 <= p.col,
        scan_at(lines, cfg, p) == Ok::<Seq<SpecToken>, ScanError>(ts),
    ensures
        forall|i: int| 0 <= i < ts.len() ==> #[trigger] one_char_token_ok(lines, ts[i]),
    decreases rem(lines, p), 0int,
{
    match classify(lines, p) {
        OutOfBound::Out => {},
        OutOfBound::Empty => {
            lemma_rem_at_line_start(lines, p.ln + 1);
            lemma_symbol_operator_round_trip(lines, cfg, Pos { ln: p.ln + 1, col: 0 }, ts);
        },
        OutOfBound::Within => {
            let c = char_at(lines, p);
            if c == ' ' {
                lemma_step_decreases(lines, p);
                lemma_step_le(lines, p);
                lemma_symbol_operator_round_trip(lines, cfg, stepped(lines, p), ts);
            } else if is_digit_char(c) && !cfg.ignore_numbers {
                let peeked = peek_at(lines, p);
                lemma_scan_radix_lt(lines, p);
                lemma_scan_float_lt(lines, p);
                if c == '0' && peeked == Some('x') {
                    lemma_one_char_cons(
                        lines,
                        cfg,
                        p,
                        spec_token(
                            TokenType::Number(crate::token::NumberType::Hex),
                            scan_hex(lines, p).text,
                            p,
                        ),
                        scan_hex(lines, p).end,
                        ts,
                    );
                } else if c == '0' && peeked == Some('o') {
                    lemma_one_char_cons(
                        lines,
                        cfg,
                        p,
                        spec_token(
                            TokenType::Number(crate::token::NumberType::Octal),
                            scan_octal(lines, p).text,
                            p,
                        ),
                        scan_octal(lines, p).end,
                        ts,
                    );
                } else if c == '0' && peeked == Some('b') {
                    lemma_one_char_cons(
                        lines,
                        cfg,
                        p,
                        spec_token(
                            TokenType::Number(crate::token::NumberType::Binary),
                            scan_binary(lines, p).text,
                            p,
                        ),
                        scan_binary(lines, p).end,
                        ts,
                    );
                } else if c == '0' && peeked == Some('.') {
                    lemma_one_char_cons(
                        lines,
                        cfg,
                        p,
                        spec_token(
                            TokenType::Number(crate::token::NumberType::Float),
                            scan_float(lines, p).text,
                            p,
                        ),
                        scan_float(lines, p).end,
                        ts,
                    );
                } else {
                    match num_step(lines, cfg, p) {
                        Ok(te) => {
                            lemma_scan_number_lt(lines, cfg.digit_separator, p);
                            lemma_one_char_cons(lines, cfg, p, te.0, te.1, ts);
                        },
                        Err(_) => {
                            assert(false);
                        },
                    }
                }
            } else if c == '.' {
                let digit_ahead = match peek_at(lines, p) {
                    Some(k) => k != '\n' && is_digit_char(k) && !cfg.ignore_numbers,
                    None => false,
                };
                if digit_ahead {
                    lemma_scan_float_lt(lines, p);
                    lemma_one_char_cons(
                        lines,
                        cfg,
                        p,
                        spec_token(
                            TokenType::Number(crate::token::NumberType::Float),
                            scan_float(lines, p).text,
                            p,
                        ),
                        scan_float(lines, p).end,
                        ts,
                    );
                } else {
                    lemma_step_decreases(lines, p);
                    lemma_step_le(lines, p);
                    lemma_one_char_cons(
                        lines,
                        cfg,
                        p,
                        spec_token(TokenType::Symbol, seq!['.'], p),
                        stepped(lines, p),
                        ts,
                    );
                }
            } else if c == '"' {
                lemma_scan_quoted_lt(lines, '"', p);
                lemma_one_char_cons(
                    lines,
                    cfg,
                    p,
                    spec_token(TokenType::Str, scan_quoted(lines, '"', p).text, p),
                    scan_quoted(lines, '"', p).end,
                    ts,
                );
            } else if c == '\'' {
                if cfg.parse_char_as_string {
                    lemma_scan_quoted_lt(lines, '\'', p);
                    lemma_one_char_cons(
                        lines,
                        cfg,
                        p,
                        spec_token(TokenType::Str, scan_quoted(lines, '\'', p).text, p),
                        scan_quoted(lines, '\'', p).end,
                        ts,
                    );
                } else {
                    let s = scan_quoted(lines, '\'', p);
                    if s.text.len() > 1 {
                        assert(false);
                    } else {
                        lemma_scan_quoted_lt(lines, '\'', p);
                        lemma_one_char_cons(
                            lines,
                            cfg,
                            p,
                            spec_token(TokenType::Char, s.text, p),
                            s.end,
                            ts,
                        );
                    }
                }
            } else if cfg.symbols.contains(c) {
                lemma_step_decreases(lines, p);
                lemma_step_le(lines, p);
                lemma_one_char_cons(
                    lines,
                    cfg,
                    p,
                    spec_token(TokenType::Symbol, seq![c], p),
                    stepped(lines, p),
                    ts,
                );
            } else if cfg.operators.contains(c) {
                lemma_step_decreases(lines, p);
                lemma_step_le(lines, p);
                lemma_one_char_cons(
                    lines,
                    cfg,
                    p,
                    spec_token(TokenType::Operator, seq![c], p),
                    stepped(lines, p),
                    ts,
                );
            } else {
                assert(word_pred(cfg)(c) == is_word_char(cfg, c));
                lemma_scan_run_lt(lines, p, word_pred(cfg));
                lemma_one_char_cons(
                    lines,
                    cfg,
                    p,
                    spec_token(TokenType::Word, scan_word(lines, cfg, p).text, p),
                    scan_word(lines, cfg, p).end,
                    ts,
                );
            }
        },
    }
}

/// The inductive step of the round-trip law: the scan at `p` prepends a
/// token that satisfies the law, and continues at `end` strictly closer to
/// the end of the input.
proof fn lemma_one_char_cons(
    lines: Seq<Seq<char>>,
    cfg: SpecConfig,
    p: Pos,
    tok: SpecToken,
    end: Pos,
    ts: Seq<SpecToken>,
)
    requires
        0 <= p.ln,
        0 <= p.col,
        classify(lines, p) == OutOfBound::Within,
        scan_at(lines, cfg, p) == Ok::<Seq<SpecToken>, ScanError>(ts),
        scan_at(lines, cfg, p) == cons_token(tok, scan_at(lines, cfg, end)),
        one_char_token_ok(lines, tok),
        rem(lines, end) < rem(lines, p),
        0 <= end.ln,
        0 <= end.col,
    ensures
        forall|i: int| 0 <= i < ts.len() ==> #[trigger] one_char_token_ok(lines, ts[i]),
    decreases rem(lines, end), 1int,
{
    match scan_at(lines, cfg, end) {
        Ok(ts2) => {
            lemma_symbol_operator_round_trip(lines, cfg, end, ts2);
            assert(ts == seq![tok] + ts2);
            assert forall|i: int| 0 <= i < ts.len() implies #[trigger] one_char_token_ok(
                lines,
                ts[i],
            ) by {
                if i == 0 {
                    assert(ts[i] == tok);
                } else {
                    assert(ts[i] == ts2[i - 1]);
                }
            }
        },
        Err(_) => {
            assert(false);
        },
    }
}

/// Scanning is a pure function of the input text and the configuration:
/// re-scanning identical input under an identical configuration yields the
/// very same outcome, token for token. The contract of
/// [`crate::Tokenizer::tokenize`] equates each run's result with the
/// `scan_at` outcome named here, so any two runs over equal input and equal
/// configuration return equal token sequences (or the same error).
pub proof fn lemma_rescan_identical(
    input: Seq<char>,
    cfg: SpecConfig,
    r1: Result<Seq<SpecToken>, ScanError>,
    r2: Result<Seq<SpecToken>, ScanError>,
)
    requires
        r1 == scan_at(spec_lines(input), cfg, Pos { ln: 0, col: 0 }),
        r2 == scan_at(spec_lines(input), cfg, Pos { ln: 0, col: 0 }),
    ensures
        r1 == r2,
{
}

} // verus!
