use stp::{Choice, Loc, NumberType, Token, TokenType, Tokenizer, TokenizerBuilder};
use stp::error::TokenizationError;

fn scan(input: &str) -> Vec<Token> {
    Tokenizer::builder().build(input).tokenize().expect("scan should succeed")
}

#[test]
fn whitespace_only_input_yields_no_tokens() {
    assert!(scan("").is_empty());
    assert!(scan("   ").is_empty());
    assert!(scan("\n\n").is_empty());
    assert!(scan("  \n\n   \n").is_empty());
}

#[test]
fn recognized_escapes_are_decoded() {
    let tokens = scan("\"a\\nb\\0c\\td\\re\\\\f\"");
    assert_eq!(tokens.len(), 1);
    assert_eq!(tokens[0].kind, TokenType::Str);
    assert_eq!(tokens[0].value.as_str(), "a\nb\0c\td\re\\f");
}

#[test]
fn unrecognized_escape_is_kept_verbatim() {
    let tokens = scan("\"a\\qb\"");
    assert_eq!(tokens.len(), 1);
    assert_eq!(tokens[0].kind, TokenType::Str);
    assert_eq!(tokens[0].value.as_str(), "a\\qb");
}

#[test]
fn hex_literal() {
    let tokens = scan("0x1A");
    assert_eq!(tokens.len(), 1);
    assert_eq!(tokens[0].kind, TokenType::Number(NumberType::Hex));
    assert_eq!(tokens[0].value.as_str(), "1A");
    assert_eq!(tokens[0].loc, Loc(0, 0));
}

#[test]
fn binary_literal() {
    let tokens = scan("0b101");
    assert_eq!(tokens.len(), 1);
    assert_eq!(tokens[0].kind, TokenType::Number(NumberType::Binary));
    assert_eq!(tokens[0].value.as_str(), "101");
}

#[test]
fn octal_literal() {
    let tokens = scan("0o755");
    assert_eq!(tokens.len(), 1);
    assert_eq!(tokens[0].kind, TokenType::Number(NumberType::Octal));
    assert_eq!(tokens[0].value.as_str(), "755");
}

#[test]
fn radix_prefix_with_empty_digit_run_is_accepted() {
    let tokens = scan("0x");
    assert_eq!(tokens.len(), 1);
    assert_eq!(tokens[0].kind, TokenType::Number(NumberType::Hex));
    assert_eq!(tokens[0].value.as_str(), "");
}

#[test]
fn digit_separator_is_elided() {
    let tokens = Tokenizer::builder()
        .allow_digit_separator(Choice::Yes('_'))
        .build("3_000")
        .tokenize()
        .expect("scan should succeed");
    assert_eq!(tokens.len(), 1);
    assert_eq!(tokens[0].kind, TokenType::Number(NumberType::Sequential));
    assert_eq!(tokens[0].value.as_str(), "3000");
}

#[test]
fn digit_separator_at_end_of_input_is_an_error() {
    let err = Tokenizer::builder()
        .allow_digit_separator(Choice::Yes('_'))
        .build("3_")
        .tokenize()
        .expect_err("scan should fail");
    assert_eq!(err, TokenizationError::UnexpectedDigitSeparator(Loc(0, 1)));
}

#[test]
fn digit_separator_before_non_digit_is_an_error() {
    let err = Tokenizer::builder()
        .allow_digit_separator(Choice::Yes('_'))
        .build("12_x")
        .tokenize()
        .expect_err("scan should fail");
    assert!(matches!(err, TokenizationError::UnexpectedDigitSeparator(_)));
}

#[test]
fn leading_dot_float_gets_synthetic_zero() {
    let tokens = scan(".5");
    assert_eq!(tokens.len(), 1);
    assert_eq!(tokens[0].kind, TokenType::Number(NumberType::Float));
    assert_eq!(tokens[0].value.as_str(), "0.5");
}

#[test]
fn zero_dot_prefix_scans_as_float() {
    let tokens = scan("0.25");
    assert_eq!(tokens.len(), 1);
    assert_eq!(tokens[0].kind, TokenType::Number(NumberType::Float));
    assert_eq!(tokens[0].value.as_str(), "0.25");
}

#[test]
fn second_decimal_point_ends_the_float() {
    let tokens = scan("1.2.3");
    assert_eq!(tokens.len(), 2);
    assert_eq!(tokens[0].kind, TokenType::Number(NumberType::Float));
    assert_eq!(tokens[0].value.as_str(), "1.2");
    assert_eq!(tokens[1].kind, TokenType::Number(NumberType::Float));
    assert_eq!(tokens[1].value.as_str(), "0.3");
}

#[test]
fn trailing_decimal_point_stays_in_the_float() {
    let tokens = scan("3.");
    assert_eq!(tokens.len(), 1);
    assert_eq!(tokens[0].kind, TokenType::Number(NumberType::Float));
    assert_eq!(tokens[0].value.as_str(), "3.");
}

#[test]
fn bare_dot_is_a_symbol() {
    let tokens = scan(".");
    assert_eq!(tokens.len(), 1);
    assert_eq!(tokens[0].kind, TokenType::Symbol);
    assert_eq!(tokens[0].value.as_str(), ".");
}

#[test]
fn multi_char_quoted_char_is_an_error_by_default() {
    let err = Tokenizer::builder().build("'ab'").tokenize().expect_err("scan should fail");
    assert_eq!(err, TokenizationError::NotAValidChar(Loc(0, 0)));
}

#[test]
fn multi_char_quoted_char_is_a_string_when_configured() {
    let tokens = Tokenizer::builder()
        .parse_char_as_string(true)
        .build("'ab'")
        .tokenize()
        .expect("scan should succeed");
    assert_eq!(tokens.len(), 1);
    assert_eq!(tokens[0].kind, TokenType::Str);
    assert_eq!(tokens[0].value.as_str(), "ab");
}

#[test]
fn single_quoted_char_token() {
    let tokens = scan("'a'");
    assert_eq!(tokens.len(), 1);
    assert_eq!(tokens[0].kind, TokenType::Char);
    assert_eq!(tokens[0].value.as_str(), "a");
}

#[test]
fn symbol_and_operator_tokens_echo_their_character() {
    let tokens = Tokenizer::builder()
        .add_symbols(&['{', '}'])
        .add_operator('+')
        .build("{a+b}")
        .tokenize()
        .expect("scan should succeed");
    assert_eq!(tokens.len(), 5);
    assert_eq!(tokens[0].kind, TokenType::Symbol);
    assert_eq!(tokens[0].value.as_str(), "{");
    assert_eq!(tokens[1].kind, TokenType::Word);
    assert_eq!(tokens[1].value.as_str(), "a");
    assert_eq!(tokens[2].kind, TokenType::Operator);
    assert_eq!(tokens[2].value.as_str(), "+");
    assert_eq!(tokens[3].kind, TokenType::Word);
    assert_eq!(tokens[3].value.as_str(), "b");
    assert_eq!(tokens[4].kind, TokenType::Symbol);
    assert_eq!(tokens[4].value.as_str(), "}");
    for t in &tokens {
        if t.kind == TokenType::Symbol || t.kind == TokenType::Operator {
            assert_eq!(t.value.chars().count(), 1);
        }
    }
}

#[test]
fn rescanning_identical_input_yields_identical_tokens() {
    let build = || {
        Tokenizer::builder()
            .allow_digit_separator(Choice::Yes('_'))
            .add_symbols(&['{', '}', '('])
            .parse_char_as_string(true)
            .build("0b0101 0xFF 0o755 13.45 3_453 450 .92 ; 'text' {}")
    };
    let first = build().tokenize().expect("scan should succeed");
    let second = build().tokenize().expect("scan should succeed");
    assert_eq!(first.len(), second.len());
    for (a, b) in first.iter().zip(second.iter()) {
        assert_eq!(a.kind, b.kind);
        assert_eq!(a.value, b.value);
        assert_eq!(a.loc, b.loc);
    }
}

#[test]
fn ignore_numbers_turns_digits_into_words() {
    let tokens = Tokenizer::builder()
        .ignore_numbers(true)
        .build("123 0x1A")
        .tokenize()
        .expect("scan should succeed");
    assert_eq!(tokens.len(), 2);
    assert_eq!(tokens[0].kind, TokenType::Word);
    assert_eq!(tokens[0].value.as_str(), "123");
    assert_eq!(tokens[1].kind, TokenType::Word);
    assert_eq!(tokens[1].value.as_str(), "0x1A");
}

#[test]
fn unterminated_string_yields_what_was_scanned() {
    let tokens = scan("\"abc");
    assert_eq!(tokens.len(), 1);
    assert_eq!(tokens[0].kind, TokenType::Str);
    assert_eq!(tokens[0].value.as_str(), "abc");
}

#[test]
fn tokens_carry_their_location() {
    let tokens = scan("ab cd ef");
    assert_eq!(tokens.len(), 3);
    assert_eq!(tokens[0].loc, Loc(0, 0));
    assert_eq!(tokens[1].loc, Loc(0, 3));
    assert_eq!(tokens[2].loc, Loc(0, 6));
}

#[test]
fn blank_lines_produce_no_tokens_between_words() {
    let tokens = scan("a\n\nb");
    assert_eq!(tokens.len(), 2);
    assert_eq!(tokens[0].value.as_str(), "a");
    assert_eq!(tokens[0].loc, Loc(0, 0));
    assert_eq!(tokens[1].value.as_str(), "b");
    assert_eq!(tokens[1].loc, Loc(2, 0));
}

#[test]
fn carriage_return_before_newline_is_dropped() {
    let tokens = scan(".\r\n.");
    assert_eq!(tokens.len(), 2);
    assert_eq!(tokens[0].kind, TokenType::Symbol);
    assert_eq!(tokens[0].loc, Loc(0, 0));
    assert_eq!(tokens[1].kind, TokenType::Symbol);
    assert_eq!(tokens[1].loc, Loc(1, 0));
}

#[test]
fn builder_calls_override_and_accumulate() {
    let tokens = TokenizerBuilder::new()
        .parse_char_as_string(false)
        .parse_char_as_string(true)
        .add_symbol(';')
        .add_symbols(&[':'])
        .build("'xy' ; :")
        .tokenize()
        .expect("scan should succeed");
    assert_eq!(tokens.len(), 3);
    assert_eq!(tokens[0].kind, TokenType::Str);
    assert_eq!(tokens[0].value.as_str(), "xy");
    assert_eq!(tokens[1].kind, TokenType::Symbol);
    assert_eq!(tokens[1].value.as_str(), ";");
    assert_eq!(tokens[2].kind, TokenType::Symbol);
    assert_eq!(tokens[2].value.as_str(), ":");
}

#[test]
fn mixed_demo_input_scans_fully() {
    let tokens = Tokenizer::builder()
        .parse_char_as_string(true)
        .allow_digit_separator(Choice::Yes('_'))
        .add_symbols(&['{', '}', '('])
        .build("0b0101 0xFFFffFFF 0o4543 1324.45 3_453_987 450 .9248 ; 3 'text' {}")
        .tokenize()
        .expect("scan should succeed");
    let kinds: Vec<TokenType> = tokens.iter().map(|t| t.kind).collect();
    assert_eq!(
        kinds,
        vec![
            TokenType::Number(NumberType::Binary),
            TokenType::Number(NumberType::Hex),
            TokenType::Number(NumberType::Octal),
            TokenType::Number(NumberType::Float),
            TokenType::Number(NumberType::Sequential),
            TokenType::Number(NumberType::Sequential),
            TokenType::Number(NumberType::Float),
            TokenType::Word,
            TokenType::Number(NumberType::Sequential),
            TokenType::Str,
            TokenType::Symbol,
            TokenType::Symbol,
        ]
    );
    assert_eq!(tokens[4].value.as_str(), "3453987");
    assert_eq!(tokens[6].value.as_str(), "0.9248");
    assert_eq!(tokens[9].value.as_str(), "text");
}

#[test]
fn words_continue_across_line_endings() {
    let tokens = scan("ab\ncd");
    assert_eq!(tokens.len(), 1);
    assert_eq!(tokens[0].kind, TokenType::Word);
    assert_eq!(tokens[0].value.as_str(), "abcd");
    assert_eq!(tokens[0].loc, Loc(0, 0));
}

#[test]
fn radix_scan_stops_at_first_foreign_character() {
    let tokens = scan("0x1G");
    assert_eq!(tokens.len(), 2);
    assert_eq!(tokens[0].kind, TokenType::Number(NumberType::Hex));
    assert_eq!(tokens[0].value.as_str(), "1");
    assert_eq!(tokens[1].kind, TokenType::Word);
    assert_eq!(tokens[1].value.as_str(), "G");
}

#[test]
fn zero_with_trailing_dot_scans_as_float() {
    let tokens = scan("0.");
    assert_eq!(tokens.len(), 1);
    assert_eq!(tokens[0].kind, TokenType::Number(NumberType::Float));
    assert_eq!(tokens[0].value.as_str(), "0.");
}

#[test]
fn numbers_continue_across_line_endings() {
    let tokens = scan("0\n5");
    assert_eq!(tokens.len(), 1);
    assert_eq!(tokens[0].kind, TokenType::Number(NumberType::Sequential));
    assert_eq!(tokens[0].value.as_str(), "05");
}

#[test]
fn empty_line_ends_a_number_before_it() {
    let tokens = scan("0\n\nx");
    assert_eq!(tokens.len(), 2);
    assert_eq!(tokens[0].kind, TokenType::Number(NumberType::Sequential));
    assert_eq!(tokens[0].value.as_str(), "0");
    assert_eq!(tokens[1].kind, TokenType::Word);
    assert_eq!(tokens[1].value.as_str(), "x");
    assert_eq!(tokens[1].loc, Loc(2, 0));
}

#[test]
fn locations_display_one_based() {
    assert_eq!(Loc(0, 0).display_string(), "1:1");
    assert_eq!(Loc(2, 4).display_string(), "3:5");
    assert_eq!(Loc(9, 99).display_string(), "10:100");
}

#[test]
fn error_messages_name_kind_and_location() {
    let err = Tokenizer::builder()
        .allow_digit_separator(Choice::Yes('_'))
        .build("3_")
        .tokenize()
        .expect_err("scan should fail");
    assert_eq!(err.message(), "Unexpected digit separator at 1:2");
    let err = Tokenizer::builder().build("'ab'").tokenize().expect_err("scan should fail");
    assert_eq!(err.message(), "No valid character at 1:1");
}

#[test]
fn single_multi_byte_char_is_a_valid_char() {
    // one character of content, even though it spans several bytes
    let tokens = scan("'é'");
    assert_eq!(tokens.len(), 1);
    assert_eq!(tokens[0].kind, TokenType::Char);
    assert_eq!(tokens[0].value.as_str(), "é");
}

#[test]
fn recognized_escape_decodes_inside_char_literal() {
    let tokens = scan("'\\n'");
    assert_eq!(tokens.len(), 1);
    assert_eq!(tokens[0].kind, TokenType::Char);
    assert_eq!(tokens[0].value.as_str(), "\n");
}

#[test]
fn unrecognized_escape_inside_char_literal_is_an_error() {
    // `\x` decodes verbatim to the two characters backslash and x, which is
    // more than one character of content.
    let err = Tokenizer::builder().build("'\\x'").tokenize().expect_err("scan should fail");
    assert_eq!(err, TokenizationError::NotAValidChar(Loc(0, 0)));
}

#[test]
fn escaped_quote_inside_char_literal_is_an_error() {
    // `\'` is not a recognized escape: it decodes verbatim to two characters.
    let err = Tokenizer::builder().build("'\\''").tokenize().expect_err("scan should fail");
    assert_eq!(err, TokenizationError::NotAValidChar(Loc(0, 0)));
}
