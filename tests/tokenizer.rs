use lexer::{
    capture_indentation, lex, skip_whitespace, tokenize_ident, tokenize_number,
    tokenize_single_token, LexError, Token, TokenKind,
};

fn ident(s: &str) -> TokenKind {
    TokenKind::Identifier(s.to_string())
}

fn number_value(kind: &TokenKind) -> f64 {
    match kind {
        TokenKind::Number(text) => text.parse().unwrap(),
        other => panic!("not a number: {:?}", other),
    }
}

#[test]
fn testws() {
    assert!('\n'.is_whitespace());
}

#[test]
fn skip_past_several_whitespace_chars() {
    // Skipping stops at the newline: it belongs to the next line's indentation.
    let src = " \t\n\r123";
    let should_be = 2;

    let num_skipped = skip_whitespace(src);
    assert_eq!(num_skipped, should_be);
}

#[test]
fn skipping_whitespace_when_first_is_a_letter_returns_zero() {
    let src = "Hello World";
    let should_be = 0;

    let num_skipped = skip_whitespace(src);
    assert_eq!(num_skipped, should_be);
}

#[test]
fn skip_whitespace_on_empty_input() {
    assert_eq!(skip_whitespace(""), 0);
}

#[test]
fn skip_whitespace_counts_bytes() {
    // U+3000 IDEOGRAPHIC SPACE takes three bytes.
    assert_eq!(skip_whitespace(" \u{3000}x"), 4);
}

#[test]
fn tokenize_a_single_letter() {
    assert_eq!(tokenize_ident("F"), Ok((ident("F"), 1)));
}

#[test]
fn tokenize_an_identifer() {
    assert_eq!(tokenize_ident("Foo"), Ok((ident("Foo"), 3)));
}

#[test]
fn tokenize_ident_containing_an_underscore() {
    assert_eq!(tokenize_ident("Foo_bar"), Ok((ident("Foo_bar"), 7)));
}

#[test]
fn tokenize_ident_stops_at_the_run_end() {
    assert_eq!(tokenize_ident("ab1_c+d"), Ok((ident("ab1_c"), 5)));
    assert_eq!(tokenize_ident("_x y"), Ok((ident("_x"), 2)));
}

#[test]
fn tokenize_ident_counts_bytes() {
    assert_eq!(tokenize_ident("\u{e9}t\u{e9} "), Ok((ident("\u{e9}t\u{e9}"), 5)));
}

#[test]
fn tokenize_ident_cant_start_with_number() {
    assert_eq!(tokenize_ident("7Foo_bar"), Err(LexError::InvalidLeadingDigit));
    assert_eq!(tokenize_ident("7abc"), Err(LexError::InvalidLeadingDigit));
}

#[test]
fn tokenize_ident_cant_start_with_dot() {
    assert_eq!(tokenize_ident(".Foo_bar"), Err(LexError::UnrecognizedCharacter));
}

#[test]
fn tokenize_ident_on_empty_input() {
    assert_eq!(tokenize_ident(""), Err(LexError::UnexpectedEndOfInput));
}

#[test]
fn tokenize_a_single_digit_integer() {
    let (kind, len) = tokenize_number("1").unwrap();
    assert_eq!(number_value(&kind), 1.0);
    assert_eq!(len, 1);
}

#[test]
fn tokenize_a_longer_integer() {
    let (kind, len) = tokenize_number("1234567890").unwrap();
    assert_eq!(number_value(&kind), 1234567890.0);
    assert_eq!(len, 10);
}

#[test]
fn tokenize_basic_decimal() {
    let (kind, len) = tokenize_number("12.3").unwrap();
    assert_eq!(number_value(&kind), 12.3);
    assert_eq!(len, 4);
}

#[test]
fn tokenize_string_with_multiple_decimal_points() {
    let (kind, len) = tokenize_number("12.3.456").unwrap();
    assert_eq!(kind, TokenKind::Number("12.3".to_string()));
    assert_eq!(number_value(&kind), 12.3);
    assert_eq!(len, 4);
}

#[test]
fn cant_tokenize_a_string_as_a_decimal() {
    assert_eq!(tokenize_number("asdfghj"), Err(LexError::NumericParseFailure));
    assert_eq!(tokenize_number("."), Err(LexError::NumericParseFailure));
}

#[test]
fn tokenize_number_on_empty_input() {
    assert_eq!(tokenize_number(""), Err(LexError::UnexpectedEndOfInput));
}

#[test]
fn tokenizing_decimal_stops_at_alpha() {
    let (kind, len) = tokenize_number("123.4asdfghj").unwrap();
    assert_eq!(number_value(&kind), 123.4);
    assert_eq!(len, 5);
}

#[test]
fn capture_indentation_counts_all_leading_white_space() {
    assert_eq!(capture_indentation("\n  \n\tx"), Ok((TokenKind::Indentation(5), 5)));
    assert_eq!(capture_indentation("x"), Ok((TokenKind::Indentation(0), 0)));
    assert_eq!(capture_indentation(""), Ok((TokenKind::Indentation(0), 0)));
}

#[test]
fn capture_indentation_widest_and_overflow() {
    let widest = format!("\n{}", " ".repeat(254));
    assert_eq!(capture_indentation(&widest), Ok((TokenKind::Indentation(255), 255)));
    let too_wide = format!("\n{}", " ".repeat(255));
    assert_eq!(capture_indentation(&too_wide), Err(LexError::IndentationOverflow));
}

#[test]
fn single_tokens_for_punctuation() {
    let cases = [
        ("*", TokenKind::Asterisk),
        ("=", TokenKind::Equals),
        ("+", TokenKind::Plus),
        ("/", TokenKind::Slash),
        ("<", TokenKind::LessThan),
        (">", TokenKind::GreaterThan),
        ("-", TokenKind::Minus),
        (":", TokenKind::Colon),
        ("@", TokenKind::At),
        (".", TokenKind::Dot),
        (")", TokenKind::CloseParen),
        ("]", TokenKind::CloseSquare),
        ("(", TokenKind::OpenParen),
        ("[", TokenKind::OpenSquare),
        (";", TokenKind::Semicolon),
    ];
    for (src, kind) in cases {
        assert_eq!(tokenize_single_token(src), Ok((kind, 1)));
    }
    assert_eq!(tokenize_single_token("==x"), Ok((TokenKind::Equals, 1)));
}

#[test]
fn single_token_routes_by_first_character() {
    assert_eq!(
        tokenize_single_token("42+1"),
        Ok((TokenKind::Number("42".to_string()), 2))
    );
    assert_eq!(tokenize_single_token("_a b"), Ok((ident("_a"), 2)));
    assert_eq!(
        tokenize_single_token("\n  x"),
        Ok((TokenKind::Indentation(3), 3))
    );
}

#[test]
fn single_token_quoted_string() {
    assert_eq!(
        tokenize_single_token("\"hi there\" x"),
        Ok((TokenKind::QuotedString("hi there".to_string()), 10))
    );
    assert_eq!(
        tokenize_single_token("\"\""),
        Ok((TokenKind::QuotedString(String::new()), 2))
    );
}

#[test]
fn single_token_unterminated_string() {
    assert_eq!(tokenize_single_token("\"abc"), Err(LexError::UnexpectedEndOfInput));
    assert_eq!(tokenize_single_token("\""), Err(LexError::UnexpectedEndOfInput));
}

#[test]
fn single_token_failures() {
    assert_eq!(tokenize_single_token(""), Err(LexError::UnexpectedEndOfInput));
    assert_eq!(tokenize_single_token("#"), Err(LexError::UnrecognizedCharacter));
    assert_eq!(tokenize_single_token(" x"), Err(LexError::UnrecognizedCharacter));
}

fn tok(kind: TokenKind, column_start: usize, column_end: usize, row: usize) -> Token {
    Token { kind, column_start, column_end, row }
}

#[test]
fn lex_a_single_letter() {
    assert_eq!(lex("F"), Ok(vec![tok(ident("F"), 1, 2, 1)]));
}

#[test]
fn lex_an_identifier_with_underscore() {
    assert_eq!(lex("Foo_bar"), Ok(vec![tok(ident("Foo_bar"), 1, 8, 1)]));
}

#[test]
fn lex_number_then_identifier() {
    let tokens = lex("123.4asdfghj").unwrap();
    assert_eq!(tokens.len(), 2);
    assert_eq!(number_value(&tokens[0].kind), 123.4);
    assert_eq!((tokens[0].column_start, tokens[0].column_end, tokens[0].row), (1, 6, 1));
    assert_eq!(tokens[1], tok(ident("asdfghj"), 6, 13, 1));
}

#[test]
fn lex_leading_dot_is_a_dot_token() {
    assert_eq!(
        lex(".Foo_bar"),
        Ok(vec![tok(TokenKind::Dot, 1, 2, 1), tok(ident("Foo_bar"), 2, 9, 1)])
    );
}

#[test]
fn lex_empty_input() {
    assert_eq!(lex(""), Ok(vec![]));
}

#[test]
fn lex_skips_inline_white_space() {
    assert_eq!(
        lex("a = 1"),
        Ok(vec![
            tok(ident("a"), 1, 2, 1),
            tok(TokenKind::Equals, 3, 4, 1),
            tok(TokenKind::Number("1".to_string()), 5, 6, 1),
        ])
    );
}

#[test]
fn lex_rows_and_indentation() {
    assert_eq!(
        lex("x:\n  y"),
        Ok(vec![
            tok(ident("x"), 1, 2, 1),
            tok(TokenKind::Colon, 2, 3, 1),
            tok(TokenKind::Indentation(3), 1, 4, 2),
            tok(ident("y"), 4, 5, 2),
        ])
    );
}

#[test]
fn lex_trailing_white_space() {
    assert_eq!(lex("a  "), Ok(vec![tok(ident("a"), 1, 2, 1)]));
}

#[test]
fn lex_quoted_string() {
    assert_eq!(
        lex("say \"hi\";"),
        Ok(vec![
            tok(ident("say"), 1, 4, 1),
            tok(TokenKind::QuotedString("hi".to_string()), 5, 9, 1),
            tok(TokenKind::Semicolon, 9, 10, 1),
        ])
    );
}

#[test]
fn lex_stops_at_first_failure() {
    assert_eq!(lex("a # b"), Err(LexError::UnrecognizedCharacter));
    assert_eq!(lex(" a"), Err(LexError::UnrecognizedCharacter));
    assert_eq!(lex("x \"open"), Err(LexError::UnexpectedEndOfInput));
    let too_wide = format!("a\n{}b", " ".repeat(255));
    assert_eq!(lex(&too_wide), Err(LexError::IndentationOverflow));
}

#[test]
fn lex_spans_rebuild_the_input() {
    // Each token's byte span, with the white space skipped before it, covers
    // the input exactly.
    let src = "a  = 12.5 \n\t\"s\" ( b )";
    let tokens = lex(src).unwrap();
    let mut rebuilt = String::new();
    let mut at = 0usize;
    let mut line_start = true;
    for t in &tokens {
        if !line_start {
            let ws = skip_whitespace(&src[at..]);
            rebuilt.push_str(&src[at..at + ws]);
            at += ws;
        }
        let width = t.column_end - t.column_start;
        rebuilt.push_str(&src[at..at + width]);
        at += width;
        line_start = matches!(t.kind, TokenKind::Indentation(_));
    }
    rebuilt.push_str(&src[at..]);
    assert_eq!(at + skip_whitespace(&src[at..]), src.len());
    assert_eq!(rebuilt, src);
}
