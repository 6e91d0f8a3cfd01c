//! The recognizers, the dispatcher and the line-oriented driver.
use vstd::prelude::*;
use crate::model::{
    front_kind, front_scan, gap, has_digit, ident_scan, indentation_width, inline_space,
    lemma_step_bounds, lex_error, lexes, number_run, number_scan, quote_inner,
};
use crate::scan::{is_alphabetic, is_digit, take_while, CharClass};
use crate::text::{byte_len, char_width, first_char, lemma_byte_len_push, lemma_byte_len_split, lemma_byte_len_zero, lemma_encode_concat, split_chars, str_byte_len};
use crate::token::{LexError, Token, TokenKind};

verus! {

/// Reads an identifier at the start of `input`: the longest run of
/// alphanumeric or underscore characters. Fails on empty input, on a leading
/// digit, and where no such character starts the input.
pub fn tokenize_ident(input: &str) -> (r: Result<(TokenKind, usize), LexError>)
    ensures
        r is Ok <==> ident_scan(input@) is Ok,
        r matches Err(e) ==> ident_scan(input@) == Err::<nat, LexError>(e),
        r matches Ok((k, n)) ==> k is Identifier && k->Identifier_0@ == input@.take(
            ident_scan(input@)->Ok_0 as int,
        ) && n == byte_len(k->Identifier_0@),
{
    match first_char(input) {
        Some(c) => {
            if '0' <= c && c <= '9' {
                return Err(LexError::InvalidLeadingDigit);
            }
        },
        None => {
            return Err(LexError::UnexpectedEndOfInput);
        },
    }
    let (got, len_read) = take_while(input, CharClass::IdentBody)?;
    if len_read == 0 {
        proof {
            lemma_byte_len_zero(got@);
        }
        return Err(LexError::UnrecognizedCharacter);
    }
    proof {
        lemma_byte_len_zero(got@);
    }
    Ok((TokenKind::Identifier(got.to_owned()), len_read))
}

/// Reads a number at the start of `input`: the longest run of digits holding
/// at most one decimal point. Fails on empty input, and where that run holds
/// no digit.
pub fn tokenize_number(input: &str) -> (r: Result<(TokenKind, usize), LexError>)
    ensures
        r is Ok <==> number_scan(input@) is Ok,
        r matches Err(e) ==> number_scan(input@) == Err::<nat, LexError>(e),
        r matches Ok((k, n)) ==> k is Number && k->Number_0@ == input@.take(
            number_scan(input@)->Ok_0 as int,
        ) && n == byte_len(k->Number_0@),
{
    if input.is_empty() {
        return Err(LexError::UnexpectedEndOfInput);
    }
    // The input's byte length bounds every count taken below.
    let total = str_byte_len(input);
    let mut rest = input;
    let mut n: usize = 0;
    let ghost mut k: int = 0;
    let mut dot_seen = false;
    let mut digit_seen = false;
    loop
        invariant
            0 <= k <= input@.len(),
            rest@ == input@.skip(k),
            n == byte_len(input@.take(k)),
            total == byte_len(input@),
            number_run(input@, 0, false) == k + number_run(input@, k, dot_seen),
            digit_seen == has_digit(input@.take(k)),
        ensures
            0 <= k <= input@.len(),
            n == byte_len(input@.take(k)),
            number_run(input@, 0, false) == k,
            digit_seen == has_digit(input@.take(k)),
        decreases input@.len() - k,
    {
        match first_char(rest) {
            Some(c) => {
                assert(input@[k] == c);
                let digit = '0' <= c && c <= '9';
                if !(digit || (c == '.' && !dot_seen)) {
                    break;
                }
                let w = char_width(c);
                proof {
                    lemma_byte_len_push(input@, k);
                    lemma_byte_len_push(rest@, 0);
                    assert(rest@.take(0) =~= Seq::<char>::empty());
                    let before = input@.take(k);
                    let after = input@.take(k + 1);
                    assert(after[k] == c);
                    if !digit {
                        assert forall|i: int| 0 <= i < after.len() && is_digit(#[trigger] after[i])
                            implies 0 <= i < before.len() && is_digit(before[i]) by {
                            assert(i != k);
                        }
                    }
                    assert forall|i: int| 0 <= i < before.len() && is_digit(#[trigger] before[i])
                        implies is_digit(after[i]) by {
                        assert(before[i] == after[i]);
                    }
                }
                let parts = split_chars(rest, Ghost(1), w);
                rest = parts.1;
                n = n + w;
                if c == '.' {
                    dot_seen = true;
                }
                if digit {
                    digit_seen = true;
                }
                proof {
                    assert(input@.skip(k + 1) =~= input@.skip(k).skip(1));
                    k = k + 1;
                }
            },
            None => {
                assert(k == input@.len());
                break;
            },
        }
    }
    if !digit_seen {
        return Err(LexError::NumericParseFailure);
    }
    let parts = split_chars(input, Ghost(k), n);
    Ok((TokenKind::Number(parts.0.to_owned()), n))
}

/// Bytes of white space other than newlines at the start of `input`.
pub fn skip_whitespace(input: &str) -> (r: usize)
    ensures
        r == inline_space(input@),
{
    match take_while(input, CharClass::InlineWhitespace) {
        Ok((_, len_skipped)) => len_skipped,
        Err(_) => {
            proof {
                lemma_byte_len_zero(input@.take(0));
            }
            0
        },
    }
}

/// Reads the white space that begins a line, newlines included, as an
/// indentation of that many bytes. Fails where it is wider than 255 bytes.
pub fn capture_indentation(input: &str) -> (r: Result<(TokenKind, usize), LexError>)
    ensures
        r is Err <==> indentation_width(input@) > 255,
        r is Err ==> r == Err::<(TokenKind, usize), LexError>(LexError::IndentationOverflow),
        r matches Ok((k, n)) ==> k == TokenKind::Indentation(n as u8) && n == indentation_width(
            input@,
        ),
{
    let length = match take_while(input, CharClass::AnyWhitespace) {
        Ok((_, len_skipped)) => len_skipped,
        Err(_) => {
            proof {
                lemma_byte_len_zero(input@.take(0));
            }
            0
        },
    };
    if length > 255 {
        return Err(LexError::IndentationOverflow);
    }
    Ok((TokenKind::Indentation(length as u8), length))
}

/// Reads a quoted string at the start of `input`, which begins with a quote.
fn tokenize_quoted(input: &str) -> (r: Result<(TokenKind, usize), LexError>)
    requires
        input@.len() > 0,
        input@[0] == '"',
    ensures
        r is Ok <==> front_scan(input@) is Ok,
        r matches Err(e) ==> front_scan(input@) == Err::<nat, LexError>(e),
        r matches Ok((k, n)) ==> front_kind(input@, k) && n == byte_len(
            input@.take(front_scan(input@)->Ok_0 as int),
        ),
{
    let ghost s = input@;
    // The input's byte length bounds the count returned.
    let total = str_byte_len(input);
    proof {
        lemma_byte_len_push(s, 0);
        assert(s.take(0) =~= Seq::<char>::empty());
        assert(s.skip(1) =~= s.drop_first());
    }
    let (_, body) = split_chars(input, Ghost(1), 1);
    let (got, len_read) = take_while(body, CharClass::NotQuote)?;
    let ghost k = quote_inner(s) as int;
    let (_, after) = split_chars(body, Ghost(k), len_read);
    if after.is_empty() {
        return Err(LexError::UnexpectedEndOfInput);
    }
    proof {
        assert(s.take(k + 1) =~= s.take(1) + got@);
        lemma_encode_concat(s.take(1), got@);
        assert(s[k + 1] == after@[0]);
        lemma_byte_len_push(s, k + 1);
        assert(s.subrange(1, k + 1) =~= got@);
    }
    Ok((TokenKind::QuotedString(got.to_owned()), len_read + 2))
}

/// Reads the one token at the start of `input`, chosen by its first
/// character: an operator or punctuation mark, a number, a quoted string, the
/// indentation after a newline, or an identifier.
pub fn tokenize_single_token(input: &str) -> (r: Result<(TokenKind, usize), LexError>)
    ensures
        r is Ok <==> front_scan(input@) is Ok,
        r matches Err(e) ==> front_scan(input@) == Err::<nat, LexError>(e),
        r matches Ok((k, n)) ==> front_kind(input@, k) && n == byte_len(
            input@.take(front_scan(input@)->Ok_0 as int),
        ),
{
    let next = match first_char(input) {
        Some(c) => c,
        None => {
            return Err(LexError::UnexpectedEndOfInput);
        },
    };
    proof {
        lemma_byte_len_push(input@, 0);
        assert(input@.take(0) =~= Seq::<char>::empty());
    }
    let (token_got, length) = match next {
        '*' => (TokenKind::Asterisk, 1),
        '=' => (TokenKind::Equals, 1),
        '+' => (TokenKind::Plus, 1),
        '/' => (TokenKind::Slash, 1),
        '<' => (TokenKind::LessThan, 1),
        '>' => (TokenKind::GreaterThan, 1),
        '-' => (TokenKind::Minus, 1),
        ':' => (TokenKind::Colon, 1),
        '@' => (TokenKind::At, 1),
        '.' => (TokenKind::Dot, 1),
        ')' => (TokenKind::CloseParen, 1),
        ']' => (TokenKind::CloseSquare, 1),
        '(' => (TokenKind::OpenParen, 1),
        '[' => (TokenKind::OpenSquare, 1),
        ';' => (TokenKind::Semicolon, 1),
        '"' => tokenize_quoted(input)?,
        '\n' => capture_indentation(input)?,
        c => {
            if '0' <= c && c <= '9' {
                tokenize_number(input)?
            } else if c == '_' || is_alphabetic(c) {
                tokenize_ident(input)?
            } else {
                return Err(LexError::UnrecognizedCharacter);
            }
        },
    };
    Ok((token_got, length))
}

/// Scans all of `input` into positioned tokens, or fails with the first
/// failure met. The scan starts at the start of a line: row 1, column 1.
pub fn lex(input: &str) -> (r: Result<Vec<Token>, LexError>)
    requires
        byte_len(input@) < usize::MAX,
    ensures
        r is Ok <==> lex_error(input@, true) is None,
        r matches Err(e) ==> lex_error(input@, true) == Some(e),
        r matches Ok(tokens) ==> lexes(input@, true, 1, 1, tokens@),
{
    let total = str_byte_len(input);
    let mut tokens: Vec<Token> = Vec::new();
    let mut remaining = input;
    let mut row: usize = 1;
    let mut col_start: usize = 1;
    let mut is_line_start = true;
    let ghost mut pos: int = 0;
    proof {
        assert(input@.skip(0) =~= input@);
        lemma_byte_len_zero(input@.take(0));
        assert forall|rest: Seq<Token>|
            lexes(remaining@, is_line_start, row as int, col_start as int, rest) implies #[trigger] lexes(
            input@,
            true,
            1,
            1,
            tokens@ + rest,
        ) by {
            assert(tokens@ + rest =~= rest);
        }
    }
    loop
        invariant
            0 <= pos <= input@.len(),
            remaining@ == input@.skip(pos),
            total == byte_len(input@),
            total < usize::MAX,
            1 <= col_start <= 1 + byte_len(input@.take(pos)),
            1 <= row <= 1 + byte_len(input@.take(pos)),
            lex_error(input@, true) == lex_error(remaining@, is_line_start),
            forall|rest: Seq<Token>|
                lexes(remaining@, is_line_start, row as int, col_start as int, rest)
                    ==> #[trigger] lexes(input@, true, 1, 1, tokens@ + rest),
        ensures
            lex_error(input@, true) is None,
            lexes(input@, true, 1, 1, tokens@),
        decreases input@.len() - pos,
    {
        let ghost s0 = remaining@;
        let ghost ls0 = is_line_start;
        let ghost row0 = row as int;
        let ghost col0 = col_start as int;
        let ghost toks0 = tokens@;
        let ghost skip = gap(s0, ls0) as int;
        proof {
            lemma_step_bounds(s0, ls0);
        }
        if !is_line_start {
            let ws = skip_whitespace(remaining);
            proof {
                lemma_byte_len_split(input@, pos, skip);
                assert(input@.skip(pos).take(skip) =~= s0.take(skip));
                assert(input@.skip(pos + skip) =~= s0.skip(skip));
            }
            col_start = col_start + ws;
            let (_, after) = split_chars(remaining, Ghost(skip), ws);
            remaining = after;
            proof {
                pos = pos + skip;
            }
        } else {
            is_line_start = false;
            proof {
                assert(s0.skip(0) =~= s0);
                lemma_byte_len_zero(s0.take(0));
            }
        }
        let ghost t = remaining@;
        assert(t == s0.skip(skip));
        assert(col_start == col0 + byte_len(s0.take(skip)));
        if remaining.is_empty() {
            proof {
                assert(lexes(s0, ls0, row0, col0, Seq::<Token>::empty()));
                assert(toks0 + Seq::<Token>::empty() =~= toks0);
            }
            break;
        }
        let (token, len_read) = match tokenize_single_token(remaining) {
            Ok(got) => got,
            Err(e) => {
                return Err(e);
            },
        };
        let ghost n = front_scan(t)->Ok_0 as int;
        let nl = match token {
            TokenKind::Indentation(_) => true,
            _ => false,
        };
        assert(nl == (t[0] == '\n'));
        proof {
            lemma_byte_len_zero(t.take(n));
            lemma_byte_len_split(input@, pos, n);
            assert(input@.skip(pos).take(n) =~= t.take(n));
            assert(input@.skip(pos + n) =~= t.skip(n));
        }
        if nl {
            row = row + 1;
            col_start = 1;
        }
        let col_end = col_start + len_read;
        let ghost tok = Token { kind: token, column_start: col_start, column_end: col_end, row };
        tokens.push(Token { kind: token, column_start: col_start, column_end: col_end, row });
        col_start = col_end;
        let (_, after) = split_chars(remaining, Ghost(n), len_read);
        remaining = after;
        is_line_start = nl;
        proof {
            pos = pos + n;
            assert(tokens@ == toks0.push(tok));
            assert forall|rest: Seq<Token>|
                lexes(remaining@, is_line_start, row as int, col_start as int, rest) implies #[trigger] lexes(
                input@,
                true,
                1,
                1,
                tokens@ + rest,
            ) by {
                let whole = seq![tok] + rest;
                assert(whole.drop_first() =~= rest);
                assert(lexes(s0, ls0, row0, col0, whole));
                assert(toks0 + whole =~= tokens@ + rest);
            }
        }
    }
    Ok(tokens)
}

} // verus!
