//! What each recognizer, and a whole scan, yield on a sequence of characters.
use vstd::prelude::*;
use crate::scan::{alphabetic, in_class, is_digit, run_from, CharClass};
use crate::text::byte_len;
use crate::token::{LexError, Token, TokenKind};

verus! {

/// Length of the longest run of digits at `i` that holds at most one decimal
/// point in all (`dot_seen`: one was already taken before `i`).
pub open spec fn number_run(s: Seq<char>, i: int, dot_seen: bool) -> nat
    decreases s.len() - i,
{
    if 0 <= i < s.len() && (is_digit(s[i]) || (s[i] == '.' && !dot_seen)) {
        1 + number_run(s, i + 1, dot_seen || s[i] == '.')
    } else {
        0
    }
}

pub open spec fn has_digit(s: Seq<char>) -> bool {
    exists|i: int| 0 <= i < s.len() && is_digit(#[trigger] s[i])
}

/// Characters taken by an identifier at the start of `s`.
pub open spec fn ident_scan(s: Seq<char>) -> Result<nat, LexError> {
    if s.len() == 0 {
        Err(LexError::UnexpectedEndOfInput)
    } else if is_digit(s[0]) {
        Err(LexError::InvalidLeadingDigit)
    } else if run_from(s, CharClass::IdentBody, 0) == 0 {
        Err(LexError::UnrecognizedCharacter)
    } else {
        Ok(run_from(s, CharClass::IdentBody, 0))
    }
}

/// Characters taken by a number at the start of `s`.
pub open spec fn number_scan(s: Seq<char>) -> Result<nat, LexError> {
    if s.len() == 0 {
        Err(LexError::UnexpectedEndOfInput)
    } else if !has_digit(s.take(number_run(s, 0, false) as int)) {
        Err(LexError::NumericParseFailure)
    } else {
        Ok(number_run(s, 0, false))
    }
}

/// Characters taken by the white space at the start of `s`.
pub open spec fn indentation_run(s: Seq<char>) -> nat {
    run_from(s, CharClass::AnyWhitespace, 0)
}

/// Byte width of the white space at the start of `s`.
pub open spec fn indentation_width(s: Seq<char>) -> nat {
    byte_len(s.take(indentation_run(s) as int))
}

/// Characters between the quote that starts `s` and the next one.
pub open spec fn quote_inner(s: Seq<char>) -> nat {
    run_from(s.drop_first(), CharClass::NotQuote, 0)
}

/// Bytes of inline white space at the start of `s`.
pub open spec fn inline_space(s: Seq<char>) -> nat {
    byte_len(s.take(run_from(s, CharClass::InlineWhitespace, 0) as int))
}

/// The kind that a one-character operator or punctuation mark stands for.
pub open spec fn fixed_token(c: char) -> Option<TokenKind> {
    match c {
        '*' => Some(TokenKind::Asterisk),
        '=' => Some(TokenKind::Equals),
        '+' => Some(TokenKind::Plus),
        '/' => Some(TokenKind::Slash),
        '<' => Some(TokenKind::LessThan),
        '>' => Some(TokenKind::GreaterThan),
        '-' => Some(TokenKind::Minus),
        ':' => Some(TokenKind::Colon),
        '@' => Some(TokenKind::At),
        '.' => Some(TokenKind::Dot),
        ')' => Some(TokenKind::CloseParen),
        ']' => Some(TokenKind::CloseSquare),
        '(' => Some(TokenKind::OpenParen),
        '[' => Some(TokenKind::OpenSquare),
        ';' => Some(TokenKind::Semicolon),
        _ => None,
    }
}

/// Characters taken by the one token at the start of `s`, or why none can be.
pub open spec fn front_scan(s: Seq<char>) -> Result<nat, LexError> {
    if s.len() == 0 {
        Err(LexError::UnexpectedEndOfInput)
    } else if fixed_token(s[0]) is Some {
        Ok(1)
    } else if is_digit(s[0]) {
        number_scan(s)
    } else if s[0] == '"' {
        if quote_inner(s) + 1 < s.len() {
            Ok(quote_inner(s) + 2)
        } else {
            Err(LexError::UnexpectedEndOfInput)
        }
    } else if s[0] == '\n' {
        if indentation_width(s) > 255 {
            Err(LexError::IndentationOverflow)
        } else {
            Ok(indentation_run(s))
        }
    } else if s[0] == '_' || alphabetic(s[0]) {
        ident_scan(s)
    } else {
        Err(LexError::UnrecognizedCharacter)
    }
}

/// Whether `k` is the kind of the token at the start of `s`, where one can be
/// read there.
pub open spec fn front_kind(s: Seq<char>, k: TokenKind) -> bool {
    let n = front_scan(s)->Ok_0 as int;
    if fixed_token(s[0]) is Some {
        k == fixed_token(s[0])->0
    } else if is_digit(s[0]) {
        k is Number && k->Number_0@ == s.take(n)
    } else if s[0] == '"' {
        k is QuotedString && k->QuotedString_0@ == s.subrange(1, n - 1)
    } else if s[0] == '\n' {
        k == TokenKind::Indentation(indentation_width(s) as u8)
    } else {
        k is Identifier && k->Identifier_0@ == s.take(n)
    }
}

/// A run is no longer than what is left after its start.
pub proof fn lemma_run_bound(s: Seq<char>, cls: CharClass, i: int)
    requires
        0 <= i <= s.len(),
    ensures
        run_from(s, cls, i) <= s.len() - i,
    decreases s.len() - i,
{
    if i < s.len() {
        lemma_run_bound(s, cls, i + 1);
    }
}

/// A number is no longer than what is left after its start.
pub proof fn lemma_number_run_bound(s: Seq<char>, i: int, dot_seen: bool)
    requires
        0 <= i <= s.len(),
    ensures
        number_run(s, i, dot_seen) <= s.len() - i,
    decreases s.len() - i,
{
    if i < s.len() {
        lemma_number_run_bound(s, i + 1, dot_seen || s[i] == '.');
    }
}

/// Characters skipped before the next token: none at the start of a line.
pub open spec fn gap(s: Seq<char>, line_start: bool) -> nat {
    if line_start {
        0
    } else {
        run_from(s, CharClass::InlineWhitespace, 0)
    }
}

/// Every token read takes at least one character, and no more than there are.
pub proof fn lemma_step_bounds(s: Seq<char>, line_start: bool)
    ensures
        gap(s, line_start) <= s.len(),
        ({
            let t = s.skip(gap(s, line_start) as int);
            t.len() > 0 && front_scan(t) is Ok ==> 1 <= front_scan(t)->Ok_0 <= t.len()
        }),
{
    lemma_run_bound(s, CharClass::InlineWhitespace, 0);
    let t = s.skip(gap(s, line_start) as int);
    if t.len() > 0 {
        lemma_run_bound(t, CharClass::IdentBody, 0);
        lemma_run_bound(t, CharClass::AnyWhitespace, 0);
        lemma_run_bound(t.drop_first(), CharClass::NotQuote, 0);
        lemma_number_run_bound(t, 0, false);
    }
}

#[via_fn]
proof fn lexes_decreases(s: Seq<char>, line_start: bool, row: int, col: int, toks: Seq<Token>) {
    lemma_step_bounds(s, line_start);
}

#[via_fn]
proof fn lex_error_decreases(s: Seq<char>, line_start: bool) {
    lemma_step_bounds(s, line_start);
}

/// Whether scanning `s` yields exactly `toks`, starting at the start of a line
/// or mid-line, on `row`, at byte column `col`. Mid-line, white space other
/// than newlines is skipped before each token; a newline token starts the
/// next row, at column 1.
pub open spec fn lexes(s: Seq<char>, line_start: bool, row: int, col: int, toks: Seq<Token>) -> bool
    decreases s.len(),
    via lexes_decreases
{
    let skip = gap(s, line_start) as int;
    let t = s.skip(skip);
    if t.len() == 0 {
        toks.len() == 0
    } else {
        match front_scan(t) {
            Err(_) => false,
            Ok(n) => {
                let nl = t[0] == '\n';
                let r = if nl {
                    row + 1
                } else {
                    row
                };
                let start = if nl {
                    1
                } else {
                    col + byte_len(s.take(skip))
                };
                let end = start + byte_len(t.take(n as int));
                &&& toks.len() > 0
                &&& front_kind(t, toks[0].kind)
                &&& toks[0].row == r
                &&& toks[0].column_start == start
                &&& toks[0].column_end == end
                &&& lexes(t.skip(n as int), nl, r, end, toks.drop_first())
            },
        }
    }
}

/// The first failure that scanning `s` meets, if any.
pub open spec fn lex_error(s: Seq<char>, line_start: bool) -> Option<LexError>
    decreases s.len(),
    via lex_error_decreases
{
    let t = s.skip(gap(s, line_start) as int);
    if t.len() == 0 {
        None
    } else {
        match front_scan(t) {
            Err(e) => Some(e),
            Ok(n) => lex_error(t.skip(n as int), t[0] == '\n'),
        }
    }
}

} // verus!
