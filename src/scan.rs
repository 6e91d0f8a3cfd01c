//! Character classes and the maximal-munch span scanner.
use vstd::prelude::*;
use crate::text::{byte_len, char_width, first_char, lemma_byte_len_push, split_chars, str_byte_len};
use crate::token::LexError;

verus! {

/// Whether `c` has Unicode's Alphabetic property.
pub uninterp spec fn alphabetic(c: char) -> bool;

/// Whether `c` is alphabetic or numeric in Unicode's sense.
pub uninterp spec fn alphanumeric(c: char) -> bool;

/// Whether `c` has Unicode's White_Space property.
pub uninterp spec fn white_space(c: char) -> bool;

/// Relies on `char::is_alphabetic`, which reads the Alphabetic property.
#[verifier::external_body]
pub(crate) fn is_alphabetic(c: char) -> (r: bool)
    ensures
        r == alphabetic(c),
{
    c.is_alphabetic()
}

/// Relies on `char::is_alphanumeric`, which is true of alphabetic and of
/// numeric characters.
#[verifier::external_body]
pub(crate) fn is_alphanumeric(c: char) -> (r: bool)
    ensures
        r == alphanumeric(c),
{
    c.is_alphanumeric()
}

/// Relies on `char::is_whitespace`, which reads the White_Space property.
#[verifier::external_body]
pub(crate) fn is_white_space(c: char) -> (r: bool)
    ensures
        r == white_space(c),
{
    c.is_whitespace()
}

/// True of the ASCII decimal digits.
pub open spec fn is_digit(c: char) -> bool {
    '0' <= c && c <= '9'
}

/// The classes of characters that a run can be made of.
#[derive(Debug, Clone, Copy, PartialEq, Eq, Structural)]
pub enum CharClass {
    /// What may follow the first character of an identifier.
    IdentBody,
    /// Anything but a double quote.
    NotQuote,
    /// All white space; a newline is white space.
    AnyWhitespace,
    /// White space other than a newline.
    InlineWhitespace,
}

/// Whether `c` belongs to `cls`.
pub open spec fn in_class(cls: CharClass, c: char) -> bool {
    match cls {
        CharClass::IdentBody => c == '_' || alphanumeric(c),
        CharClass::NotQuote => c != '"',
        CharClass::AnyWhitespace => c == '\n' || white_space(c),
        CharClass::InlineWhitespace => c != '\n' && white_space(c),
    }
}

impl CharClass {
    /// Whether `c` belongs to this class.
    pub fn contains(self, c: char) -> (r: bool)
        ensures
            r == in_class(self, c),
    {
        match self {
            CharClass::IdentBody => c == '_' || is_alphanumeric(c),
            CharClass::NotQuote => c != '"',
            CharClass::AnyWhitespace => c == '\n' || is_white_space(c),
            CharClass::InlineWhitespace => c != '\n' && is_white_space(c),
        }
    }
}

/// Length in characters of the longest run of `cls` in `s` that starts at `i`.
pub open spec fn run_from(s: Seq<char>, cls: CharClass, i: int) -> nat
    decreases s.len() - i,
{
    if 0 <= i < s.len() && in_class(cls, s[i]) {
        1 + run_from(s, cls, i + 1)
    } else {
        0
    }
}

/// Counts the longest run of `cls` at the start of `input`, in characters
/// (ghost) and in bytes; fails only on empty input.
pub fn take_while<'a>(input: &'a str, cls: CharClass) -> (r: Result<(&'a str, usize), LexError>)
    ensures
        r is Err <==> input@.len() == 0,
        r is Err ==> r == Err::<(&str, usize), LexError>(LexError::UnexpectedEndOfInput),
        r matches Ok((got, n)) ==> got@ == input@.take(run_from(input@, cls, 0) as int) && n
            == byte_len(got@),
        r is Ok ==> run_from(input@, cls, 0) <= input@.len(),
        r is Ok && run_from(input@, cls, 0) < input@.len() ==> !in_class(
            cls,
            input@[run_from(input@, cls, 0) as int],
        ),
{
    if input.is_empty() {
        return Err(LexError::UnexpectedEndOfInput);
    }
    // The input's byte length bounds every count taken below.
    let total = str_byte_len(input);
    let mut rest = input;
    let mut n: usize = 0;
    let ghost mut k: int = 0;
    loop
        invariant
            0 <= k <= input@.len(),
            rest@ == input@.skip(k),
            n == byte_len(input@.take(k)),
            total == byte_len(input@),
            run_from(input@, cls, 0) == k + run_from(input@, cls, k),
        ensures
            0 <= k <= input@.len(),
            n == byte_len(input@.take(k)),
            run_from(input@, cls, 0) == k,
            run_from(input@, cls, k) == 0,
        decreases input@.len() - k,
    {
        match first_char(rest) {
            Some(c) => {
                assert(input@[k] == c);
                if !cls.contains(c) {
                    break;
                }
                let w = char_width(c);
                proof {
                    lemma_byte_len_push(input@, k);
                    lemma_byte_len_push(rest@, 0);
                    assert(rest@.take(0) =~= Seq::<char>::empty());
                }
                let parts = split_chars(rest, Ghost(1), w);
                rest = parts.1;
                n = n + w;
                proof {
                    assert(input@.skip(k + 1) =~= input@.skip(k).skip(1));
                    k = k + 1;
                }
            },
            None => {
                assert(k == input@.len());
                break;
            },
        }
    }
    let parts = split_chars(input, Ghost(k), n);
    Ok((parts.0, n))
}

} // verus!
