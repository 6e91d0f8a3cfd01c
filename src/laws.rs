//! Properties of the scanner that relate inputs to results in general.
use vstd::prelude::*;
use crate::model::{front_scan, gap, has_digit, ident_scan, lexes, number_run, number_scan};
use crate::scan::{in_class, is_digit, run_from, white_space, CharClass};
use crate::text::byte_len;
use crate::token::{LexError, Token};

verus! {

/// A run covers characters of its class only, and stops at the first
/// character outside it.
pub proof fn lemma_run_maximal(s: Seq<char>, cls: CharClass, i: int)
    requires
        0 <= i <= s.len(),
    ensures
        i + run_from(s, cls, i) <= s.len(),
        forall|j: int| i <= j < i + run_from(s, cls, i) ==> in_class(cls, #[trigger] s[j]),
        i + run_from(s, cls, i) < s.len() ==> !in_class(cls, s[i + run_from(s, cls, i)]),
    decreases s.len() - i,
{
    if i < s.len() && in_class(cls, s[i]) {
        lemma_run_maximal(s, cls, i + 1);
    }
}

/// Where every character from `i` on is of the class, the run takes them all.
pub proof fn lemma_run_whole(s: Seq<char>, cls: CharClass, i: int)
    requires
        0 <= i <= s.len(),
        forall|j: int| i <= j < s.len() ==> in_class(cls, #[trigger] s[j]),
    ensures
        run_from(s, cls, i) == s.len() - i,
    decreases s.len() - i,
{
    if i < s.len() {
        lemma_run_whole(s, cls, i + 1);
    }
}

/// An identifier takes exactly the longest run of alphanumeric or underscore
/// characters at the start of the input, and all of an input made of them.
pub proof fn identifier_takes_maximal_run(s: Seq<char>)
    requires
        s.len() > 0,
        !is_digit(s[0]),
        in_class(CharClass::IdentBody, s[0]),
    ensures
        ident_scan(s) is Ok,
        ({
            let k = ident_scan(s)->Ok_0 as int;
            &&& 1 <= k <= s.len()
            &&& forall|j: int| 0 <= j < k ==> in_class(CharClass::IdentBody, #[trigger] s[j])
            &&& k < s.len() ==> !in_class(CharClass::IdentBody, s[k])
            &&& (forall|j: int| 0 <= j < s.len() ==> in_class(CharClass::IdentBody, #[trigger] s[j]))
                ==> k == s.len()
        }),
{
    lemma_run_maximal(s, CharClass::IdentBody, 0);
    if forall|j: int| 0 <= j < s.len() ==> in_class(CharClass::IdentBody, #[trigger] s[j]) {
        lemma_run_whole(s, CharClass::IdentBody, 0);
    }
}

/// Identifier recognition fails on every input that begins with a digit.
pub proof fn identifier_rejects_leading_digit(s: Seq<char>)
    requires
        s.len() > 0,
        is_digit(s[0]),
    ensures
        ident_scan(s) == Err::<nat, LexError>(LexError::InvalidLeadingDigit),
{
}

/// Digits and decimal points with at most one point between `i` and the end
/// (none, where one was taken before `i`) are all taken.
proof fn lemma_number_run_whole(s: Seq<char>, i: int, dot_seen: bool)
    requires
        0 <= i <= s.len(),
        forall|j: int| i <= j < s.len() ==> is_digit(#[trigger] s[j]) || s[j] == '.',
        forall|j1: int, j2: int|
            i <= j1 < s.len() && i <= j2 < s.len() && #[trigger] s[j1] == '.' && #[trigger] s[j2]
                == '.' ==> j1 == j2,
        dot_seen ==> forall|j: int| i <= j < s.len() ==> #[trigger] s[j] != '.',
    ensures
        number_run(s, i, dot_seen) == s.len() - i,
    decreases s.len() - i,
{
    if i < s.len() {
        lemma_number_run_whole(s, i + 1, dot_seen || s[i] == '.');
    }
}

/// A decimal literal with at most one decimal point is read whole, so the
/// number's text is the literal and its value the literal's decimal value.
pub proof fn number_literal_read_whole(s: Seq<char>)
    requires
        forall|j: int| 0 <= j < s.len() ==> is_digit(#[trigger] s[j]) || s[j] == '.',
        forall|j1: int, j2: int|
            0 <= j1 < s.len() && 0 <= j2 < s.len() && #[trigger] s[j1] == '.' && #[trigger] s[j2]
                == '.' ==> j1 == j2,
        has_digit(s),
    ensures
        number_scan(s) == Ok::<nat, LexError>(s.len()),
{
    lemma_number_run_whole(s, 0, false);
    assert(s.take(s.len() as int) =~= s);
}

/// Skipping white space never takes a newline: what it takes is white space
/// other than newlines, up to the first character that is not.
pub proof fn skipped_space_holds_no_newline(s: Seq<char>)
    ensures
        ({
            let k = run_from(s, CharClass::InlineWhitespace, 0) as int;
            &&& k <= s.len()
            &&& forall|j: int| 0 <= j < k ==> #[trigger] s[j] != '\n' && white_space(s[j])
            &&& k < s.len() ==> s[k] == '\n' || !white_space(s[k])
        }),
{
    lemma_run_maximal(s, CharClass::InlineWhitespace, 0);
}

/// The text skipped before each token and the text that the token took, in
/// turn, then the white space skipped after the last token.
pub open spec fn pieces(s: Seq<char>, line_start: bool, toks: Seq<Token>) -> Seq<Seq<char>>
    decreases toks.len(),
{
    let skip = gap(s, line_start) as int;
    let t = s.skip(skip);
    if toks.len() == 0 {
        seq![s.take(skip)]
    } else {
        let n = front_scan(t)->Ok_0 as int;
        seq![s.take(skip), t.take(n)] + pieces(t.skip(n), t[0] == '\n', toks.drop_first())
    }
}

/// Joining, in order, the white space skipped and the text of each token,
/// whose byte width its columns give, rebuilds the input exactly.
pub proof fn tokens_rebuild_input(
    s: Seq<char>,
    line_start: bool,
    row: int,
    col: int,
    toks: Seq<Token>,
)
    requires
        lexes(s, line_start, row, col, toks),
    ensures
        pieces(s, line_start, toks).len() == 2 * toks.len() + 1,
        pieces(s, line_start, toks).flatten() == s,
        forall|i: int|
            0 <= i < toks.len() ==> #[trigger] toks[i].column_end - toks[i].column_start
                == byte_len(pieces(s, line_start, toks)[2 * i + 1]),
    decreases toks.len(),
{
    crate::model::lemma_step_bounds(s, line_start);
    let skip = gap(s, line_start) as int;
    let t = s.skip(skip);
    let p = pieces(s, line_start, toks);
    if toks.len() == 0 {
        assert(s.take(skip) =~= s);
        assert(p.drop_first() =~= Seq::<Seq<char>>::empty());
        assert(p.flatten() == p.first() + p.drop_first().flatten());
        assert(p.flatten() =~= s);
    } else {
        let n = front_scan(t)->Ok_0 as int;
        let nl = t[0] == '\n';
        let rest = toks.drop_first();
        let next_row = if nl {
            row + 1
        } else {
            row
        };
        let start = if nl {
            1
        } else {
            col + byte_len(s.take(skip))
        };
        let end = start + byte_len(t.take(n));
        tokens_rebuild_input(t.skip(n), nl, next_row, end, rest);
        let q = pieces(t.skip(n), nl, rest);
        assert(p == seq![s.take(skip), t.take(n)] + q);
        assert(p.drop_first() =~= seq![t.take(n)] + q);
        assert(p.drop_first().drop_first() =~= q);
        assert(p.flatten() == p.first() + p.drop_first().flatten());
        assert(p.drop_first().flatten() == p.drop_first().first() + p.drop_first().drop_first().flatten());
        assert(p.flatten() =~= s.take(skip) + (t.take(n) + q.flatten()));
        assert(s =~= s.take(skip) + (t.take(n) + t.skip(n)));
        assert forall|i: int| 0 <= i < toks.len() implies #[trigger] toks[i].column_end
            - toks[i].column_start == byte_len(p[2 * i + 1]) by {
            if i > 0 {
                assert(toks[i] == rest[i - 1]);
                assert(p[2 * i + 1] == q[2 * (i - 1) + 1]);
            }
        }
    }
}

} // verus!
