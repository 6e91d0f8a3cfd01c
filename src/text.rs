//! Characters and their UTF-8 byte lengths.
use vstd::prelude::*;
use vstd::string::*;
use vstd::utf8::*;

verus! {

broadcast use vstd::string::group_string_axioms, vstd::slice::group_slice_axioms;

/// Number of bytes that `s` occupies in UTF-8.
pub open spec fn byte_len(s: Seq<char>) -> nat {
    encode_utf8(s).len()
}

/// UTF-8 encoding distributes over concatenation.
pub proof fn lemma_encode_concat(a: Seq<char>, b: Seq<char>)
    ensures
        encode_utf8(a + b) == encode_utf8(a) + encode_utf8(b),
    decreases a.len(),
{
    if a.len() == 0 {
        assert(a + b =~= b);
        assert(encode_utf8(a) + encode_utf8(b) =~= encode_utf8(b));
    } else {
        assert((a + b).drop_first() =~= a.drop_first() + b);
        lemma_encode_concat(a.drop_first(), b);
        assert(encode_utf8(a + b) =~= encode_utf8(a) + encode_utf8(b));
    }
}

/// The end of the encoding of a prefix is a character boundary of the whole.
proof fn lemma_prefix_boundary(a: Seq<char>, b: Seq<char>)
    ensures
        is_char_boundary(encode_utf8(a + b), byte_len(a) as int),
    decreases a.len(),
{
    encode_utf8_valid_utf8(a + b);
    lemma_encode_concat(a, b);
    if a.len() > 0 {
        let s = a + b;
        let bytes = encode_utf8(s);
        encode_utf8_first_scalar(s);
        assert(pop_first_scalar(bytes) =~= encode_utf8(s.drop_first()));
        assert(s.drop_first() =~= a.drop_first() + b);
        lemma_prefix_boundary(a.drop_first(), b);
    }
}

/// Byte length of a prefix one character longer.
pub proof fn lemma_byte_len_push(s: Seq<char>, k: int)
    requires
        0 <= k < s.len(),
    ensures
        byte_len(s.take(k + 1)) == byte_len(s.take(k)) + encode_scalar(s[k] as u32).len(),
        byte_len(s.take(k + 1)) <= byte_len(s),
{
    assert(s.take(k + 1) =~= s.take(k) + seq![s[k]]);
    lemma_encode_concat(s.take(k), seq![s[k]]);
    let one = seq![s[k]];
    assert(one.drop_first() =~= Seq::<char>::empty());
    assert(encode_utf8(one.drop_first()) =~= Seq::<u8>::empty());
    assert(encode_utf8(one) =~= encode_scalar(s[k] as u32));
    assert(s =~= s.take(k + 1) + s.skip(k + 1));
    lemma_encode_concat(s.take(k + 1), s.skip(k + 1));
}

/// Bytes of a prefix, split after its first `p` characters.
pub proof fn lemma_byte_len_split(s: Seq<char>, p: int, m: int)
    requires
        0 <= p,
        0 <= m,
        p + m <= s.len(),
    ensures
        byte_len(s.take(p + m)) == byte_len(s.take(p)) + byte_len(s.skip(p).take(m)),
        byte_len(s.take(p + m)) <= byte_len(s),
{
    assert(s.take(p + m) =~= s.take(p) + s.skip(p).take(m));
    lemma_encode_concat(s.take(p), s.skip(p).take(m));
    assert(s =~= s.take(p + m) + s.skip(p + m));
    lemma_encode_concat(s.take(p + m), s.skip(p + m));
}

/// Only the empty sequence takes no bytes.
pub proof fn lemma_byte_len_zero(s: Seq<char>)
    ensures
        byte_len(s) == 0 <==> s.len() == 0,
{
    if s.len() > 0 {
        lemma_byte_len_push(s, 0);
        assert(s.take(0) =~= Seq::<char>::empty());
    }
}

/// Byte length of `c` in UTF-8.
pub fn char_width(c: char) -> (r: usize)
    ensures
        r == encode_scalar(c as u32).len(),
        1 <= r <= 4,
{
    proof {
        char_is_scalar(c);
    }
    let v = c as u32;
    if v < 0x80 {
        1
    } else if v < 0x800 {
        2
    } else if v < 0x10000 {
        3
    } else {
        4
    }
}

/// The byte length of a string fits in `usize`.
pub fn str_byte_len(s: &str) -> (r: usize)
    ensures
        r == byte_len(s@),
{
    let b = s.as_bytes();
    b.len()
}

/// Splits `s` after its first `k` characters, which take `n` bytes.
pub(crate) fn split_chars<'a>(s: &'a str, k: Ghost<int>, n: usize) -> (r: (&'a str, &'a str))
    requires
        0 <= k@ <= s@.len(),
        n == byte_len(s@.take(k@)),
    ensures
        r.0@ == s@.take(k@),
        r.1@ == s@.skip(k@),
{
    let ghost a = s@.take(k@);
    let ghost b = s@.skip(k@);
    proof {
        assert(s@ =~= a + b);
        lemma_prefix_boundary(a, b);
        lemma_encode_concat(a, b);
    }
    let r = s.split_at(n);
    proof {
        assert(r.0.spec_bytes() =~= encode_utf8(a));
        assert(r.1.spec_bytes() =~= encode_utf8(b));
        encode_utf8_decode_utf8(r.0@);
        encode_utf8_decode_utf8(r.1@);
        encode_utf8_decode_utf8(a);
        encode_utf8_decode_utf8(b);
    }
    r
}

/// The first character of `s`, if any.
pub fn first_char(s: &str) -> (r: Option<char>)
    ensures
        s@.len() == 0 ==> r is None,
        s@.len() > 0 ==> r == Some(s@[0]),
{
    let mut it = s.chars();
    it.next()
}

} // verus!
