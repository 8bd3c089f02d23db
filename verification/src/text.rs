//! Characters and strings: what this library takes for granted of the
//! standard library, and helpers for reading strings character by
//! character and for cutting them at characters.

use vstd::prelude::*;
use vstd::string::StringSliceAdditionalSpecFns;
use vstd::utf8::{
    encode_scalar, encode_utf8, encode_utf8_decode_utf8, encode_utf8_first_scalar,
    encode_utf8_valid_utf8, is_char_boundary, length_of_first_scalar, pop_first_scalar,
};

verus! {

/// Whether a character has the Unicode `White_Space` property.
pub uninterp spec fn is_space(c: char) -> bool;

/// `char::is_whitespace` of the standard library: its answer is a fixed
/// function of the character.
pub assume_specification[ char::is_whitespace ](c: char) -> (b: bool)
    ensures
        b == is_space(c),
;

/// `String::push` of the standard library appends one character.
pub assume_specification[ String::push ](s: &mut String, c: char)
    ensures
        final(s)@ == old(s)@.push(c),
;

/// The characters of a string, in order.
pub fn collect_chars(s: &str) -> (v: Vec<char>)
    ensures
        v@ == s@,
{
    let mut v: Vec<char> = Vec::new();
    for c in it: s.chars()
        invariant
            v@ == it.seq().take(it.index() as int),
            it.seq() == s@,
    {
        v.push(c);
    }
    v
}

/// Whether two strings hold the same characters.
pub fn same_text(a: &str, b: &str) -> (same: bool)
    ensures
        same == (a@ == b@),
{
    let left = collect_chars(a);
    let right = collect_chars(b);
    if left.len() != right.len() {
        return false;
    }
    let mut i: usize = 0;
    while i < left.len()
        invariant
            0 <= i <= left.len(),
            left.len() == right.len(),
            left@ == a@,
            right@ == b@,
            forall|j: int| 0 <= j < i ==> left@[j] == right@[j],
        decreases left.len() - i,
    {
        if left[i] != right[i] {
            return false;
        }
        i = i + 1;
    }
    proof {
        assert(a@ =~= b@);
    }
    true
}

/// The encoding of a text that is put together from two is the two
/// encodings put together.
proof fn lemma_encode_concat(a: Seq<char>, b: Seq<char>)
    ensures
        encode_utf8(a + b) == encode_utf8(a) + encode_utf8(b),
    decreases a.len(),
{
    if a.len() == 0 {
        assert(a + b =~= b);
        assert(encode_utf8(a) + encode_utf8(b) =~= encode_utf8(b));
    } else {
        lemma_encode_concat(a.drop_first(), b);
        assert((a + b).drop_first() =~= a.drop_first() + b);
        assert(encode_utf8(a + b) =~= encode_utf8(a) + encode_utf8(b));
    }
}

/// In the encoding of a text, a character begins where the encoding of
/// the characters before it ends.
proof fn lemma_encode_boundary(a: Seq<char>, b: Seq<char>)
    ensures
        is_char_boundary(encode_utf8(a + b), encode_utf8(a).len() as int),
    decreases a.len(),
{
    let bytes = encode_utf8(a + b);
    encode_utf8_valid_utf8(a + b);
    if a.len() > 0 {
        let rest = a.drop_first();
        lemma_encode_boundary(rest, b);
        encode_utf8_first_scalar(a + b);
        assert((a + b).drop_first() =~= rest + b);
        assert(bytes == encode_scalar((a + b)[0] as u32) + encode_utf8(rest + b));
        assert(pop_first_scalar(bytes) =~= encode_utf8(rest + b));
        assert(encode_utf8(a) == encode_scalar(a[0] as u32) + encode_utf8(rest));
        assert(encode_utf8(a).len() - length_of_first_scalar(bytes) == encode_utf8(rest).len());
        lemma_encode_concat(a, b);
    }
}

/// A text has no more characters than its encoding has bytes.
proof fn lemma_encode_len(chars: Seq<char>)
    ensures
        chars.len() <= encode_utf8(chars).len(),
    decreases chars.len(),
{
    if chars.len() > 0 {
        lemma_encode_len(chars.drop_first());
    }
}

/// The length of a string in bytes, which is at least its number of
/// characters.
pub(crate) fn byte_len(text: &str) -> (len: usize)
    ensures
        text@.len() <= len,
{
    proof {
        lemma_encode_len(text@);
    }
    text.as_bytes().len()
}

/// Splits a string after its first `count` characters. Both parts are
/// slices of the string, and the work grows with `count` only.
pub(crate) fn split_chars<'a>(text: &'a str, count: usize) -> (parts: (&'a str, &'a str))
    requires
        count <= text@.len(),
    ensures
        parts.0@ == text@.take(count as int),
        parts.1@ == text@.skip(count as int),
{
    let head = text.substring_char(0, count);
    let mid = head.as_bytes().len();
    proof {
        let a = text@.take(count as int);
        let b = text@.skip(count as int);
        assert(a + b =~= text@);
        assert(head@ =~= a);
        lemma_encode_concat(a, b);
        lemma_encode_boundary(a, b);
    }
    let parts = text.split_at(mid);
    proof {
        let a = text@.take(count as int);
        let b = text@.skip(count as int);
        let bytes = text.spec_bytes();
        assert(bytes.subrange(0, mid as int) =~= encode_utf8(a));
        assert(bytes.subrange(mid as int, bytes.len() as int) =~= encode_utf8(b));
        encode_utf8_decode_utf8(parts.0@);
        encode_utf8_decode_utf8(parts.1@);
        encode_utf8_decode_utf8(a);
        encode_utf8_decode_utf8(b);
    }
    parts
}

} // verus!
