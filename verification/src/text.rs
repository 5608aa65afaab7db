//! Text is modelled as a sequence of characters; positions and lengths that
//! the lexer reports are measured in bytes of its UTF-8 encoding.

use vstd::prelude::*;
use vstd::utf8::{
    decode_utf8, decode_utf8_split, encode_utf8, encode_utf8_decode_utf8, encode_utf8_valid_utf8,
    is_char_boundary,
};
use vstd::string::StringSliceAdditionalSpecFns;

verus! {

/// Number of bytes that `text` occupies in UTF-8.
pub open spec fn byte_len(text: Seq<char>) -> nat {
    encode_utf8(text).len()
}

/// The characters held in the first `n` bytes of `text`.
pub open spec fn take_bytes(text: Seq<char>, n: nat) -> Seq<char> {
    decode_utf8(encode_utf8(text).subrange(0, n as int))
}

/// The characters of `text` that follow its first `n` bytes.
pub open spec fn skip_bytes(text: Seq<char>, n: nat) -> Seq<char> {
    decode_utf8(encode_utf8(text).subrange(n as int, encode_utf8(text).len() as int))
}

/// Encoding distributes over concatenation.
pub proof fn lemma_encode_concat(a: Seq<char>, b: Seq<char>)
    ensures
        encode_utf8(a + b) == encode_utf8(a) + encode_utf8(b),
    decreases a.len(),
{
    if a.len() == 0 {
        assert(a + b =~= b);
        assert(encode_utf8(a) + encode_utf8(b) =~= encode_utf8(b));
    } else {
        assert((a + b).drop_first() =~= a.drop_first() + b);
        lemma_encode_concat(a.drop_first(), b);
        assert((a + b)[0] == a[0]);
        assert(encode_utf8(a + b) =~= encode_utf8(a) + encode_utf8(b));
    }
}

/// Length of `s` in bytes.
pub fn str_byte_len(s: &str) -> (n: usize)
    ensures
        n == byte_len(s@),
{
    s.as_bytes().len()
}

/// Splits `s` after its first `mid` bytes.
pub fn split_at_bytes<'a>(s: &'a str, mid: usize) -> (r: (&'a str, &'a str))
    requires
        is_char_boundary(s.spec_bytes(), mid as int),
        mid <= byte_len(s@),
    ensures
        r.0@ == take_bytes(s@, mid as nat),
        r.1@ == skip_bytes(s@, mid as nat),
        byte_len(r.0@) == mid,
        byte_len(r.1@) == byte_len(s@) - mid,
        s@ == r.0@ + r.1@,
{
    let r = s.split_at(mid);
    proof {
        encode_utf8_decode_utf8(r.0@);
        encode_utf8_decode_utf8(r.1@);
        encode_utf8_decode_utf8(s@);
        encode_utf8_valid_utf8(s@);
        decode_utf8_split(s.spec_bytes(), mid as int);
    }
    r
}

/// A text has at least as many bytes as characters.
pub proof fn lemma_chars_le_bytes(text: Seq<char>)
    ensures
        text.len() <= byte_len(text),
    decreases text.len(),
{
    if text.len() > 0 {
        lemma_chars_le_bytes(text.drop_first());
    }
}

/// `str::strip_prefix` with a string pattern: when `s` begins with `prefix`
/// the remainder after it is returned, and nothing otherwise.
#[verifier::external_body]
pub(crate) fn strip_prefix<'a>(s: &'a str, prefix: &str) -> (r: Option<&'a str>)
    ensures
        match r {
            Some(rest) => s@ == prefix@ + rest@,
            None => !prefix@.is_prefix_of(s@),
        },
{
    s.strip_prefix(prefix)
}

} // verus!
