//! Building and measuring strings.

use vstd::prelude::*;
use vstd::string::StringSliceAdditionalSpecFns;
use vstd::utf8::encode_utf8;

verus! {

/// `String::push`: the string afterwards is the string before, followed by
/// the given character.
#[verifier::external_body]
pub(crate) fn push_char(text: &mut String, c: char)
    ensures
        final(text)@ == old(text)@.push(c),
{
    text.push(c)
}

/// The UTF-8 encoding of a text has at least one byte for each character.
pub proof fn lemma_encoding_covers_chars(chars: Seq<char>)
    ensures
        chars.len() <= encode_utf8(chars).len(),
    decreases chars.len(),
{
    if chars.len() > 0 {
        lemma_encoding_covers_chars(chars.drop_first());
    }
}

/// The length of a text in bytes, which is no less than its length in
/// characters.
pub(crate) fn byte_length(text: &str) -> (n: usize)
    ensures
        n == text.spec_bytes().len(),
        text@.len() <= n,
{
    proof {
        lemma_encoding_covers_chars(text@);
    }
    text.as_bytes().len()
}

} // verus!
