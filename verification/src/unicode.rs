//! What the standard library's tables say about text: case mappings and damaged UTF-8.
use vstd::prelude::*;
use vstd::utf8::{decode_utf8, is_ascii_chars, valid_utf8};

use crate::text::{lower, upper};

verus! {

/// What `str::to_lowercase` makes of text.
pub uninterp spec fn lowercase(s: Seq<char>) -> Seq<char>;

/// What `str::to_uppercase` makes of text.
pub uninterp spec fn uppercase(s: Seq<char>) -> Seq<char>;

/// What `String::from_utf8_lossy` reads from bytes.
pub uninterp spec fn utf8_lossy(bytes: Seq<u8>) -> Seq<char>;

/// Whether the lower case of `s` is the usual one where `s` is ASCII: `A` to `Z` become `a` to
/// `z`, and the others stay as they are.
pub open spec fn lowers_as_ascii(s: Seq<char>) -> bool {
    is_ascii_chars(s) ==> lowercase(s) == lower(s)
}

/// `str::to_lowercase`: the result depends on the characters of `s` alone, and where they are
/// all ASCII, the letters `A` to `Z` become `a` to `z` and the others stay as they are.
#[verifier::external_body]
pub(crate) fn to_lowercase(s: &str) -> (r: String)
    ensures
        r@ == lowercase(s@),
        is_ascii_chars(s@) ==> r@ == lower(s@),
{
    s.to_lowercase()
}

/// `str::to_uppercase`: the result depends on the characters of `s` alone, and where they are
/// all ASCII, the letters `a` to `z` become `A` to `Z` and the others stay as they are.
#[verifier::external_body]
pub(crate) fn to_uppercase(s: &str) -> (r: String)
    ensures
        r@ == uppercase(s@),
        is_ascii_chars(s@) ==> r@ == upper(s@),
{
    s.to_uppercase()
}

/// `String::from_utf8_lossy`: the result depends on the bytes alone, and where they are valid
/// UTF-8 it is the text that they encode. Damaged bytes become the replacement character, so there
/// is no line feed where there was none.
#[verifier::external_body]
pub(crate) fn from_utf8_lossy(bytes: &[u8]) -> (r: String)
    ensures
        r@ == utf8_lossy(bytes@),
        valid_utf8(bytes@) ==> r@ == decode_utf8(bytes@),
        !bytes@.contains(10) ==> !r@.contains('\n'),
{
    String::from_utf8_lossy(bytes).into_owned()
}

} // verus!
