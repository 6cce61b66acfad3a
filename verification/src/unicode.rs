use vstd::prelude::*;
use vstd::utf8::*;

use crate::text::{ascii_lower, ascii_upper, trim_crs};

verus! {

/// The text that `str::to_lowercase` makes of `s` (full Unicode case mapping).
pub uninterp spec fn lowercase(s: Seq<char>) -> Seq<char>;

/// The text that `str::to_uppercase` makes of `s` (full Unicode case mapping).
pub uninterp spec fn uppercase(s: Seq<char>) -> Seq<char>;

/// The text that `String::from_utf8_lossy` makes of `bytes`.
pub uninterp spec fn lossy_text(bytes: Seq<u8>) -> Seq<char>;

/// Calls `str::to_lowercase`. Trusted: its result is the named `lowercase` of
/// the argument, and an all-ASCII text has only its capital letters made small;
/// the Unicode case tables for other characters are not stated.
#[verifier::external_body]
pub(crate) fn to_lowercase(s: &str) -> (r: String)
    ensures
        r@ == lowercase(s@),
        is_ascii_chars(s@) ==> r@ == s@.map_values(|c: char| ascii_lower(c)),
{
    s.to_lowercase()
}

/// Calls `str::to_uppercase`. Trusted: its result is the named `uppercase` of
/// the argument; an all-ASCII text has only its small letters made capital; and,
/// since each character is mapped on its own (`char::to_uppercase`) and `'\r'`
/// has no upper-case form, the `'\r'`s that end a text stay as they are after
/// the upper-cased rest. The Unicode case tables for other characters are not
/// stated.
#[verifier::external_body]
pub(crate) fn to_uppercase(s: &str) -> (r: String)
    ensures
        r@ == uppercase(s@),
        is_ascii_chars(s@) ==> r@ == s@.map_values(|c: char| ascii_upper(c)),
        r@ == uppercase(trim_crs(s@)) + s@.skip(trim_crs(s@).len() as int),
{
    s.to_uppercase()
}

/// Calls `String::from_utf8_lossy`. Trusted: its result is the named
/// `lossy_text` of the bytes, and, as std documents, bytes that are valid UTF-8
/// decode to exactly the text they encode. How invalid sequences are replaced
/// is left unsaid.
#[verifier::external_body]
pub(crate) fn utf8_lossy(bytes: &[u8]) -> (r: String)
    ensures
        r@ == lossy_text(bytes@),
        valid_utf8(bytes@) ==> r@ == decode_utf8(bytes@),
{
    String::from_utf8_lossy(bytes).into_owned()
}

} // verus!
