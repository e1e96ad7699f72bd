//! Small pieces of text.

use vstd::prelude::*;
use vstd::utf8::{decode_utf8, valid_utf8};

verus! {

/// How std's `Debug` writes a string: in double quotes, with escapes.
pub uninterp spec fn debug_text(text: Seq<char>) -> Seq<char>;

/// Calls `<str as std::fmt::Debug>::fmt` through `format!`. The contract says
/// only that what comes out is decided by the text that went in; which
/// characters are escaped, and how, is left to std.
#[verifier::external_body]
pub(crate) fn quoted(text: &str) -> (out: String)
    ensures
        out@ == debug_text(text@),
{
    format!("{text:?}")
}

/// How std reads bytes as text, whatever they are: as UTF-8, with a
/// replacement character for every ill-formed stretch.
pub uninterp spec fn lossy_text(bytes: Seq<u8>) -> Seq<char>;

/// Calls `String::from_utf8_lossy`. The contract says that the bytes alone
/// decide the text, and that well-formed UTF-8 comes out as what it encodes;
/// where the replacement characters fall in anything else is left to std.
#[verifier::external_body]
pub(crate) fn lossy(bytes: &[u8]) -> (text: String)
    ensures
        text@ == lossy_text(bytes@),
        valid_utf8(bytes@) ==> text@ == decode_utf8(bytes@),
{
    String::from_utf8_lossy(bytes).into_owned()
}

/// A copy of `text` that is known to read the same.
pub fn owned(text: &str) -> (out: String)
    ensures
        out@ == text@,
{
    text.to_owned()
}

} // verus!
