//! Lowercase forms of text.

use vstd::prelude::*;

verus! {

/// The lowercase form of `text` under Unicode's default case mapping, which
/// depends on no locale.
pub uninterp spec fn lowercased(text: Seq<char>) -> Seq<char>;

/// The lowercase form of `text`, as `str::to_lowercase` of the standard
/// library gives it. Nothing is proved of this function: its contract only
/// names the result, which the characters of `text` determine.
#[verifier::external_body]
pub(crate) fn lowercase(text: &str) -> (out: String)
    ensures
        out@ == lowercased(text@),
{
    text.to_lowercase()
}

} // verus!
