//! Lowercase forms of texts, as the standard library computes them.

use vstd::prelude::*;
use vstd::string::*;

verus! {

/// The lowercase form of `text`: what `str::to_lowercase` returns for it.
///
/// Unicode decides what it is, character by character and with regard to
/// the characters around; nothing of that is written out or proved here.
pub uninterp spec fn lowercase_of(text: Seq<char>) -> Seq<char>;

/// Calls `str::to_lowercase` of the standard library, which is trusted to
/// return the same lowercase form whenever it is given the same text, and
/// to return the empty text for the empty text. Nothing else is claimed of
/// the result.
#[verifier::external_body]
pub(crate) fn to_lowercase(text: &str) -> (lowered: String)
    ensures
        lowered@ == lowercase_of(text@),
        text@.len() == 0 ==> lowered@.len() == 0,
{
    text.to_lowercase()
}

} // verus!
