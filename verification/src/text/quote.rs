//! Text in quotes.

use vstd::prelude::*;

verus! {

/// The text in quotes, with the characters that do not show themselves escaped: what `{:?}` writes
/// for a `str`.
pub uninterp spec fn quoted(s: Seq<char>) -> Seq<char>;

/// The text in quotes, by `std`'s `Debug` for `str`. What it writes is a function of the text; which
/// characters it escapes, and how, is left to its tables and not stated here.
#[verifier::external_body]
pub(crate) fn quote(s: &str) -> (r: String)
    ensures
        r@ == quoted(s@),
{
    format!("{:?}", s)
}

} // verus!
