//! Placeholder prose, behind trusted wrappers over the faker crate.

use vstd::prelude::*;
use fake::Fake;

verus! {

/// Relies on `fake::faker::lorem::en::Words`: the word count is drawn
/// uniformly from the half-open range, and each word comes from the
/// crate's fixed lorem list, whose entries are all non-empty.
#[verifier::external_body]
pub(crate) fn lorem_words(lo: usize, hi: usize) -> (r: Vec<String>)
    requires
        lo < hi,
    ensures
        lo <= r@.len() < hi,
        forall|i: int| 0 <= i < r@.len() ==> (#[trigger] r@[i])@.len() > 0,
{
    fake::faker::lorem::en::Words(lo..hi).fake()
}

/// Relies on `fake::faker::lorem::en::Sentence`: a drawn number of
/// lorem words joined with spaces, with a period appended, so the text
/// is non-empty and ends with a period.
#[verifier::external_body]
pub(crate) fn lorem_sentence(lo: usize, hi: usize) -> (r: String)
    requires
        lo < hi,
    ensures
        r@.len() > 0,
        r@.last() == '.',
{
    fake::faker::lorem::en::Sentence(lo..hi).fake()
}

} // verus!
