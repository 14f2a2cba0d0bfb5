//! Random draws, behind narrow trusted wrappers.
//!
//! Every generator's nondeterminism funnels through these three
//! functions; the logic around them is verified for every outcome the
//! contracts admit.

use vstd::prelude::*;
use rand::Rng;

verus! {

/// Relies on `rand::Rng::gen_range` over `0..n` on the thread-local
/// generator: the draw lies in the half-open range, hence below `n`.
/// The range must be non-empty (the call panics on an empty range).
#[verifier::external_body]
pub(crate) fn random_below(n: usize) -> (r: usize)
    requires
        n >= 1,
    ensures
        r < n,
{
    rand::thread_rng().gen_range(0..n)
}

/// Relies on `rand::Rng::gen_range` over `lo..=hi`: the draw lies in
/// the inclusive range, which must be non-empty.
#[verifier::external_body]
pub(crate) fn random_between(lo: i64, hi: i64) -> (r: i64)
    requires
        lo <= hi,
    ensures
        lo <= r <= hi,
{
    rand::thread_rng().gen_range(lo..=hi)
}

/// The characters `rand`'s `Alphanumeric` distribution draws from.
pub open spec fn is_alnum_char(c: char) -> bool {
    ('A' <= c && c <= 'Z') || ('a' <= c && c <= 'z') || ('0' <= c && c <= '9')
}

/// Relies on `rand::distributions::Alphanumeric` through
/// `Rng::sample_iter`: every sampled byte is one of the 62 ASCII
/// alphanumeric characters, and `take(len)` draws exactly `len`.
#[verifier::external_body]
pub(crate) fn random_alphanumeric(len: usize) -> (r: String)
    ensures
        r@.len() == len,
        forall|i: int| 0 <= i < r@.len() ==> is_alnum_char(#[trigger] r@[i]),
{
    rand::thread_rng()
        .sample_iter(&rand::distributions::Alphanumeric)
        .take(len)
        .map(char::from)
        .collect()
}

} // verus!
