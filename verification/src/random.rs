//! The engine's only source of chance: a uniform draw of an index below a
//! bound, used when picking piece colors.
use vstd::prelude::*;

verus! {

/// Relies on rand::random_range: a value drawn from `0..n` lies in that
/// range (the call panics on an empty range, which `n >= 1` rules out).
/// Nothing more is assumed of the draw.
#[verifier::external_body]
pub(crate) fn random_index(n: usize) -> (r: usize)
    requires
        n >= 1,
    ensures
        r < n,
{
    rand::random_range(0..n)
}

} // verus!
