use vstd::prelude::*;

use rand::Rng;

verus! {

/// Relies on rand::Rng::gen_range over `0..n`, on rand::thread_rng. The
/// sampled value lies in the half-open range; the call panics on an empty
/// range, so `n` must be positive. Nothing more is assumed of the draw:
/// two calls on the same bound may differ.
#[verifier::external_body]
pub(crate) fn random_below(n: usize) -> (r: usize)
    requires
        1 <= n,
    ensures
        r < n,
{
    rand::thread_rng().gen_range(0..n)
}

} // verus!
