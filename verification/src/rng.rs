use vstd::prelude::*;

verus! {

/// Relies on rand's `Rng::gen_range` over the range `0..bound`: for a
/// non-empty integer range it returns a uniformly drawn value of the range,
/// so the result is below `bound`. Nothing more is assumed of the draw.
#[verifier::external_body]
pub(crate) fn random_below(bound: u128) -> (r: u128)
    requires
        bound > 0,
    ensures
        r < bound,
{
    rand::Rng::gen_range(&mut rand::thread_rng(), 0..bound)
}

} // verus!
