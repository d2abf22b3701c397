//! Uniform draws from a range, used to place mines.
use vstd::prelude::*;

verus! {

/// Relies on `std::hash::BuildHasher::hash_one` over a freshly keyed
/// `std::collections::hash_map::RandomState`: the result is some `u64`, and
/// nothing more is promised of it.
#[verifier::external_body]
fn random_u64() -> (r: u64) {
    std::hash::BuildHasher::hash_one(&std::collections::hash_map::RandomState::new(), 0u8)
}

/// A number drawn from `min..max`; `min` itself when the range is empty.
pub fn random_range(min: usize, max: usize) -> (r: usize)
    requires
        min <= max,
    ensures
        min < max ==> min <= r < max,
        min == max ==> r == min,
{
    if min == max {
        min
    } else {
        min + (random_u64() as usize) % (max - min)
    }
}

} // verus!
