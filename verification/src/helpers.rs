use vstd::prelude::*;

use rand::Rng;

verus! {

/// Relies on rand's `Rng::random_range` over `0..n`, which returns a value
/// of the given range and panics only when the range is empty.
#[verifier::external_body]
pub(crate) fn random_below(n: usize) -> (r: usize)
    requires
        n >= 1,
    ensures
        r < n,
{
    let mut rng = rand::rng();
    rng.random_range(0..n)
}

/// A fresh tile value as the spawn protocol draws it: 2 with probability
/// 9/10, else 4, from the thread-local generator.
pub fn random_two_or_four() -> (v: u32)
    ensures
        v == 2 || v == 4,
{
    if random_below(10) < 9 {
        2
    } else {
        4
    }
}

} // verus!
