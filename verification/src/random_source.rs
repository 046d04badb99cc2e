//! Sampling of ring elements with uniformly distributed coefficients.
//!
//! The draws come from the `rand` crate through a trusted wrapper; the
//! loop that assembles a ring element from them is verified. Gaussian
//! error sampling needs floating point, which the verified engine does
//! not touch: callers hand Gaussian-drawn error polynomials in as plain
//! values, and every contract states what holds for any such values.

use vstd::prelude::*;
use crate::poly::Poly;
use crate::ring::in_range;

verus! {

#[verifier::external_type_specification]
#[verifier::external_body]
pub struct ExStdRng(rand::rngs::StdRng);

/// Relies on rand's `Rng::gen_range`, which returns a value drawn
/// uniformly from `[low, high)` and panics only when `low >= high`;
/// called with `low = 0` and a positive bound.
#[verifier::external_body]
fn uniform_draw(bound: i64, rng: &mut rand::rngs::StdRng) -> (r: i64)
    requires
        bound >= 1,
    ensures
        0 <= r < bound,
{
    rand::Rng::gen_range(rng, 0, bound)
}

/// A ring element of length `dimension` whose coefficients are drawn
/// independently and uniformly from `[0, bound)`.
pub fn get_uniform(bound: i64, dimension: usize, rng: &mut rand::rngs::StdRng) -> (r: Poly)
    requires
        bound >= 1,
    ensures
        r@.len() == dimension,
        in_range(r@, 0, bound as int),
{
    let mut val: Vec<i64> = Vec::new();
    let mut i: usize = 0;
    while i < dimension
        invariant
            i <= dimension,
            bound >= 1,
            val@.len() == i,
            forall|j: int| 0 <= j < i ==> 0 <= #[trigger] val@[j] < bound,
        decreases dimension - i,
    {
        val.push(uniform_draw(bound, rng));
        i += 1;
    }
    Poly::new(val)
}

} // verus!
