//! The random stream that drives proposals and the choice of which item to move.
use rand::Rng;
use vstd::prelude::*;

verus! {

/// The generator the engine owns.
pub type MyRng = rand_xoshiro::Xoshiro128StarStar;

#[verifier::external_type_specification]
#[verifier::external_body]
pub struct ExXoshiro128StarStar(rand_xoshiro::Xoshiro128StarStar);

/// Relies on rand::Rng::random_range: a value drawn from the half-open range `0..n`,
/// which it requires to be non-empty.
#[verifier::external_body]
pub(crate) fn random_below(rng: &mut MyRng, n: usize) -> (r: usize)
    requires
        n > 0,
    ensures
        r < n,
{
    rng.random_range(0..n)
}

/// A segment count for a new spline, uniform in `1 ..= max_segments`.
pub fn random_segment_count(rng: &mut MyRng, max_segments: usize) -> (r: usize)
    requires
        1 <= max_segments,
    ensures
        1 <= r <= max_segments,
{
    random_below(rng, max_segments) + 1
}

/// A segment of a spline with `segments` segments, uniform among them.
pub fn random_segment(rng: &mut MyRng, segments: usize) -> (r: usize)
    requires
        segments > 0,
    ensures
        r < segments,
{
    random_below(rng, segments)
}

/// How a pair of independent normal samples `(c, s)` is laid onto the two axes.
#[derive(Clone, Copy, Debug, PartialEq, Eq, Structural)]
pub enum Orientation {
    /// `(c, s)`
    Straight,
    /// `(-c, -s)`
    Negated,
    /// `(s, c)`
    Swapped,
    /// `(-s, -c)`
    SwappedNegated,
}

/// One of the four orientations, uniformly.
pub fn random_orientation(rng: &mut MyRng) -> (r: Orientation) {
    let k = random_below(rng, 4);
    if k == 0 {
        Orientation::Straight
    } else if k == 1 {
        Orientation::Negated
    } else if k == 2 {
        Orientation::Swapped
    } else {
        Orientation::SwappedNegated
    }
}

} // verus!
