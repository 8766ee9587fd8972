//! Random sampling of candidate points inside a disc.
//!
//! Candidates are drawn uniformly by area from the disc of a given radius
//! centered at the origin: a draw picks both coordinates uniformly from the
//! enclosing square and keeps the pair only when it lies inside the disc.
//! The randomness comes from a seedable generator handle, so runs can be
//! reproduced in tests; the contracts state only what holds of every draw.

use vstd::prelude::*;

use crate::point::{Point, COORD_LIMIT};

verus! {

#[verifier::external_type_specification]
#[verifier::external_body]
pub struct ExStdRng(rand::rngs::StdRng);

/// An explicit handle on the random source, passed into the sampler so
/// that a run can be seeded and reproduced.
pub struct RandomSource {
    rng: rand::rngs::StdRng,
}

impl RandomSource {
    /// Relies on rand's `SeedableRng::seed_from_u64` to build a generator
    /// from a word-sized seed; nothing is assumed of the values it yields.
    #[verifier::external_body]
    pub fn from_seed(seed: u64) -> RandomSource {
        RandomSource { rng: <rand::rngs::StdRng as rand::SeedableRng>::seed_from_u64(seed) }
    }

    /// Relies on rand's `SeedableRng::from_entropy` for a fresh generator;
    /// nothing is assumed of the values it yields. The call aborts the
    /// process if the operating system's entropy source fails, an
    /// environmental condition no argument can rule out.
    #[verifier::external_body]
    pub fn from_entropy() -> RandomSource {
        RandomSource { rng: <rand::rngs::StdRng as rand::SeedableRng>::from_entropy() }
    }

    /// Relies on rand's `Rng::gen_range`, which returns a value of the given
    /// nonempty range; nothing more is assumed of which value comes back.
    #[verifier::external_body]
    pub(crate) fn below(&mut self, n: u64) -> (r: u64)
        requires
            n >= 1,
        ensures
            r < n,
    {
        rand::Rng::gen_range(&mut self.rng, 0..n)
    }
}

/// The point lies inside (or on) the disc of radius `r` around the origin.
pub open spec fn in_disc(p: Point, r: int) -> bool {
    p.x * p.x + p.y * p.y <= r * r
}

/// Every point of the sequence lies inside the disc of radius `r`.
pub open spec fn all_in_disc(s: Seq<Point>, r: int) -> bool {
    forall|i: int| 0 <= i < s.len() ==> in_disc(#[trigger] s[i], r)
}

/// One draw: a point of the disc of radius `radius` around the origin.
///
/// Coordinates are drawn uniformly from the enclosing square and the pair is
/// kept when it falls inside the disc, so kept pairs are uniform by area.
/// After a bounded number of misses (each miss has probability below 1/4)
/// the draw falls back to the origin, which lies in every disc.
pub fn sample_point(rng: &mut RandomSource, radius: i64) -> (p: Point)
    requires
        0 <= radius <= COORD_LIMIT,
    ensures
        in_disc(p, radius as int),
        -radius <= p.x <= radius,
        -radius <= p.y <= radius,
{
    let span: u64 = 2 * (radius as u64) + 1;
    let limit: i128 = square_of(radius);
    let mut attempts: usize = 0;
    while attempts < 32
        invariant
            0 <= radius <= COORD_LIMIT,
            span == 2 * radius + 1,
            limit == radius * radius,
        decreases 32 - attempts,
    {
        let x: i64 = rng.below(span) as i64 - radius;
        let y: i64 = rng.below(span) as i64 - radius;
        let candidate = Point::new(x, y);
        let d: i128 = candidate.distance_sq(&Point::zero());
        if d <= limit {
            return candidate;
        }
        attempts = attempts + 1;
    }
    Point::zero()
}

/// `radius * radius` as an `i128`, exact.
pub fn square_of(radius: i64) -> (r: i128)
    requires
        0 <= radius <= COORD_LIMIT,
    ensures
        r == radius * radius,
{
    proof {
        assert(0 <= (radius as i128) * (radius as i128) < i128::MAX) by (nonlinear_arith)
            requires
                0 <= radius <= COORD_LIMIT,
        ;
    }
    (radius as i128) * (radius as i128)
}

/// `n` points sampled from the disc of radius `scale` around the origin.
///
/// Exactly `n` points come back, every one inside the disc and with both
/// coordinate magnitudes at most `scale`.
pub fn circular_coords(rng: &mut RandomSource, n: usize, scale: i64) -> (points: Vec<Point>)
    requires
        0 <= scale <= COORD_LIMIT,
    ensures
        points@.len() == n,
        all_in_disc(points@, scale as int),
        forall|i: int| 0 <= i < n ==> in_disc(#[trigger] points@[i], scale as int),
        forall|i: int|
            0 <= i < n ==> -scale <= #[trigger] points@[i].x <= scale && -scale
                <= points@[i].y <= scale,
{
    let mut points: Vec<Point> = Vec::with_capacity(n);
    let mut k: usize = 0;
    while k < n
        invariant
            0 <= scale <= COORD_LIMIT,
            k <= n,
            points@.len() == k,
            forall|i: int| 0 <= i < k ==> in_disc(#[trigger] points@[i], scale as int),
            forall|i: int|
                0 <= i < k ==> -scale <= #[trigger] points@[i].x <= scale && -scale
                    <= points@[i].y <= scale,
        decreases n - k,
    {
        let p = sample_point(rng, scale);
        points.push(p);
        k = k + 1;
    }
    points
}

} // verus!
