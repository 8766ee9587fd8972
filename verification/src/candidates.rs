//! Candidate generation: sampling followed by optional centroid merging.
//!
//! This is the single entry point the crop pipeline uses to obtain the
//! candidate crop centers for one image: sample `n` points in the disc of
//! radius `scale`, then, when a merge threshold is given, collapse nearby
//! points into centroids. Without a threshold the raw sample is returned
//! unchanged.

use vstd::prelude::*;

use crate::merge::{
    all_bounded, greedy_merge, in_bounding_box, lemma_min_max_within, remove_centroids,
};
use crate::point::{Point, COORD_LIMIT};
use crate::sampler::{all_in_disc, circular_coords, in_disc, RandomSource};

verus! {

/// Candidate crop centers for one image, relative to the disc center.
///
/// Exactly `n` candidates come back when no threshold is given, and at most
/// `n` (at least one, if `n > 0`) after merging. Every candidate lies in
/// the disc of radius `scale`: sampled points by construction, merged
/// centroids because truncated means of disc points stay in the disc. With
/// a threshold, the result is exactly the greedy merge of some sample of
/// `n` disc points.
pub fn generate_candidates(
    rng: &mut RandomSource,
    n: usize,
    scale: i64,
    threshold: Option<i64>,
) -> (r: Vec<Point>)
    requires
        0 <= scale <= COORD_LIMIT,
        threshold is Some ==> 0 <= threshold->0 <= COORD_LIMIT,
    ensures
        r@.len() <= n,
        threshold is None ==> r@.len() == n,
        n > 0 ==> r@.len() >= 1,
        all_bounded(r@),
        forall|i: int| 0 <= i < r@.len() ==> in_disc(#[trigger] r@[i], scale as int),
        forall|i: int|
            0 <= i < r@.len() ==> -scale <= (#[trigger] r@[i]).x <= scale && -scale <= r@[i].y
                <= scale,
        threshold is Some ==> exists|sampled: Seq<Point>|
            #![trigger greedy_merge(sampled, threshold->0 as int)]
            sampled.len() == n && all_in_disc(sampled, scale as int) && r@ == greedy_merge(
                sampled,
                threshold->0 as int,
            ),
{
    let points = circular_coords(rng, n, scale);
    proof {
        assert forall|i: int| 0 <= i < points@.len() implies (#[trigger] points@[i]).bounded() by {
            assert(-scale <= points@[i].x <= scale);
        }
    }
    if let Some(t) = threshold {
        let ghost sampled = points@;
        let merged = remove_centroids(points, t);
        proof {
            assert(all_in_disc(sampled, scale as int));
            assert(all_in_disc(merged@, scale as int));
            assert(merged@ == greedy_merge(sampled, t as int));
            if n > 0 {
                lemma_min_max_within(sampled, -scale as int, scale as int, -scale as int, scale as int);
                assert forall|i: int|
                    0 <= i < merged@.len() implies -scale <= (#[trigger] merged@[i]).x <= scale
                    && -scale <= merged@[i].y <= scale by {
                    assert(in_bounding_box(merged@[i], sampled));
                }
            }
        }
        merged
    } else {
        points
    }
}

} // verus!
