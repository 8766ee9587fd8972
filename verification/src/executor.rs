//! The per-image crop executor.
//!
//! For one decoded image and one split strategy this produces the list of
//! `(coordinate, patch)` pairs: a single centered patch for `Center`, one
//! patch per surviving candidate coordinate for `Circular`. An image that
//! cannot host even one patch yields no patches at all, never a panic, so
//! the caller can skip the file and carry on.

use vstd::prelude::*;

use crate::candidates::generate_candidates;
use crate::config::SplitType;
use crate::imaging::{crop_region, dimensions_of, image_height, image_width};
use crate::mapper::{center_coord, effective_scale, nothing_clipped, spec_min, to_absolute};
use crate::point::Point;
use crate::sampler::RandomSource;

verus! {

/// The sampling radius the `Circular` strategy uses for an image: the
/// magnitude of the effective scale, since a negative margin mirrors the
/// disc without changing which offsets it can produce.
pub open spec fn circular_radius(scaling: i64, min_dim: u32, patch_w: u32) -> int {
    let s = spec_min(scaling as int, min_dim as int / 2) - patch_w as int / 2;
    if s < 0 {
        -s
    } else {
        s
    }
}

/// The translated sampling disc fits in the image with room for a patch on
/// every side, so no candidate of the `Circular` strategy is discarded.
pub open spec fn disc_fits(w: u32, h: u32, pw: u32, ph: u32, scaling: i64) -> bool {
    let m = circular_radius(scaling, if w <= h { w } else { h }, pw);
    let tx = w as int / 2 - pw as int / 2;
    let ty = h as int / 2 - pw as int / 2;
    m <= tx && m <= ty && tx + m + pw <= w && ty + m + ph <= h
}

/// Every patch coordinate leaves its whole patch inside the image, and
/// every patch has exactly the requested resolution.
pub open spec fn patches_fit(
    patches: Seq<((u32, u32), image::DynamicImage)>,
    w: u32,
    h: u32,
    res: (u32, u32),
) -> bool {
    forall|k: int|
        0 <= k < patches.len() ==> (#[trigger] patches[k]).0.0 + res.0 <= w && patches[k].0.1
            + res.1 <= h && image_width(patches[k].1) == res.0 && image_height(patches[k].1)
            == res.1
}

/// Cut the patches for one decoded image.
///
/// Returns `None` exactly when the image cannot host a patch of the
/// requested resolution: the patch width exceeds the smaller image
/// dimension, or the patch height exceeds the image height. The caller
/// skips such a file. Otherwise every returned coordinate satisfies the
/// patch invariant for this image, every patch has the requested size,
/// the `Center` strategy yields exactly the one centered patch, and the
/// `Circular` strategy yields at most one patch per requested sample —
/// exactly one per sample when nothing merges and the translated disc
/// leaves room for every patch.
pub fn crop(
    img: &image::DynamicImage,
    crop_resolution: (u32, u32),
    split_type: &SplitType,
    rng: &mut RandomSource,
) -> (r: Option<Vec<((u32, u32), image::DynamicImage)>>)
    requires
        split_type.wf(),
    ensures
        r is Some <==> crop_resolution.0 <= spec_min(
            image_width(*img) as int,
            image_height(*img) as int,
        ) && crop_resolution.1 <= image_height(*img),
        r is Some ==> patches_fit(r->0@, image_width(*img), image_height(*img), crop_resolution),
        r is Some ==> match *split_type {
            SplitType::Center => r->0@.len() == 1 && r->0@[0].0.0 == image_width(*img) / 2
                - crop_resolution.0 / 2 && r->0@[0].0.1 == image_height(*img) / 2
                - crop_resolution.1 / 2,
            SplitType::Circular { sample_size, threshold, scaling } => r->0@.len() <= sample_size
                && (disc_fits(
                image_width(*img),
                image_height(*img),
                crop_resolution.0,
                crop_resolution.1,
                scaling,
            ) ==> (threshold is None ==> r->0@.len() == sample_size) && (sample_size > 0
                ==> r->0@.len() >= 1)),
        },
{
    let (xdim, ydim) = dimensions_of(img);
    let min_dim = if xdim <= ydim {
        xdim
    } else {
        ydim
    };
    if crop_resolution.0 > min_dim || crop_resolution.1 > ydim {
        return None;
    }
    let mut patches: Vec<((u32, u32), image::DynamicImage)> = Vec::new();
    match split_type {
        SplitType::Center => {
            let c = center_coord(xdim, ydim, crop_resolution.0, crop_resolution.1);
            let patch = crop_region(img, c.0, c.1, crop_resolution.0, crop_resolution.1);
            patches.push((c, patch));
        },
        SplitType::Circular { sample_size, threshold, scaling } => {
            let s_eff = effective_scale(*scaling, min_dim, crop_resolution.0);
            let radius = if s_eff < 0 {
                -s_eff
            } else {
                s_eff
            };
            let points = generate_candidates(rng, *sample_size, radius, *threshold);
            let half_crop = crop_resolution.0 / 2;
            let transformer = Point::new(
                (xdim / 2) as i64 - half_crop as i64,
                (ydim / 2) as i64 - half_crop as i64,
            );
            let coords = to_absolute(
                &points,
                transformer,
                xdim,
                ydim,
                crop_resolution.0,
                crop_resolution.1,
            );
            proof {
                let m = circular_radius(*scaling, min_dim, crop_resolution.0);
                assert(m == radius);
                if disc_fits(xdim, ydim, crop_resolution.0, crop_resolution.1, *scaling) {
                    assert(nothing_clipped(
                        points@,
                        m,
                        transformer,
                        xdim,
                        ydim,
                        crop_resolution.0,
                        crop_resolution.1,
                    ));
                    assert(coords@.len() == points@.len());
                }
            }
            let ghost kept_all = coords@.len() == points@.len();
            let ghost n_points = points@.len();
            let mut k: usize = 0;
            while k < coords.len()
                invariant
                    xdim == image_width(*img),
                    ydim == image_height(*img),
                    k <= coords@.len(),
                    coords@.len() <= *sample_size,
                    forall|j: int|
                        0 <= j < coords@.len() ==> (#[trigger] coords@[j]).0 + crop_resolution.0
                            <= xdim && coords@[j].1 + crop_resolution.1 <= ydim,
                    kept_all == (coords@.len() == n_points),
                    n_points <= *sample_size,
                    *threshold is None ==> n_points == *sample_size,
                    *sample_size > 0 ==> n_points >= 1,
                    kept_all && *threshold is None ==> coords@.len() == *sample_size,
                    kept_all && *sample_size > 0 ==> coords@.len() >= 1,
                    patches@.len() == k,
                    patches_fit(patches@, xdim, ydim, crop_resolution),
                decreases coords@.len() - k,
            {
                let coord = coords[k];
                let patch = crop_region(img, coord.0, coord.1, crop_resolution.0, crop_resolution.1);
                patches.push((coord, patch));
                k = k + 1;
            }
        },
    }
    Some(patches)
}

} // verus!
