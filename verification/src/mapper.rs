//! Mapping disc-relative candidate points to absolute pixel coordinates.
//!
//! A candidate is translated so that the disc is centered on the image
//! minus a half-patch margin, then converted to unsigned pixel coordinates.
//! A candidate whose translation leaves the valid area — a negative
//! component, or a patch that would reach past the image edge — is
//! discarded, so every coordinate that comes out can host a patch.

use vstd::prelude::*;

use crate::merge::all_bounded;
use crate::point::{Point, COORD_LIMIT};

verus! {

/// The smaller of two integers.
pub open spec fn spec_min(a: int, b: int) -> int {
    if a <= b {
        a
    } else {
        b
    }
}

/// The sampling radius that is actually used for an image: the requested
/// scale, clamped to half the smaller image dimension, then reduced by half
/// the patch width so that no patch center sits flush against the edge.
/// The result may be negative when the patch is large relative to the image.
pub fn effective_scale(scale: i64, min_dim: u32, patch_w: u32) -> (r: i64)
    requires
        0 <= scale,
    ensures
        r == spec_min(scale as int, min_dim as int / 2) - patch_w as int / 2,
        r <= COORD_LIMIT,
{
    let clamped: i64 = if scale <= (min_dim / 2) as i64 {
        scale
    } else {
        (min_dim / 2) as i64
    };
    clamped - (patch_w / 2) as i64
}

/// Every point of `points` shifted by `transformer`.
pub fn transform_points(points: Vec<Point>, transformer: Point) -> (r: Vec<Point>)
    requires
        all_bounded(points@),
        transformer.bounded(),
    ensures
        r@.len() == points@.len(),
        forall|i: int|
            0 <= i < points@.len() ==> (#[trigger] r@[i]).x == points@[i].x + transformer.x
                && r@[i].y == points@[i].y + transformer.y,
{
    let mut out: Vec<Point> = Vec::with_capacity(points.len());
    let mut i: usize = 0;
    while i < points.len()
        invariant
            all_bounded(points@),
            transformer.bounded(),
            i <= points@.len(),
            out@.len() == i,
            forall|k: int|
                0 <= k < i ==> (#[trigger] out@[k]).x == points@[k].x + transformer.x && out@[k].y
                    == points@[k].y + transformer.y,
        decreases points@.len() - i,
    {
        let p = points[i];
        proof {
            assert(p.bounded());
        }
        out.push(p.translate(transformer));
        i = i + 1;
    }
    out
}

/// The coordinates that survive translating `points` by `t`: a translated
/// point is kept exactly when both components are valid `u32` pixel values.
pub open spec fn kept_coords(points: Seq<Point>, t: Point) -> Seq<(u32, u32)>
    decreases points.len(),
{
    if points.len() == 0 {
        Seq::empty()
    } else {
        let prefix = kept_coords(points.drop_last(), t);
        let cx = points.last().x + t.x;
        let cy = points.last().y + t.y;
        if 0 <= cx <= u32::MAX && 0 <= cy <= u32::MAX {
            prefix.push((cx as u32, cy as u32))
        } else {
            prefix
        }
    }
}

/// Unsigned pixel coordinates of the translated points, in order, with any
/// point whose conversion would be negative (or beyond `u32`) discarded.
pub fn to_coords(points: Vec<Point>, transformer: Option<Point>) -> (r: Vec<(u32, u32)>)
    requires
        all_bounded(points@),
        transformer is Some ==> transformer->0.bounded(),
    ensures
        r@ == kept_coords(points@, if transformer is Some { transformer->0 } else { Point { x: 0, y: 0 } }),
        r@.len() <= points@.len(),
{
    let t = if let Some(tr) = transformer {
        tr
    } else {
        Point::new(0, 0)
    };
    let mut out: Vec<(u32, u32)> = Vec::new();
    let mut i: usize = 0;
    while i < points.len()
        invariant
            all_bounded(points@),
            t.bounded(),
            i <= points@.len(),
            out@ == kept_coords(points@.subrange(0, i as int), t),
            out@.len() <= i,
        decreases points@.len() - i,
    {
        let p = points[i];
        proof {
            assert(p.bounded());
            assert(points@.subrange(0, i as int + 1).drop_last() =~= points@.subrange(0, i as int));
            assert(points@.subrange(0, i as int + 1).last() == points@[i as int]);
        }
        let shifted = p.translate(t);
        if let Some(coord) = shifted.to_uint() {
            out.push(coord);
        }
        i = i + 1;
    }
    proof {
        assert(points@.subrange(0, points@.len() as int) =~= points@);
    }
    out
}

/// The absolute coordinates that survive for an image of `w` by `h` pixels
/// and a patch of `pw` by `ph`: a translated point is kept exactly when it
/// is nonnegative and its patch stays inside the image.
pub open spec fn absolute_coords(
    points: Seq<Point>,
    t: Point,
    w: u32,
    h: u32,
    pw: u32,
    ph: u32,
) -> Seq<(u32, u32)>
    decreases points.len(),
{
    if points.len() == 0 {
        Seq::empty()
    } else {
        let prefix = absolute_coords(points.drop_last(), t, w, h, pw, ph);
        let cx = points.last().x + t.x;
        let cy = points.last().y + t.y;
        if 0 <= cx && 0 <= cy && cx + pw <= w && cy + ph <= h {
            prefix.push((cx as u32, cy as u32))
        } else {
            prefix
        }
    }
}

/// No translated point is discarded when all candidates lie within `m` of
/// the origin and the translation leaves room for `m` plus the patch.
pub open spec fn nothing_clipped(
    points: Seq<Point>,
    m: int,
    t: Point,
    w: u32,
    h: u32,
    pw: u32,
    ph: u32,
) -> bool {
    &&& forall|i: int|
        0 <= i < points.len() ==> -m <= (#[trigger] points[i]).x <= m && -m <= points[i].y <= m
    &&& m <= t.x
    &&& m <= t.y
    &&& t.x + m + pw <= w
    &&& t.y + m + ph <= h
}

/// Absolute pixel coordinates for the candidates of one image.
///
/// Keeps, in order, exactly the translated candidates that can host a patch
/// of `pw` by `ph` inside the `w` by `h` image: every returned coordinate
/// `(x, y)` satisfies `x + pw <= w` and `y + ph <= h`. When every candidate
/// lies within `m` of the origin and the translation leaves room for `m`
/// plus the patch on each side, nothing is discarded and the count is
/// preserved.
pub fn to_absolute(
    points: &Vec<Point>,
    transformer: Point,
    w: u32,
    h: u32,
    pw: u32,
    ph: u32,
) -> (r: Vec<(u32, u32)>)
    requires
        all_bounded(points@),
        transformer.bounded(),
    ensures
        r@ == absolute_coords(points@, transformer, w, h, pw, ph),
        r@.len() <= points@.len(),
        forall|k: int|
            0 <= k < r@.len() ==> (#[trigger] r@[k]).0 + pw <= w && r@[k].1 + ph <= h,
        forall|m: int|
            nothing_clipped(points@, m, transformer, w, h, pw, ph) ==> r@.len() == points@.len(),
{
    let t = transformer;
    let mut out: Vec<(u32, u32)> = Vec::new();
    let mut i: usize = 0;
    while i < points.len()
        invariant
            all_bounded(points@),
            t.bounded(),
            i <= points@.len(),
            out@ == absolute_coords(points@.subrange(0, i as int), t, w, h, pw, ph),
            out@.len() <= i,
            forall|k: int|
                0 <= k < out@.len() ==> (#[trigger] out@[k]).0 + pw <= w && out@[k].1 + ph <= h,
            forall|m: int| nothing_clipped(points@, m, t, w, h, pw, ph) ==> out@.len() == i,
        decreases points@.len() - i,
    {
        let p = points[i];
        proof {
            assert(p.bounded());
            assert(points@.subrange(0, i as int + 1).drop_last() =~= points@.subrange(0, i as int));
            assert(points@.subrange(0, i as int + 1).last() == points@[i as int]);
        }
        let cx: i64 = p.get_x() + t.get_x();
        let cy: i64 = p.get_y() + t.get_y();
        if cx >= 0 && cy >= 0 && cx + (pw as i64) <= w as i64 && cy + (ph as i64) <= h as i64 {
            out.push((cx as u32, cy as u32));
        }
        proof {
            assert forall|m: int|
                nothing_clipped(points@, m, t, w, h, pw, ph) implies out@.len() == i + 1 by {
                assert(-m <= points@[i as int].x <= m && -m <= points@[i as int].y <= m);
            }
        }
        i = i + 1;
    }
    proof {
        assert(points@.subrange(0, points@.len() as int) =~= points@);
    }
    out
}

/// The origin of the single centered patch of the `Center` strategy.
pub fn center_coord(w: u32, h: u32, pw: u32, ph: u32) -> (r: (u32, u32))
    requires
        pw <= w,
        ph <= h,
    ensures
        r.0 == w / 2 - pw / 2,
        r.1 == h / 2 - ph / 2,
        r.0 + pw <= w,
        r.1 + ph <= h,
{
    (w / 2 - pw / 2, h / 2 - ph / 2)
}

} // verus!
