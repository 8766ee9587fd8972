//! Greedy centroid merging of candidate points.
//!
//! While points remain, the first remaining point acts as pivot; every
//! remaining point within the distance threshold of the pivot (the pivot
//! itself included) forms one cluster, and the cluster is replaced by its
//! arithmetic mean. Removal is by swap-and-truncate, so the order of the
//! survivors is not preserved; which point becomes the next pivot therefore
//! depends on the earlier removals, and this looseness is kept on purpose.
//! Distances are compared through their squares, which ranks them exactly
//! like the Euclidean distance; means round toward zero, pixel by pixel.

use vstd::prelude::*;
use vstd::arithmetic::div_mod::{
    lemma_div_is_ordered, lemma_div_multiples_vanish, lemma_div_pos_is_pos,
    lemma_fundamental_div_mod, lemma_mod_bound,
};
use vstd::seq_lib::lemma_multiset_commutative;

use crate::point::{Point, COORD_LIMIT};
use crate::sampler::{all_in_disc, in_disc, square_of};

verus! {

/// All points of the sequence are coordinate-bounded.
pub open spec fn all_bounded(s: Seq<Point>) -> bool {
    forall|i: int| 0 <= i < s.len() ==> (#[trigger] s[i]).bounded()
}

/// Smallest x coordinate of a nonempty sequence of points.
pub open spec fn min_x(s: Seq<Point>) -> int
    decreases s.len(),
{
    if s.len() <= 1 {
        s[0].x as int
    } else if s[0].x <= min_x(s.drop_first()) {
        s[0].x as int
    } else {
        min_x(s.drop_first())
    }
}

/// Largest x coordinate of a nonempty sequence of points.
pub open spec fn max_x(s: Seq<Point>) -> int
    decreases s.len(),
{
    if s.len() <= 1 {
        s[0].x as int
    } else if s[0].x >= max_x(s.drop_first()) {
        s[0].x as int
    } else {
        max_x(s.drop_first())
    }
}

/// Smallest y coordinate of a nonempty sequence of points.
pub open spec fn min_y(s: Seq<Point>) -> int
    decreases s.len(),
{
    if s.len() <= 1 {
        s[0].y as int
    } else if s[0].y <= min_y(s.drop_first()) {
        s[0].y as int
    } else {
        min_y(s.drop_first())
    }
}

/// Largest y coordinate of a nonempty sequence of points.
pub open spec fn max_y(s: Seq<Point>) -> int
    decreases s.len(),
{
    if s.len() <= 1 {
        s[0].y as int
    } else if s[0].y >= max_y(s.drop_first()) {
        s[0].y as int
    } else {
        max_y(s.drop_first())
    }
}

/// The point lies in the axis-aligned bounding box of the nonempty set `s`:
/// the integer form of lying within the region the input spans, since a
/// truncated mean of points of `s` can never leave this box.
pub open spec fn in_bounding_box(p: Point, s: Seq<Point>) -> bool {
    min_x(s) <= p.x <= max_x(s) && min_y(s) <= p.y <= max_y(s)
}

/// Quotient rounded toward zero, as Rust's integer division computes it.
pub open spec fn trunc_div(a: int, b: int) -> int {
    if a >= 0 {
        a / b
    } else {
        -((-a) / b)
    }
}

/// Sum of the x coordinates of the points of `s` selected by `idxs`.
pub open spec fn sum_x_at(s: Seq<Point>, idxs: Seq<usize>) -> int
    decreases idxs.len(),
{
    if idxs.len() == 0 {
        0
    } else {
        s[idxs.last() as int].x + sum_x_at(s, idxs.drop_last())
    }
}

/// The points of `s` standing at the positions listed in `idxs`.
pub open spec fn selected(s: Seq<Point>, idxs: Seq<usize>) -> Seq<Point> {
    Seq::new(idxs.len(), |k: int| s[idxs[k] as int])
}

/// Sum of the y coordinates of the points of `s` selected by `idxs`.
pub open spec fn sum_y_at(s: Seq<Point>, idxs: Seq<usize>) -> int
    decreases idxs.len(),
{
    if idxs.len() == 0 {
        0
    } else {
        s[idxs.last() as int].y + sum_y_at(s, idxs.drop_last())
    }
}

/// Sum of the x coordinates of a group of points.
pub open spec fn sum_x_of(g: Seq<Point>) -> int
    decreases g.len(),
{
    if g.len() == 0 {
        0
    } else {
        g.last().x + sum_x_of(g.drop_last())
    }
}

/// Sum of the y coordinates of a group of points.
pub open spec fn sum_y_of(g: Seq<Point>) -> int
    decreases g.len(),
{
    if g.len() == 0 {
        0
    } else {
        g.last().y + sum_y_of(g.drop_last())
    }
}

/// `g` is one cluster of a greedy pass with threshold `t`, collapsed to the
/// point `p`: the cluster is nonempty, some member (the pivot) lies within
/// `t` of every member, and `p` is the cluster's truncated arithmetic mean.
pub open spec fn is_cluster_of(g: Seq<Point>, p: Point, t: int) -> bool {
    &&& g.len() >= 1
    &&& exists|pv: int|
        #![trigger g[pv]]
        0 <= pv < g.len() && forall|j: int|
            0 <= j < g.len() ==> #[trigger] g[pv].dist_sq(g[j]) <= t * t
    &&& p.x == trunc_div(sum_x_of(g), g.len() as int)
    &&& p.y == trunc_div(sum_y_of(g), g.len() as int)
}

/// The merge is a partition-reduction of its input: the groups, taken
/// together, hold exactly the input points, and each centroid stands for
/// one group that the threshold justified.
pub open spec fn clusters_cover(
    groups: Seq<Seq<Point>>,
    centroids: Seq<Point>,
    input: Seq<Point>,
    t: int,
) -> bool {
    &&& groups.len() == centroids.len()
    &&& forall|i: int|
        0 <= i < groups.len() ==> is_cluster_of(#[trigger] groups[i], centroids[i], t)
    &&& groups.flatten_alt().to_multiset() == input.to_multiset()
}

/// The positions of the pivot cluster of `s` below position `n`, in
/// strictly decreasing order: every position whose point lies within `t`
/// of the pivot `s[0]`, the boundary included.
pub open spec fn cluster_idxs(s: Seq<Point>, t: int, n: int) -> Seq<usize>
    decreases n,
{
    if n <= 0 {
        Seq::empty()
    } else {
        let rest = cluster_idxs(s, t, n - 1);
        if s[0].dist_sq(s[n - 1]) <= t * t {
            seq![(n - 1) as usize] + rest
        } else {
            rest
        }
    }
}

/// The sequence after removing the listed positions by swap-and-truncate,
/// front to back; the positions must be strictly decreasing for the later
/// ones to keep pointing at the same elements.
pub open spec fn swap_removed(s: Seq<Point>, idxs: Seq<usize>) -> Seq<Point>
    decreases idxs.len(),
{
    if idxs.len() == 0 {
        s
    } else {
        swap_removed(s.update(idxs[0] as int, s.last()).drop_last(), idxs.drop_first())
    }
}

/// The greedy merge, round by round: cluster around the first remaining
/// point, replace the cluster by its truncated mean, remove it by
/// swap-and-truncate in decreasing position order, and continue with
/// whatever remains.
pub open spec fn greedy_merge(s: Seq<Point>, t: int) -> Seq<Point>
    decreases s.len(),
    when s.len() <= usize::MAX
    via greedy_merge_decreases
{
    if s.len() == 0 {
        Seq::empty()
    } else {
        let idxs = cluster_idxs(s, t, s.len() as int);
        let c = Point {
            x: trunc_div(sum_x_at(s, idxs), idxs.len() as int) as i64,
            y: trunc_div(sum_y_at(s, idxs), idxs.len() as int) as i64,
        };
        seq![c] + greedy_merge(swap_removed(s, idxs), t)
    }
}

/// Shape of the pivot cluster's positions: all below `n`, strictly
/// decreasing fast enough for removal, and ending at the pivot itself.
proof fn lemma_cluster_idxs_shape(s: Seq<Point>, t: int, n: int)
    requires
        0 <= n <= s.len(),
        n <= usize::MAX,
    ensures
        cluster_idxs(s, t, n).len() <= n,
        forall|k: int|
            0 <= k < cluster_idxs(s, t, n).len() ==> (#[trigger] cluster_idxs(s, t, n)[k]) + k < n,
        forall|k: int, l: int|
            0 <= k < l < cluster_idxs(s, t, n).len() ==> cluster_idxs(s, t, n)[k] > cluster_idxs(
                s,
                t,
                n,
            )[l],
        n >= 1 ==> cluster_idxs(s, t, n).len() >= 1 && cluster_idxs(s, t, n)[cluster_idxs(
            s,
            t,
            n,
        ).len() - 1] == 0,
    decreases n,
{
    if n >= 1 {
        lemma_cluster_idxs_shape(s, t, n - 1);
        let rest = cluster_idxs(s, t, n - 1);
        let idxs = cluster_idxs(s, t, n);
        lemma_dist_sq_zero(s[0], s[0]);
        assert(t * t >= 0) by (nonlinear_arith);
        if s[0].dist_sq(s[n - 1]) <= t * t {
            assert(idxs == seq![(n - 1) as usize] + rest);
            assert(idxs[0] == (n - 1) as usize);
            assert forall|k: int| 0 <= k < idxs.len() implies (#[trigger] idxs[k]) + k < n by {
                if k >= 1 {
                    assert(idxs[k] == rest[k - 1]);
                }
            }
            assert forall|k: int, l: int|
                0 <= k < l < idxs.len() implies idxs[k] > idxs[l] by {
                assert(idxs[l] == rest[l - 1]);
                assert(rest[l - 1] + (l - 1) < n - 1);
                if k >= 1 {
                    assert(idxs[k] == rest[k - 1]);
                } else {
                    assert(idxs[0] == (n - 1) as usize);
                }
            }
            if n >= 2 {
                assert(idxs[idxs.len() - 1] == rest[rest.len() - 1]);
            }
        } else {
            assert(n >= 2) by {
                if n == 1 {
                    assert(s[0].dist_sq(s[n - 1]) == 0);
                }
            }
        }
    }
}

/// Removing strictly decreasing, valid positions drops exactly one
/// element each.
proof fn lemma_swap_removed_len(s: Seq<Point>, idxs: Seq<usize>)
    requires
        forall|k: int| 0 <= k < idxs.len() ==> (#[trigger] idxs[k]) + k < s.len(),
    ensures
        swap_removed(s, idxs).len() == s.len() - idxs.len(),
    decreases idxs.len(),
{
    if idxs.len() > 0 {
        let s2 = s.update(idxs[0] as int, s.last()).drop_last();
        assert forall|k: int|
            0 <= k < idxs.drop_first().len() implies (#[trigger] idxs.drop_first()[k]) + k
            < s2.len() by {
            assert(idxs.drop_first()[k] == idxs[k + 1]);
        }
        lemma_swap_removed_len(s2, idxs.drop_first());
    }
}

#[via_fn]
proof fn greedy_merge_decreases(s: Seq<Point>, t: int) {
    if 0 < s.len() <= usize::MAX {
        let n = s.len() as int;
        lemma_cluster_idxs_shape(s, t, n);
        lemma_swap_removed_len(s, cluster_idxs(s, t, n));
    }
}

/// Truncated division shrinks magnitude: the quotient times the divisor
/// stays between zero and the dividend.
proof fn lemma_trunc_div_abs(a: int, b: int)
    requires
        b >= 1,
    ensures
        a >= 0 ==> 0 <= trunc_div(a, b) && trunc_div(a, b) * b <= a,
        a < 0 ==> trunc_div(a, b) <= 0 && a <= trunc_div(a, b) * b,
{
    if a >= 0 {
        lemma_div_pos_is_pos(a, b);
        lemma_fundamental_div_mod(a, b);
        lemma_mod_bound(a, b);
        assert(b * (a / b) == (a / b) * b) by (nonlinear_arith);
    } else {
        lemma_div_pos_is_pos(-a, b);
        lemma_fundamental_div_mod(-a, b);
        lemma_mod_bound(-a, b);
        let q = (-a) / b;
        assert(b * q == q * b) by (nonlinear_arith);
        assert(trunc_div(a, b) == -q);
        assert((-q) * b == -(q * b)) by (nonlinear_arith);
    }
}

/// A sum of points of the disc of radius `r` stays within the disc scaled
/// by the number of points (Cauchy-Schwarz, one point at a time).
proof fn lemma_disc_sum(s: Seq<Point>, idxs: Seq<usize>, r: int)
    requires
        0 <= r,
        forall|k: int| 0 <= k < idxs.len() ==> (#[trigger] idxs[k]) < s.len(),
        all_in_disc(s, r),
    ensures
        sum_x_at(s, idxs) * sum_x_at(s, idxs) + sum_y_at(s, idxs) * sum_y_at(s, idxs) <= (
        idxs.len() * r) * (idxs.len() * r),
    decreases idxs.len(),
{
    if idxs.len() == 0 {
    } else {
        let rest = idxs.drop_last();
        assert(forall|k: int| 0 <= k < rest.len() ==> (#[trigger] rest[k]) < s.len());
        lemma_disc_sum(s, rest, r);
        let sx = sum_x_at(s, rest);
        let sy = sum_y_at(s, rest);
        let p = s[idxs.last() as int];
        let x = p.x as int;
        let y = p.y as int;
        let k = rest.len() as int;
        assert(in_disc(p, r));
        let dot = sx * x + sy * y;
        let cross = sx * y - sy * x;
        assert((sx * x) * (sy * y) == (sx * y) * (sy * x)) by (nonlinear_arith)
            requires
                true,
        ;
        assert(dot * dot == (sx * x) * (sx * x) + 2 * ((sx * x) * (sy * y)) + (sy * y) * (sy * y))
            by (nonlinear_arith)
            requires
                dot == sx * x + sy * y,
        ;
        assert(cross * cross == (sx * y) * (sx * y) - 2 * ((sx * y) * (sy * x)) + (sy * x) * (sy
            * x)) by (nonlinear_arith)
            requires
                cross == sx * y - sy * x,
        ;
        assert((sx * x) * (sx * x) == (sx * sx) * (x * x) && (sy * y) * (sy * y) == (sy * sy) * (y
            * y) && (sx * y) * (sx * y) == (sx * sx) * (y * y) && (sy * x) * (sy * x) == (sy * sy)
            * (x * x)) by (nonlinear_arith)
            requires
                true,
        ;
        assert((sx * sx + sy * sy) * (x * x + y * y) == (sx * sx) * (x * x) + (sx * sx) * (y * y)
            + (sy * sy) * (x * x) + (sy * sy) * (y * y)) by (nonlinear_arith)
            requires
                true,
        ;
        assert(cross * cross >= 0) by (nonlinear_arith)
            requires
                true,
        ;
        assert(dot * dot <= (sx * sx + sy * sy) * (x * x + y * y));
        assert(0 <= x * x + y * y && 0 <= (k * r) * (k * r)) by (nonlinear_arith)
            requires
                true,
        ;
        assert((sx * sx + sy * sy) * (x * x + y * y) <= ((k * r) * (k * r)) * (r * r))
            by (nonlinear_arith)
            requires
                sx * sx + sy * sy <= (k * r) * (k * r),
                x * x + y * y <= r * r,
                0 <= x * x + y * y,
                0 <= (k * r) * (k * r),
        ;
        assert(((k * r) * (k * r)) * (r * r) == ((k * r) * r) * ((k * r) * r) && (k * r) * r >= 0)
            by (nonlinear_arith)
            requires
                k >= 0,
                r >= 0,
        ;
        assert(dot <= (k * r) * r) by (nonlinear_arith)
            requires
                dot * dot <= ((k * r) * r) * ((k * r) * r),
                (k * r) * r >= 0,
        ;
        assert((sx + x) * (sx + x) + (sy + y) * (sy + y) <= ((k + 1) * r) * ((k + 1) * r))
            by (nonlinear_arith)
            requires
                sx * sx + sy * sy <= (k * r) * (k * r),
                x * x + y * y <= r * r,
                sx * x + sy * y <= (k * r) * r,
        ;
        assert(sum_x_at(s, idxs) == sx + x && sum_y_at(s, idxs) == sy + y);
        assert(idxs.len() * r == (k + 1) * r) by (nonlinear_arith)
            requires
                idxs.len() == k + 1,
        ;
    }
}

/// A truncated mean of points of the disc stays in the disc: truncation
/// moves each coordinate toward zero, and the true mean is a convex
/// combination.
proof fn lemma_centroid_in_disc(s: Seq<Point>, idxs: Seq<usize>, r: int, c: Point)
    requires
        0 <= r,
        idxs.len() >= 1,
        forall|k: int| 0 <= k < idxs.len() ==> (#[trigger] idxs[k]) < s.len(),
        all_in_disc(s, r),
        c.x == trunc_div(sum_x_at(s, idxs), idxs.len() as int),
        c.y == trunc_div(sum_y_at(s, idxs), idxs.len() as int),
    ensures
        in_disc(c, r),
{
    let k = idxs.len() as int;
    let sx = sum_x_at(s, idxs);
    let sy = sum_y_at(s, idxs);
    lemma_disc_sum(s, idxs, r);
    lemma_trunc_div_abs(sx, k);
    lemma_trunc_div_abs(sy, k);
    let cx = c.x as int;
    let cy = c.y as int;
    assert((cx * k) * (cx * k) <= sx * sx) by (nonlinear_arith)
        requires
            k >= 1,
            sx >= 0 ==> 0 <= cx && cx * k <= sx,
            sx < 0 ==> cx <= 0 && sx <= cx * k,
    ;
    assert((cy * k) * (cy * k) <= sy * sy) by (nonlinear_arith)
        requires
            k >= 1,
            sy >= 0 ==> 0 <= cy && cy * k <= sy,
            sy < 0 ==> cy <= 0 && sy <= cy * k,
    ;
    assert((cx * cx + cy * cy) * (k * k) <= ((k * r) * (k * r))) by (nonlinear_arith)
        requires
            (cx * k) * (cx * k) <= sx * sx,
            (cy * k) * (cy * k) <= sy * sy,
            sx * sx + sy * sy <= (k * r) * (k * r),
    ;
    assert((k * r) * (k * r) == (k * k) * (r * r)) by (nonlinear_arith)
        requires
            true,
    ;
    assert(cx * cx + cy * cy <= r * r) by (nonlinear_arith)
        requires
            k >= 1,
            (cx * cx + cy * cy) * (k * k) <= (k * k) * (r * r),
    ;
}

/// Every element of a nonempty sequence lies between the minima and maxima.
proof fn lemma_min_max(s: Seq<Point>)
    requires
        s.len() >= 1,
    ensures
        forall|i: int|
            0 <= i < s.len() ==> min_x(s) <= (#[trigger] s[i]).x <= max_x(s) && min_y(s)
                <= s[i].y <= max_y(s),
    decreases s.len(),
{
    if s.len() > 1 {
        lemma_min_max(s.drop_first());
        assert forall|i: int|
            0 <= i < s.len() implies min_x(s) <= (#[trigger] s[i]).x <= max_x(s) && min_y(s)
            <= s[i].y <= max_y(s) by {
            if i >= 1 {
                assert(s.drop_first()[i - 1] == s[i]);
            }
        }
    }
}

/// When every point of a nonempty sequence lies in a box, its minima and
/// maxima do too.
pub proof fn lemma_min_max_within(s: Seq<Point>, lo_x: int, hi_x: int, lo_y: int, hi_y: int)
    requires
        s.len() >= 1,
        forall|i: int|
            0 <= i < s.len() ==> lo_x <= (#[trigger] s[i]).x <= hi_x && lo_y <= s[i].y <= hi_y,
    ensures
        lo_x <= min_x(s),
        max_x(s) <= hi_x,
        lo_y <= min_y(s),
        max_y(s) <= hi_y,
    decreases s.len(),
{
    if s.len() > 1 {
        assert forall|i: int|
            0 <= i < s.drop_first().len() implies lo_x <= (#[trigger] s.drop_first()[i]).x <= hi_x
            && lo_y <= s.drop_first()[i].y <= hi_y by {
            assert(s.drop_first()[i] == s[i + 1]);
        }
        lemma_min_max_within(s.drop_first(), lo_x, hi_x, lo_y, hi_y);
    }
}

/// For a bounded nonempty sequence the minima and maxima stay within the
/// coordinate limit.
proof fn lemma_min_max_in_limits(s: Seq<Point>)
    requires
        s.len() >= 1,
        all_bounded(s),
    ensures
        -COORD_LIMIT <= min_x(s),
        max_x(s) <= COORD_LIMIT,
        -COORD_LIMIT <= min_y(s),
        max_y(s) <= COORD_LIMIT,
{
    assert forall|i: int|
        0 <= i < s.len() implies -COORD_LIMIT <= (#[trigger] s[i]).x <= COORD_LIMIT
        && -COORD_LIMIT <= s[i].y <= COORD_LIMIT by {
        assert(s[i].bounded());
    }
    lemma_min_max_within(s, -COORD_LIMIT as int, COORD_LIMIT as int, -COORD_LIMIT as int, COORD_LIMIT as int);
}

/// A selection out of a pointwise-bounded sequence has a bounded sum.
proof fn lemma_sum_bounds(s: Seq<Point>, idxs: Seq<usize>, lo_x: int, hi_x: int, lo_y: int, hi_y: int)
    requires
        forall|k: int| 0 <= k < idxs.len() ==> (#[trigger] idxs[k]) < s.len(),
        forall|i: int|
            0 <= i < s.len() ==> lo_x <= (#[trigger] s[i]).x <= hi_x && lo_y <= s[i].y <= hi_y,
    ensures
        idxs.len() * lo_x <= sum_x_at(s, idxs) <= idxs.len() * hi_x,
        idxs.len() * lo_y <= sum_y_at(s, idxs) <= idxs.len() * hi_y,
    decreases idxs.len(),
{
    if idxs.len() == 0 {
    } else {
        let rest = idxs.drop_last();
        assert(forall|k: int| 0 <= k < rest.len() ==> (#[trigger] rest[k]) < s.len());
        lemma_sum_bounds(s, rest, lo_x, hi_x, lo_y, hi_y);
        let n = idxs.len() as int;
        assert(n * lo_x == (n - 1) * lo_x + lo_x && n * hi_x == (n - 1) * hi_x + hi_x && n * lo_y
            == (n - 1) * lo_y + lo_y && n * hi_y == (n - 1) * hi_y + hi_y) by (nonlinear_arith);
    }
}

/// A sum within `n` copies of `[lo, hi]` divides (toward zero) into `[lo, hi]`.
proof fn lemma_trunc_div_in_range(a: int, n: int, lo: int, hi: int)
    requires
        n >= 1,
        n * lo <= a <= n * hi,
    ensures
        lo <= trunc_div(a, n) <= hi,
{
    if a >= 0 {
        lemma_div_is_ordered(n * lo, a, n);
        lemma_div_multiples_vanish(lo, n);
        lemma_div_is_ordered(a, n * hi, n);
        lemma_div_multiples_vanish(hi, n);
    } else {
        assert(n * (-lo) == -(n * lo) && n * (-hi) == -(n * hi)) by (nonlinear_arith);
        lemma_div_is_ordered(-a, n * (-lo), n);
        lemma_div_multiples_vanish(-lo, n);
        if hi < 0 {
            lemma_div_is_ordered(n * (-hi), -a, n);
            lemma_div_multiples_vanish(-hi, n);
        } else {
            lemma_div_pos_is_pos(-a, n);
        }
    }
}

/// The sum over a selection equals the sum over the selected values.
proof fn lemma_sum_selected(s: Seq<Point>, idxs: Seq<usize>)
    requires
        forall|k: int| 0 <= k < idxs.len() ==> (#[trigger] idxs[k]) < s.len(),
    ensures
        sum_x_of(selected(s, idxs)) == sum_x_at(s, idxs),
        sum_y_of(selected(s, idxs)) == sum_y_at(s, idxs),
    decreases idxs.len(),
{
    if idxs.len() > 0 {
        assert(selected(s, idxs).drop_last() =~= selected(s, idxs.drop_last()));
        assert(selected(s, idxs).last() == s[idxs.last() as int]);
        lemma_sum_selected(s, idxs.drop_last());
    }
}

/// The squared distance is nonnegative and vanishes exactly on equal points.
proof fn lemma_dist_sq_zero(p: Point, q: Point)
    ensures
        p.dist_sq(q) >= 0,
        p.dist_sq(q) == 0 <==> p == q,
{
    let dx = p.x - q.x;
    let dy = p.y - q.y;
    assert(dx * dx >= 0 && dy * dy >= 0 && (dx * dx == 0 <==> dx == 0) && (dy * dy == 0 <==> dy
        == 0)) by (nonlinear_arith);
}

/// Swap-and-truncate removal takes exactly one occurrence of `s[i]` out of
/// the multiset of the sequence.
proof fn lemma_swap_remove_multiset(s: Seq<Point>, i: int)
    requires
        0 <= i < s.len(),
    ensures
        s.update(i, s.last()).drop_last().to_multiset() == s.to_multiset().remove(s[i]),
{
    s.to_multiset_ensures();
    if i == s.len() - 1 {
        assert(s.update(i, s.last()) =~= s);
        assert(s.drop_last() =~= s.remove(i));
    } else {
        let t = s.update(i, s.last());
        t.to_multiset_ensures();
        assert(t.drop_last() =~= t.remove(t.len() - 1));
        assert(t.remove(i) =~= s.remove(i));
        assert(t[i] == s.last());
        assert(t[t.len() - 1] == s.last());
        assert(t.remove(t.len() - 1).to_multiset() == t.to_multiset().remove(s.last()));
        assert(t.remove(i).to_multiset() == t.to_multiset().remove(s.last()));
        assert(s.remove(i).to_multiset() == s.to_multiset().remove(s[i]));
    }
}

/// Swap-and-truncate removal keeps a duplicate-free sequence duplicate-free.
proof fn lemma_swap_remove_distinct(s: Seq<Point>, i: int)
    requires
        0 <= i < s.len(),
        s.no_duplicates(),
    ensures
        s.update(i, s.last()).drop_last().no_duplicates(),
{
    let r = s.update(i, s.last()).drop_last();
    assert forall|a: int, b: int|
        0 <= a < r.len() && 0 <= b < r.len() && a != b implies r[a] != r[b] by {
        assert(r[a] == if a == i { s.last() } else { s[a] });
        assert(r[b] == if b == i { s.last() } else { s[b] });
    }
}

/// Exact truncated division of a cluster sum by the cluster size.
fn div_trunc(sum: i128, n: usize) -> (r: i64)
    requires
        n >= 1,
        -(n as int) * COORD_LIMIT <= sum <= (n as int) * COORD_LIMIT,
    ensures
        r == trunc_div(sum as int, n as int),
        -COORD_LIMIT <= r <= COORD_LIMIT,
{
    proof {
        assert((n as int) * (-COORD_LIMIT as int) == -((n as int) * COORD_LIMIT))
            by (nonlinear_arith);
        lemma_trunc_div_in_range(sum as int, n as int, -COORD_LIMIT as int, COORD_LIMIT as int);
    }
    if sum >= 0 {
        proof {
            lemma_div_pos_is_pos(sum as int, n as int);
        }
        ((sum as u128) / (n as u128)) as i64
    } else {
        proof {
            lemma_div_pos_is_pos(-(sum as int), n as int);
        }
        -(((-sum) as u128 / (n as u128)) as i64)
    }
}

/// One round of the greedy clustering: take the first point of `points` as
/// pivot and gather every point within `threshold` of it.
///
/// Returns the cluster's centroid (the truncated arithmetic mean of the
/// cluster) and the cluster's indices in strictly decreasing order, ready
/// for swap-and-truncate removal. An index is in the cluster exactly when
/// its point lies within the threshold of the pivot, boundary included; the
/// pivot itself always is, so the cluster is never empty. With a zero
/// threshold and pairwise distinct points the cluster is the pivot alone
/// and the centroid is the pivot itself.
pub fn centroid_candidates(points: &Vec<Point>, threshold: i64) -> (r: (Point, Vec<usize>))
    requires
        points@.len() >= 1,
        all_bounded(points@),
        0 <= threshold <= COORD_LIMIT,
    ensures
        r.1@.len() >= 1,
        forall|k: int| 0 <= k < r.1@.len() ==> (#[trigger] r.1@[k]) + k < points@.len(),
        forall|k: int, l: int| 0 <= k < l < r.1@.len() ==> r.1@[k] > r.1@[l],
        r.1@[r.1@.len() - 1] == 0,
        forall|j: usize|
            j < points@.len() ==> (r.1@.contains(j) <==> points@[0].dist_sq(points@[j as int])
                <= threshold * threshold),
        r.0.x == trunc_div(sum_x_at(points@, r.1@), r.1@.len() as int),
        r.0.y == trunc_div(sum_y_at(points@, r.1@), r.1@.len() as int),
        r.1@ == cluster_idxs(points@, threshold as int, points@.len() as int),
        threshold == 0 && points@.no_duplicates() ==> r.1@ == seq![0usize] && r.0 == points@[0],
{
    let n = points.len();
    let t2: i128 = square_of(threshold);
    let mut idxs: Vec<usize> = Vec::new();
    let mut i: usize = n;
    proof {
        assert(idxs@ + cluster_idxs(points@, threshold as int, n as int) =~= cluster_idxs(
            points@,
            threshold as int,
            n as int,
        ));
    }
    while i > 0
        invariant
            idxs@ + cluster_idxs(points@, threshold as int, i as int) == cluster_idxs(
                points@,
                threshold as int,
                n as int,
            ),
            n == points@.len(),
            1 <= n,
            all_bounded(points@),
            0 <= threshold <= COORD_LIMIT,
            t2 == threshold * threshold,
            i <= n,
            forall|k: int| 0 <= k < idxs@.len() ==> i <= (#[trigger] idxs@[k]) < n,
            forall|k: int| 0 <= k < idxs@.len() ==> (#[trigger] idxs@[k]) + k < n,
            forall|k: int, l: int| 0 <= k < l < idxs@.len() ==> idxs@[k] > idxs@[l],
            forall|j: usize|
                i <= j < n ==> (idxs@.contains(j) <==> points@[0].dist_sq(points@[j as int])
                    <= threshold * threshold),
        decreases i,
    {
        let j = i - 1;
        let d = points[0].distance_sq(&points[j]);
        let ghost pre = idxs@;
        if d <= t2 {
            idxs.push(j);
        }
        proof {
            assert forall|q: usize| #[trigger] idxs@.contains(q) implies pre.contains(q) || (d
                <= t2 && q == j) by {
                let k = choose|k: int| 0 <= k < idxs@.len() && idxs@[k] == q;
                if k < pre.len() {
                    assert(pre[k] == q);
                }
            }
            assert forall|q: usize| pre.contains(q) implies idxs@.contains(q) by {
                let k = choose|k: int| 0 <= k < pre.len() && pre[k] == q;
                assert(idxs@[k] == q);
            }
            if d <= t2 {
                assert(idxs@ == pre.push(j));
                assert(idxs@[idxs@.len() - 1] == j);
                assert(idxs@.contains(j));
                assert forall|k: int| 0 <= k < idxs@.len() implies (#[trigger] idxs@[k]) + k
                    < n by {
                    if k < pre.len() {
                        assert(idxs@[k] == pre[k]);
                    } else {
                        assert(idxs@[k] == j);
                        if k >= 1 {
                            assert(pre[k - 1] + (k - 1) < n);
                            assert(pre[k - 1] >= i);
                        }
                    }
                }
            }
            let t_int = threshold as int;
            let rest = cluster_idxs(points@, t_int, j as int);
            assert(cluster_idxs(points@, t_int, j as int + 1) == if points@[0].dist_sq(
                points@[j as int],
            ) <= t_int * t_int {
                seq![j] + rest
            } else {
                rest
            });
            if d <= t2 {
                assert(idxs@ =~= pre + seq![j]);
                assert(idxs@ + rest =~= pre + (seq![j] + rest));
            } else {
                assert(idxs@ + rest =~= pre + rest);
            }
            assert(idxs@ + rest == cluster_idxs(points@, t_int, n as int));
            assert forall|q: usize|
                j <= q < n implies (idxs@.contains(q) <==> points@[0].dist_sq(points@[q as int])
                <= threshold * threshold) by {
                if q == j {
                    if d > t2 && idxs@.contains(j) {
                        assert(pre.contains(j));
                        let k = choose|k: int| 0 <= k < pre.len() && pre[k] == j;
                        assert(pre[k] >= i);
                    }
                } else {
                    assert(i <= q < n);
                    if idxs@.contains(q) {
                        assert(pre.contains(q));
                    }
                    if pre.contains(q) {
                        assert(idxs@.contains(q));
                    }
                }
            }
        }
        i = j;
    }
    proof {
        assert(cluster_idxs(points@, threshold as int, 0) =~= Seq::<usize>::empty());
        assert(idxs@ + Seq::<usize>::empty() =~= idxs@);
        lemma_dist_sq_zero(points@[0], points@[0]);
        assert(idxs@.contains(0usize));
        let k0 = choose|k: int| 0 <= k < idxs@.len() && idxs@[k] == 0usize;
        assert(k0 == idxs@.len() - 1) by {
            if k0 < idxs@.len() - 1 {
                assert(idxs@[k0] > idxs@[k0 + 1]);
            }
        }
    }
    let count = idxs.len();
    let mut sx: i128 = 0;
    let mut sy: i128 = 0;
    let mut k: usize = 0;
    while k < count
        invariant
            n == points@.len(),
            all_bounded(points@),
            count == idxs@.len(),
            forall|k2: int| 0 <= k2 < idxs@.len() ==> (#[trigger] idxs@[k2]) < n,
            k <= count,
            sx == sum_x_at(points@, idxs@.subrange(0, k as int)),
            sy == sum_y_at(points@, idxs@.subrange(0, k as int)),
            -(k as int) * COORD_LIMIT <= sx <= (k as int) * COORD_LIMIT,
            -(k as int) * COORD_LIMIT <= sy <= (k as int) * COORD_LIMIT,
        decreases count - k,
    {
        let idx = idxs[k];
        let p = points[idx];
        proof {
            assert(p.bounded());
            let pre = idxs@.subrange(0, k as int);
            let cur = idxs@.subrange(0, k as int + 1);
            assert(cur.drop_last() =~= pre);
            assert(cur.last() == idxs@[k as int]);
            assert((k as int + 1) * COORD_LIMIT == (k as int) * COORD_LIMIT + COORD_LIMIT
                && -(k as int + 1) * COORD_LIMIT == -(k as int) * COORD_LIMIT - COORD_LIMIT)
                by (nonlinear_arith);
        }
        sx = sx + p.get_x() as i128;
        sy = sy + p.get_y() as i128;
        k = k + 1;
    }
    proof {
        assert(idxs@.subrange(0, count as int) =~= idxs@);
        assert((count as int) * COORD_LIMIT <= i128::MAX) by (nonlinear_arith)
            requires
                1 <= count <= usize::MAX,
        ;
    }
    let cx = div_trunc(sx, count);
    let cy = div_trunc(sy, count);
    let centroid = Point::new(cx, cy);
    proof {
        if threshold == 0 && points@.no_duplicates() {
            assert forall|j: usize| #[trigger] idxs@.contains(j) implies j == 0usize by {
                let kj = choose|k2: int| 0 <= k2 < idxs@.len() && idxs@[k2] == j;
                assert(j < n);
                lemma_dist_sq_zero(points@[0], points@[j as int]);
                if j != 0 {
                    assert(points@[0] != points@[j as int]);
                }
            }
            assert(idxs@.len() == 1) by {
                if idxs@.len() >= 2 {
                    assert(idxs@.contains(idxs@[0]));
                    assert(idxs@.contains(idxs@[1]));
                    assert(idxs@[0] > idxs@[1]);
                }
            }
            assert(idxs@ =~= seq![0usize]);
            assert(sum_x_at(points@, seq![0usize]) == points@[0].x + sum_x_at(
                points@,
                seq![0usize].drop_last(),
            ));
            assert(seq![0usize].drop_last() =~= Seq::<usize>::empty());
            assert(sum_x_at(points@, Seq::<usize>::empty()) == 0);
            assert(sum_y_at(points@, seq![0usize]) == points@[0].y + sum_y_at(
                points@,
                seq![0usize].drop_last(),
            ));
            lemma_div_multiples_vanish(points@[0].x as int, 1);
            lemma_div_multiples_vanish(-(points@[0].x as int), 1);
            lemma_div_multiples_vanish(points@[0].y as int, 1);
            lemma_div_multiples_vanish(-(points@[0].y as int), 1);
        }
    }
    (centroid, idxs)
}

/// Swap-and-truncate removal of the points at the positions in `idxs`,
/// which must be strictly decreasing (so each removal leaves the later
/// positions untouched) and valid as the vector shrinks.
fn remove_at(v: &mut Vec<Point>, idxs: &Vec<usize>)
    requires
        forall|k: int| 0 <= k < idxs@.len() ==> (#[trigger] idxs@[k]) + k < old(v)@.len(),
        forall|k: int, l: int| 0 <= k < l < idxs@.len() ==> idxs@[k] > idxs@[l],
    ensures
        final(v)@.len() == old(v)@.len() - idxs@.len(),
        forall|i: int| 0 <= i < final(v)@.len() ==> old(v)@.contains(#[trigger] final(v)@[i]),
        final(v)@.to_multiset().add(selected(old(v)@, idxs@).to_multiset()) == old(
            v,
        )@.to_multiset(),
        final(v)@ == swap_removed(old(v)@, idxs@),
        old(v)@.no_duplicates() ==> final(v)@.no_duplicates(),
{
    let ghost orig = v@;
    let count = idxs.len();
    let mut k: usize = 0;
    proof {
        assert(selected(orig, idxs@.subrange(0, 0)) =~= Seq::<Point>::empty());
        Seq::<Point>::empty().to_multiset_ensures();
        assert(v@.to_multiset().add(selected(orig, idxs@.subrange(0, 0)).to_multiset())
            =~= orig.to_multiset());
        assert(idxs@.skip(0) =~= idxs@);
    }
    while k < count
        invariant
            swap_removed(v@, idxs@.skip(k as int)) == swap_removed(orig, idxs@),
            count == idxs@.len(),
            k <= count,
            v@.len() == orig.len() - k,
            forall|k2: int| 0 <= k2 < idxs@.len() ==> (#[trigger] idxs@[k2]) + k2 < orig.len(),
            forall|k2: int, l: int| 0 <= k2 < l < idxs@.len() ==> idxs@[k2] > idxs@[l],
            forall|l: int| k <= l < count ==> v@[idxs@[l] as int] == orig[(#[trigger] idxs@[l]) as int],
            forall|i: int| 0 <= i < v@.len() ==> orig.contains(#[trigger] v@[i]),
            v@.to_multiset().add(selected(orig, idxs@.subrange(0, k as int)).to_multiset())
                == orig.to_multiset(),
            orig.no_duplicates() ==> v@.no_duplicates(),
        decreases count - k,
    {
        let idx = idxs[k];
        let ghost cur = v@;
        let ghost elem = cur[idx as int];
        proof {
            assert(idx == idxs@[k as int]);
            assert(idx + k < orig.len());
            assert(elem == orig[idx as int]);
        }
        let _ = v.swap_remove(idx);
        proof {
            assert(idxs@.skip(k as int)[0] == idxs@[k as int]);
            assert(idxs@.skip(k as int).drop_first() =~= idxs@.skip(k as int + 1));
            assert(swap_removed(cur, idxs@.skip(k as int)) == swap_removed(
                v@,
                idxs@.skip(k as int + 1),
            ));
            lemma_swap_remove_multiset(cur, idx as int);
            if orig.no_duplicates() {
                lemma_swap_remove_distinct(cur, idx as int);
            }
            cur.to_multiset_ensures();
            assert(cur.contains(elem));
            assert(cur.to_multiset().count(elem) > 0);
            let sel_pre = selected(orig, idxs@.subrange(0, k as int));
            let sel_post = selected(orig, idxs@.subrange(0, k as int + 1));
            assert(sel_post =~= sel_pre.push(elem));
            sel_pre.to_multiset_ensures();
            assert(sel_post.to_multiset() == sel_pre.to_multiset().insert(elem));
            assert(v@.to_multiset().add(sel_post.to_multiset()) =~= orig.to_multiset());
            assert forall|l: int| k + 1 <= l < count implies v@[idxs@[l] as int] == orig[(
            #[trigger] idxs@[l]) as int] by {
                assert(idxs@[l] < idxs@[k as int]);
                assert(idxs@[l] < cur.len() - 1);
                assert(v@[idxs@[l] as int] == cur[idxs@[l] as int]);
            }
            assert forall|i: int| 0 <= i < v@.len() implies orig.contains(#[trigger] v@[i]) by {
                if i == idx {
                    assert(v@[i] == cur[cur.len() - 1]);
                } else {
                    assert(v@[i] == cur[i]);
                }
            }
        }
        k = k + 1;
    }
    proof {
        assert(idxs@.subrange(0, count as int) =~= idxs@);
        assert(idxs@.skip(count as int) =~= Seq::<usize>::empty());
    }
}

/// The greedy merge: repeatedly cluster around the first remaining point
/// and replace each cluster by its centroid, until no point remains.
///
/// The result is never larger than the input and never empty unless the
/// input was; every returned centroid lies in the bounding box spanned by
/// the input, since it is a truncated mean of input points. With a zero
/// threshold and pairwise distinct points nothing merges: the result holds
/// exactly the input points, though in a different order.
pub fn remove_centroids(points: Vec<Point>, threshold: i64) -> (r: Vec<Point>)
    requires
        all_bounded(points@),
        0 <= threshold <= COORD_LIMIT,
    ensures
        r@.len() <= points@.len(),
        points@.len() > 0 ==> 1 <= r@.len(),
        points@.len() == 0 ==> r@.len() == 0,
        all_bounded(r@),
        forall|i: int| 0 <= i < r@.len() ==> in_bounding_box(#[trigger] r@[i], points@),
        r@ == greedy_merge(points@, threshold as int),
        forall|rad: int|
            0 <= rad && #[trigger] all_in_disc(points@, rad) ==> all_in_disc(r@, rad),
        exists|groups: Seq<Seq<Point>>| clusters_cover(groups, r@, points@, threshold as int),
        threshold == 0 && points@.no_duplicates() ==> r@.to_multiset() == points@.to_multiset(),
{
    let ghost input = points@;
    let mut remaining = points;
    let mut centroids: Vec<Point> = Vec::new();
    let ghost mut groups = Seq::<Seq<Point>>::empty();
    proof {
        if input.len() > 0 {
            lemma_min_max(input);
            lemma_min_max_in_limits(input);
        }
        Seq::<Point>::empty().to_multiset_ensures();
        assert(centroids@.to_multiset().add(remaining@.to_multiset()) =~= input.to_multiset());
        assert(groups.flatten_alt() =~= Seq::<Point>::empty());
        assert(groups.flatten_alt().to_multiset().add(remaining@.to_multiset())
            =~= input.to_multiset());
        assert(centroids@ + greedy_merge(input, threshold as int) =~= greedy_merge(
            input,
            threshold as int,
        ));
    }
    while remaining.len() > 0
        invariant
            0 <= threshold <= COORD_LIMIT,
            all_bounded(remaining@),
            all_bounded(centroids@),
            centroids@.len() + remaining@.len() <= input.len(),
            centroids@.len() >= 1 || remaining@ == input,
            input.len() > 0 ==> all_bounded(input) && min_x(input) <= max_x(input) && min_y(input)
                <= max_y(input) && -COORD_LIMIT <= min_x(input) && max_x(input) <= COORD_LIMIT
                && -COORD_LIMIT <= min_y(input) && max_y(input) <= COORD_LIMIT,
            forall|i: int|
                0 <= i < remaining@.len() ==> min_x(input) <= (#[trigger] remaining@[i]).x
                    <= max_x(input) && min_y(input) <= remaining@[i].y <= max_y(input),
            forall|i: int|
                0 <= i < centroids@.len() ==> in_bounding_box(#[trigger] centroids@[i], input),
            groups.len() == centroids@.len(),
            forall|i: int|
                0 <= i < groups.len() ==> is_cluster_of(
                    #[trigger] groups[i],
                    centroids@[i],
                    threshold as int,
                ),
            groups.flatten_alt().to_multiset().add(remaining@.to_multiset())
                == input.to_multiset(),
            centroids@ + greedy_merge(remaining@, threshold as int) == greedy_merge(
                input,
                threshold as int,
            ),
            forall|rad: int|
                0 <= rad && #[trigger] all_in_disc(input, rad) ==> all_in_disc(remaining@, rad)
                    && all_in_disc(centroids@, rad),
            threshold == 0 && input.no_duplicates() ==> remaining@.no_duplicates()
                && centroids@.to_multiset().add(remaining@.to_multiset()) == input.to_multiset(),
        decreases remaining@.len(),
    {
        let (centroid, idxs) = centroid_candidates(&remaining, threshold);
        let pre_len = remaining.len();
        let ghost pre = remaining@;
        let ghost precent = centroids@;
        proof {
            assert(input.len() > 0);
            assert forall|k: int| 0 <= k < idxs@.len() implies (#[trigger] idxs@[k]) < pre.len() by {
                assert(idxs@[k] + k < pre.len());
            }
            lemma_sum_bounds(pre, idxs@, min_x(input), max_x(input), min_y(input), max_y(input));
            lemma_trunc_div_in_range(
                sum_x_at(pre, idxs@),
                idxs@.len() as int,
                min_x(input),
                max_x(input),
            );
            lemma_trunc_div_in_range(
                sum_y_at(pre, idxs@),
                idxs@.len() as int,
                min_y(input),
                max_y(input),
            );
        }
        remove_at(&mut remaining, &idxs);
        centroids.push(centroid);
        proof {
            assert forall|i: int|
                0 <= i < remaining@.len() implies min_x(input) <= (#[trigger] remaining@[i]).x
                <= max_x(input) && min_y(input) <= remaining@[i].y <= max_y(input)
                && remaining@[i].bounded() by {
                assert(pre.contains(remaining@[i]));
                let jj = choose|jj: int| 0 <= jj < pre.len() && pre[jj] == remaining@[i];
                assert(min_x(input) <= pre[jj].x <= max_x(input));
                assert(pre[jj].bounded());
            }
            assert(in_bounding_box(centroid, input));
            assert(centroid.bounded());
            assert forall|i: int|
                0 <= i < centroids@.len() implies in_bounding_box(
                #[trigger] centroids@[i],
                input,
            ) && centroids@[i].bounded() by {
                if i < precent.len() {
                    assert(centroids@[i] == precent[i]);
                }
            }
            let g = selected(pre, idxs@);
            let old_groups = groups;
            groups = groups.push(g);
            assert(g.len() == idxs@.len() >= 1);
            assert(g[g.len() - 1] == pre[0]) by {
                assert(idxs@[idxs@.len() - 1] == 0);
            }
            assert forall|j: int|
                0 <= j < g.len() implies #[trigger] g[g.len() - 1].dist_sq(g[j]) <= (
            threshold as int) * (threshold as int) by {
                assert(idxs@.contains(idxs@[j]));
                assert(idxs@[j] < pre.len());
                assert(pre[0].dist_sq(pre[idxs@[j] as int]) <= threshold * threshold);
                assert(g[j] == pre[idxs@[j] as int]);
            }
            lemma_sum_selected(pre, idxs@);
            assert(is_cluster_of(g, centroid, threshold as int));
            assert forall|i: int|
                0 <= i < groups.len() implies is_cluster_of(
                #[trigger] groups[i],
                centroids@[i],
                threshold as int,
            ) by {
                if i < old_groups.len() {
                    assert(groups[i] == old_groups[i]);
                    assert(centroids@[i] == precent[i]);
                }
            }
            assert(groups.flatten_alt() =~= old_groups.flatten_alt() + g) by {
                assert(groups.drop_last() =~= old_groups);
                assert(groups.last() == g);
            }
            lemma_multiset_commutative(old_groups.flatten_alt(), g);
            assert(groups.flatten_alt().to_multiset().add(remaining@.to_multiset())
                =~= input.to_multiset());
            let t_int = threshold as int;
            assert(pre.len() == pre_len);
            let c_spec = (Point {
                x: trunc_div(sum_x_at(pre, idxs@), idxs@.len() as int) as i64,
                y: trunc_div(sum_y_at(pre, idxs@), idxs@.len() as int) as i64,
            });
            assert(c_spec.x == centroid.x && c_spec.y == centroid.y) by {
                assert(trunc_div(sum_x_at(pre, idxs@), idxs@.len() as int) == centroid.x as int);
                assert(trunc_div(sum_y_at(pre, idxs@), idxs@.len() as int) == centroid.y as int);
            }
            assert(greedy_merge(pre, t_int) == seq![centroid] + greedy_merge(
                remaining@,
                t_int,
            )) by {
                assert(idxs@ == cluster_idxs(pre, t_int, pre.len() as int));
                assert(remaining@ == swap_removed(pre, idxs@));
            }
            assert(centroids@ =~= precent.push(centroid));
            assert(centroids@ + greedy_merge(remaining@, t_int) =~= precent + (seq![centroid]
                + greedy_merge(remaining@, t_int)));
            assert(centroids@ + greedy_merge(remaining@, t_int) == greedy_merge(input, t_int));
            assert forall|rad: int|
                0 <= rad && #[trigger] all_in_disc(input, rad) implies all_in_disc(
                remaining@,
                rad,
            ) && all_in_disc(centroids@, rad) by {
                assert forall|i: int|
                    0 <= i < remaining@.len() implies in_disc(#[trigger] remaining@[i], rad) by {
                    assert(pre.contains(remaining@[i]));
                    let jj = choose|jj: int| 0 <= jj < pre.len() && pre[jj] == remaining@[i];
                    assert(in_disc(pre[jj], rad));
                }
                lemma_centroid_in_disc(pre, idxs@, rad, centroid);
                assert forall|i: int|
                    0 <= i < centroids@.len() implies in_disc(#[trigger] centroids@[i], rad) by {
                    if i < precent.len() {
                        assert(centroids@[i] == precent[i]);
                        assert(in_disc(precent[i], rad));
                    }
                }
            }
            if threshold == 0 && input.no_duplicates() {
                assert(idxs@ == seq![0usize]);
                assert(centroid == pre[0]);
                let sel = selected(pre, idxs@);
                assert(sel =~= Seq::<Point>::empty().push(pre[0]));
                Seq::<Point>::empty().to_multiset_ensures();
                assert(sel.to_multiset() == Seq::<Point>::empty().to_multiset().insert(pre[0]));
                assert(Seq::<Point>::empty().to_multiset().count(pre[0]) == 0);
                precent.to_multiset_ensures();
                assert(centroids@.to_multiset() == precent.to_multiset().insert(pre[0]));
                assert(centroids@.to_multiset().add(remaining@.to_multiset())
                    =~= input.to_multiset());
            }
        }
    }
    proof {
        assert(remaining@.to_multiset().len() == 0) by {
            remaining@.to_multiset_ensures();
        }
        remaining@.to_multiset_ensures();
        assert(groups.flatten_alt().to_multiset() =~= groups.flatten_alt().to_multiset().add(
            remaining@.to_multiset(),
        ));
        assert(clusters_cover(groups, centroids@, input, threshold as int));
        assert(greedy_merge(remaining@, threshold as int) == Seq::<Point>::empty());
        assert(centroids@ + Seq::<Point>::empty() =~= centroids@);
        if threshold == 0 && input.no_duplicates() {
            assert(centroids@.to_multiset().add(remaining@.to_multiset())
                =~= centroids@.to_multiset());
        }
    }
    centroids
}

} // verus!
