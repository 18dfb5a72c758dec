//! Exact geometric primitives: squared distances, point-to-segment squared
//! distance as an exact rational, the ray-crossing predicate, and the
//! box lower bounds that make branch-and-bound pruning sound.

use vstd::prelude::*;
use crate::{coord_ok, COORD_LIMIT};
use crate::tree::{Edge, Node, pt_in_box, pt_ok};

verus! {

/// The square of an integer.
pub open spec fn sq(a: int) -> int {
    a * a
}

/// Squared Euclidean distance between two grid points.
pub open spec fn dist2(ax: int, ay: int, bx: int, by: int) -> int {
    sq(bx - ax) + sq(by - ay)
}

/// The z-component of the cross product of `(p2 - p1)` and `(r - p1)`:
/// positive when `r` lies left of the directed line `p1 -> p2`, negative
/// when right, zero when on the line.
pub open spec fn cross_z(rx: int, ry: int, x1: int, y1: int, x2: int, y2: int) -> int {
    (x2 - x1) * (ry - y1) - (y2 - y1) * (rx - x1)
}

/// Whether a horizontal ray cast from `r` toward increasing `x` crosses the
/// edge `p1 -> p2`, under the half-open convention: an upward edge owns its
/// lower endpoint and excludes its upper one (and mirrored for a downward
/// edge), so a ray through a vertex shared by two adjacent edges is counted
/// exactly once; horizontal edges are never crossed.
pub open spec fn crossed(rx: int, ry: int, e: Edge) -> bool {
    let x1 = e.p1.x as int;
    let y1 = e.p1.y as int;
    let x2 = e.p2.x as int;
    let y2 = e.p2.y as int;
    if y1 < y2 {
        y1 <= ry < y2 && cross_z(rx, ry, x1, y1, x2, y2) > 0
    } else if y2 < y1 {
        y2 <= ry < y1 && cross_z(rx, ry, x1, y1, x2, y2) < 0
    } else {
        false
    }
}

/// Squared distance from a point to a segment, as an exact rational
/// `(numerator, denominator)`.
///
/// The closest point of the segment is `p1` when the projection parameter
/// `c1` is at most 0, `p2` when `c1 >= c2`, and otherwise the projection of
/// the point onto the segment, whose squared distance is
/// `(|w|^2 * c2 - c1^2) / c2`. A zero-length segment forces `c1 == c2 == 0`
/// into the first branch, so the denominator is never zero.
pub open spec fn seg_dist2(px: int, py: int, x1: int, y1: int, x2: int, y2: int) -> (int, int) {
    let vx = x2 - x1;
    let vy = y2 - y1;
    let wx = px - x1;
    let wy = py - y1;
    let c1 = vx * wx + vy * wy;
    let c2 = vx * vx + vy * vy;
    if c1 <= 0 {
        (dist2(x1, y1, px, py), 1)
    } else if c1 >= c2 {
        (dist2(x2, y2, px, py), 1)
    } else {
        ((wx * wx + wy * wy) * c2 - c1 * c1, c2)
    }
}

/// Squared distance from a point to an edge, as an exact rational.
pub open spec fn edge_dist2(px: int, py: int, e: Edge) -> (int, int) {
    seg_dist2(px, py, e.p1.x as int, e.p1.y as int, e.p2.x as int, e.p2.y as int)
}

/// Distance from a coordinate to an interval, zero inside it.
pub open spec fn axis_gap(p: int, lo: int, hi: int) -> int {
    if p < lo {
        lo - p
    } else if p > hi {
        p - hi
    } else {
        0
    }
}

/// Squared distance from a point to an axis-aligned box: zero when the point
/// projects inside the box on both axes, else the squared distance to the
/// nearest box point. No point inside the box is closer than this.
pub open spec fn box_dist2(px: int, py: int, xmin: int, xmax: int, ymin: int, ymax: int) -> int {
    sq(axis_gap(px, xmin, xmax)) + sq(axis_gap(py, ymin, ymax))
}

/// Bounds on products from bounds on their factors.
pub proof fn lemma_mul_le(a: int, b: int, aa: int, bb: int)
    by (nonlinear_arith)
    requires
        -aa <= a <= aa,
        -bb <= b <= bb,
        0 <= aa,
        0 <= bb,
    ensures
        -(aa * bb) <= a * b <= aa * bb,
{
}

/// A square is never negative.
pub proof fn lemma_sq_nonneg(a: int)
    by (nonlinear_arith)
    ensures
        sq(a) >= 0,
{
}

/// Squaring forgets the sign.
pub proof fn lemma_sq_neg(a: int)
    by (nonlinear_arith)
    ensures
        sq(-a) == sq(a),
{
}

/// Expansion of a squared difference.
proof fn lemma_expand_sq_diff(a: int, b: int)
    by (nonlinear_arith)
    ensures
        (a - b) * (a - b) == a * a - 2 * (a * b) + b * b,
{
}

/// Products commute and associate pairwise.
proof fn lemma_mul_swap(a: int, b: int, c: int, d: int)
    by (nonlinear_arith)
    ensures
        (a * b) * (c * d) == (a * c) * (b * d),
{
}

/// Multiplication commutes.
proof fn lemma_mul_comm(a: int, b: int)
    by (nonlinear_arith)
    ensures
        a * b == b * a,
{
}

/// Collecting two expanded squares over common coefficients.
proof fn lemma_collect_terms(a: int, b: int, c: int, p1: int, p2: int, q1: int, q2: int, r1: int, r2: int)
    by (nonlinear_arith)
    ensures
        a * p1 - 2 * (b * q1) + c * r1 + (a * p2 - 2 * (b * q2) + c * r2)
            == a * (p1 + p2) - 2 * (b * (q1 + q2)) + c * (r1 + r2),
{
}

/// The collapsed form of the scaled projection distance.
proof fn lemma_collapse(c1: int, c2: int, s: int)
    by (nonlinear_arith)
    ensures
        (c2 * c2) * s - 2 * ((c2 * c1) * c1) + (c1 * c1) * c2 == c2 * (s * c2 - c1 * c1),
{
}

/// The Cauchy-Schwarz inequality in two dimensions, from the Lagrange
/// identity `(vw)^2 + (vx*wy - vy*wx)^2 == |v|^2 * |w|^2`.
pub proof fn lemma_cauchy_schwarz(vx: int, vy: int, wx: int, wy: int)
    by (nonlinear_arith)
    ensures
        sq(vx * wx + vy * wy) <= (vx * vx + vy * vy) * (wx * wx + wy * wy),
{
    assert(sq(vx * wy - vy * wx) >= 0);
}

/// One axis of the box bound, at scale `s`: the axis gap times `s` is at
/// most the distance from the scaled coordinate to any coordinate within
/// the scaled interval.
proof fn lemma_axis_gap_scaled(p: int, lo: int, hi: int, q: int, s: int)
    requires
        lo <= hi,
        s >= 1,
        lo * s <= q <= hi * s,
    ensures
        sq(axis_gap(p, lo, hi)) * sq(s) <= sq(q - p * s),
{
    let g = axis_gap(p, lo, hi);
    if p < lo {
        assert((lo - p) * s <= q - p * s) by (nonlinear_arith)
            requires lo * s <= q;
        assert(g * s >= 0) by (nonlinear_arith)
            requires g >= 0, s >= 1;
        assert(sq(g * s) <= sq(q - p * s)) by (nonlinear_arith)
            requires 0 <= g * s, g * s <= q - p * s;
        assert(sq(g * s) == sq(g) * sq(s)) by (nonlinear_arith);
    } else if p > hi {
        assert(q - p * s <= (hi - p) * s) by (nonlinear_arith)
            requires q <= hi * s;
        assert((hi - p) * s == -(g * s)) by (nonlinear_arith)
            requires g == p - hi;
        assert(g * s >= 0) by (nonlinear_arith)
            requires g >= 0, s >= 1;
        assert(sq(g * s) <= sq(q - p * s)) by (nonlinear_arith)
            requires 0 <= g * s, q - p * s <= -(g * s);
        assert(sq(g * s) == sq(g) * sq(s)) by (nonlinear_arith);
    } else {
        assert(g == 0);
        assert(sq(0) * sq(s) == 0) by (nonlinear_arith);
        assert(sq(q - p * s) >= 0) by (nonlinear_arith);
    }
}

/// The box bound is admissible for any point within the box, at scale `s`:
/// the squared box distance times `s^2` is at most the squared distance
/// from the scaled query point to the (scaled) box point.
pub proof fn lemma_box_le_point_scaled(
    px: int, py: int,
    xmin: int, xmax: int, ymin: int, ymax: int,
    qx: int, qy: int, s: int,
)
    requires
        xmin <= xmax,
        ymin <= ymax,
        s >= 1,
        xmin * s <= qx <= xmax * s,
        ymin * s <= qy <= ymax * s,
    ensures
        box_dist2(px, py, xmin, xmax, ymin, ymax) * sq(s) <= dist2(px * s, py * s, qx, qy),
{
    lemma_axis_gap_scaled(px, xmin, xmax, qx, s);
    lemma_axis_gap_scaled(py, ymin, ymax, qy, s);
    let gx = axis_gap(px, xmin, xmax);
    let gy = axis_gap(py, ymin, ymax);
    assert((sq(gx) + sq(gy)) * sq(s) == sq(gx) * sq(s) + sq(gy) * sq(s)) by (nonlinear_arith);
}

/// The box bound is admissible for a whole edge held inside the box: the
/// squared box distance is at most the exact rational squared distance to
/// the segment (compared by cross-multiplication with its denominator).
pub proof fn lemma_box_le_seg(
    px: int, py: int,
    x1: int, y1: int, x2: int, y2: int,
    xmin: int, xmax: int, ymin: int, ymax: int,
)
    requires
        xmin <= x1 <= xmax,
        xmin <= x2 <= xmax,
        ymin <= y1 <= ymax,
        ymin <= y2 <= ymax,
    ensures
        box_dist2(px, py, xmin, xmax, ymin, ymax) * seg_dist2(px, py, x1, y1, x2, y2).1
            <= seg_dist2(px, py, x1, y1, x2, y2).0,
{
    let vx = x2 - x1;
    let vy = y2 - y1;
    let wx = px - x1;
    let wy = py - y1;
    let c1 = vx * wx + vy * wy;
    let c2 = vx * vx + vy * vy;
    let bd = box_dist2(px, py, xmin, xmax, ymin, ymax);
    if c1 <= 0 {
        lemma_box_le_point_scaled(px, py, xmin, xmax, ymin, ymax, x1, y1, 1);
        assert(bd * sq(1) == bd) by (nonlinear_arith);
        lemma_sq_neg(px - x1);
        lemma_sq_neg(py - y1);
        assert(dist2(px * 1, py * 1, x1, y1) == dist2(x1, y1, px, py));
    } else if c1 >= c2 {
        lemma_box_le_point_scaled(px, py, xmin, xmax, ymin, ymax, x2, y2, 1);
        assert(bd * sq(1) == bd) by (nonlinear_arith);
        lemma_sq_neg(px - x2);
        lemma_sq_neg(py - y2);
        assert(dist2(px * 1, py * 1, x2, y2) == dist2(x2, y2, px, py));
    } else {
        // The closest segment point is the projection; scale everything by
        // `c2` so that it has integer coordinates.
        let qx = x1 * c2 + c1 * vx;
        let qy = y1 * c2 + c1 * vy;
        assert(c2 > 0);
        assert(xmin * c2 <= qx <= xmax * c2) by (nonlinear_arith)
            requires
                qx == x1 * c2 + c1 * vx,
                vx == x2 - x1,
                0 < c1 < c2,
                xmin <= x1 <= xmax,
                xmin <= x2 <= xmax,
        {
            assert(qx == x1 * (c2 - c1) + x2 * c1);
        }
        assert(ymin * c2 <= qy <= ymax * c2) by (nonlinear_arith)
            requires
                qy == y1 * c2 + c1 * vy,
                vy == y2 - y1,
                0 < c1 < c2,
                ymin <= y1 <= ymax,
                ymin <= y2 <= ymax,
        {
            assert(qy == y1 * (c2 - c1) + y2 * c1);
        }
        lemma_box_le_point_scaled(px, py, xmin, xmax, ymin, ymax, qx, qy, c2);
        // The scaled squared distance to the projection equals c2 times the
        // rational numerator.
        let dxs = c2 * wx - c1 * vx;
        let dys = c2 * wy - c1 * vy;
        assert(qx - px * c2 == -dxs) by (nonlinear_arith)
            requires
                qx == x1 * c2 + c1 * vx,
                wx == px - x1,
                dxs == c2 * wx - c1 * vx,
        {
        }
        assert(qy - py * c2 == -dys) by (nonlinear_arith)
            requires
                qy == y1 * c2 + c1 * vy,
                wy == py - y1,
                dys == c2 * wy - c1 * vy,
        {
        }
        lemma_sq_neg(dxs);
        lemma_sq_neg(dys);
        assert(dist2(px * c2, py * c2, qx, qy) == sq(dxs) + sq(dys));
        // Expand the squares coordinate by coordinate, then collapse the
        // dot products.
        lemma_expand_sq_diff(c2 * wx, c1 * vx);
        lemma_expand_sq_diff(c2 * wy, c1 * vy);
        lemma_mul_swap(c2, wx, c2, wx);
        lemma_mul_swap(c2, wx, c1, vx);
        lemma_mul_swap(c1, vx, c1, vx);
        lemma_mul_swap(c2, wy, c2, wy);
        lemma_mul_swap(c2, wy, c1, vy);
        lemma_mul_swap(c1, vy, c1, vy);
        assert(dxs * dxs == (c2 * c2) * (wx * wx) - 2 * ((c2 * c1) * (wx * vx)) + (c1 * c1) * (vx
            * vx));
        assert(dys * dys == (c2 * c2) * (wy * wy) - 2 * ((c2 * c1) * (wy * vy)) + (c1 * c1) * (vy
            * vy));
        assert(sq(dxs) == dxs * dxs);
        assert(sq(dys) == dys * dys);
        lemma_collect_terms(
            c2 * c2, c2 * c1, c1 * c1,
            wx * wx, wy * wy,
            wx * vx, wy * vy,
            vx * vx, vy * vy,
        );
        lemma_mul_comm(wx, vx);
        lemma_mul_comm(wy, vy);
        assert(wx * vx + wy * vy == c1);
        assert(sq(dxs) + sq(dys) == (c2 * c2) * (wx * wx + wy * wy) - 2 * ((c2 * c1) * c1) + (c1
            * c1) * (vx * vx + vy * vy));
        lemma_collapse(c1, c2, wx * wx + wy * wy);
        let num = (wx * wx + wy * wy) * c2 - c1 * c1;
        assert(dist2(px * c2, py * c2, qx, qy) == c2 * num);
        assert(bd * sq(c2) <= c2 * num);
        assert(bd * c2 <= num) by (nonlinear_arith)
            requires
                bd * sq(c2) <= c2 * num,
                c2 > 0,
                sq(c2) == c2 * c2,
        {
        }
    }
}

/// A crossed edge constrains where the query point can lie relative to any
/// box holding both endpoints: the ray is horizontal and extends toward
/// increasing `x`, so the point's `y` lies within the box's `y` span (half
/// open at the top) and its `x` lies strictly left of the box's right face.
pub proof fn lemma_crossed_in_box(
    rx: int, ry: int, e: Edge,
    xmin: int, xmax: int, ymin: int, ymax: int,
)
    requires
        crossed(rx, ry, e),
        xmin <= e.p1.x as int <= xmax,
        xmin <= e.p2.x as int <= xmax,
        ymin <= e.p1.y as int <= ymax,
        ymin <= e.p2.y as int <= ymax,
    ensures
        ymin <= ry < ymax,
        rx < xmax,
{
    let x1 = e.p1.x as int;
    let y1 = e.p1.y as int;
    let x2 = e.p2.x as int;
    let y2 = e.p2.y as int;
    if y1 < y2 {
        assert(rx < xmax) by (nonlinear_arith)
            requires
                (x2 - x1) * (ry - y1) - (y2 - y1) * (rx - x1) > 0,
                y1 <= ry < y2,
                x1 <= xmax,
                x2 <= xmax,
        {
        }
    } else {
        assert(rx < xmax) by (nonlinear_arith)
            requires
                (x2 - x1) * (ry - y1) - (y2 - y1) * (rx - x1) < 0,
                y2 <= ry < y1,
                x1 <= xmax,
                x2 <= xmax,
        {
        }
    }
}

/// Exact squared distance from the origin offset `(x, y)`; the square root
/// is deferred to the caller, which keeps all pruning exact.
pub fn distance_squared(x: i64, y: i64) -> (r: i64)
    requires
        -2 * COORD_LIMIT as int <= x as int <= 2 * COORD_LIMIT as int,
        -2 * COORD_LIMIT as int <= y as int <= 2 * COORD_LIMIT as int,
    ensures
        r as int == sq(x as int) + sq(y as int),
        0 <= r as int <= 2_000_000_000_000,
{
    proof {
        lemma_mul_le(x as int, x as int, 1_000_000, 1_000_000);
        lemma_mul_le(y as int, y as int, 1_000_000, 1_000_000);
        lemma_sq_nonneg(x as int);
        lemma_sq_nonneg(y as int);
    }
    x * x + y * y
}

/// Whether the rightward horizontal ray from `r` crosses the edge, under
/// the half-open convention of [`crossed`].
pub fn crosses(r: (i64, i64), e: &Edge) -> (b: bool)
    requires
        coord_ok(r.0 as int, r.1 as int),
        pt_ok(e.p1),
        pt_ok(e.p2),
    ensures
        b == crossed(r.0 as int, r.1 as int, *e),
{
    let (rx, ry) = r;
    if e.p1.y < e.p2.y {
        if e.p1.y <= ry && ry < e.p2.y {
            proof {
                lemma_mul_le((e.p2.x - e.p1.x) as int, (ry - e.p1.y) as int, 1_000_000, 1_000_000);
                lemma_mul_le((e.p2.y - e.p1.y) as int, (rx - e.p1.x) as int, 1_000_000, 1_000_000);
            }
            let az: i64 = (e.p2.x - e.p1.x) * (ry - e.p1.y) - (e.p2.y - e.p1.y) * (rx - e.p1.x);
            az > 0
        } else {
            false
        }
    } else if e.p2.y < e.p1.y {
        if e.p2.y <= ry && ry < e.p1.y {
            proof {
                lemma_mul_le((e.p2.x - e.p1.x) as int, (ry - e.p1.y) as int, 1_000_000, 2_000_000);
                lemma_mul_le((e.p2.y - e.p1.y) as int, (rx - e.p1.x) as int, 1_000_000, 1_000_000);
            }
            let az: i64 = (e.p2.x - e.p1.x) * (ry - e.p1.y) - (e.p2.y - e.p1.y) * (rx - e.p1.x);
            az < 0
        } else {
            false
        }
    } else {
        false
    }
}

/// Exact squared distance from a query point to the box of a node, used as
/// the pruning lower bound of the traversals.
pub(crate) fn box_distance(p: (i64, i64), node: &Node) -> (r: i64)
    requires
        coord_ok(p.0 as int, p.1 as int),
        -(COORD_LIMIT as int) <= node.xmin as int <= node.xmax as int <= COORD_LIMIT as int,
        -(COORD_LIMIT as int) <= node.ymin as int <= node.ymax as int <= COORD_LIMIT as int,
    ensures
        r as int == box_dist2(p.0 as int, p.1 as int, node.xmin as int, node.xmax as int, node.ymin as int, node.ymax as int),
        0 <= r as int <= 2_000_000_000_000,
{
    let difx: i64 = if p.0 < node.xmin {
        node.xmin - p.0
    } else if p.0 > node.xmax {
        p.0 - node.xmax
    } else {
        0
    };
    let dify: i64 = if p.1 < node.ymin {
        node.ymin - p.1
    } else if p.1 > node.ymax {
        p.1 - node.ymax
    } else {
        0
    };
    distance_squared(difx, dify)
}

} // verus!
