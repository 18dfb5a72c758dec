//! Branch-and-bound nearest-edge and nearest-vertex queries.
//!
//! Both queries fold a running best value over all candidates in traversal
//! order, skipping a subtree only when its box lower bound proves that no
//! candidate inside can improve on the best; the result is therefore
//! exactly the fold over every candidate, which is the brute-force minimum.

use vstd::prelude::*;
use crate::{coord_ok, COORD_LIMIT};
use crate::geometry::{
    box_dist2, box_distance, dist2, distance_squared, edge_dist2, lemma_box_le_point_scaled,
    lemma_box_le_seg, lemma_cauchy_schwarz, lemma_mul_le, lemma_sq_nonneg, seg_dist2, sq,
};
use crate::order::{
    lemma_rat_prune, lemma_vkey_mono, rat_less, rat_lt, vertex_lt, vkey, vlt,
};
use crate::tree::{
    lemma_forest_edges_push, lemma_forest_points_push, lemma_wf_edges, lemma_wf_edges_nonempty,
    lemma_wf_points, node_edges, node_points, forest_edges, forest_points, pt_in_box, pt_ok,
    tree_ok, wf_node, Edge, Node, Point, Tree,
};

verus! {

/// An exact squared distance to an edge, as the rational `num / den`.
#[derive(Debug, Clone, Copy, PartialEq, Eq, Structural)]
pub struct EdgeDist {
    pub num: i128,
    pub den: i128,
}

/// An exact nearest-vertex result: the vertex's original index, the squared
/// distance to it, and its height offset. The represented distance is
/// `sqrt(sqd) + h`.
#[derive(Debug, Clone, Copy, PartialEq, Eq, Structural)]
pub struct VertexDist {
    pub index: usize,
    pub sqd: i64,
    pub h: i64,
}

/// Bounds under which the rational comparisons cannot overflow.
pub open spec fn rat_ok(n: int, d: int) -> bool {
    &&& 0 <= n <= 4_000_000_000_000_000_000_000_000
    &&& 1 <= d <= 4_000_000_000_000
}

/// Bounds under which the vertex-value comparisons cannot overflow.
pub open spec fn vc_ok(sqd: int, h: int) -> bool {
    &&& 0 <= sqd <= 4_000_000_000_000
    &&& -1_000_000 <= h <= 1_000_000
}

/// The mathematical value of an optional edge distance.
pub open spec fn ed_view(d: Option<EdgeDist>) -> Option<(int, int)> {
    match d {
        Option::None => Option::None,
        Option::Some(b) => Option::Some((b.num as int, b.den as int)),
    }
}

/// The mathematical value of an optional vertex result, as
/// `(sqd, h, index)`.
pub open spec fn vd_view(d: Option<VertexDist>) -> Option<(int, int, int)> {
    match d {
        Option::None => Option::None,
        Option::Some(b) => Option::Some((b.sqd as int, b.h as int, b.index as int)),
    }
}

/// One fold step of the edge query: keep the strictly smaller rational.
pub open spec fn emin(acc: Option<(int, int)>, c: (int, int)) -> Option<(int, int)> {
    match acc {
        Option::None => Option::Some(c),
        Option::Some(b) => if rat_lt(c.0, c.1, b.0, b.1) {
            Option::Some(c)
        } else {
            Option::Some(b)
        },
    }
}

/// The edge query's fold: the exact rational squared distance to the
/// nearest of the given edges, starting from `acc`, ties resolved in favor
/// of the earliest edge.
pub open spec fn efold(px: int, py: int, es: Seq<Edge>, acc: Option<(int, int)>) -> Option<(int, int)>
    decreases es.len(),
{
    if es.len() == 0 {
        acc
    } else {
        efold(px, py, es.drop_first(), emin(acc, edge_dist2(px, py, es[0])))
    }
}

/// The vertex candidate a point contributes: its squared distance, height
/// offset, and original index.
pub open spec fn vcand(px: int, py: int, q: Point) -> (int, int, int) {
    (dist2(px, py, q.x as int, q.y as int), q.h as int, q.index as int)
}

/// One fold step of the vertex query: keep the value whose
/// `sqrt(sqd) + h` is strictly smaller.
pub open spec fn vmin(acc: Option<(int, int, int)>, c: (int, int, int)) -> Option<(int, int, int)> {
    match acc {
        Option::None => Option::Some(c),
        Option::Some(b) => if vlt(c.0, c.1, b.0, b.1) {
            Option::Some(c)
        } else {
            Option::Some(b)
        },
    }
}

/// The vertex query's fold over a sequence of candidate points, starting
/// from `acc`, ties resolved in favor of the earliest point.
pub open spec fn vfold(px: int, py: int, pts: Seq<Point>, acc: Option<(int, int, int)>) -> Option<(int, int, int)>
    decreases pts.len(),
{
    if pts.len() == 0 {
        acc
    } else {
        vfold(px, py, pts.drop_first(), vmin(acc, vcand(px, py, pts[0])))
    }
}

/// Folding over a concatenation folds the parts in order.
pub proof fn lemma_efold_concat(px: int, py: int, a: Seq<Edge>, b: Seq<Edge>, acc: Option<(int, int)>)
    ensures
        efold(px, py, a + b, acc) == efold(px, py, b, efold(px, py, a, acc)),
    decreases a.len(),
{
    if a.len() == 0 {
        assert(a + b =~= b);
    } else {
        assert((a + b).drop_first() =~= a.drop_first() + b);
        lemma_efold_concat(px, py, a.drop_first(), b, emin(acc, edge_dist2(px, py, a[0])));
    }
}

/// Folding over a concatenation folds the parts in order.
pub proof fn lemma_vfold_concat(px: int, py: int, a: Seq<Point>, b: Seq<Point>, acc: Option<(int, int, int)>)
    ensures
        vfold(px, py, a + b, acc) == vfold(px, py, b, vfold(px, py, a, acc)),
    decreases a.len(),
{
    if a.len() == 0 {
        assert(a + b =~= b);
    } else {
        assert((a + b).drop_first() =~= a.drop_first() + b);
        lemma_vfold_concat(px, py, a.drop_first(), b, vmin(acc, vcand(px, py, a[0])));
    }
}


/// Folding a single edge is one fold step.
pub proof fn lemma_efold_one(px: int, py: int, e: Edge, acc: Option<(int, int)>)
    ensures
        efold(px, py, seq![e], acc) == emin(acc, edge_dist2(px, py, e)),
{
    assert(seq![e].drop_first() =~= Seq::<Edge>::empty());
    assert(efold(px, py, Seq::<Edge>::empty(), emin(acc, edge_dist2(px, py, e))) == emin(acc,
        edge_dist2(px, py, e)));
    assert(seq![e][0] == e);
}

/// Folding a single candidate point is one fold step.
pub proof fn lemma_vfold_one(px: int, py: int, q: Point, acc: Option<(int, int, int)>)
    ensures
        vfold(px, py, seq![q], acc) == vmin(acc, vcand(px, py, q)),
{
    assert(seq![q].drop_first() =~= Seq::<Point>::empty());
    assert(vfold(px, py, Seq::<Point>::empty(), vmin(acc, vcand(px, py, q))) == vmin(acc, vcand(
        px, py, q)));
    assert(seq![q][0] == q);
}

/// A fold over candidates none of which beats the current best leaves the
/// best unchanged.
pub proof fn lemma_efold_skip(px: int, py: int, es: Seq<Edge>, b: (int, int))
    requires
        forall|i: int|
            0 <= i < es.len() ==> !rat_lt(
                (#[trigger] edge_dist2(px, py, es[i])).0,
                edge_dist2(px, py, es[i]).1,
                b.0,
                b.1,
            ),
    ensures
        efold(px, py, es, Option::Some(b)) == Option::Some(b),
    decreases es.len(),
{
    if es.len() == 0 {
    } else {
        assert(!rat_lt(edge_dist2(px, py, es[0]).0, edge_dist2(px, py, es[0]).1, b.0, b.1));
        assert forall|i: int| 0 <= i < es.drop_first().len() implies !rat_lt(
            (#[trigger] edge_dist2(px, py, es.drop_first()[i])).0,
            edge_dist2(px, py, es.drop_first()[i]).1,
            b.0,
            b.1,
        ) by {
            assert(es.drop_first()[i] == es[i + 1]);
            assert(!rat_lt(edge_dist2(px, py, es[i + 1]).0, edge_dist2(px, py, es[i + 1]).1, b.0, b.1));
        }
        lemma_efold_skip(px, py, es.drop_first(), b);
    }
}

/// A fold over candidate points none of which beats the current best
/// leaves the best unchanged.
pub proof fn lemma_vfold_skip(px: int, py: int, pts: Seq<Point>, b: (int, int, int))
    requires
        forall|i: int|
            0 <= i < pts.len() ==> !vlt(
                (#[trigger] vcand(px, py, pts[i])).0,
                vcand(px, py, pts[i]).1,
                b.0,
                b.1,
            ),
    ensures
        vfold(px, py, pts, Option::Some(b)) == Option::Some(b),
    decreases pts.len(),
{
    if pts.len() == 0 {
    } else {
        assert(!vlt(vcand(px, py, pts[0]).0, vcand(px, py, pts[0]).1, b.0, b.1));
        assert forall|i: int| 0 <= i < pts.drop_first().len() implies !vlt(
            (#[trigger] vcand(px, py, pts.drop_first()[i])).0,
            vcand(px, py, pts.drop_first()[i]).1,
            b.0,
            b.1,
        ) by {
            assert(pts.drop_first()[i] == pts[i + 1]);
            assert(!vlt(vcand(px, py, pts[i + 1]).0, vcand(px, py, pts[i + 1]).1, b.0, b.1));
        }
        lemma_vfold_skip(px, py, pts.drop_first(), b);
    }
}

/// The rational distance to an edge with bounded endpoints is itself
/// bounded, with a positive denominator.
pub proof fn lemma_edge_dist2_ok(px: int, py: int, e: Edge)
    requires
        coord_ok(px, py),
        pt_ok(e.p1),
        pt_ok(e.p2),
    ensures
        rat_ok(edge_dist2(px, py, e).0, edge_dist2(px, py, e).1),
{
    let x1 = e.p1.x as int;
    let y1 = e.p1.y as int;
    let x2 = e.p2.x as int;
    let y2 = e.p2.y as int;
    let vx = x2 - x1;
    let vy = y2 - y1;
    let wx = px - x1;
    let wy = py - y1;
    let c1 = vx * wx + vy * wy;
    let c2 = vx * vx + vy * vy;
    lemma_mul_le(vx, vx, 1_000_000, 1_000_000);
    lemma_mul_le(vy, vy, 1_000_000, 1_000_000);
    lemma_mul_le(wx, wx, 1_000_000, 1_000_000);
    lemma_mul_le(wy, wy, 1_000_000, 1_000_000);
    lemma_mul_le(vx, wx, 1_000_000, 1_000_000);
    lemma_mul_le(vy, wy, 1_000_000, 1_000_000);
    lemma_sq_nonneg(vx);
    lemma_sq_nonneg(vy);
    lemma_sq_nonneg(wx);
    lemma_sq_nonneg(wy);
    lemma_sq_nonneg(px - x1);
    lemma_sq_nonneg(py - y1);
    lemma_sq_nonneg(px - x2);
    lemma_sq_nonneg(py - y2);
    lemma_mul_le(px - x1, px - x1, 1_000_000, 1_000_000);
    lemma_mul_le(py - y1, py - y1, 1_000_000, 1_000_000);
    lemma_mul_le(px - x2, px - x2, 1_000_000, 1_000_000);
    lemma_mul_le(py - y2, py - y2, 1_000_000, 1_000_000);
    if c1 <= 0 {
    } else if c1 >= c2 {
    } else {
        lemma_cauchy_schwarz(vx, vy, wx, wy);
        lemma_mul_le(wx * wx + wy * wy, c2, 2_000_000_000_000, 2_000_000_000_000);
        lemma_mul_le(c1, c1, 2_000_000_000_000, 2_000_000_000_000);
        assert(sq(c1) >= 0) by {
            lemma_sq_nonneg(c1);
        }
    }
}

/// The vertex candidate of a bounded point, seen from a bounded query
/// point, stays within the comparison bounds.
pub proof fn lemma_vcand_ok(px: int, py: int, q: Point)
    requires
        coord_ok(px, py),
        pt_ok(q),
    ensures
        vc_ok(vcand(px, py, q).0, vcand(px, py, q).1),
{
    lemma_mul_le(q.x as int - px, q.x as int - px, 1_000_000, 1_000_000);
    lemma_mul_le(q.y as int - py, q.y as int - py, 1_000_000, 1_000_000);
    lemma_sq_nonneg(q.x as int - px);
    lemma_sq_nonneg(q.y as int - py);
}

/// Every value an edge fold can produce is bounded, given bounded inputs.
pub proof fn lemma_efold_ok(px: int, py: int, es: Seq<Edge>, acc: Option<(int, int)>)
    requires
        coord_ok(px, py),
        forall|i: int| 0 <= i < es.len() ==> pt_ok(#[trigger] es[i].p1) && pt_ok(es[i].p2),
        acc is Some ==> rat_ok((acc->0).0, (acc->0).1),
    ensures
        efold(px, py, es, acc) is Some ==> rat_ok(
            (efold(px, py, es, acc)->0).0,
            (efold(px, py, es, acc)->0).1,
        ),
        acc is Some || es.len() > 0 ==> efold(px, py, es, acc) is Some,
    decreases es.len(),
{
    if es.len() == 0 {
    } else {
        lemma_edge_dist2_ok(px, py, es[0]);
        assert forall|i: int| 0 <= i < es.drop_first().len() implies pt_ok(
            #[trigger] es.drop_first()[i].p1,
        ) && pt_ok(es.drop_first()[i].p2) by {
            assert(es.drop_first()[i] == es[i + 1]);
        }
        lemma_efold_ok(px, py, es.drop_first(), emin(acc, edge_dist2(px, py, es[0])));
    }
}

/// Every value a vertex fold can produce is bounded, given bounded inputs.
pub proof fn lemma_vfold_ok(px: int, py: int, pts: Seq<Point>, acc: Option<(int, int, int)>)
    requires
        coord_ok(px, py),
        forall|i: int| 0 <= i < pts.len() ==> pt_ok(#[trigger] pts[i]),
        acc is Some ==> vc_ok((acc->0).0, (acc->0).1),
    ensures
        vfold(px, py, pts, acc) is Some ==> vc_ok(
            (vfold(px, py, pts, acc)->0).0,
            (vfold(px, py, pts, acc)->0).1,
        ),
        acc is Some || pts.len() > 0 ==> vfold(px, py, pts, acc) is Some,
    decreases pts.len(),
{
    if pts.len() == 0 {
    } else {
        lemma_vcand_ok(px, py, pts[0]);
        assert forall|i: int| 0 <= i < pts.drop_first().len() implies pt_ok(
            #[trigger] pts.drop_first()[i],
        ) by {
            assert(pts.drop_first()[i] == pts[i + 1]);
        }
        lemma_vfold_ok(px, py, pts.drop_first(), vmin(acc, vcand(px, py, pts[0])));
    }
}



/// Point-to-segment squared distance as an exact rational, computed from
/// the projection parameters; the zero-length case falls into the first
/// branch, so no division by zero can be reached.
fn dsegment(x0: i64, y0: i64, p1x: i64, p1y: i64, p2x: i64, p2y: i64) -> (r: EdgeDist)
    requires
        coord_ok(x0 as int, y0 as int),
        coord_ok(p1x as int, p1y as int),
        coord_ok(p2x as int, p2y as int),
    ensures
        (r.num as int, r.den as int) == seg_dist2(x0 as int, y0 as int, p1x as int, p1y as int,
            p2x as int, p2y as int),
        rat_ok(r.num as int, r.den as int),
{
    let vx: i128 = (p2x - p1x) as i128;
    let vy: i128 = (p2y - p1y) as i128;
    let wx: i128 = (x0 - p1x) as i128;
    let wy: i128 = (y0 - p1y) as i128;
    proof {
        lemma_mul_le(vx as int, wx as int, 1_000_000, 1_000_000);
        lemma_mul_le(vy as int, wy as int, 1_000_000, 1_000_000);
        lemma_mul_le(vx as int, vx as int, 1_000_000, 1_000_000);
        lemma_mul_le(vy as int, vy as int, 1_000_000, 1_000_000);
        lemma_mul_le(wx as int, wx as int, 1_000_000, 1_000_000);
        lemma_mul_le(wy as int, wy as int, 1_000_000, 1_000_000);
        lemma_sq_nonneg(vx as int);
        lemma_sq_nonneg(vy as int);
        lemma_sq_nonneg(wx as int);
        lemma_sq_nonneg(wy as int);
    }
    let c1: i128 = vx * wx + vy * wy;
    if c1 <= 0 {
        let dx: i128 = (x0 - p1x) as i128;
        let dy: i128 = (y0 - p1y) as i128;
        EdgeDist { num: dx * dx + dy * dy, den: 1 }
    } else {
        let c2: i128 = vx * vx + vy * vy;
        if c1 >= c2 {
            let dx: i128 = (x0 - p2x) as i128;
            let dy: i128 = (y0 - p2y) as i128;
            proof {
                lemma_mul_le(dx as int, dx as int, 1_000_000, 1_000_000);
                lemma_mul_le(dy as int, dy as int, 1_000_000, 1_000_000);
                lemma_sq_nonneg(dx as int);
                lemma_sq_nonneg(dy as int);
            }
            EdgeDist { num: dx * dx + dy * dy, den: 1 }
        } else {
            proof {
                lemma_cauchy_schwarz(vx as int, vy as int, wx as int, wy as int);
                lemma_mul_le((wx * wx + wy * wy) as int, c2 as int, 2_000_000_000_000,
                    2_000_000_000_000);
                lemma_mul_le(c1 as int, c1 as int, 2_000_000_000_000, 2_000_000_000_000);
            }
            EdgeDist { num: (wx * wx + wy * wy) * c2 - c1 * c1, den: c2 }
        }
    }
}

/// Folds one candidate point into the running best.
fn step_vertex(cur: Option<VertexDist>, q: Point, p: (i64, i64)) -> (r: Option<VertexDist>)
    requires
        pt_ok(q),
        coord_ok(p.0 as int, p.1 as int),
        cur is Some ==> vc_ok((vd_view(cur)->0).0, (vd_view(cur)->0).1),
    ensures
        vd_view(r) == vmin(vd_view(cur), vcand(p.0 as int, p.1 as int, q)),
        r is Some,
        vc_ok((vd_view(r)->0).0, (vd_view(r)->0).1),
{
    let dx: i64 = q.x - p.0;
    let dy: i64 = q.y - p.1;
    let sqd = distance_squared(dx, dy);
    proof {
        lemma_vcand_ok(p.0 as int, p.1 as int, q);
        assert(sqd as int == vcand(p.0 as int, p.1 as int, q).0);
    }
    match cur {
        Option::None => Option::Some(VertexDist { index: q.index, sqd, h: q.h }),
        Option::Some(b) => {
            if vertex_lt(sqd, q.h, b.sqd, b.h) {
                Option::Some(VertexDist { index: q.index, sqd, h: q.h })
            } else {
                Option::Some(b)
            }
        },
    }
}

/// The nearest-edge traversal: returns the fold of the exact squared edge
/// distances over the whole subtree, starting from `d`, pruning a subtree
/// whenever its box is already no closer than the best so far.
pub fn get_distance_edge(node: &Node, d: Option<EdgeDist>, p: (i64, i64)) -> (r: Option<EdgeDist>)
    requires
        wf_node(*node),
        coord_ok(p.0 as int, p.1 as int),
        d is Some ==> rat_ok((ed_view(d)->0).0, (ed_view(d)->0).1),
    ensures
        ed_view(r) == efold(p.0 as int, p.1 as int, node_edges(*node), ed_view(d)),
        r is Some ==> rat_ok((ed_view(r)->0).0, (ed_view(r)->0).1),
    decreases *node,
{
    let ghost px = p.0 as int;
    let ghost py = p.1 as int;
    proof {
        lemma_wf_edges(*node);
    }
    if let Option::Some(best) = d {
        let bd = box_distance(p, node);
        if !rat_less(bd as i128, 1, best.num, best.den) {
            proof {
                let es = node_edges(*node);
                let bv = (best.num as int, best.den as int);
                assert forall|i: int| 0 <= i < es.len() implies !rat_lt(
                    (#[trigger] edge_dist2(px, py, es[i])).0,
                    edge_dist2(px, py, es[i]).1,
                    bv.0,
                    bv.1,
                ) by {
                    assert(pt_ok(es[i].p1));
                    lemma_edge_dist2_ok(px, py, es[i]);
                    lemma_box_le_seg(
                        px, py,
                        es[i].p1.x as int, es[i].p1.y as int,
                        es[i].p2.x as int, es[i].p2.y as int,
                        node.xmin as int, node.xmax as int,
                        node.ymin as int, node.ymax as int,
                    );
                    lemma_rat_prune(
                        bd as int,
                        edge_dist2(px, py, es[i]).0,
                        edge_dist2(px, py, es[i]).1,
                        bv.0,
                        bv.1,
                    );
                }
                lemma_efold_skip(px, py, es, bv);
            }
            return d;
        }
    }
    if node.children_nodes.len() > 0 {
        let mut cur = d;
        let n = node.children_nodes.len();
        let mut i: usize = 0;
        while i < n
            invariant
                0 <= i <= n,
                ed_view(cur) == efold(px, py, forest_edges(node.children_nodes@.take(i as int)), ed_view(d)),
                cur is Some ==> rat_ok((ed_view(cur)->0).0, (ed_view(cur)->0).1),
            decreases n - i,
        {
            proof {
                assert(wf_node(node.children_nodes@[i as int]));
                assert(node.children_nodes@.take(i + 1) =~= node.children_nodes@.take(i as int).push(
                    node.children_nodes@[i as int]));
                lemma_forest_edges_push(node.children_nodes@.take(i as int), node.children_nodes@[i as int]);
                lemma_efold_concat(
                    px, py,
                    forest_edges(node.children_nodes@.take(i as int)),
                    node_edges(node.children_nodes@[i as int]),
                    ed_view(d),
                );
            }
            cur = get_distance_edge(&node.children_nodes[i], cur, p);
            i += 1;
        }
        proof {
            assert(node.children_nodes@.take(n as int) =~= node.children_nodes@);
        }
        cur
    } else {
        let mut cur = d;
        let n = node.edges.len();
        let mut i: usize = 0;
        while i < n
            invariant
                0 <= i <= n,
                ed_view(cur) == efold(px, py, node.edges@.take(i as int), ed_view(d)),
                cur is Some ==> rat_ok((ed_view(cur)->0).0, (ed_view(cur)->0).1),
            decreases n - i,
        {
            let e = &node.edges[i];
            let cd = dsegment(p.0, p.1, e.p1.x, e.p1.y, e.p2.x, e.p2.y);
            proof {
                assert(node.edges@.take(i + 1) =~= node.edges@.take(i as int).push(node.edges@[i as int]));
                lemma_efold_concat(
                    px, py,
                    node.edges@.take(i as int),
                    seq![node.edges@[i as int]],
                    ed_view(d),
                );
                lemma_efold_one(px, py, node.edges@[i as int], ed_view(cur));
                assert(node.edges@.take(i as int) + seq![node.edges@[i as int]] =~= node.edges@.take(
                    i + 1));
            }
            cur = match cur {
                Option::None => Option::Some(cd),
                Option::Some(b) => {
                    if rat_less(cd.num, cd.den, b.num, b.den) {
                        Option::Some(cd)
                    } else {
                        Option::Some(b)
                    }
                },
            };
            i += 1;
        }
        proof {
            assert(node.edges@.take(n as int) =~= node.edges@);
        }
        cur
    }
}

/// The nearest-vertex traversal: returns the fold of the exact vertex
/// values `sqrt(sqd) + h` over the subtree's candidates, starting from
/// `d`, pruning a subtree whenever even its box distance plus its least
/// height offset is no better than the best so far.
pub fn get_distance_vertex(node: &Node, d: Option<VertexDist>, p: (i64, i64)) -> (r: Option<VertexDist>)
    requires
        wf_node(*node),
        coord_ok(p.0 as int, p.1 as int),
        d is Some ==> vc_ok((vd_view(d)->0).0, (vd_view(d)->0).1),
    ensures
        vd_view(r) == vfold(p.0 as int, p.1 as int, node_points(*node), vd_view(d)),
        r is Some ==> vc_ok((vd_view(r)->0).0, (vd_view(r)->0).1),
    decreases *node,
{
    let ghost px = p.0 as int;
    let ghost py = p.1 as int;
    proof {
        lemma_wf_points(*node);
    }
    if let Option::Some(best) = d {
        let bd = box_distance(p, node);
        if !vertex_lt(bd, node.hmin, best.sqd, best.h) {
            proof {
                let pts = node_points(*node);
                let bv = (best.sqd as int, best.h as int, best.index as int);
                assert forall|i: int| 0 <= i < pts.len() implies !vlt(
                    (#[trigger] vcand(px, py, pts[i])).0,
                    vcand(px, py, pts[i]).1,
                    bv.0,
                    bv.1,
                ) by {
                    let q = pts[i];
                    lemma_box_le_point_scaled(
                        px, py,
                        node.xmin as int, node.xmax as int,
                        node.ymin as int, node.ymax as int,
                        q.x as int, q.y as int, 1,
                    );
                    assert(box_dist2(px, py, node.xmin as int, node.xmax as int, node.ymin as int,
                        node.ymax as int) <= dist2(px, py, q.x as int, q.y as int))
                        by (nonlinear_arith)
                        requires
                            box_dist2(px, py, node.xmin as int, node.xmax as int, node.ymin as int,
                                node.ymax as int) * sq(1) <= dist2(px * 1, py * 1, q.x as int, q.y as int),
                            sq(1) == 1,
                            dist2(px * 1, py * 1, q.x as int, q.y as int) == dist2(px, py, q.x as int, q.y as int),
                    ;
                    lemma_vkey_mono(bd as int, node.hmin as int, vcand(px, py, q).0, vcand(px, py, q).1);
                }
                lemma_vfold_skip(px, py, pts, bv);
            }
            return d;
        }
    }
    if node.children_nodes.len() > 0 {
        let mut cur = d;
        let n = node.children_nodes.len();
        let mut i: usize = 0;
        while i < n
            invariant
                0 <= i <= n,
                vd_view(cur) == vfold(px, py, forest_points(node.children_nodes@.take(i as int)), vd_view(d)),
                cur is Some ==> vc_ok((vd_view(cur)->0).0, (vd_view(cur)->0).1),
            decreases n - i,
        {
            proof {
                assert(wf_node(node.children_nodes@[i as int]));
                assert(node.children_nodes@.take(i + 1) =~= node.children_nodes@.take(i as int).push(
                    node.children_nodes@[i as int]));
                lemma_forest_points_push(node.children_nodes@.take(i as int), node.children_nodes@[i as int]);
                lemma_vfold_concat(
                    px, py,
                    forest_points(node.children_nodes@.take(i as int)),
                    node_points(node.children_nodes@[i as int]),
                    vd_view(d),
                );
            }
            cur = get_distance_vertex(&node.children_nodes[i], cur, p);
            i += 1;
        }
        proof {
            assert(node.children_nodes@.take(n as int) =~= node.children_nodes@);
        }
        cur
    } else {
        // Leaf: every edge's first endpoint, then the final edge's second
        // endpoint, so that interior shared vertices are counted once.
        let ghost firsts = node.edges@.map_values(|e: Edge| e.p1);
        let mut cur = d;
        let n = node.edges.len();
        let mut i: usize = 0;
        while i < n
            invariant
                0 <= i <= n,
                vd_view(cur) == vfold(px, py, firsts.take(i as int), vd_view(d)),
                cur is Some ==> vc_ok((vd_view(cur)->0).0, (vd_view(cur)->0).1),
            decreases n - i,
        {
            proof {
                assert(firsts[i as int] == node.edges@[i as int].p1);
                assert(firsts.take(i + 1) =~= firsts.take(i as int).push(firsts[i as int]));
                lemma_vfold_concat(px, py, firsts.take(i as int), seq![firsts[i as int]], vd_view(d));
                lemma_vfold_one(px, py, firsts[i as int], vfold(px, py, firsts.take(i as int), vd_view(d)));
                assert(firsts.take(i as int) + seq![firsts[i as int]] =~= firsts.take(i + 1));
                assert(pt_ok(node.edges@[i as int].p1));
            }
            cur = step_vertex(cur, node.edges[i].p1, p);
            i += 1;
        }
        proof {
            assert(firsts.take(n as int) =~= firsts);
        }
        let last = node.edges[n - 1].p2;
        proof {
            assert(node.edges@.last() == node.edges@[n - 1]);
            assert(pt_ok(node.edges@[n - 1].p1));
            assert(pt_ok(last));
            lemma_vfold_concat(px, py, firsts, seq![node.edges@.last().p2], vd_view(d));
            lemma_vfold_one(px, py, node.edges@.last().p2, vfold(px, py, firsts, vd_view(d)));
            assert(node_points(*node) == firsts + seq![node.edges@.last().p2]);
        }
        let r = step_vertex(cur, last, p);
        r
    }
}


/// The exact rational squared distance from the point to the nearest edge
/// of the indexed boundary.
pub fn nearest_edge_distance(tree: &Tree, p: (i64, i64)) -> (r: EdgeDist)
    requires
        tree_ok(tree@),
        coord_ok(p.0 as int, p.1 as int),
    ensures
        Option::Some((r.num as int, r.den as int)) == efold(p.0 as int, p.1 as int, node_edges(
            tree@[0]), Option::None),
        rat_ok(r.num as int, r.den as int),
{
    proof {
        lemma_wf_edges(tree@[0]);
        assert forall|i: int| 0 <= i < node_edges(tree@[0]).len() implies pt_ok(
            #[trigger] node_edges(tree@[0])[i].p1,
        ) && pt_ok(node_edges(tree@[0])[i].p2) by {
            assert(pt_ok(node_edges(tree@[0])[i].p1));
        }
        lemma_efold_ok(p.0 as int, p.1 as int, node_edges(tree@[0]), Option::None);
    }
    let d = get_distance_edge(&tree[0], Option::None, p);
    match d {
        Option::Some(b) => b,
        Option::None => vstd::pervasive::unreached(),
    }
}

/// The exact nearest-vertex result for the point: the vertex with the
/// least `sqrt(sqd) + h`, ties resolved in favor of the earliest candidate.
pub fn nearest_vertex_distance(tree: &Tree, p: (i64, i64)) -> (r: VertexDist)
    requires
        tree_ok(tree@),
        coord_ok(p.0 as int, p.1 as int),
    ensures
        Option::Some((r.sqd as int, r.h as int, r.index as int)) == vfold(p.0 as int, p.1 as int,
            node_points(tree@[0]), Option::None),
        vc_ok(r.sqd as int, r.h as int),
{
    proof {
        lemma_wf_points(tree@[0]);
        lemma_wf_edges_nonempty(tree@[0]);
        lemma_node_points_nonempty(tree@[0]);
        lemma_vfold_ok(p.0 as int, p.1 as int, node_points(tree@[0]), Option::None);
    }
    let d = get_distance_vertex(&tree[0], Option::None, p);
    match d {
        Option::Some(b) => b,
        Option::None => vstd::pervasive::unreached(),
    }
}

/// A well-formed subtree offers at least one vertex candidate.
pub proof fn lemma_node_points_nonempty(n: Node)
    requires
        wf_node(n),
    ensures
        node_points(n).len() >= 1,
    decreases n,
{
    if n.children_nodes@.len() == 0 {
    } else {
        assert(wf_node(n.children_nodes@[0]));
        lemma_node_points_nonempty(n.children_nodes@[0]);
    }
}

} // verus!
