//! Properties of the index as a whole: grouping parameters never change
//! query answers, construction is deterministic, tree queries equal the
//! brute-force minima, the height offset moves nearest-vertex results
//! monotonically, and batch results follow any permutation of their inputs.

use vstd::prelude::*;
use crate::distance::{efold, vcand, vfold, vmin};
use crate::intersections::point_inside;
use crate::geometry::lemma_sq_nonneg;
use crate::order::{lemma_vkey_mono, vkey, vlt, vscale};
use crate::tree::{
    chunk_points, leaf_points, mk_point, node_edges, node_points, polys_chunks, polys_edges,
    tree_ok, Edge, Node, Point,
};
use crate::distance::lemma_node_points_nonempty;

verus! {

/// An edge run in which each edge starts where the one before it ended.
pub open spec fn chained(es: Seq<Edge>) -> bool {
    forall|i: int| 0 <= i < es.len() - 1 ==> (#[trigger] es[i + 1]).p1 == es[i].p2
}

/// The vertex candidates of one polygon's ring: every point in order,
/// carrying its original position.
pub open spec fn ring_points(pts: Seq<(i64, i64, i64)>, off: int) -> Seq<Point> {
    Seq::new(pts.len(), |i: int| mk_point(pts[i], off + i))
}

/// The vertex candidates of a polygon sequence: all points of all rings in
/// order.
pub open spec fn polys_points_from(ps: Seq<Seq<(i64, i64, i64)>>, off: int) -> Seq<Point>
    decreases ps,
{
    if ps.len() == 0 {
        Seq::empty()
    } else {
        ring_points(ps[0], off) + polys_points_from(ps.drop_first(), off + ps[0].len())
    }
}

/// The vertex candidates of a polygon sequence, indices from zero.
pub open spec fn polys_points(ps: Seq<Seq<(i64, i64, i64)>>) -> Seq<Point> {
    polys_points_from(ps, 0)
}

/// Folding the same candidate again right away changes nothing.
proof fn lemma_vmin_idem(px: int, py: int, acc: Option<(int, int, int)>, c: (int, int, int))
    ensures
        vmin(vmin(acc, c), c) == vmin(acc, c),
{
}

/// A fold that begins with the head candidate already folded in equals the
/// plain fold.
proof fn lemma_vfold_dup_head(px: int, py: int, pts: Seq<Point>, acc: Option<(int, int, int)>)
    requires
        pts.len() >= 1,
    ensures
        vfold(px, py, pts, vmin(acc, vcand(px, py, pts[0]))) == vfold(px, py, pts, acc),
{
    lemma_vmin_idem(px, py, acc, vcand(px, py, pts[0]));
}

/// The fold result is no worse than any candidate it saw, and no worse
/// than its starting value.
proof fn lemma_vfold_min(px: int, py: int, pts: Seq<Point>, acc: Option<(int, int, int)>)
    ensures
        forall|i: int|
            0 <= i < pts.len() ==> {
                &&& vfold(px, py, pts, acc) is Some
                &&& !vlt(
                    (#[trigger] vcand(px, py, pts[i])).0,
                    vcand(px, py, pts[i]).1,
                    (vfold(px, py, pts, acc)->0).0,
                    (vfold(px, py, pts, acc)->0).1,
                )
            },
        acc is Some ==> vfold(px, py, pts, acc) is Some && vkey(
            (vfold(px, py, pts, acc)->0).0,
            (vfold(px, py, pts, acc)->0).1,
        ) <= vkey((acc->0).0, (acc->0).1),
    decreases pts.len(),
{
    if pts.len() == 0 {
    } else {
        let c0 = vcand(px, py, pts[0]);
        let acc2 = vmin(acc, c0);
        lemma_vfold_min(px, py, pts.drop_first(), acc2);
        let f = vfold(px, py, pts, acc);
        assert(f == vfold(px, py, pts.drop_first(), acc2));
        assert(f is Some);
        assert(vkey((f->0).0, (f->0).1) <= vkey((acc2->0).0, (acc2->0).1));
        assert(vkey((acc2->0).0, (acc2->0).1) <= vkey(c0.0, c0.1));
        assert(acc is Some ==> vkey((acc2->0).0, (acc2->0).1) <= vkey((acc->0).0, (acc->0).1));
        assert forall|i: int| 0 <= i < pts.len() implies {
            &&& vfold(px, py, pts, acc) is Some
            &&& !vlt(
                (#[trigger] vcand(px, py, pts[i])).0,
                vcand(px, py, pts[i]).1,
                (vfold(px, py, pts, acc)->0).0,
                (vfold(px, py, pts, acc)->0).1,
            )
        } by {
            if i == 0 {
            } else {
                assert(pts.drop_first()[i - 1] == pts[i]);
                assert(!vlt(
                    vcand(px, py, pts.drop_first()[i - 1]).0,
                    vcand(px, py, pts.drop_first()[i - 1]).1,
                    (vfold(px, py, pts.drop_first(), acc2)->0).0,
                    (vfold(px, py, pts.drop_first(), acc2)->0).1,
                ));
            }
        }
    }
}

/// Appending a candidate that already occurs in the run changes nothing.
proof fn lemma_vfold_dup_tail(px: int, py: int, pts: Seq<Point>, q: Point, acc: Option<(int, int, int)>)
    requires
        exists|j: int| 0 <= j < pts.len() && pts[j] == q,
    ensures
        vfold(px, py, pts.push(q), acc) == vfold(px, py, pts, acc),
{
    crate::distance::lemma_vfold_concat(px, py, pts, seq![q], acc);
    assert(pts + seq![q] =~= pts.push(q));
    crate::distance::lemma_vfold_one(px, py, q, vfold(px, py, pts, acc));
    lemma_vfold_min(px, py, pts, acc);
    let j = choose|j: int| 0 <= j < pts.len() && pts[j] == q;
    assert(!vlt(
        vcand(px, py, pts[j]).0,
        vcand(px, py, pts[j]).1,
        (vfold(px, py, pts, acc)->0).0,
        (vfold(px, py, pts, acc)->0).1,
    ));
}

/// Grouping a chained edge run into leaves of any size leaves the fold of
/// its vertex candidates unchanged: every leaf boundary merely repeats, as
/// the closing candidate of one leaf, the opening candidate of the next.
proof fn lemma_chunk_fold(px: int, py: int, es: Seq<Edge>, g: int, acc: Option<(int, int, int)>)
    requires
        g >= 1,
        chained(es),
    ensures
        vfold(px, py, chunk_points(es, g), acc) == vfold(px, py, leaf_points(es), acc),
    decreases es.len(),
{
    if es.len() == 0 {
    } else if es.len() <= g {
    } else {
        let head = es.take(g);
        let tail = es.skip(g);
        assert(chained(tail)) by {
            assert forall|i: int| 0 <= i < tail.len() - 1 implies (#[trigger] tail[i + 1]).p1
                == tail[i].p2 by {
                assert(tail[i + 1] == es[g + i + 1]);
                assert(tail[i] == es[g + i]);
                assert(es[g + i + 1].p1 == es[g + i].p2);
            }
        }
        lemma_chunk_fold(px, py, tail, g, vfold(px, py, leaf_points(head), acc));
        crate::distance::lemma_vfold_concat(px, py, leaf_points(head), chunk_points(tail, g), acc);
        // The fold of the whole run inserts the shared vertex once instead
        // of twice: leaf_points(head) ends with head.last().p2, which is
        // exactly tail's first candidate.
        let firsts = es.map_values(|e: Edge| e.p1);
        let head_firsts = head.map_values(|e: Edge| e.p1);
        let tail_firsts = tail.map_values(|e: Edge| e.p1);
        assert(head_firsts + tail_firsts =~= firsts);
        assert(leaf_points(es) =~= firsts + seq![es.last().p2]);
        assert(leaf_points(head) =~= head_firsts + seq![head.last().p2]);
        assert(leaf_points(tail) =~= tail_firsts + seq![tail.last().p2]);
        assert(tail.last() == es.last());
        // head.last().p2 == tail[0].p1, the first candidate of the rest.
        assert(head.last() == es[g - 1]);
        assert(tail[0] == es[g]);
        assert(es[g].p1 == es[g - 1].p2) by {
            assert((es[(g - 1) + 1]).p1 == es[g - 1].p2);
        }
        let rest = tail_firsts + seq![es.last().p2];
        assert(leaf_points(tail) =~= rest);
        assert(rest.len() >= 1);
        assert(rest[0] == tail_firsts[0]);
        assert(tail_firsts[0] == tail[0].p1);
        // fold(leaf_points(head)) == vmin(fold(head_firsts), cand of the
        // shared vertex), and the rest starts with that same vertex.
        crate::distance::lemma_vfold_concat(px, py, head_firsts, seq![head.last().p2], acc);
        crate::distance::lemma_vfold_one(px, py, head.last().p2, vfold(px, py, head_firsts, acc));
        lemma_vfold_dup_head(px, py, rest, vfold(px, py, head_firsts, acc));
        // Both sides are now folds of head_firsts then rest.
        crate::distance::lemma_vfold_concat(px, py, head_firsts, rest, acc);
        assert(head_firsts + rest =~= leaf_points(es));
    }
}

/// Every ring's edge run is chained, and its opening candidate returns as
/// the final closing candidate.
proof fn lemma_ring_shape(pts: Seq<(i64, i64, i64)>, off: int)
    requires
        pts.len() >= 1,
    ensures
        chained(crate::tree::ring_edges(pts, off)),
        crate::tree::ring_edges(pts, off).map_values(|e: Edge| e.p1) =~= ring_points(pts, off),
        crate::tree::ring_edges(pts, off).last().p2 == ring_points(pts, off)[0],
        leaf_points(crate::tree::ring_edges(pts, off)) =~= ring_points(pts, off).push(
            ring_points(pts, off)[0]),
{
    let es = crate::tree::ring_edges(pts, off);
    assert forall|i: int| 0 <= i < es.len() - 1 implies (#[trigger] es[i + 1]).p1 == es[i].p2 by {
        assert(es[i] == es[i]);
    }
    assert(es.map_values(|e: Edge| e.p1) =~= ring_points(pts, off));
    assert(es.last() == es[pts.len() - 1]);
    assert(leaf_points(es) =~= ring_points(pts, off).push(ring_points(pts, off)[0]));
}

/// The fold of a polygon sequence's grouped vertex candidates equals the
/// fold over the plain point list: leaf grouping only repeats candidates,
/// and each ring's closing candidate repeats its opening one.
proof fn lemma_polys_chunks_fold(
    px: int, py: int, ps: Seq<Seq<(i64, i64, i64)>>, g: int, off: int,
    acc: Option<(int, int, int)>,
)
    requires
        g >= 1,
    ensures
        vfold(px, py, crate::tree::polys_chunks_from(ps, g, off), acc) == vfold(
            px, py,
            polys_points_from(ps, off),
            acc,
        ),
    decreases ps,
{
    if ps.len() == 0 {
    } else {
        let ring = crate::tree::ring_edges(ps[0], off);
        let chunked = chunk_points(ring, g);
        let rest_chunks = crate::tree::polys_chunks_from(ps.drop_first(), g, off + ps[0].len());
        let rest_points = polys_points_from(ps.drop_first(), off + ps[0].len());
        crate::distance::lemma_vfold_concat(px, py, chunked, rest_chunks, acc);
        crate::distance::lemma_vfold_concat(px, py, ring_points(ps[0], off), rest_points, acc);
        if ps[0].len() == 0 {
            assert(ring =~= Seq::<Edge>::empty());
            assert(chunked =~= Seq::<Point>::empty());
            assert(ring_points(ps[0], off) =~= Seq::<Point>::empty());
            lemma_polys_chunks_fold(px, py, ps.drop_first(), g, off + ps[0].len(), acc);
        } else {
            lemma_ring_shape(ps[0], off);
            lemma_chunk_fold(px, py, ring, g, acc);
            // The ring's candidates are its points plus a repeat of the
            // first point.
            lemma_vfold_dup_tail(px, py, ring_points(ps[0], off), ring_points(ps[0], off)[0], acc);
            lemma_polys_chunks_fold(
                px, py,
                ps.drop_first(), g,
                off + ps[0].len(),
                vfold(px, py, ring_points(ps[0], off), acc),
            );
        }
    }
}

/// LAW: branching-factor invariance. Two trees built from the same
/// polygons, with any edge and node grouping sizes, answer every
/// containment, nearest-edge and nearest-vertex query identically.
pub proof fn law_branching_invariance(
    t1: Seq<Node>, e1: int,
    t2: Seq<Node>, e2: int,
    ps: Seq<Seq<(i64, i64, i64)>>,
)
    requires
        e1 >= 1,
        e2 >= 1,
        tree_ok(t1),
        node_edges(t1[0]) == polys_edges(ps),
        node_points(t1[0]) == polys_chunks(ps, e1),
        tree_ok(t2),
        node_edges(t2[0]) == polys_edges(ps),
        node_points(t2[0]) == polys_chunks(ps, e2),
    ensures
        forall|px: int, py: int|
            #[trigger] point_inside(px, py, node_edges(t1[0])) == point_inside(
                px, py,
                node_edges(t2[0]),
            ),
        forall|px: int, py: int|
            #[trigger] efold(px, py, node_edges(t1[0]), Option::None) == efold(
                px, py,
                node_edges(t2[0]),
                Option::None,
            ),
        forall|px: int, py: int|
            #[trigger] vfold(px, py, node_points(t1[0]), Option::None) == vfold(
                px, py,
                node_points(t2[0]),
                Option::None,
            ),
{
    assert forall|px: int, py: int|
        #[trigger] vfold(px, py, node_points(t1[0]), Option::None) == vfold(
            px, py,
            node_points(t2[0]),
            Option::None,
        ) by {
        lemma_polys_chunks_fold(px, py, ps, e1, 0, Option::None);
        lemma_polys_chunks_fold(px, py, ps, e2, 0, Option::None);
    }
}

/// LAW: determinism. Two trees built from identical input (same polygons
/// and the same grouping sizes) hold identical edges and vertex
/// candidates, so they answer every query identically.
pub proof fn law_determinism(t1: Seq<Node>, t2: Seq<Node>, ps: Seq<Seq<(i64, i64, i64)>>, eg: int)
    requires
        tree_ok(t1),
        node_edges(t1[0]) == polys_edges(ps),
        node_points(t1[0]) == polys_chunks(ps, eg),
        tree_ok(t2),
        node_edges(t2[0]) == polys_edges(ps),
        node_points(t2[0]) == polys_chunks(ps, eg),
    ensures
        node_edges(t1[0]) == node_edges(t2[0]),
        node_points(t1[0]) == node_points(t2[0]),
        forall|px: int, py: int|
            #[trigger] point_inside(px, py, node_edges(t1[0])) == point_inside(
                px, py,
                node_edges(t2[0]),
            ),
        forall|px: int, py: int|
            #[trigger] efold(px, py, node_edges(t1[0]), Option::None) == efold(
                px, py,
                node_edges(t2[0]),
                Option::None,
            ),
        forall|px: int, py: int|
            #[trigger] vfold(px, py, node_points(t1[0]), Option::None) == vfold(
                px, py,
                node_points(t2[0]),
                Option::None,
            ),
{
}

/// LAW: round trip with brute force. The tree's nearest-edge answer is the
/// fold over every edge of every polygon in input order, and its
/// nearest-vertex answer is the fold over every point of every polygon in
/// input order: exactly the brute-force minima.
pub proof fn law_brute_force(t: Seq<Node>, eg: int, ps: Seq<Seq<(i64, i64, i64)>>)
    requires
        eg >= 1,
        tree_ok(t),
        node_edges(t[0]) == polys_edges(ps),
        node_points(t[0]) == polys_chunks(ps, eg),
    ensures
        forall|px: int, py: int|
            #[trigger] efold(px, py, node_edges(t[0]), Option::None) == efold(
                px, py,
                polys_edges(ps),
                Option::None,
            ),
        forall|px: int, py: int|
            #[trigger] vfold(px, py, node_points(t[0]), Option::None) == vfold(
                px, py,
                polys_points(ps),
                Option::None,
            ),
{
    assert forall|px: int, py: int|
        #[trigger] vfold(px, py, node_points(t[0]), Option::None) == vfold(
            px, py,
            polys_points(ps),
            Option::None,
        ) by {
        lemma_polys_chunks_fold(px, py, ps, eg, 0, Option::None);
    }
}


/// Keys through one fold step: the step keeps the smaller key.
proof fn lemma_vmin_key(acc: Option<(int, int, int)>, c: (int, int, int))
    ensures
        vmin(acc, c) is Some,
        acc is Some ==> vkey((vmin(acc, c)->0).0, (vmin(acc, c)->0).1) == if vkey(c.0, c.1)
            < vkey((acc->0).0, (acc->0).1) {
            vkey(c.0, c.1)
        } else {
            vkey((acc->0).0, (acc->0).1)
        },
        acc is None ==> vmin(acc, c) == Option::Some(c),
{
}

/// LAW: height-offset monotonicity. Raise some vertex heights by at most
/// `delta` (and lower none): the nearest-vertex value can only grow, and by
/// at most `delta`. The comparison is on the exact keys, where one unit of
/// `delta` is `delta * vscale()`.
pub proof fn law_height_offset_monotone(
    px: int, py: int,
    pts: Seq<Point>, pts2: Seq<Point>,
    delta: int,
)
    requires
        delta >= 0,
        pts.len() == pts2.len(),
        pts.len() >= 1,
        forall|i: int|
            0 <= i < pts.len() ==> {
                &&& (#[trigger] pts2[i]).x == pts[i].x
                &&& pts2[i].y == pts[i].y
                &&& pts[i].h as int <= pts2[i].h as int <= pts[i].h as int + delta
            },
    ensures
        vfold(px, py, pts, Option::None) is Some,
        vfold(px, py, pts2, Option::None) is Some,
        vkey(
            (vfold(px, py, pts, Option::None)->0).0,
            (vfold(px, py, pts, Option::None)->0).1,
        ) <= vkey(
            (vfold(px, py, pts2, Option::None)->0).0,
            (vfold(px, py, pts2, Option::None)->0).1,
        ),
        vkey(
            (vfold(px, py, pts2, Option::None)->0).0,
            (vfold(px, py, pts2, Option::None)->0).1,
        ) <= vkey(
            (vfold(px, py, pts, Option::None)->0).0,
            (vfold(px, py, pts, Option::None)->0).1,
        ) + delta * vscale(),
{
    lemma_vfold_mono(px, py, pts, pts2, delta, Option::None, Option::None);
}

/// The inductive core of the monotonicity law, generalized over related
/// accumulators.
proof fn lemma_vfold_mono(
    px: int, py: int,
    pts: Seq<Point>, pts2: Seq<Point>,
    delta: int,
    acc: Option<(int, int, int)>, acc2: Option<(int, int, int)>,
)
    requires
        delta >= 0,
        pts.len() == pts2.len(),
        forall|i: int|
            0 <= i < pts.len() ==> {
                &&& (#[trigger] pts2[i]).x == pts[i].x
                &&& pts2[i].y == pts[i].y
                &&& pts[i].h as int <= pts2[i].h as int <= pts[i].h as int + delta
            },
        acc is Some <==> acc2 is Some,
        acc is Some ==> vkey((acc->0).0, (acc->0).1) <= vkey((acc2->0).0, (acc2->0).1),
        acc is Some ==> vkey((acc2->0).0, (acc2->0).1) <= vkey((acc->0).0, (acc->0).1) + delta
            * vscale(),
        pts.len() >= 1 || acc is Some,
    ensures
        vfold(px, py, pts, acc) is Some,
        vfold(px, py, pts2, acc2) is Some,
        vkey((vfold(px, py, pts, acc)->0).0, (vfold(px, py, pts, acc)->0).1) <= vkey(
            (vfold(px, py, pts2, acc2)->0).0,
            (vfold(px, py, pts2, acc2)->0).1,
        ),
        vkey((vfold(px, py, pts2, acc2)->0).0, (vfold(px, py, pts2, acc2)->0).1) <= vkey(
            (vfold(px, py, pts, acc)->0).0,
            (vfold(px, py, pts, acc)->0).1,
        ) + delta * vscale(),
    decreases pts.len(),
{
    if pts.len() == 0 {
    } else {
        let c = vcand(px, py, pts[0]);
        let c2 = vcand(px, py, pts2[0]);
        assert(c2.0 == c.0);
        assert(c.1 <= c2.1 <= c.1 + delta);
        // The two candidates share their squared distance, so their keys
        // differ exactly by the height difference times the scale.
        assert(vkey(c2.0, c2.1) == vkey(c.0, c2.1));
        assert(vkey(c.0, c2.1) - vkey(c.0, c.1) == (c2.1 - c.1) * vscale()) by (nonlinear_arith)
            requires
                vkey(c.0, c2.1) - vkey(c.0, c.1) == c2.1 * vscale() - c.1 * vscale(),
        ;
        assert(vkey(c.0, c2.1) - vkey(c.0, c.1) <= delta * vscale()) by (nonlinear_arith)
            requires
                vkey(c.0, c2.1) - vkey(c.0, c.1) == (c2.1 - c.1) * vscale(),
                0 <= c2.1 - c.1 <= delta,
                vscale() >= 1,
        ;
        assert(vkey(c.0, c.1) <= vkey(c.0, c2.1));
        lemma_vmin_key(acc, c);
        lemma_vmin_key(acc2, c2);
        assert(pts.drop_first().len() == pts2.drop_first().len());
        assert forall|i: int| 0 <= i < pts.drop_first().len() implies {
            &&& (#[trigger] pts2.drop_first()[i]).x == pts.drop_first()[i].x
            &&& pts2.drop_first()[i].y == pts.drop_first()[i].y
            &&& pts.drop_first()[i].h as int <= pts2.drop_first()[i].h as int
                <= pts.drop_first()[i].h as int + delta
        } by {
            assert(pts.drop_first()[i] == pts[i + 1]);
            assert(pts2.drop_first()[i] == pts2[i + 1]);
        }
        lemma_vfold_mono(px, py, pts.drop_first(), pts2.drop_first(), delta, vmin(acc, c), vmin(
            acc2, c2));
    }
}


/// Two candidate lists describe the same geometry, the second with heights
/// raised by at most `delta` and lowered nowhere.
pub open spec fn points_related(pts: Seq<Point>, pts2: Seq<Point>, delta: int) -> bool {
    &&& pts2.len() == pts.len()
    &&& forall|i: int|
        0 <= i < pts.len() ==> {
            &&& (#[trigger] pts2[i]).x == pts[i].x
            &&& pts2[i].y == pts[i].y
            &&& pts2[i].index == pts[i].index
            &&& pts[i].h as int <= pts2[i].h as int <= pts[i].h as int + delta
        }
}

/// Two edge runs describe the same geometry, the second with heights raised
/// by at most `delta` and lowered nowhere.
pub open spec fn edges_related(es: Seq<Edge>, es2: Seq<Edge>, delta: int) -> bool {
    &&& es2.len() == es.len()
    &&& forall|i: int|
        0 <= i < es.len() ==> {
            &&& (#[trigger] es2[i]).p1.x == es[i].p1.x
            &&& es2[i].p1.y == es[i].p1.y
            &&& es2[i].p1.index == es[i].p1.index
            &&& es[i].p1.h as int <= es2[i].p1.h as int <= es[i].p1.h as int + delta
            &&& es2[i].p2.x == es[i].p2.x
            &&& es2[i].p2.y == es[i].p2.y
            &&& es2[i].p2.index == es[i].p2.index
            &&& es[i].p2.h as int <= es2[i].p2.h as int <= es[i].p2.h as int + delta
        }
}

/// Two polygon lists describe the same geometry, the second with heights
/// raised by at most `delta` and lowered nowhere.
pub open spec fn polys_related(
    ps: Seq<Seq<(i64, i64, i64)>>, ps2: Seq<Seq<(i64, i64, i64)>>, delta: int,
) -> bool {
    &&& ps2.len() == ps.len()
    &&& forall|k: int| 0 <= k < ps.len() ==> (#[trigger] ps2[k]).len() == ps[k].len()
    &&& forall|k: int, i: int|
        0 <= k < ps.len() && 0 <= i < ps[k].len() ==> {
            &&& (#[trigger] ps2[k][i]).0 == ps[k][i].0
            &&& ps2[k][i].1 == ps[k][i].1
            &&& ps[k][i].2 as int <= ps2[k][i].2 as int <= ps[k][i].2 as int + delta
        }
}

/// Related rings yield related edge runs.
proof fn lemma_ring_edges_related(
    pts: Seq<(i64, i64, i64)>, pts2: Seq<(i64, i64, i64)>, off: int, delta: int,
)
    requires
        pts2.len() == pts.len(),
        forall|i: int|
            0 <= i < pts.len() ==> {
                &&& (#[trigger] pts2[i]).0 == pts[i].0
                &&& pts2[i].1 == pts[i].1
                &&& pts[i].2 as int <= pts2[i].2 as int <= pts[i].2 as int + delta
            },
    ensures
        edges_related(
            crate::tree::ring_edges(pts, off),
            crate::tree::ring_edges(pts2, off),
            delta,
        ),
{
    let es = crate::tree::ring_edges(pts, off);
    let es2 = crate::tree::ring_edges(pts2, off);
    assert forall|i: int| 0 <= i < es.len() implies {
        &&& (#[trigger] es2[i]).p1.x == es[i].p1.x
        &&& es2[i].p1.y == es[i].p1.y
        &&& es2[i].p1.index == es[i].p1.index
        &&& es[i].p1.h as int <= es2[i].p1.h as int <= es[i].p1.h as int + delta
        &&& es2[i].p2.x == es[i].p2.x
        &&& es2[i].p2.y == es[i].p2.y
        &&& es2[i].p2.index == es[i].p2.index
        &&& es[i].p2.h as int <= es2[i].p2.h as int <= es[i].p2.h as int + delta
    } by {
        assert(es[i] == es[i]);
        assert(es2[i] == es2[i]);
    }
}

/// Related edge runs yield related leaf candidates.
proof fn lemma_leaf_points_related(es: Seq<Edge>, es2: Seq<Edge>, delta: int)
    requires
        edges_related(es, es2, delta),
    ensures
        points_related(leaf_points(es), leaf_points(es2), delta),
{
    if es.len() == 0 {
    } else {
        let lp = leaf_points(es);
        let lp2 = leaf_points(es2);
        assert(es.last() == es[es.len() - 1]);
        assert(es2.last() == es2[es.len() - 1]);
        assert forall|i: int| 0 <= i < lp.len() implies {
            &&& (#[trigger] lp2[i]).x == lp[i].x
            &&& lp2[i].y == lp[i].y
            &&& lp2[i].index == lp[i].index
            &&& lp[i].h as int <= lp2[i].h as int <= lp[i].h as int + delta
        } by {
            if i < es.len() {
                assert(lp[i] == es[i].p1);
                assert(lp2[i] == es2[i].p1);
            } else {
                assert(lp[i] == es.last().p2);
                assert(lp2[i] == es2.last().p2);
            }
        }
    }
}

/// Related edge runs, grouped into leaves of the same size, yield related
/// candidate lists.
proof fn lemma_chunk_points_related(es: Seq<Edge>, es2: Seq<Edge>, g: int, delta: int)
    requires
        g >= 1,
        edges_related(es, es2, delta),
    ensures
        points_related(chunk_points(es, g), chunk_points(es2, g), delta),
    decreases es.len(),
{
    if es.len() == 0 {
    } else if es.len() <= g {
        lemma_leaf_points_related(es, es2, delta);
    } else {
        assert(edges_related(es.take(g), es2.take(g), delta)) by {
            assert forall|i: int| 0 <= i < es.take(g).len() implies {
                &&& (#[trigger] es2.take(g)[i]).p1.x == es.take(g)[i].p1.x
                &&& es2.take(g)[i].p1.y == es.take(g)[i].p1.y
                &&& es2.take(g)[i].p1.index == es.take(g)[i].p1.index
                &&& es.take(g)[i].p1.h as int <= es2.take(g)[i].p1.h as int <= es.take(g)[
                    i].p1.h as int + delta
                &&& es2.take(g)[i].p2.x == es.take(g)[i].p2.x
                &&& es2.take(g)[i].p2.y == es.take(g)[i].p2.y
                &&& es2.take(g)[i].p2.index == es.take(g)[i].p2.index
                &&& es.take(g)[i].p2.h as int <= es2.take(g)[i].p2.h as int <= es.take(g)[
                    i].p2.h as int + delta
            } by {
                assert(es.take(g)[i] == es[i]);
                assert(es2.take(g)[i] == es2[i]);
            }
        }
        assert(edges_related(es.skip(g), es2.skip(g), delta)) by {
            assert forall|i: int| 0 <= i < es.skip(g).len() implies {
                &&& (#[trigger] es2.skip(g)[i]).p1.x == es.skip(g)[i].p1.x
                &&& es2.skip(g)[i].p1.y == es.skip(g)[i].p1.y
                &&& es2.skip(g)[i].p1.index == es.skip(g)[i].p1.index
                &&& es.skip(g)[i].p1.h as int <= es2.skip(g)[i].p1.h as int <= es.skip(g)[
                    i].p1.h as int + delta
                &&& es2.skip(g)[i].p2.x == es.skip(g)[i].p2.x
                &&& es2.skip(g)[i].p2.y == es.skip(g)[i].p2.y
                &&& es2.skip(g)[i].p2.index == es.skip(g)[i].p2.index
                &&& es.skip(g)[i].p2.h as int <= es2.skip(g)[i].p2.h as int <= es.skip(g)[
                    i].p2.h as int + delta
            } by {
                assert(es.skip(g)[i] == es[g + i]);
                assert(es2.skip(g)[i] == es2[g + i]);
            }
        }
        lemma_leaf_points_related(es.take(g), es2.take(g), delta);
        lemma_chunk_points_related(es.skip(g), es2.skip(g), g, delta);
        let a = leaf_points(es.take(g));
        let a2 = leaf_points(es2.take(g));
        let b = chunk_points(es.skip(g), g);
        let b2 = chunk_points(es2.skip(g), g);
        assert forall|i: int| 0 <= i < (a + b).len() implies {
            &&& (#[trigger] (a2 + b2)[i]).x == (a + b)[i].x
            &&& (a2 + b2)[i].y == (a + b)[i].y
            &&& (a2 + b2)[i].index == (a + b)[i].index
            &&& (a + b)[i].h as int <= (a2 + b2)[i].h as int <= (a + b)[i].h as int + delta
        } by {
            if i < a.len() {
                assert((a + b)[i] == a[i]);
                assert((a2 + b2)[i] == a2[i]);
            } else {
                assert((a + b)[i] == b[i - a.len()]);
                assert((a2 + b2)[i] == b2[i - a.len()]);
            }
        }
    }
}

/// Related polygon lists, chunked the same way, yield related candidate
/// lists.
proof fn lemma_polys_chunks_related(
    ps: Seq<Seq<(i64, i64, i64)>>, ps2: Seq<Seq<(i64, i64, i64)>>, g: int, off: int, delta: int,
)
    requires
        g >= 1,
        polys_related(ps, ps2, delta),
    ensures
        points_related(
            crate::tree::polys_chunks_from(ps, g, off),
            crate::tree::polys_chunks_from(ps2, g, off),
            delta,
        ),
    decreases ps,
{
    if ps.len() == 0 {
    } else {
        assert forall|i: int| 0 <= i < ps[0].len() implies {
            &&& (#[trigger] ps2[0][i]).0 == ps[0][i].0
            &&& ps2[0][i].1 == ps[0][i].1
            &&& ps[0][i].2 as int <= ps2[0][i].2 as int <= ps[0][i].2 as int + delta
        } by {
            assert(ps2[0][i] == ps2[0][i]);
        }
        lemma_ring_edges_related(ps[0], ps2[0], off, delta);
        lemma_chunk_points_related(
            crate::tree::ring_edges(ps[0], off),
            crate::tree::ring_edges(ps2[0], off),
            g,
            delta,
        );
        assert(polys_related(ps.drop_first(), ps2.drop_first(), delta)) by {
            assert forall|k: int, i: int|
                0 <= k < ps.drop_first().len() && 0 <= i < ps.drop_first()[k].len() implies {
                &&& (#[trigger] ps2.drop_first()[k][i]).0 == ps.drop_first()[k][i].0
                &&& ps2.drop_first()[k][i].1 == ps.drop_first()[k][i].1
                &&& ps.drop_first()[k][i].2 as int <= ps2.drop_first()[k][i].2 as int
                    <= ps.drop_first()[k][i].2 as int + delta
            } by {
                assert(ps.drop_first()[k] == ps[k + 1]);
                assert(ps2.drop_first()[k] == ps2[k + 1]);
                assert(ps2[k + 1][i] == ps2[k + 1][i]);
            }
            assert forall|k: int| 0 <= k < ps.drop_first().len() implies (#[trigger] ps2.drop_first()[
                k]).len() == ps.drop_first()[k].len() by {
                assert(ps.drop_first()[k] == ps[k + 1]);
                assert(ps2.drop_first()[k] == ps2[k + 1]);
            }
        }
        lemma_polys_chunks_related(ps.drop_first(), ps2.drop_first(), g, off + ps[0].len(), delta);
        let a = chunk_points(crate::tree::ring_edges(ps[0], off), g);
        let a2 = chunk_points(crate::tree::ring_edges(ps2[0], off), g);
        let b = crate::tree::polys_chunks_from(ps.drop_first(), g, off + ps[0].len());
        let b2 = crate::tree::polys_chunks_from(ps2.drop_first(), g, off + ps2[0].len());
        assert(ps2[0].len() == ps[0].len());
        assert forall|i: int| 0 <= i < (a + b).len() implies {
            &&& (#[trigger] (a2 + b2)[i]).x == (a + b)[i].x
            &&& (a2 + b2)[i].y == (a + b)[i].y
            &&& (a2 + b2)[i].index == (a + b)[i].index
            &&& (a + b)[i].h as int <= (a2 + b2)[i].h as int <= (a + b)[i].h as int + delta
        } by {
            if i < a.len() {
                assert((a + b)[i] == a[i]);
                assert((a2 + b2)[i] == a2[i]);
            } else {
                assert((a + b)[i] == b[i - a.len()]);
                assert((a2 + b2)[i] == b2[i - a.len()]);
            }
        }
    }
}

/// LAW: height-offset monotonicity across whole trees. Build two indexes
/// from polygon lists that differ only in heights raised by at most `delta`
/// (one vertex or many): for every reference point, the nearest-vertex
/// value of the second tree is at least that of the first and exceeds it by
/// at most `delta` (one unit of `delta` is `delta * vscale()` on the exact
/// keys).
pub proof fn law_height_offset_monotone_trees(
    t1: Seq<Node>, t2: Seq<Node>,
    ps: Seq<Seq<(i64, i64, i64)>>, ps2: Seq<Seq<(i64, i64, i64)>>,
    eg: int, delta: int,
)
    requires
        eg >= 1,
        delta >= 0,
        polys_related(ps, ps2, delta),
        tree_ok(t1),
        node_points(t1[0]) == polys_chunks(ps, eg),
        tree_ok(t2),
        node_points(t2[0]) == polys_chunks(ps2, eg),
    ensures
        forall|px: int, py: int| {
            &&& #[trigger] vfold(px, py, node_points(t1[0]), Option::None) is Some
            &&& vfold(px, py, node_points(t2[0]), Option::None) is Some
            &&& vkey(
                (vfold(px, py, node_points(t1[0]), Option::None)->0).0,
                (vfold(px, py, node_points(t1[0]), Option::None)->0).1,
            ) <= vkey(
                (vfold(px, py, node_points(t2[0]), Option::None)->0).0,
                (vfold(px, py, node_points(t2[0]), Option::None)->0).1,
            )
            &&& vkey(
                (vfold(px, py, node_points(t2[0]), Option::None)->0).0,
                (vfold(px, py, node_points(t2[0]), Option::None)->0).1,
            ) <= vkey(
                (vfold(px, py, node_points(t1[0]), Option::None)->0).0,
                (vfold(px, py, node_points(t1[0]), Option::None)->0).1,
            ) + delta * vscale()
        },
{
    lemma_polys_chunks_related(ps, ps2, eg, 0, delta);
    lemma_node_points_nonempty(t1[0]);
    assert forall|px: int, py: int| {
        &&& #[trigger] vfold(px, py, node_points(t1[0]), Option::None) is Some
        &&& vfold(px, py, node_points(t2[0]), Option::None) is Some
        &&& vkey(
            (vfold(px, py, node_points(t1[0]), Option::None)->0).0,
            (vfold(px, py, node_points(t1[0]), Option::None)->0).1,
        ) <= vkey(
            (vfold(px, py, node_points(t2[0]), Option::None)->0).0,
            (vfold(px, py, node_points(t2[0]), Option::None)->0).1,
        )
        &&& vkey(
            (vfold(px, py, node_points(t2[0]), Option::None)->0).0,
            (vfold(px, py, node_points(t2[0]), Option::None)->0).1,
        ) <= vkey(
            (vfold(px, py, node_points(t1[0]), Option::None)->0).0,
            (vfold(px, py, node_points(t1[0]), Option::None)->0).1,
        ) + delta * vscale()
    } by {
        law_height_offset_monotone(px, py, node_points(t1[0]), node_points(t2[0]), delta);
    }
}


/// The fold returns exactly the unique strictly-least candidate.
proof fn lemma_vfold_strict_argmin(
    px: int, py: int, pts: Seq<Point>, j: int, acc: Option<(int, int, int)>,
)
    requires
        0 <= j < pts.len(),
        forall|i: int|
            0 <= i < pts.len() && i != j ==> vlt(
                vcand(px, py, pts[j]).0,
                vcand(px, py, pts[j]).1,
                (#[trigger] vcand(px, py, pts[i])).0,
                vcand(px, py, pts[i]).1,
            ),
        acc is Some ==> vlt(
            vcand(px, py, pts[j]).0,
            vcand(px, py, pts[j]).1,
            (acc->0).0,
            (acc->0).1,
        ),
    ensures
        vfold(px, py, pts, acc) == Option::Some(vcand(px, py, pts[j])),
    decreases pts.len(),
{
    let cj = vcand(px, py, pts[j]);
    let c0 = vcand(px, py, pts[0]);
    let acc2 = vmin(acc, c0);
    if j == 0 {
        assert(acc2 == Option::Some(cj));
        assert forall|i: int| 0 <= i < pts.drop_first().len() implies !vlt(
            (#[trigger] vcand(px, py, pts.drop_first()[i])).0,
            vcand(px, py, pts.drop_first()[i]).1,
            cj.0,
            cj.1,
        ) by {
            assert(pts.drop_first()[i] == pts[i + 1]);
            assert(vlt(cj.0, cj.1, vcand(px, py, pts[i + 1]).0, vcand(px, py, pts[i + 1]).1));
        }
        crate::distance::lemma_vfold_skip(px, py, pts.drop_first(), cj);
    } else {
        assert(vlt(cj.0, cj.1, c0.0, c0.1));
        assert(acc2 is Some && vlt(cj.0, cj.1, (acc2->0).0, (acc2->0).1));
        assert(pts.drop_first()[j - 1] == pts[j]);
        assert forall|i: int|
            0 <= i < pts.drop_first().len() && i != j - 1 implies vlt(
                vcand(px, py, pts.drop_first()[j - 1]).0,
                vcand(px, py, pts.drop_first()[j - 1]).1,
                (#[trigger] vcand(px, py, pts.drop_first()[i])).0,
                vcand(px, py, pts.drop_first()[i]).1,
            ) by {
            assert(pts.drop_first()[i] == pts[i + 1]);
            assert(vlt(cj.0, cj.1, vcand(px, py, pts[i + 1]).0, vcand(px, py, pts[i + 1]).1));
        }
        lemma_vfold_strict_argmin(px, py, pts.drop_first(), j - 1, acc2);
    }
}

/// LAW: a height raise that misses the strict nearest vertex changes
/// nothing. If the candidate at position `j` is strictly nearer than every
/// other candidate and keeps its height, then raising any other heights (by
/// any non-negative amounts) leaves the nearest-vertex result exactly
/// unchanged: the same vertex, the same squared distance, the same offset.
pub proof fn law_height_offset_unaffected(
    px: int, py: int, pts: Seq<Point>, pts2: Seq<Point>, delta: int, j: int,
)
    requires
        delta >= 0,
        points_related(pts, pts2, delta),
        0 <= j < pts.len(),
        pts2[j] == pts[j],
        forall|i: int|
            0 <= i < pts.len() && i != j ==> vlt(
                vcand(px, py, pts[j]).0,
                vcand(px, py, pts[j]).1,
                (#[trigger] vcand(px, py, pts[i])).0,
                vcand(px, py, pts[i]).1,
            ),
    ensures
        vfold(px, py, pts, Option::None) == Option::Some(vcand(px, py, pts[j])),
        vfold(px, py, pts2, Option::None) == vfold(px, py, pts, Option::None),
{
    lemma_vfold_strict_argmin(px, py, pts, j, Option::None);
    // The same position is still the strict minimum after the raise: every
    // other candidate's key can only have grown.
    assert forall|i: int|
        0 <= i < pts2.len() && i != j implies vlt(
            vcand(px, py, pts2[j]).0,
            vcand(px, py, pts2[j]).1,
            (#[trigger] vcand(px, py, pts2[i])).0,
            vcand(px, py, pts2[i]).1,
        ) by {
        let ci = vcand(px, py, pts[i]);
        let ci2 = vcand(px, py, pts2[i]);
        assert(ci2.0 == ci.0);
        assert(ci.1 <= ci2.1);
        lemma_sq_nonneg(pts[i].x as int - px);
        lemma_sq_nonneg(pts[i].y as int - py);
        lemma_vkey_mono(ci.0, ci.1, ci2.0, ci2.1);
        assert(vlt(vcand(px, py, pts[j]).0, vcand(px, py, pts[j]).1, ci.0, ci.1));
    }
    lemma_vfold_strict_argmin(px, py, pts2, j, Option::None);
    assert(vcand(px, py, pts2[j]) == vcand(px, py, pts[j]));
}

/// LAW: batch order. Batch results are positionally aligned with their
/// inputs, so permuting the reference points permutes the results the same
/// way: stated here for all three queries at once over the per-point
/// specifications that the batch functions ensure.
pub proof fn law_batch_permutation(
    es: Seq<Edge>, pts: Seq<Point>,
    qs: Seq<(i64, i64)>, qs2: Seq<(i64, i64)>, perm: Seq<int>,
    inside1: Seq<bool>, inside2: Seq<bool>,
    dist1: Seq<Option<(int, int)>>, dist2: Seq<Option<(int, int)>>,
    vert1: Seq<Option<(int, int, int)>>, vert2: Seq<Option<(int, int, int)>>,
)
    requires
        qs2.len() == qs.len(),
        perm.len() == qs.len(),
        forall|i: int| 0 <= i < perm.len() ==> 0 <= #[trigger] perm[i] < qs.len(),
        forall|i: int| 0 <= i < qs2.len() ==> #[trigger] qs2[i] == qs[perm[i]],
        inside1.len() == qs.len(),
        inside2.len() == qs.len(),
        dist1.len() == qs.len(),
        dist2.len() == qs.len(),
        vert1.len() == qs.len(),
        vert2.len() == qs.len(),
        forall|i: int|
            0 <= i < qs.len() ==> #[trigger] inside1[i] == point_inside(qs[i].0 as int,
                qs[i].1 as int, es),
        forall|i: int|
            0 <= i < qs.len() ==> #[trigger] inside2[i] == point_inside(qs2[i].0 as int,
                qs2[i].1 as int, es),
        forall|i: int|
            0 <= i < qs.len() ==> #[trigger] dist1[i] == efold(qs[i].0 as int, qs[i].1 as int, es,
                Option::None),
        forall|i: int|
            0 <= i < qs.len() ==> #[trigger] dist2[i] == efold(qs2[i].0 as int, qs2[i].1 as int,
                es, Option::None),
        forall|i: int|
            0 <= i < qs.len() ==> #[trigger] vert1[i] == vfold(qs[i].0 as int, qs[i].1 as int,
                pts, Option::None),
        forall|i: int|
            0 <= i < qs.len() ==> #[trigger] vert2[i] == vfold(qs2[i].0 as int, qs2[i].1 as int,
                pts, Option::None),
    ensures
        forall|i: int| 0 <= i < qs.len() ==> #[trigger] inside2[i] == inside1[perm[i]],
        forall|i: int| 0 <= i < qs.len() ==> #[trigger] dist2[i] == dist1[perm[i]],
        forall|i: int| 0 <= i < qs.len() ==> #[trigger] vert2[i] == vert1[perm[i]],
{
}

} // verus!
