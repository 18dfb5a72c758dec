//! The polygon types and the spatial index: points, edges, nodes, and the
//! bottom-up construction of the node hierarchy.

use vstd::prelude::*;
use crate::{coord_ok, COORD_LIMIT};

verus! {

/// A polygon point.
///
/// `x` and `y` are grid coordinates; `h` is added to the distance to this
/// point in nearest-vertex queries, enabling custom distance fields; `index`
/// records the point's position in the original polygon ordering and is
/// reported by nearest-vertex queries.
#[derive(Debug, Clone, Copy, PartialEq, Eq, Structural)]
pub struct Point {
    pub x: i64,
    pub y: i64,
    pub h: i64,
    pub index: usize,
}

impl Point {
    /// A point with no height offset and index 0.
    pub fn new(x: i64, y: i64) -> (p: Point)
        ensures
            p == (Point { x, y, h: 0, index: 0 }),
    {
        Point { x, y, h: 0, index: 0 }
    }
}

/// An edge connects two points, directed in the polygon's winding order.
#[derive(Debug, Clone, Copy, PartialEq, Eq, Structural)]
pub struct Edge {
    pub p1: Point,
    pub p2: Point,
}

/// A node of the spatial index: an axis-aligned bounding box which owns
/// either child nodes (internal node) or edges (leaf node), together with
/// the minimum height offset over its whole subtree.
#[derive(Debug)]
pub struct Node {
    pub xmin: i64,
    pub xmax: i64,
    pub ymin: i64,
    pub ymax: i64,
    pub hmin: i64,
    pub children_nodes: Vec<Node>,
    pub edges: Vec<Edge>,
}

/// A search tree; construction reduces it to exactly one root node.
pub type Tree = Vec<Node>;

/// Construction failure.
#[derive(Debug, Clone, Copy, PartialEq, Eq, Structural)]
pub enum BuildError {
    /// The input polygons contain no edges at all, so no index can be built.
    EmptyIndex,
}

/// A point's coordinates and height offset are all within `COORD_LIMIT`.
pub open spec fn pt_ok(p: Point) -> bool {
    coord_ok(p.x as int, p.y as int) && -(COORD_LIMIT as int) <= p.h as int <= COORD_LIMIT as int
}

/// A point lies inside the given box bounds.
pub open spec fn pt_in_box(p: Point, xmin: int, xmax: int, ymin: int, ymax: int) -> bool {
    xmin <= p.x as int <= xmax && ymin <= p.y as int <= ymax
}

/// All edges held in a node's subtree, in left-to-right order.
pub open spec fn node_edges(n: Node) -> Seq<Edge>
    decreases n,
{
    if n.children_nodes@.len() == 0 {
        n.edges@
    } else {
        forest_edges(n.children_nodes@)
    }
}

/// All edges held in a sequence of subtrees, concatenated in order.
pub open spec fn forest_edges(ns: Seq<Node>) -> Seq<Edge>
    decreases ns,
{
    if ns.len() == 0 {
        Seq::empty()
    } else {
        node_edges(ns[0]) + forest_edges(ns.drop_first())
    }
}

/// The vertex candidates a leaf's edge run contributes to nearest-vertex
/// queries: the first endpoint of every edge, then the final edge's second
/// endpoint (interior shared vertices are each exactly one edge's `p1`).
pub open spec fn leaf_points(es: Seq<Edge>) -> Seq<Point> {
    if es.len() == 0 {
        Seq::empty()
    } else {
        es.map_values(|e: Edge| e.p1) + seq![es.last().p2]
    }
}

/// All vertex candidates of a node's subtree, in traversal order.
pub open spec fn node_points(n: Node) -> Seq<Point>
    decreases n,
{
    if n.children_nodes@.len() == 0 {
        leaf_points(n.edges@)
    } else {
        forest_points(n.children_nodes@)
    }
}

/// All vertex candidates of a sequence of subtrees, concatenated in order.
pub open spec fn forest_points(ns: Seq<Node>) -> Seq<Point>
    decreases ns,
{
    if ns.len() == 0 {
        Seq::empty()
    } else {
        node_points(ns[0]) + forest_points(ns.drop_first())
    }
}

/// Well-formedness of a node: its box and `hmin` are within coordinate
/// bounds; a leaf holds at least one edge and no children, with every edge
/// endpoint inside the box, within bounds, and with height at least `hmin`;
/// an internal node holds at least one child and no edges, with every child
/// well-formed, its box inside this box, and its `hmin` at least this `hmin`.
pub open spec fn wf_node(n: Node) -> bool
    decreases n,
{
    &&& -(COORD_LIMIT as int) <= n.xmin as int <= n.xmax as int <= COORD_LIMIT as int
    &&& -(COORD_LIMIT as int) <= n.ymin as int <= n.ymax as int <= COORD_LIMIT as int
    &&& -(COORD_LIMIT as int) <= n.hmin as int <= COORD_LIMIT as int
    &&& if n.children_nodes@.len() == 0 {
        &&& n.edges@.len() >= 1
        &&& forall|i: int|
            0 <= i < n.edges@.len() ==> {
                &&& pt_ok(#[trigger] n.edges@[i].p1)
                &&& pt_ok(n.edges@[i].p2)
                &&& pt_in_box(n.edges@[i].p1, n.xmin as int, n.xmax as int, n.ymin as int, n.ymax as int)
                &&& pt_in_box(n.edges@[i].p2, n.xmin as int, n.xmax as int, n.ymin as int, n.ymax as int)
                &&& n.hmin as int <= n.edges@[i].p1.h as int
                &&& n.hmin as int <= n.edges@[i].p2.h as int
            }
    } else {
        &&& n.edges@.len() == 0
        &&& n.children_nodes@.len() >= 1
        &&& forall|i: int|
            0 <= i < n.children_nodes@.len() ==> {
                &&& wf_node(#[trigger] n.children_nodes@[i])
                &&& n.xmin as int <= n.children_nodes@[i].xmin as int
                &&& n.children_nodes@[i].xmax as int <= n.xmax as int
                &&& n.ymin as int <= n.children_nodes@[i].ymin as int
                &&& n.children_nodes@[i].ymax as int <= n.ymax as int
                &&& n.hmin as int <= n.children_nodes@[i].hmin as int
            }
    }
}


/// The smaller of two integers.
pub open spec fn int_min(a: int, b: int) -> int {
    if a <= b {
        a
    } else {
        b
    }
}

/// The larger of two integers.
pub open spec fn int_max(a: int, b: int) -> int {
    if a >= b {
        a
    } else {
        b
    }
}

/// The exact box and minimum height of a leaf's edge run, folded over both
/// endpoints of every edge from the empty sentinels, as
/// `(xmin, xmax, ymin, ymax, hmin)`.
pub open spec fn leaf_bounds(es: Seq<Edge>) -> (int, int, int, int, int)
    decreases es.len(),
{
    if es.len() == 0 {
        (i64::MAX as int, i64::MIN as int, i64::MAX as int, i64::MIN as int, i64::MAX as int)
    } else {
        let b = leaf_bounds(es.drop_last());
        let e = es.last();
        (
            int_min(int_min(b.0, e.p1.x as int), e.p2.x as int),
            int_max(int_max(b.1, e.p1.x as int), e.p2.x as int),
            int_min(int_min(b.2, e.p1.y as int), e.p2.y as int),
            int_max(int_max(b.3, e.p1.y as int), e.p2.y as int),
            int_min(int_min(b.4, e.p1.h as int), e.p2.h as int),
        )
    }
}

/// The exact union of a node run's boxes and the minimum of their `hmin`,
/// folded from the empty sentinels, as `(xmin, xmax, ymin, ymax, hmin)`.
pub open spec fn forest_bounds(ns: Seq<Node>) -> (int, int, int, int, int)
    decreases ns.len(),
{
    if ns.len() == 0 {
        (i64::MAX as int, i64::MIN as int, i64::MAX as int, i64::MIN as int, i64::MAX as int)
    } else {
        let b = forest_bounds(ns.drop_last());
        let c = ns.last();
        (
            int_min(b.0, c.xmin as int),
            int_max(b.1, c.xmax as int),
            int_min(b.2, c.ymin as int),
            int_max(b.3, c.ymax as int),
            int_min(b.4, c.hmin as int),
        )
    }
}

/// The box and `hmin` fields of a node, as one tuple.
pub open spec fn node_box(n: Node) -> (int, int, int, int, int) {
    (n.xmin as int, n.xmax as int, n.ymin as int, n.ymax as int, n.hmin as int)
}

/// The shape the builder gives its trees, beyond well-formedness: a leaf
/// holds at most `eg` edges and its box and `hmin` are exactly the fold of
/// its edges' endpoints; an internal node holds at most `ng` children, each
/// shaped the same way, and its box is exactly the union of its children's
/// boxes with its `hmin` exactly their minimum.
pub open spec fn shaped_node(n: Node, eg: int, ng: int) -> bool
    decreases n,
{
    if n.children_nodes@.len() == 0 {
        &&& n.edges@.len() <= eg
        &&& node_box(n) == leaf_bounds(n.edges@)
    } else {
        &&& n.children_nodes@.len() <= ng
        &&& node_box(n) == forest_bounds(n.children_nodes@)
        &&& forall|i: int|
            0 <= i < n.children_nodes@.len() ==> shaped_node(#[trigger] n.children_nodes@[i], eg, ng)
    }
}

/// Every edge in a well-formed subtree has both endpoints within the
/// subtree's box and within coordinate bounds.
pub proof fn lemma_wf_edges(n: Node)
    requires
        wf_node(n),
    ensures
        forall|i: int|
            0 <= i < node_edges(n).len() ==> {
                &&& pt_ok(#[trigger] node_edges(n)[i].p1)
                &&& pt_ok(node_edges(n)[i].p2)
                &&& pt_in_box(node_edges(n)[i].p1, n.xmin as int, n.xmax as int, n.ymin as int, n.ymax as int)
                &&& pt_in_box(node_edges(n)[i].p2, n.xmin as int, n.xmax as int, n.ymin as int, n.ymax as int)
            },
    decreases n,
{
    if n.children_nodes@.len() == 0 {
    } else {
        lemma_wf_forest_edges(n.children_nodes@, n.xmin as int, n.xmax as int, n.ymin as int, n.ymax as int, n.hmin as int);
        assert(node_edges(n) == forest_edges(n.children_nodes@));
        assert forall|i: int| 0 <= i < node_edges(n).len() implies {
            &&& pt_ok(#[trigger] node_edges(n)[i].p1)
            &&& pt_ok(node_edges(n)[i].p2)
            &&& pt_in_box(node_edges(n)[i].p1, n.xmin as int, n.xmax as int, n.ymin as int, n.ymax as int)
            &&& pt_in_box(node_edges(n)[i].p2, n.xmin as int, n.xmax as int, n.ymin as int, n.ymax as int)
        } by {
            assert(pt_ok(forest_edges(n.children_nodes@)[i].p1));
        }
    }
}

/// Helper for `lemma_wf_edges` over a sequence of well-formed subtrees whose
/// boxes all lie inside the given bounds.
pub proof fn lemma_wf_forest_edges(ns: Seq<Node>, xmin: int, xmax: int, ymin: int, ymax: int, hmin: int)
    requires
        forall|k: int|
            0 <= k < ns.len() ==> {
                &&& wf_node(#[trigger] ns[k])
                &&& xmin <= ns[k].xmin as int
                &&& ns[k].xmax as int <= xmax
                &&& ymin <= ns[k].ymin as int
                &&& ns[k].ymax as int <= ymax
                &&& hmin <= ns[k].hmin as int
            },
    ensures
        forall|i: int|
            0 <= i < forest_edges(ns).len() ==> {
                &&& pt_ok(#[trigger] forest_edges(ns)[i].p1)
                &&& pt_ok(forest_edges(ns)[i].p2)
                &&& pt_in_box(forest_edges(ns)[i].p1, xmin, xmax, ymin, ymax)
                &&& pt_in_box(forest_edges(ns)[i].p2, xmin, xmax, ymin, ymax)
            },
    decreases ns,
{
    if ns.len() == 0 {
    } else {
        let head = ns[0];
        lemma_wf_edges(head);
        assert forall|k: int| 0 <= k < ns.drop_first().len() implies {
            &&& wf_node(#[trigger] ns.drop_first()[k])
            &&& xmin <= ns.drop_first()[k].xmin as int
            &&& ns.drop_first()[k].xmax as int <= xmax
            &&& ymin <= ns.drop_first()[k].ymin as int
            &&& ns.drop_first()[k].ymax as int <= ymax
            &&& hmin <= ns.drop_first()[k].hmin as int
        } by {
            assert(ns.drop_first()[k] == ns[k + 1]);
            assert(wf_node(ns[k + 1]));
        }
        lemma_wf_forest_edges(ns.drop_first(), xmin, xmax, ymin, ymax, hmin);
        assert forall|i: int| 0 <= i < forest_edges(ns).len() implies {
            &&& pt_ok(#[trigger] forest_edges(ns)[i].p1)
            &&& pt_ok(forest_edges(ns)[i].p2)
            &&& pt_in_box(forest_edges(ns)[i].p1, xmin, xmax, ymin, ymax)
            &&& pt_in_box(forest_edges(ns)[i].p2, xmin, xmax, ymin, ymax)
        } by {
            if i < node_edges(head).len() {
                assert(forest_edges(ns)[i] == node_edges(head)[i]);
                assert(pt_ok(node_edges(head)[i].p1));
            } else {
                assert(forest_edges(ns)[i] == forest_edges(ns.drop_first())[i - node_edges(head).len()]);
                assert(pt_ok(forest_edges(ns.drop_first())[i - node_edges(head).len()].p1));
            }
        }
    }
}

/// Every vertex candidate in a well-formed subtree lies within the subtree's
/// box, within bounds, and has height at least the subtree's `hmin`.
pub proof fn lemma_wf_points(n: Node)
    requires
        wf_node(n),
    ensures
        forall|i: int|
            0 <= i < node_points(n).len() ==> {
                &&& pt_ok(#[trigger] node_points(n)[i])
                &&& pt_in_box(node_points(n)[i], n.xmin as int, n.xmax as int, n.ymin as int, n.ymax as int)
                &&& n.hmin as int <= node_points(n)[i].h as int
            },
    decreases n,
{
    if n.children_nodes@.len() == 0 {
        let es = n.edges@;
        assert forall|i: int| 0 <= i < node_points(n).len() implies {
            &&& pt_ok(#[trigger] node_points(n)[i])
            &&& pt_in_box(node_points(n)[i], n.xmin as int, n.xmax as int, n.ymin as int, n.ymax as int)
            &&& n.hmin as int <= node_points(n)[i].h as int
        } by {
            if i < es.len() {
                assert(node_points(n)[i] == es.map_values(|e: Edge| e.p1)[i]);
                assert(node_points(n)[i] == es[i].p1);
                assert(pt_ok(es[i].p1));
            } else {
                assert(i == es.len());
                assert(node_points(n)[i] == es.last().p2);
                assert(es.last() == es[es.len() - 1]);
                assert(pt_ok(es[es.len() - 1].p1));
            }
        }
    } else {
        lemma_wf_forest_points(n.children_nodes@, n.xmin as int, n.xmax as int, n.ymin as int, n.ymax as int, n.hmin as int);
        assert(node_points(n) == forest_points(n.children_nodes@));
        assert forall|i: int| 0 <= i < node_points(n).len() implies {
            &&& pt_ok(#[trigger] node_points(n)[i])
            &&& pt_in_box(node_points(n)[i], n.xmin as int, n.xmax as int, n.ymin as int, n.ymax as int)
            &&& n.hmin as int <= node_points(n)[i].h as int
        } by {
            assert(pt_ok(forest_points(n.children_nodes@)[i]));
        }
    }
}

/// Helper for `lemma_wf_points` over a sequence of well-formed subtrees.
pub proof fn lemma_wf_forest_points(ns: Seq<Node>, xmin: int, xmax: int, ymin: int, ymax: int, hmin: int)
    requires
        forall|k: int|
            0 <= k < ns.len() ==> {
                &&& wf_node(#[trigger] ns[k])
                &&& xmin <= ns[k].xmin as int
                &&& ns[k].xmax as int <= xmax
                &&& ymin <= ns[k].ymin as int
                &&& ns[k].ymax as int <= ymax
                &&& hmin <= ns[k].hmin as int
            },
    ensures
        forall|i: int|
            0 <= i < forest_points(ns).len() ==> {
                &&& pt_ok(#[trigger] forest_points(ns)[i])
                &&& pt_in_box(forest_points(ns)[i], xmin, xmax, ymin, ymax)
                &&& hmin <= forest_points(ns)[i].h as int
            },
    decreases ns,
{
    if ns.len() == 0 {
    } else {
        let head = ns[0];
        lemma_wf_points(head);
        assert forall|k: int| 0 <= k < ns.drop_first().len() implies {
            &&& wf_node(#[trigger] ns.drop_first()[k])
            &&& xmin <= ns.drop_first()[k].xmin as int
            &&& ns.drop_first()[k].xmax as int <= xmax
            &&& ymin <= ns.drop_first()[k].ymin as int
            &&& ns.drop_first()[k].ymax as int <= ymax
            &&& hmin <= ns.drop_first()[k].hmin as int
        } by {
            assert(ns.drop_first()[k] == ns[k + 1]);
            assert(wf_node(ns[k + 1]));
        }
        lemma_wf_forest_points(ns.drop_first(), xmin, xmax, ymin, ymax, hmin);
        assert forall|i: int| 0 <= i < forest_points(ns).len() implies {
            &&& pt_ok(#[trigger] forest_points(ns)[i])
            &&& pt_in_box(forest_points(ns)[i], xmin, xmax, ymin, ymax)
            &&& hmin <= forest_points(ns)[i].h as int
        } by {
            if i < node_points(head).len() {
                assert(forest_points(ns)[i] == node_points(head)[i]);
                assert(pt_ok(node_points(head)[i]));
            } else {
                assert(forest_points(ns)[i] == forest_points(ns.drop_first())[i - node_points(head).len()]);
                assert(pt_ok(forest_points(ns.drop_first())[i - node_points(head).len()]));
            }
        }
    }
}


/// The point a polygon tuple `(x, y, h)` denotes, carrying its position in
/// the original ordering.
pub open spec fn mk_point(t: (i64, i64, i64), idx: int) -> Point {
    Point { x: t.0, y: t.1, h: t.2, index: idx as usize }
}

/// A polygon tuple within coordinate bounds.
pub open spec fn tup_ok(t: (i64, i64, i64)) -> bool {
    coord_ok(t.0 as int, t.1 as int) && -(COORD_LIMIT as int) <= t.2 as int <= COORD_LIMIT as int
}

/// The boundary edges of one polygon ring: consecutive points are paired in
/// order, and one closing edge joins the last point back to the first, so
/// the ring is closed whether or not the input repeats its first point.
pub open spec fn ring_edges(pts: Seq<(i64, i64, i64)>, off: int) -> Seq<Edge> {
    Seq::new(
        pts.len(),
        |i: int|
            if i < pts.len() - 1 {
                Edge { p1: mk_point(pts[i], off + i), p2: mk_point(pts[i + 1], off + i + 1) }
            } else {
                Edge { p1: mk_point(pts[pts.len() - 1], off + pts.len() - 1), p2: mk_point(pts[0], off) }
            },
    )
}

/// The edges of a sequence of polygons, each ring's vertex indices offset
/// by the number of points before it.
pub open spec fn polys_edges_from(ps: Seq<Seq<(i64, i64, i64)>>, off: int) -> Seq<Edge>
    decreases ps,
{
    if ps.len() == 0 {
        Seq::empty()
    } else {
        ring_edges(ps[0], off) + polys_edges_from(ps.drop_first(), off + ps[0].len())
    }
}

/// The edges of a sequence of polygons, indices counted from zero.
pub open spec fn polys_edges(ps: Seq<Seq<(i64, i64, i64)>>) -> Seq<Edge> {
    polys_edges_from(ps, 0)
}

/// The vertex candidates contributed by grouping an edge run into leaves of
/// at most `g` edges each, in order.
pub open spec fn chunk_points(es: Seq<Edge>, g: int) -> Seq<Point>
    decreases es.len(),
{
    if es.len() == 0 || g < 1 {
        Seq::empty()
    } else if es.len() <= g {
        leaf_points(es)
    } else {
        leaf_points(es.take(g)) + chunk_points(es.skip(g), g)
    }
}

/// The vertex candidates of a sequence of polygons whose edge runs are
/// grouped into leaves of at most `g` edges.
pub open spec fn polys_chunks_from(ps: Seq<Seq<(i64, i64, i64)>>, g: int, off: int) -> Seq<Point>
    decreases ps,
{
    if ps.len() == 0 {
        Seq::empty()
    } else {
        chunk_points(ring_edges(ps[0], off), g) + polys_chunks_from(ps.drop_first(), g, off + ps[0].len())
    }
}

/// The vertex candidates of a sequence of polygons, indices from zero.
pub open spec fn polys_chunks(ps: Seq<Seq<(i64, i64, i64)>>, g: int) -> Seq<Point> {
    polys_chunks_from(ps, g, 0)
}

/// The total number of points over all polygons.
pub open spec fn sum_lens(ps: Seq<Seq<(i64, i64, i64)>>) -> int
    decreases ps,
{
    if ps.len() == 0 {
        0
    } else {
        ps[0].len() + sum_lens(ps.drop_first())
    }
}

/// Every coordinate of every polygon is within bounds.
pub open spec fn polys_ok(ps: Seq<Seq<(i64, i64, i64)>>) -> bool {
    forall|k: int, i: int|
        0 <= k < ps.len() && 0 <= i < ps[k].len() ==> tup_ok(#[trigger] ps[k][i])
}

/// A valid search tree: exactly one root, well-formed, holding at least one
/// and at most `usize::MAX` edges.
pub open spec fn tree_ok(t: Seq<Node>) -> bool {
    &&& t.len() == 1
    &&& wf_node(t[0])
    &&& 1 <= node_edges(t[0]).len() <= usize::MAX as int
}

/// Every edge sequence a polygon sequence yields has one edge per point.
pub proof fn lemma_polys_edges_len(ps: Seq<Seq<(i64, i64, i64)>>, off: int)
    ensures
        polys_edges_from(ps, off).len() == sum_lens(ps),
    decreases ps,
{
    if ps.len() == 0 {
    } else {
        lemma_polys_edges_len(ps.drop_first(), off + ps[0].len());
    }
}

/// Partial point counts never exceed the total.
pub proof fn lemma_sum_lens_bounds(ps: Seq<Seq<(i64, i64, i64)>>, k: int)
    requires
        0 <= k < ps.len(),
    ensures
        sum_lens(ps.skip(k)) == ps[k].len() + sum_lens(ps.skip(k + 1)),
        sum_lens(ps.skip(k)) >= 0,
        sum_lens(ps.skip(k + 1)) >= 0,
    decreases ps.len() - k,
{
    assert(ps.skip(k)[0] == ps[k]);
    assert(ps.skip(k).drop_first() =~= ps.skip(k + 1));
    lemma_sum_lens_nonneg(ps.skip(k + 1));
    lemma_sum_lens_nonneg(ps.skip(k));
}

/// Point counts are never negative.
pub proof fn lemma_sum_lens_nonneg(ps: Seq<Seq<(i64, i64, i64)>>)
    ensures
        sum_lens(ps) >= 0,
    decreases ps,
{
    if ps.len() == 0 {
    } else {
        lemma_sum_lens_nonneg(ps.drop_first());
    }
}

/// A non-empty forest of well-formed subtrees holds at least one edge.
pub proof fn lemma_wf_edges_nonempty(n: Node)
    requires
        wf_node(n),
    ensures
        node_edges(n).len() >= 1,
    decreases n,
{
    if n.children_nodes@.len() == 0 {
    } else {
        assert(wf_node(n.children_nodes@[0]));
        lemma_wf_edges_nonempty(n.children_nodes@[0]);
        assert(forest_edges(n.children_nodes@).len() >= node_edges(n.children_nodes@[0]).len());
    }
}

/// A one-subtree forest holds exactly that subtree's edges and candidates.
pub proof fn lemma_forest_one(x: Node)
    ensures
        forest_edges(seq![x]) == node_edges(x),
        forest_points(seq![x]) == node_points(x),
{
    assert(seq![x].drop_first() =~= Seq::<Node>::empty());
    assert(forest_edges(Seq::<Node>::empty()) == Seq::<Edge>::empty());
    assert(forest_points(Seq::<Node>::empty()) == Seq::<Point>::empty());
    assert(seq![x][0] == x);
    assert(forest_edges(seq![x]) =~= node_edges(x));
    assert(forest_points(seq![x]) =~= node_points(x));
}

/// Appending a subtree appends its edges.
pub proof fn lemma_forest_edges_push(ns: Seq<Node>, x: Node)
    ensures
        forest_edges(ns.push(x)) == forest_edges(ns) + node_edges(x),
{
    assert(ns.push(x) =~= ns + seq![x]);
    lemma_forest_concat(ns, seq![x]);
    lemma_forest_one(x);
}

/// Appending a subtree appends its vertex candidates.
pub proof fn lemma_forest_points_push(ns: Seq<Node>, x: Node)
    ensures
        forest_points(ns.push(x)) == forest_points(ns) + node_points(x),
{
    assert(ns.push(x) =~= ns + seq![x]);
    lemma_forest_concat(ns, seq![x]);
    lemma_forest_one(x);
}

/// Concatenating two forests concatenates their edges and candidates.
pub proof fn lemma_forest_concat(a: Seq<Node>, b: Seq<Node>)
    ensures
        forest_edges(a + b) == forest_edges(a) + forest_edges(b),
        forest_points(a + b) == forest_points(a) + forest_points(b),
    decreases a,
{
    if a.len() == 0 {
        assert(a + b =~= b);
        assert(forest_edges(a) + forest_edges(b) =~= forest_edges(b));
        assert(forest_points(a) + forest_points(b) =~= forest_points(b));
    } else {
        assert((a + b).drop_first() =~= a.drop_first() + b);
        lemma_forest_concat(a.drop_first(), b);
        assert(forest_edges(a + b) =~= forest_edges(a) + forest_edges(b));
        assert(forest_points(a + b) =~= forest_points(a) + forest_points(b));
    }
}

impl Node {
    /// Widen this node's box (and lower its `hmin`) just enough to cover the
    /// given bounds.
    pub fn adjust_bounds(&mut self, xmin: i64, xmax: i64, ymin: i64, ymax: i64, hmin: i64)
        ensures
            final(self).xmin == if xmin < old(self).xmin { xmin } else { old(self).xmin },
            final(self).xmax == if xmax > old(self).xmax { xmax } else { old(self).xmax },
            final(self).ymin == if ymin < old(self).ymin { ymin } else { old(self).ymin },
            final(self).ymax == if ymax > old(self).ymax { ymax } else { old(self).ymax },
            final(self).hmin == if hmin < old(self).hmin { hmin } else { old(self).hmin },
            final(self).children_nodes == old(self).children_nodes,
            final(self).edges == old(self).edges,
    {
        if xmin < self.xmin {
            self.xmin = xmin;
        }
        if xmax > self.xmax {
            self.xmax = xmax;
        }
        if ymin < self.ymin {
            self.ymin = ymin;
        }
        if ymax > self.ymax {
            self.ymax = ymax;
        }
        if hmin < self.hmin {
            self.hmin = hmin;
        }
    }

    /// Append a child node.
    pub fn insert_node(&mut self, new_node: Node)
        ensures
            final(self).children_nodes@ == old(self).children_nodes@.push(new_node),
            final(self).edges == old(self).edges,
            final(self).xmin == old(self).xmin,
            final(self).xmax == old(self).xmax,
            final(self).ymin == old(self).ymin,
            final(self).ymax == old(self).ymax,
            final(self).hmin == old(self).hmin,
    {
        self.children_nodes.push(new_node);
    }

    /// Append a leaf edge.
    pub fn insert_edge(&mut self, new_edge: Edge)
        ensures
            final(self).edges@ == old(self).edges@.push(new_edge),
            final(self).children_nodes == old(self).children_nodes,
            final(self).xmin == old(self).xmin,
            final(self).xmax == old(self).xmax,
            final(self).ymin == old(self).ymin,
            final(self).ymax == old(self).ymax,
            final(self).hmin == old(self).hmin,
    {
        self.edges.push(new_edge);
    }
}


/// Turns one polygon's point list into its boundary edges: consecutive
/// points are paired, and the closing edge joins the last point back to the
/// first, so the ring need not repeat its first point to be closed.
pub(crate) fn points_to_edges(points: &Vec<(i64, i64, i64)>, offset: usize) -> (r: Vec<Edge>)
    requires
        points@.len() >= 1,
        offset + points@.len() <= usize::MAX,
        forall|i: int| 0 <= i < points@.len() ==> tup_ok(#[trigger] points@[i]),
    ensures
        r@ == ring_edges(points@, offset as int),
{
    let n = points.len();
    let mut edges: Vec<Edge> = Vec::new();
    let mut i: usize = 0;
    while i < n - 1
        invariant
            0 <= i <= n - 1,
            n == points@.len(),
            edges@ == ring_edges(points@, offset as int).take(i as int),
        decreases n - 1 - i,
    {
        let t1 = points[i];
        let t2 = points[i + 1];
        let e = Edge {
            p1: Point { x: t1.0, y: t1.1, h: t1.2, index: offset + i },
            p2: Point { x: t2.0, y: t2.1, h: t2.2, index: offset + i + 1 },
        };
        proof {
            assert(ring_edges(points@, offset as int)[i as int] == e);
            assert(ring_edges(points@, offset as int).take(i + 1) =~= ring_edges(points@,
                offset as int).take(i as int).push(e));
        }
        edges.push(e);
        i += 1;
    }
    let tl = points[n - 1];
    let t0 = points[0];
    let closing = Edge {
        p1: Point { x: tl.0, y: tl.1, h: tl.2, index: offset + (n - 1) },
        p2: Point { x: t0.0, y: t0.1, h: t0.2, index: offset },
    };
    proof {
        assert(ring_edges(points@, offset as int)[n - 1] == closing);
        assert(ring_edges(points@, offset as int).take(n - 1).push(closing) =~= ring_edges(
            points@, offset as int));
    }
    edges.push(closing);
    edges
}

/// Groups an edge run into leaf nodes of at most `num_edges_children` edges
/// each, folding every endpoint into each leaf's box and `hmin`.
#[verifier::rlimit(50)]
pub(crate) fn group_edges(num_edges_children: usize, input: Vec<Edge>) -> (r: Vec<Node>)
    requires
        num_edges_children >= 1,
        forall|i: int| 0 <= i < input@.len() ==> pt_ok(#[trigger] input@[i].p1) && pt_ok(input@[i].p2),
    ensures
        forall|k: int| 0 <= k < r@.len() ==> wf_node(#[trigger] r@[k]),
        forest_edges(r@) == input@,
        forest_points(r@) == chunk_points(input@, num_edges_children as int),
        input@.len() >= 1 ==> r@.len() >= 1,
        r@.len() == (input@.len() + num_edges_children - 1) / (num_edges_children as int),
        forall|k: int| 0 <= k < r@.len() ==> (#[trigger] r@[k]).children_nodes@.len() == 0,
        forall|k: int|
            0 <= k < r@.len() ==> (#[trigger] r@[k]).edges@ == input@.subrange(
                k * num_edges_children,
                int_min((k + 1) * num_edges_children, input@.len() as int),
            ),
        forall|k: int| 0 <= k < r@.len() ==> node_box(#[trigger] r@[k]) == leaf_bounds(r@[k].edges@),
        forall|k: int|
            0 <= k < r@.len() ==> (#[trigger] r@[k]).edges@.len() <= num_edges_children,
{
    let g = num_edges_children;
    let n = input.len();
    let mut parents: Vec<Node> = Vec::new();
    let mut i: usize = 0;
    proof {
        assert(input@.skip(0) =~= input@);
        assert(forest_edges(parents@) + input@.take(0) =~= Seq::<Edge>::empty());
        assert(forest_points(parents@) + chunk_points(input@.skip(0), g as int) =~= chunk_points(
            input@, g as int));
    }
    while i < n
        invariant
            0 <= i <= n,
            n == input@.len(),
            g == num_edges_children,
            g >= 1,
            forall|k: int| 0 <= k < parents@.len() ==> wf_node(#[trigger] parents@[k]),
            forest_edges(parents@) == input@.take(i as int),
            forest_points(parents@) + chunk_points(input@.skip(i as int), g as int)
                == chunk_points(input@, g as int),
            i < n ==> parents@.len() * g == i,
            i >= 1 ==> parents@.len() >= 1,
            i <= parents@.len() * g,
            parents@.len() >= 1 ==> i as int >= (parents@.len() - 1) * g + 1,
            forall|k: int| 0 <= k < parents@.len() ==> (#[trigger] parents@[k]).children_nodes@.len() == 0,
            forall|k: int|
                0 <= k < parents@.len() ==> (#[trigger] parents@[k]).edges@ == input@.subrange(
                    k * g,
                    int_min((k + 1) * g, n as int),
                ),
            forall|k: int|
                0 <= k < parents@.len() ==> node_box(#[trigger] parents@[k]) == leaf_bounds(
                    parents@[k].edges@),
            forall|k: int| 0 <= k < parents@.len() ==> (#[trigger] parents@[k]).edges@.len() <= g,
        decreases n - i,
    {
        let ghost start = i as int;
        let mut new_parent = Node {
            xmin: i64::MAX,
            xmax: i64::MIN,
            ymin: i64::MAX,
            ymax: i64::MIN,
            hmin: i64::MAX,
            edges: Vec::new(),
            children_nodes: Vec::new(),
        };
        let mut l: usize = 0;
        while l < g && i < n
            invariant
                start <= i <= n,
                n == input@.len(),
                g >= 1,
                0 <= l <= g,
                i - start == l,
                i <= start + g,
                new_parent.children_nodes@.len() == 0,
                new_parent.edges@ == input@.subrange(start, i as int),
                i == start ==> {
                    &&& new_parent.xmin == i64::MAX
                    &&& new_parent.xmax == i64::MIN
                    &&& new_parent.ymin == i64::MAX
                    &&& new_parent.ymax == i64::MIN
                    &&& new_parent.hmin == i64::MAX
                },
                i > start ==> {
                    &&& -(COORD_LIMIT as int) <= new_parent.xmin as int <= new_parent.xmax as int
                        <= COORD_LIMIT as int
                    &&& -(COORD_LIMIT as int) <= new_parent.ymin as int <= new_parent.ymax as int
                        <= COORD_LIMIT as int
                    &&& -(COORD_LIMIT as int) <= new_parent.hmin as int <= COORD_LIMIT as int
                },
                node_box(new_parent) == leaf_bounds(input@.subrange(start, i as int)),
                forall|j: int|
                    0 <= j < new_parent.edges@.len() ==> {
                        &&& pt_ok(#[trigger] new_parent.edges@[j].p1)
                        &&& pt_ok(new_parent.edges@[j].p2)
                        &&& pt_in_box(new_parent.edges@[j].p1, new_parent.xmin as int,
                            new_parent.xmax as int, new_parent.ymin as int, new_parent.ymax as int)
                        &&& pt_in_box(new_parent.edges@[j].p2, new_parent.xmin as int,
                            new_parent.xmax as int, new_parent.ymin as int, new_parent.ymax as int)
                        &&& new_parent.hmin as int <= new_parent.edges@[j].p1.h as int
                        &&& new_parent.hmin as int <= new_parent.edges@[j].p2.h as int
                    },
            decreases g - l,
        {
            let e = input[i];
            proof {
                assert(pt_ok(input@[i as int].p1));
            }
            let ghost np0 = new_parent;
            new_parent.adjust_bounds(e.p1.x, e.p1.x, e.p1.y, e.p1.y, e.p1.h);
            new_parent.adjust_bounds(e.p2.x, e.p2.x, e.p2.y, e.p2.y, e.p2.h);
            new_parent.insert_edge(e);
            proof {
                assert(new_parent.edges@ =~= input@.subrange(start, i + 1));
                assert(input@.subrange(start, i + 1).drop_last() =~= input@.subrange(start,
                    i as int));
                assert(input@.subrange(start, i + 1).last() == input@[i as int]);
                assert(node_box(new_parent) == leaf_bounds(input@.subrange(start, i + 1)));
                assert forall|j: int| 0 <= j < new_parent.edges@.len() implies {
                    &&& pt_ok(#[trigger] new_parent.edges@[j].p1)
                    &&& pt_ok(new_parent.edges@[j].p2)
                    &&& pt_in_box(new_parent.edges@[j].p1, new_parent.xmin as int,
                        new_parent.xmax as int, new_parent.ymin as int, new_parent.ymax as int)
                    &&& pt_in_box(new_parent.edges@[j].p2, new_parent.xmin as int,
                        new_parent.xmax as int, new_parent.ymin as int, new_parent.ymax as int)
                    &&& new_parent.hmin as int <= new_parent.edges@[j].p1.h as int
                    &&& new_parent.hmin as int <= new_parent.edges@[j].p2.h as int
                } by {
                    if j < np0.edges@.len() {
                        assert(new_parent.edges@[j] == np0.edges@[j]);
                        assert(pt_ok(np0.edges@[j].p1));
                    } else {
                        assert(new_parent.edges@[j] == e);
                    }
                }
            }
            i += 1;
            l += 1;
        }
        proof {
            assert(i > start);
            assert(wf_node(new_parent));
            // The new leaf takes exactly the next chunk.
            let rest = input@.skip(start);
            assert(rest.len() > 0);
            assert(new_parent.edges@ =~= if rest.len() <= g as int {
                rest
            } else {
                rest.take(g as int)
            });
            if rest.len() <= g as int {
                assert(i == n);
                assert(chunk_points(rest, g as int) == leaf_points(new_parent.edges@));
                assert(input@.skip(i as int) =~= Seq::<Edge>::empty());
            } else {
                assert(i as int == start + g);
                assert(rest.skip(g as int) =~= input@.skip(i as int));
                assert(chunk_points(rest, g as int) == leaf_points(new_parent.edges@)
                    + chunk_points(input@.skip(i as int), g as int));
            }
            assert(node_points(new_parent) == leaf_points(new_parent.edges@));
            assert(node_edges(new_parent) == new_parent.edges@);
            lemma_forest_edges_push(parents@, new_parent);
            lemma_forest_points_push(parents@, new_parent);
            assert(input@.take(start) + input@.subrange(start, i as int) =~= input@.take(i as int));
        }
        let ghost k0 = parents@.len() as int;
        parents.push(new_parent);
        proof {
            assert(forest_edges(parents@) =~= input@.take(i as int));
            assert(forest_points(parents@) + chunk_points(input@.skip(i as int), g as int)
                =~= chunk_points(input@, g as int));
            assert(i < n ==> parents@.len() * g == i) by (nonlinear_arith)
                requires
                    i < n ==> i as int == start + g,
                    i < n ==> (parents@.len() - 1) * g == start,
            ;
            // The new leaf holds exactly the next chunk, and the running
            // position stays within the leaf count times the group size.
            assert(k0 * g == start);
            assert((k0 + 1) * g == start + g) by (nonlinear_arith)
                requires k0 * g == start;
            assert(i as int <= start + g);
            assert(i <= parents@.len() * g);
            assert(i as int >= (parents@.len() - 1) * g + 1);
            assert(new_parent.edges@ == input@.subrange(k0 * g, int_min((k0 + 1) * g, n as int)));
            assert forall|k: int|
                0 <= k < parents@.len() implies (#[trigger] parents@[k]).edges@ == input@.subrange(
                    k * g,
                    int_min((k + 1) * g, n as int),
                ) by {
                if k < k0 {
                    assert(parents@[k] == parents@.subrange(0, k0)[k]);
                } else {
                    assert(parents@[k] == new_parent);
                }
            }
        }
    }
    proof {
        assert(input@.take(n as int) =~= input@);
        assert(input@.skip(n as int) =~= Seq::<Edge>::empty());
        assert(forest_points(parents@) + chunk_points(Seq::<Edge>::empty(), g as int)
            =~= forest_points(parents@));
        // The leaf count is exactly the ceiling of edges over group size.
        let k = parents@.len() as int;
        let gi = g as int;
        let ni = n as int;
        if ni == 0 {
            vstd::arithmetic::div_mod::lemma_fundamental_div_mod_converse_div(ni + gi - 1, gi, 0,
                gi - 1);
        } else {
            assert(k >= 1);
            // The final leaf was non-empty, so n exceeds (k-1)*g; and the
            // running position never passed k*g.
            assert(ni >= (k - 1) * gi + 1);
            assert(ni <= k * gi);
            assert((k - 1) * gi == k * gi - gi) by (nonlinear_arith);
            assert(ni + gi - 1 == k * gi + (ni + gi - 1 - k * gi));
            assert(0 <= ni + gi - 1 - k * gi < gi);
            vstd::arithmetic::div_mod::lemma_fundamental_div_mod_converse_div(ni + gi - 1, gi, k,
                ni + gi - 1 - k * gi);
        }
    }
    parents
}


/// Groups a level of nodes into parents of at most `num_nodes_children`
/// children each, folding every child's box and `hmin` into its parent.
#[verifier::rlimit(50)]
pub(crate) fn group_nodes(num_nodes_children: usize, input: Vec<Node>) -> (r: Vec<Node>)
    requires
        num_nodes_children >= 1,
        forall|k: int| 0 <= k < input@.len() ==> wf_node(#[trigger] input@[k]),
    ensures
        forall|k: int| 0 <= k < r@.len() ==> wf_node(#[trigger] r@[k]),
        forest_edges(r@) == forest_edges(input@),
        forest_points(r@) == forest_points(input@),
        input@.len() >= 1 ==> r@.len() >= 1,
        input@.len() >= 2 && num_nodes_children >= 2 ==> r@.len() < input@.len(),
        r@.len() == (input@.len() + num_nodes_children - 1) / (num_nodes_children as int),
        forall|k: int| 0 <= k < r@.len() ==> (#[trigger] r@[k]).edges@.len() == 0,
        forall|k: int|
            0 <= k < r@.len() ==> (#[trigger] r@[k]).children_nodes@ == input@.subrange(
                k * num_nodes_children,
                int_min((k + 1) * num_nodes_children, input@.len() as int),
            ),
        forall|k: int|
            0 <= k < r@.len() ==> node_box(#[trigger] r@[k]) == forest_bounds(
                r@[k].children_nodes@),
        forall|k: int|
            0 <= k < r@.len() ==> (#[trigger] r@[k]).children_nodes@.len() <= num_nodes_children,
        forall|k: int| 0 <= k < r@.len() ==> 0 <= #[trigger] (k * num_nodes_children) < input@.len(),
{
    let g = num_nodes_children;
    let ghost orig = input@;
    let mut input = input;
    let mut parents: Vec<Node> = Vec::new();
    let ghost mut j: int = 0;
    proof {
        assert(orig.skip(0) =~= orig);
        assert(orig.take(0) =~= Seq::<Node>::empty());
    }
    while input.len() > 0
        invariant
            0 <= j <= orig.len(),
            input@ == orig.skip(j),
            g == num_nodes_children,
            g >= 1,
            forall|k: int| 0 <= k < orig.len() ==> wf_node(#[trigger] orig[k]),
            forall|k: int| 0 <= k < parents@.len() ==> wf_node(#[trigger] parents@[k]),
            forest_edges(parents@) == forest_edges(orig.take(j)),
            forest_points(parents@) == forest_points(orig.take(j)),
            j < orig.len() ==> j == parents@.len() * g,
            j >= 1 ==> j >= (parents@.len() - 1) * g + 1,
            j >= 1 ==> parents@.len() >= 1,
            j <= parents@.len() * g,
            forall|k: int| 0 <= k < parents@.len() ==> (#[trigger] parents@[k]).edges@.len() == 0,
            forall|k: int|
                0 <= k < parents@.len() ==> (#[trigger] parents@[k]).children_nodes@
                    == orig.subrange(k * g, int_min((k + 1) * g, orig.len() as int)),
            forall|k: int|
                0 <= k < parents@.len() ==> node_box(#[trigger] parents@[k]) == forest_bounds(
                    parents@[k].children_nodes@),
            forall|k: int|
                0 <= k < parents@.len() ==> (#[trigger] parents@[k]).children_nodes@.len() <= g,
            forall|k: int| 0 <= k < parents@.len() ==> 0 <= #[trigger] (k * g) < orig.len(),
        decreases input@.len(),
    {
        let ghost start = j;
        let mut new_parent = Node {
            xmin: i64::MAX,
            xmax: i64::MIN,
            ymin: i64::MAX,
            ymax: i64::MIN,
            hmin: i64::MAX,
            edges: Vec::new(),
            children_nodes: Vec::new(),
        };
        let mut l: usize = 0;
        while l < g && input.len() > 0
            invariant
                start <= j <= orig.len(),
                j - start == l,
                0 <= l <= g,
                g >= 1,
                input@ == orig.skip(j),
                forall|k: int| 0 <= k < orig.len() ==> wf_node(#[trigger] orig[k]),
                new_parent.edges@.len() == 0,
                new_parent.children_nodes@ == orig.subrange(start, j),
                l == 0 ==> {
                    &&& new_parent.xmin == i64::MAX
                    &&& new_parent.xmax == i64::MIN
                    &&& new_parent.ymin == i64::MAX
                    &&& new_parent.ymax == i64::MIN
                    &&& new_parent.hmin == i64::MAX
                },
                l > 0 ==> {
                    &&& -(COORD_LIMIT as int) <= new_parent.xmin as int <= new_parent.xmax as int
                        <= COORD_LIMIT as int
                    &&& -(COORD_LIMIT as int) <= new_parent.ymin as int <= new_parent.ymax as int
                        <= COORD_LIMIT as int
                    &&& -(COORD_LIMIT as int) <= new_parent.hmin as int <= COORD_LIMIT as int
                },
                node_box(new_parent) == forest_bounds(orig.subrange(start, j)),
                forall|c: int|
                    0 <= c < new_parent.children_nodes@.len() ==> {
                        &&& wf_node(#[trigger] new_parent.children_nodes@[c])
                        &&& new_parent.xmin as int <= new_parent.children_nodes@[c].xmin as int
                        &&& new_parent.children_nodes@[c].xmax as int <= new_parent.xmax as int
                        &&& new_parent.ymin as int <= new_parent.children_nodes@[c].ymin as int
                        &&& new_parent.children_nodes@[c].ymax as int <= new_parent.ymax as int
                        &&& new_parent.hmin as int <= new_parent.children_nodes@[c].hmin as int
                    },
            decreases g - l,
        {
            proof {
                assert(input@[0] == orig.skip(j)[0]);
                assert(orig.skip(j)[0] == orig[j]);
                assert(wf_node(orig[j]));
            }
            let nd = input.remove(0);
            let ghost np0 = new_parent;
            new_parent.adjust_bounds(nd.xmin, nd.xmax, nd.ymin, nd.ymax, nd.hmin);
            new_parent.insert_node(nd);
            proof {
                assert(input@ =~= orig.skip(j + 1));
                assert(new_parent.children_nodes@ =~= orig.subrange(start, j + 1));
                assert(orig.subrange(start, j + 1).drop_last() =~= orig.subrange(start, j));
                assert(orig.subrange(start, j + 1).last() == orig[j]);
                assert(node_box(new_parent) == forest_bounds(orig.subrange(start, j + 1)));
                assert forall|c: int| 0 <= c < new_parent.children_nodes@.len() implies {
                    &&& wf_node(#[trigger] new_parent.children_nodes@[c])
                    &&& new_parent.xmin as int <= new_parent.children_nodes@[c].xmin as int
                    &&& new_parent.children_nodes@[c].xmax as int <= new_parent.xmax as int
                    &&& new_parent.ymin as int <= new_parent.children_nodes@[c].ymin as int
                    &&& new_parent.children_nodes@[c].ymax as int <= new_parent.ymax as int
                    &&& new_parent.hmin as int <= new_parent.children_nodes@[c].hmin as int
                } by {
                    if c < np0.children_nodes@.len() {
                        assert(new_parent.children_nodes@[c] == np0.children_nodes@[c]);
                        assert(wf_node(np0.children_nodes@[c]));
                    } else {
                        assert(new_parent.children_nodes@[c] == orig[j]);
                    }
                }
                j = j + 1;
            }
            l += 1;
        }
        proof {
            assert(j > start);
            assert(wf_node(new_parent));
            assert(node_edges(new_parent) == forest_edges(new_parent.children_nodes@));
            assert(node_points(new_parent) == forest_points(new_parent.children_nodes@));
            lemma_forest_edges_push(parents@, new_parent);
            lemma_forest_points_push(parents@, new_parent);
            lemma_forest_concat(orig.take(start), orig.subrange(start, j));
            assert(orig.take(start) + orig.subrange(start, j) =~= orig.take(j));
        }
        let ghost k0 = parents@.len() as int;
        parents.push(new_parent);
        proof {
            assert(forest_edges(parents@) == forest_edges(orig.take(j)));
            assert(forest_points(parents@) == forest_points(orig.take(j)));
            assert(j < orig.len() ==> j == parents@.len() * g) by (nonlinear_arith)
                requires
                    j < orig.len() ==> j == start + g,
                    start == (parents@.len() - 1) * g,
            ;
            assert(j >= (parents@.len() - 1) * g + 1) by (nonlinear_arith)
                requires
                    j >= start + 1,
                    start == (parents@.len() - 1) * g,
            ;
            assert(k0 * g == start);
            assert((k0 + 1) * g == start + g) by (nonlinear_arith)
                requires k0 * g == start;
            assert(j <= start + g);
            assert(j <= parents@.len() * g);
            assert(0 <= k0 * g < orig.len());
            assert(new_parent.children_nodes@ == orig.subrange(k0 * g, int_min((k0 + 1) * g,
                orig.len() as int)));
            assert forall|k: int|
                0 <= k < parents@.len() implies (#[trigger] parents@[k]).children_nodes@
                    == orig.subrange(k * g, int_min((k + 1) * g, orig.len() as int)) by {
                if k < k0 {
                    assert(parents@[k] == parents@.subrange(0, k0)[k]);
                } else {
                    assert(parents@[k] == new_parent);
                }
            }
        }
    }
    proof {
        assert(j == orig.len());
        assert(orig.take(j) =~= orig);
        if orig.len() >= 2 && g >= 2 {
            assert(parents@.len() < orig.len()) by (nonlinear_arith)
                requires
                    orig.len() >= (parents@.len() - 1) * g + 1,
                    g >= 2,
                    orig.len() >= 2,
                    parents@.len() >= 1,
            ;
        }
        // The parent count is exactly the ceiling of nodes over group size.
        let k = parents@.len() as int;
        let gi = g as int;
        let ni = orig.len() as int;
        if ni == 0 {
            vstd::arithmetic::div_mod::lemma_fundamental_div_mod_converse_div(ni + gi - 1, gi, 0,
                gi - 1);
        } else {
            assert(k >= 1);
            assert(ni >= (k - 1) * gi + 1);
            assert(ni <= k * gi);
            assert((k - 1) * gi == k * gi - gi) by (nonlinear_arith);
            assert(ni + gi - 1 == k * gi + (ni + gi - 1 - k * gi));
            assert(0 <= ni + gi - 1 - k * gi < gi);
            vstd::arithmetic::div_mod::lemma_fundamental_div_mod_converse_div(ni + gi - 1, gi, k,
                ni + gi - 1 - k * gi);
        }
    }
    parents
}


/// Maps plain `(x, y)` rings to `(x, y, h)` rings with a zero height offset.
pub open spec fn pad_polys(ps: Seq<Seq<(i64, i64)>>) -> Seq<Seq<(i64, i64, i64)>> {
    ps.map_values(|poly: Seq<(i64, i64)>| poly.map_values(|t: (i64, i64)| (t.0, t.1, 0i64)))
}

/// Adds a zero height offset to every point of every polygon.
pub(crate) fn pad(input: Vec<Vec<(i64, i64)>>) -> (r: Vec<Vec<(i64, i64, i64)>>)
    ensures
        r@.map_values(|v: Vec<(i64, i64, i64)>| v@) == pad_polys(input@.map_values(
            |v: Vec<(i64, i64)>| v@)),
{
    let mut output: Vec<Vec<(i64, i64, i64)>> = Vec::new();
    let ghost full = input@.map_values(|v: Vec<(i64, i64)>| v@);
    let mut k: usize = 0;
    while k < input.len()
        invariant
            0 <= k <= input@.len(),
            full == input@.map_values(|v: Vec<(i64, i64)>| v@),
            output@.map_values(|v: Vec<(i64, i64, i64)>| v@) == pad_polys(full).take(k as int),
        decreases input@.len() - k,
    {
        let poly = &input[k];
        let mut out_poly: Vec<(i64, i64, i64)> = Vec::new();
        let mut i: usize = 0;
        while i < poly.len()
            invariant
                0 <= i <= poly@.len(),
                poly@ == full[k as int].map_values(|t: (i64, i64)| (t.0, t.1, 0i64)).map_values(
                    |t: (i64, i64, i64)| (t.0, t.1)),
                out_poly@ == full[k as int].map_values(|t: (i64, i64)| (t.0, t.1, 0i64)).take(
                    i as int),
                poly@.len() == full[k as int].len(),
            decreases poly@.len() - i,
        {
            let t = poly[i];
            proof {
                assert(full[k as int].map_values(|t: (i64, i64)| (t.0, t.1, 0i64))[i as int]
                    == (t.0, t.1, 0i64));
                assert(full[k as int].map_values(|t: (i64, i64)| (t.0, t.1, 0i64)).take(i + 1)
                    =~= out_poly@.push((t.0, t.1, 0i64)));
            }
            out_poly.push((t.0, t.1, 0));
            i += 1;
        }
        proof {
            assert(out_poly@ =~= full[k as int].map_values(|t: (i64, i64)| (t.0, t.1, 0i64)));
            assert(pad_polys(full)[k as int] == out_poly@);
        }
        output.push(out_poly);
        proof {
            assert(output@.map_values(|v: Vec<(i64, i64, i64)>| v@) =~= pad_polys(full).take(
                k + 1));
        }
        k += 1;
    }
    proof {
        assert(pad_polys(full).take(input@.len() as int) =~= pad_polys(full));
    }
    output
}

/// Builds the search tree from polygons given with explicit per-vertex
/// height offsets.
///
/// Each polygon ring contributes one edge per point, the closing edge
/// included; empty polygons contribute nothing. Edges are grouped into
/// leaves of at most `num_edges_children` edges, then levels of parents of
/// at most `num_nodes_children` children, until a single root remains. The
/// grouping follows input order only, so construction is deterministic, and
/// neither grouping parameter can change which edges or vertex candidates
/// the tree holds.
pub fn build_search_tree_h(
    polygons: Vec<Vec<(i64, i64, i64)>>,
    num_edges_children: usize,
    num_nodes_children: usize,
) -> (r: Result<Tree, BuildError>)
    requires
        num_edges_children >= 1,
        num_nodes_children >= 2,
        polys_ok(polygons@.map_values(|v: Vec<(i64, i64, i64)>| v@)),
        sum_lens(polygons@.map_values(|v: Vec<(i64, i64, i64)>| v@)) <= usize::MAX,
    ensures
        match r {
            Result::Ok(t) => {
                let ps = polygons@.map_values(|v: Vec<(i64, i64, i64)>| v@);
                &&& tree_ok(t@)
                &&& node_edges(t@[0]) == polys_edges(ps)
                &&& node_points(t@[0]) == polys_chunks(ps, num_edges_children as int)
                &&& shaped_node(t@[0], num_edges_children as int, num_nodes_children as int)
            },
            Result::Err(e) => {
                &&& e == BuildError::EmptyIndex
                &&& polys_edges(polygons@.map_values(|v: Vec<(i64, i64, i64)>| v@)).len() == 0
            },
        },
        polys_edges(polygons@.map_values(|v: Vec<(i64, i64, i64)>| v@)).len() == 0 <==> r is Err,
{
    let ghost ps = polygons@.map_values(|v: Vec<(i64, i64, i64)>| v@);
    let g = num_edges_children;
    let mut nodes: Vec<Node> = Vec::new();
    let mut offset: usize = 0;
    let mut k: usize = 0;
    proof {
        assert(ps.skip(0) =~= ps);
        lemma_polys_suffix_len(ps, 0);
    }
    while k < polygons.len()
        invariant
            0 <= k <= polygons@.len(),
            ps == polygons@.map_values(|v: Vec<(i64, i64, i64)>| v@),
            ps.len() == polygons@.len(),
            g == num_edges_children,
            g >= 1,
            offset == sum_lens(ps.take(k as int)),
            offset + sum_lens(ps.skip(k as int)) == sum_lens(ps),
            forall|n: int| 0 <= n < nodes@.len() ==> wf_node(#[trigger] nodes@[n]),
            forall|n: int|
                0 <= n < nodes@.len() ==> shaped_node(#[trigger] nodes@[n],
                    num_edges_children as int, num_nodes_children as int),
            forest_edges(nodes@) + polys_edges_from(ps.skip(k as int), offset as int)
                == polys_edges(ps),
            forest_points(nodes@) + polys_chunks_from(ps.skip(k as int), g as int, offset as int)
                == polys_chunks(ps, g as int),
            forest_edges(nodes@).len() == sum_lens(ps.take(k as int)),
            nodes@.len() >= 1 ==> forest_edges(nodes@).len() >= 1,
        decreases polygons@.len() - k,
    {
        proof {
            assert(ps[k as int] == polygons@[k as int]@);
            lemma_sum_lens_bounds(ps, k as int);
            lemma_sum_lens_split(ps, k as int);
            assert(ps.skip(k as int)[0] == ps[k as int]);
            assert(ps.skip(k as int).drop_first() =~= ps.skip(k + 1));
            assert forall|i: int| 0 <= i < ps[k as int].len() implies tup_ok(
                #[trigger] ps[k as int][i],
            ) by {
                assert(tup_ok(ps[k as int][i]));
            }
        }
        let poly = &polygons[k];
        if poly.len() > 0 {
            let edges = points_to_edges(poly, offset);
            let mut leaves = group_edges(g, edges);
            proof {
                lemma_forest_concat(nodes@, leaves@);
                assert forall|n: int| 0 <= n < leaves@.len() implies shaped_node(
                    #[trigger] leaves@[n],
                    num_edges_children as int,
                    num_nodes_children as int,
                ) by {
                    assert(leaves@[n].children_nodes@.len() == 0);
                    assert(leaves@[n].edges@.len() <= num_edges_children);
                    assert(node_box(leaves@[n]) == leaf_bounds(leaves@[n].edges@));
                }
            }
            nodes.append(&mut leaves);
            proof {
                lemma_polys_edges_len(ps.skip(k + 1), offset + ps[k as int].len());
            }
        } else {
            proof {
                assert(ring_edges(ps[k as int], offset as int) =~= Seq::<Edge>::empty());
                assert(chunk_points(ring_edges(ps[k as int], offset as int), g as int)
                    =~= Seq::<Point>::empty());
                assert(forest_edges(nodes@) + polys_edges_from(ps.skip(k + 1), offset as int
                    + ps[k as int].len()) =~= polys_edges(ps));
                assert(forest_points(nodes@) + polys_chunks_from(ps.skip(k + 1), g as int,
                    offset as int + ps[k as int].len()) =~= polys_chunks(ps, g as int));
            }
        }
        offset = offset + poly.len();
        proof {
            assert(ps.take(k + 1) =~= ps.take(k as int).push(ps[k as int]));
            lemma_sum_lens_push(ps.take(k as int), ps[k as int]);
        }
        k += 1;
    }
    proof {
        assert(ps.skip(ps.len() as int) =~= Seq::<Seq<(i64, i64, i64)>>::empty());
        assert(ps.take(ps.len() as int) =~= ps);
        assert(forest_edges(nodes@) + Seq::<Edge>::empty() =~= forest_edges(nodes@));
        assert(forest_points(nodes@) + Seq::<Point>::empty() =~= forest_points(nodes@));
        lemma_polys_edges_len(ps, 0);
    }
    if nodes.len() == 0 {
        return Result::Err(BuildError::EmptyIndex);
    }
    while nodes.len() > 1
        invariant
            nodes@.len() >= 1,
            forall|n: int| 0 <= n < nodes@.len() ==> wf_node(#[trigger] nodes@[n]),
            forall|n: int|
                0 <= n < nodes@.len() ==> shaped_node(#[trigger] nodes@[n],
                    num_edges_children as int, num_nodes_children as int),
            forest_edges(nodes@) == polys_edges(ps),
            forest_points(nodes@) == polys_chunks(ps, num_edges_children as int),
            num_nodes_children >= 2,
        decreases nodes@.len(),
    {
        let ghost level = nodes@;
        nodes = group_nodes(num_nodes_children, nodes);
        proof {
            assert forall|n: int| 0 <= n < nodes@.len() implies shaped_node(
                #[trigger] nodes@[n],
                num_edges_children as int,
                num_nodes_children as int,
            ) by {
                let parent = nodes@[n];
                assert(parent.children_nodes@ == level.subrange(
                    n * num_nodes_children,
                    int_min((n + 1) * num_nodes_children, level.len() as int),
                ));
                assert(0 <= n * num_nodes_children < level.len());
                assert((n + 1) * num_nodes_children == n * num_nodes_children
                    + num_nodes_children) by (nonlinear_arith);
                assert(wf_node(parent));
                assert(parent.children_nodes@.len() >= 1);
                assert forall|c: int| 0 <= c < parent.children_nodes@.len() implies shaped_node(
                    #[trigger] parent.children_nodes@[c],
                    num_edges_children as int,
                    num_nodes_children as int,
                ) by {
                    assert(parent.children_nodes@[c] == level[n * num_nodes_children + c]);
                    assert(shaped_node(level[n * num_nodes_children + c],
                        num_edges_children as int, num_nodes_children as int));
                }
                assert(node_box(parent) == forest_bounds(parent.children_nodes@));
                assert(parent.children_nodes@.len() <= num_nodes_children);
            }
        }
    }
    proof {
        assert(nodes@.len() == 1);
        lemma_forest_one(nodes@[0]);
        assert(nodes@ =~= seq![nodes@[0]]);
        assert(wf_node(nodes@[0]));
        lemma_wf_edges_nonempty(nodes@[0]);
    }
    Result::Ok(nodes)
}

/// The point count of a polygon sequence splits at any position.
pub proof fn lemma_sum_lens_split(ps: Seq<Seq<(i64, i64, i64)>>, k: int)
    requires
        0 <= k <= ps.len(),
    ensures
        sum_lens(ps) == sum_lens(ps.take(k)) + sum_lens(ps.skip(k)),
    decreases k,
{
    if k == 0 {
        assert(ps.take(0) =~= Seq::<Seq<(i64, i64, i64)>>::empty());
        assert(ps.skip(0) =~= ps);
    } else {
        lemma_sum_lens_split(ps, k - 1);
        assert(ps.take(k) =~= ps.take(k - 1).push(ps[k - 1]));
        lemma_sum_lens_push(ps.take(k - 1), ps[k - 1]);
        lemma_sum_lens_bounds(ps, k - 1);
    }
}

/// Appending one polygon adds its point count.
pub proof fn lemma_sum_lens_push(ps: Seq<Seq<(i64, i64, i64)>>, x: Seq<(i64, i64, i64)>)
    ensures
        sum_lens(ps.push(x)) == sum_lens(ps) + x.len(),
    decreases ps,
{
    if ps.len() == 0 {
        assert(ps.push(x).drop_first() =~= Seq::<Seq<(i64, i64, i64)>>::empty());
        assert(ps.push(x)[0] == x);
        assert(sum_lens(Seq::<Seq<(i64, i64, i64)>>::empty()) == 0);
    } else {
        assert(ps.push(x).drop_first() =~= ps.drop_first().push(x));
        assert(ps.push(x)[0] == ps[0]);
        lemma_sum_lens_push(ps.drop_first(), x);
    }
}

/// Suffix point counts are non-negative.
pub proof fn lemma_polys_suffix_len(ps: Seq<Seq<(i64, i64, i64)>>, k: int)
    requires
        0 <= k <= ps.len(),
    ensures
        sum_lens(ps.skip(k)) >= 0,
        sum_lens(ps.take(k)) >= 0,
{
    lemma_sum_lens_nonneg(ps.skip(k));
    lemma_sum_lens_nonneg(ps.take(k));
}

/// Builds the search tree from plain `(x, y)` polygons, every height
/// offset zero.
pub fn build_search_tree(
    polygons: Vec<Vec<(i64, i64)>>,
    num_edges_children: usize,
    num_nodes_children: usize,
) -> (r: Result<Tree, BuildError>)
    requires
        num_edges_children >= 1,
        num_nodes_children >= 2,
        polys_ok(pad_polys(polygons@.map_values(|v: Vec<(i64, i64)>| v@))),
        sum_lens(pad_polys(polygons@.map_values(|v: Vec<(i64, i64)>| v@))) <= usize::MAX,
    ensures
        match r {
            Result::Ok(t) => {
                let ps = pad_polys(polygons@.map_values(|v: Vec<(i64, i64)>| v@));
                &&& tree_ok(t@)
                &&& node_edges(t@[0]) == polys_edges(ps)
                &&& node_points(t@[0]) == polys_chunks(ps, num_edges_children as int)
                &&& shaped_node(t@[0], num_edges_children as int, num_nodes_children as int)
            },
            Result::Err(e) => {
                &&& e == BuildError::EmptyIndex
                &&& polys_edges(pad_polys(polygons@.map_values(|v: Vec<(i64, i64)>| v@))).len()
                    == 0
            },
        },
{
    let polygons_h = pad(polygons);
    build_search_tree_h(polygons_h, num_edges_children, num_nodes_children)
}


/// The open chain of edges `create_polygon` produces: consecutive offset
/// points paired in order, without a closing edge.
pub open spec fn chain_edges(
    xs: Seq<i64>, x_offset: int, ys: Seq<i64>, y_offset: int, start_index: int, n: int,
) -> Seq<Edge> {
    Seq::new(
        (n - 1) as nat,
        |i: int|
            Edge {
                p1: Point {
                    x: (xs[i] + x_offset) as i64,
                    y: (ys[i] + y_offset) as i64,
                    h: 0,
                    index: (start_index + i) as usize,
                },
                p2: Point {
                    x: (xs[i + 1] + x_offset) as i64,
                    y: (ys[i + 1] + y_offset) as i64,
                    h: 0,
                    index: (start_index + i + 1) as usize,
                },
            },
    )
}

/// Builds one polygon's edge chain from separate coordinate arrays shifted
/// by a common offset, numbering the vertices from `start_index`. The chain
/// is open: no closing edge is added.
pub fn create_polygon(
    num_points: usize,
    xs: &Vec<i64>,
    x_offset: i64,
    ys: &Vec<i64>,
    y_offset: i64,
    start_index: usize,
) -> (r: Vec<Edge>)
    requires
        1 <= num_points <= xs@.len(),
        num_points <= ys@.len(),
        start_index + num_points <= usize::MAX,
        forall|i: int|
            0 <= i < num_points ==> coord_ok(
                #[trigger] xs@[i] as int + x_offset as int,
                ys@[i] as int + y_offset as int,
            ),
    ensures
        r@ == chain_edges(xs@, x_offset as int, ys@, y_offset as int, start_index as int,
            num_points as int),
{
    let ghost ce = chain_edges(xs@, x_offset as int, ys@, y_offset as int, start_index as int,
        num_points as int);
    let mut edges: Vec<Edge> = Vec::new();
    let mut i: usize = 0;
    while i < num_points - 1
        invariant
            0 <= i <= num_points - 1,
            num_points <= xs@.len(),
            num_points <= ys@.len(),
            start_index + num_points <= usize::MAX,
            forall|j: int|
                0 <= j < num_points ==> coord_ok(
                    #[trigger] xs@[j] as int + x_offset as int,
                    ys@[j] as int + y_offset as int,
                ),
            ce == chain_edges(xs@, x_offset as int, ys@, y_offset as int, start_index as int,
                num_points as int),
            edges@ == ce.take(i as int),
        decreases num_points - 1 - i,
    {
        proof {
            assert(coord_ok(xs@[i as int] as int + x_offset as int, ys@[i as int] as int
                + y_offset as int));
            assert(coord_ok(xs@[i + 1] as int + x_offset as int, ys@[i + 1] as int
                + y_offset as int));
        }
        let p1 = Point { x: xs[i] + x_offset, y: ys[i] + y_offset, h: 0, index: start_index + i };
        let p2 = Point {
            x: xs[i + 1] + x_offset,
            y: ys[i + 1] + y_offset,
            h: 0,
            index: start_index + i + 1,
        };
        let e = Edge { p1, p2 };
        proof {
            assert(ce[i as int] == e);
            assert(ce.take(i + 1) =~= ce.take(i as int).push(e));
        }
        edges.push(e);
        i += 1;
    }
    proof {
        assert(ce.take(num_points - 1) =~= ce);
    }
    edges
}

} // verus!
