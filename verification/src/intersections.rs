//! The containment query: counting how many boundary edges a rightward
//! horizontal ray from the reference point crosses; an odd count means the
//! point is inside.

use vstd::prelude::*;
use crate::coord_ok;
use crate::geometry::{crossed, crosses, lemma_crossed_in_box};
use crate::tree::{
    lemma_wf_edges, node_edges, forest_edges, pt_in_box, pt_ok, tree_ok, wf_node, Edge, Node,
    Tree,
};

verus! {

/// How many of the given edges the rightward ray from `(px, py)` crosses.
pub open spec fn crossings(px: int, py: int, es: Seq<Edge>) -> nat
    decreases es.len(),
{
    if es.len() == 0 {
        0
    } else {
        (if crossed(px, py, es[0]) {
            1nat
        } else {
            0nat
        }) + crossings(px, py, es.drop_first())
    }
}

/// A point is inside the boundary when the crossing count is odd.
pub open spec fn point_inside(px: int, py: int, es: Seq<Edge>) -> bool {
    crossings(px, py, es) % 2 == 1
}

/// Crossing counts add over concatenation.
pub proof fn lemma_crossings_concat(px: int, py: int, a: Seq<Edge>, b: Seq<Edge>)
    ensures
        crossings(px, py, a + b) == crossings(px, py, a) + crossings(px, py, b),
    decreases a.len(),
{
    if a.len() == 0 {
        assert(a + b =~= b);
    } else {
        assert((a + b).drop_first() =~= a.drop_first() + b);
        lemma_crossings_concat(px, py, a.drop_first(), b);
    }
}

/// The crossing count of a single edge.
pub proof fn lemma_crossings_one(px: int, py: int, e: Edge)
    ensures
        crossings(px, py, seq![e]) == if crossed(px, py, e) {
            1nat
        } else {
            0nat
        },
{
    assert(seq![e].drop_first() =~= Seq::<Edge>::empty());
    assert(crossings(px, py, Seq::<Edge>::empty()) == 0);
    assert(seq![e][0] == e);
}

/// No crossed edge, no crossing.
pub proof fn lemma_crossings_zero(px: int, py: int, es: Seq<Edge>)
    requires
        forall|i: int| 0 <= i < es.len() ==> !crossed(px, py, #[trigger] es[i]),
    ensures
        crossings(px, py, es) == 0,
    decreases es.len(),
{
    if es.len() == 0 {
    } else {
        assert(!crossed(px, py, es[0]));
        assert forall|i: int| 0 <= i < es.drop_first().len() implies !crossed(
            px, py,
            #[trigger] es.drop_first()[i],
        ) by {
            assert(es.drop_first()[i] == es[i + 1]);
        }
        lemma_crossings_zero(px, py, es.drop_first());
    }
}

/// The crossing count never exceeds the number of edges.
pub proof fn lemma_crossings_le_len(px: int, py: int, es: Seq<Edge>)
    ensures
        crossings(px, py, es) <= es.len(),
    decreases es.len(),
{
    if es.len() == 0 {
    } else {
        lemma_crossings_le_len(px, py, es.drop_first());
    }
}

/// Accumulates into `n` the number of edges in this subtree crossed by the
/// rightward ray from `p`, skipping a subtree whose box the ray cannot
/// reach: one whose right face is at or left of the point, or whose `y`
/// span cannot contain a half-open crossing.
pub fn num_intersections(node: &Node, n: u64, p: (i64, i64)) -> (r: u64)
    requires
        wf_node(*node),
        coord_ok(p.0 as int, p.1 as int),
        n as int + crossings(p.0 as int, p.1 as int, node_edges(*node)) <= u64::MAX as int,
    ensures
        r as int == n as int + crossings(p.0 as int, p.1 as int, node_edges(*node)),
    decreases *node,
{
    let ghost px = p.0 as int;
    let ghost py = p.1 as int;
    proof {
        lemma_wf_edges(*node);
    }
    if p.0 >= node.xmax || p.1 < node.ymin || p.1 >= node.ymax {
        proof {
            let es = node_edges(*node);
            assert forall|i: int| 0 <= i < es.len() implies !crossed(px, py, #[trigger] es[i]) by {
                assert(pt_ok(es[i].p1));
                if crossed(px, py, es[i]) {
                    lemma_crossed_in_box(
                        px, py, es[i],
                        node.xmin as int, node.xmax as int,
                        node.ymin as int, node.ymax as int,
                    );
                }
            }
            lemma_crossings_zero(px, py, es);
        }
        return n;
    }
    if node.children_nodes.len() > 0 {
        let num = node.children_nodes.len();
        let mut n_ = n;
        let mut i: usize = 0;
        proof {
            assert(node.children_nodes@.skip(0) =~= node.children_nodes@);
        }
        while i < num
            invariant
                0 <= i <= num,
                n_ as int + crossings(px, py, forest_edges(node.children_nodes@.skip(i as int)))
                    == n as int + crossings(px, py, node_edges(*node)),
                n_ as int <= n as int + crossings(px, py, node_edges(*node)),
            decreases num - i,
        {
            proof {
                assert(wf_node(node.children_nodes@[i as int]));
                let rest = node.children_nodes@.skip(i as int);
                assert(rest[0] == node.children_nodes@[i as int]);
                assert(rest.drop_first() =~= node.children_nodes@.skip(i + 1));
                lemma_crossings_concat(
                    px, py,
                    node_edges(node.children_nodes@[i as int]),
                    forest_edges(node.children_nodes@.skip(i + 1)),
                );
                assert(forest_edges(rest) == node_edges(node.children_nodes@[i as int])
                    + forest_edges(node.children_nodes@.skip(i + 1)));
            }
            n_ = num_intersections(&node.children_nodes[i], n_, p);
            i += 1;
        }
        proof {
            assert(node.children_nodes@.skip(num as int) =~= Seq::<Node>::empty());
        }
        n_
    } else {
        let num = node.edges.len();
        let mut n_ = n;
        let mut i: usize = 0;
        while i < num
            invariant
                0 <= i <= num,
                n_ as int == n as int + crossings(px, py, node.edges@.take(i as int)),
                n as int + crossings(px, py, node.edges@) <= u64::MAX as int,
            decreases num - i,
        {
            proof {
                assert(node.edges@.take(i + 1) =~= node.edges@.take(i as int).push(
                    node.edges@[i as int]));
                assert(node.edges@.take(i as int) + seq![node.edges@[i as int]] =~= node.edges@.take(
                    i + 1));
                lemma_crossings_concat(px, py, node.edges@.take(i as int), seq![
                    node.edges@[i as int]]);
                lemma_crossings_one(px, py, node.edges@[i as int]);
                // The whole leaf bounds the running count.
                assert(node.edges@.take(i + 1) + node.edges@.skip(i + 1) =~= node.edges@);
                lemma_crossings_concat(px, py, node.edges@.take(i + 1), node.edges@.skip(i + 1));
                assert(pt_ok(node.edges@[i as int].p1));
            }
            if crosses(p, &node.edges[i]) {
                n_ = n_ + 1;
            }
            i += 1;
        }
        proof {
            assert(node.edges@.take(num as int) =~= node.edges@);
        }
        n_
    }
}


/// Whether the reference point lies inside the indexed boundary: true when
/// the rightward ray from it crosses an odd number of edges.
pub fn point_is_inside(tree: &Tree, p: (i64, i64)) -> (r: bool)
    requires
        tree_ok(tree@),
        coord_ok(p.0 as int, p.1 as int),
    ensures
        r == point_inside(p.0 as int, p.1 as int, node_edges(tree@[0])),
{
    proof {
        lemma_crossings_le_len(p.0 as int, p.1 as int, node_edges(tree@[0]));
    }
    let n = num_intersections(&tree[0], 0, p);
    n % 2 == 1
}

} // verus!
