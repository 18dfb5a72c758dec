//! Batch evaluation: each query applied independently to every reference
//! point of a collection against one read-only tree, in parallel, with the
//! results positionally aligned with the inputs.

use vstd::prelude::*;
use rayon::iter::IntoParallelRefIterator;
use rayon::iter::ParallelIterator;
use crate::coord_ok;
use crate::distance::{
    efold, nearest_edge_distance, nearest_vertex_distance, rat_ok, vc_ok, vfold, EdgeDist,
    VertexDist,
};
use crate::intersections::{point_inside, point_is_inside};
use crate::tree::{node_edges, node_points, tree_ok, Tree};

verus! {

/// Every reference point of a batch is within coordinate bounds.
pub open spec fn points_ok(ps: Seq<(i64, i64)>) -> bool {
    forall|i: int| 0 <= i < ps.len() ==> coord_ok((#[trigger] ps[i]).0 as int, ps[i].1 as int)
}

/// Relies on rayon: `par_iter` over a `Vec` is an indexed parallel
/// iterator, `map` keeps the indexing, and `collect` writes each mapped
/// value at its input's position, so the output holds, in input order, the
/// results of the verified single-point containment query.
#[verifier::external_body]
fn par_points_are_inside(tree: &Tree, points: &Vec<(i64, i64)>) -> (r: Vec<bool>)
    requires
        tree_ok(tree@),
        points_ok(points@),
    ensures
        r@.len() == points@.len(),
        forall|i: int|
            0 <= i < points@.len() ==> r@[i] == point_inside(
                (#[trigger] points@[i]).0 as int,
                points@[i].1 as int,
                node_edges(tree@[0]),
            ),
{
    points.par_iter().map(|q| point_is_inside(tree, *q)).collect()
}

/// Relies on rayon: indexed parallel map-collect preserving input order,
/// applied to the verified single-point nearest-edge query.
#[verifier::external_body]
fn par_distances_nearest_edges(tree: &Tree, points: &Vec<(i64, i64)>) -> (r: Vec<EdgeDist>)
    requires
        tree_ok(tree@),
        points_ok(points@),
    ensures
        r@.len() == points@.len(),
        forall|i: int|
            0 <= i < points@.len() ==> {
                &&& Option::Some(((#[trigger] r@[i]).num as int, r@[i].den as int)) == efold(
                    points@[i].0 as int,
                    points@[i].1 as int,
                    node_edges(tree@[0]),
                    Option::None,
                )
                &&& rat_ok(r@[i].num as int, r@[i].den as int)
            },
{
    points.par_iter().map(|q| nearest_edge_distance(tree, *q)).collect()
}

/// Relies on rayon: indexed parallel map-collect preserving input order,
/// applied to the verified single-point nearest-vertex query.
#[verifier::external_body]
fn par_distances_nearest_vertices(tree: &Tree, points: &Vec<(i64, i64)>) -> (r: Vec<VertexDist>)
    requires
        tree_ok(tree@),
        points_ok(points@),
    ensures
        r@.len() == points@.len(),
        forall|i: int|
            0 <= i < points@.len() ==> {
                &&& Option::Some(((#[trigger] r@[i]).sqd as int, r@[i].h as int, r@[i].index as int))
                    == vfold(
                    points@[i].0 as int,
                    points@[i].1 as int,
                    node_points(tree@[0]),
                    Option::None,
                )
                &&& vc_ok(r@[i].sqd as int, r@[i].h as int)
            },
{
    points.par_iter().map(|q| nearest_vertex_distance(tree, *q)).collect()
}

/// For each reference point, whether it lies inside any indexed polygon:
/// `r[i]` answers for `points[i]`.
pub fn points_are_inside(tree: &Tree, points: &Vec<(i64, i64)>) -> (r: Vec<bool>)
    requires
        tree_ok(tree@),
        points_ok(points@),
    ensures
        r@.len() == points@.len(),
        forall|i: int|
            0 <= i < points@.len() ==> r@[i] == point_inside(
                (#[trigger] points@[i]).0 as int,
                points@[i].1 as int,
                node_edges(tree@[0]),
            ),
{
    par_points_are_inside(tree, points)
}

/// For each reference point, the exact rational squared distance to the
/// nearest indexed edge: `r[i]` answers for `points[i]`.
pub fn distances_nearest_edges(tree: &Tree, points: &Vec<(i64, i64)>) -> (r: Vec<EdgeDist>)
    requires
        tree_ok(tree@),
        points_ok(points@),
    ensures
        r@.len() == points@.len(),
        forall|i: int|
            0 <= i < points@.len() ==> {
                &&& Option::Some(((#[trigger] r@[i]).num as int, r@[i].den as int)) == efold(
                    points@[i].0 as int,
                    points@[i].1 as int,
                    node_edges(tree@[0]),
                    Option::None,
                )
                &&& rat_ok(r@[i].num as int, r@[i].den as int)
            },
{
    par_distances_nearest_edges(tree, points)
}

/// For each reference point, the index of its nearest vertex under the
/// height-offset metric and the exact nearest-vertex value: both result
/// collections are positionally aligned with the inputs, and the indices
/// repeat those inside the values.
pub fn distances_nearest_vertices(tree: &Tree, points: &Vec<(i64, i64)>) -> (r: (Vec<usize>, Vec<VertexDist>))
    requires
        tree_ok(tree@),
        points_ok(points@),
    ensures
        r.0@.len() == points@.len(),
        r.1@.len() == points@.len(),
        forall|i: int|
            0 <= i < points@.len() ==> {
                &&& Option::Some(((#[trigger] r.1@[i]).sqd as int, r.1@[i].h as int,
                    r.1@[i].index as int)) == vfold(
                    points@[i].0 as int,
                    points@[i].1 as int,
                    node_points(tree@[0]),
                    Option::None,
                )
                &&& r.0@[i] == r.1@[i].index
                &&& vc_ok(r.1@[i].sqd as int, r.1@[i].h as int)
            },
{
    let tuples = par_distances_nearest_vertices(tree, points);
    let mut indices: Vec<usize> = Vec::new();
    let n = tuples.len();
    let mut i: usize = 0;
    while i < n
        invariant
            0 <= i <= n,
            n == tuples@.len(),
            indices@.len() == i,
            forall|j: int| 0 <= j < i ==> indices@[j] == (#[trigger] tuples@[j]).index,
        decreases n - i,
    {
        indices.push(tuples[i].index);
        i += 1;
    }
    (indices, tuples)
}

} // verus!
