//! Scenario tests for the three queries against a small closed square, all
//! values exact. The square has corners at (-10, -10) and (10, 10), given as
//! a closed ring of five points; grid units are one tenth, so it stands for
//! the unit square with corners (-1, -1) and (1, 1).

use polygons::build_search_tree;

fn square() -> Vec<(i64, i64)> {
    vec![(-10, -10), (10, -10), (10, 10), (-10, 10), (-10, -10)]
}

#[test]
fn square_nearest_edge_distances() {
    let tree = build_search_tree(vec![square()], 4, 4).unwrap();
    let points = vec![(6, 6), (5, -5)];
    let d = polygons::distances_nearest_edges(&tree, &points);
    // (6, 6): distance 4 to the right edge, squared 16, first reached as
    // the rational 6400/400.
    assert_eq!(d[0].num, 6400);
    assert_eq!(d[0].den, 400);
    assert!((d[0].num as f64 / d[0].den as f64 - 16.0).abs() < 1e-12);
    // (5, -5): distance 5 to the bottom edge, squared 25.
    assert_eq!(d[1].num, 10000);
    assert_eq!(d[1].den, 400);
    assert!(((d[1].num as f64 / d[1].den as f64).sqrt() - 5.0).abs() < 1e-12);
}

#[test]
fn square_nearest_vertices() {
    let tree = build_search_tree(vec![square()], 4, 4).unwrap();
    let points = vec![(6, 6), (5, -5)];
    let (indices, vd) = polygons::distances_nearest_vertices(&tree, &points);
    // (6, 6): nearest corner is (10, 10), the third ring point, at
    // distance 4 * sqrt(2).
    assert_eq!(indices[0], 2);
    assert_eq!(vd[0].sqd, 32);
    assert_eq!(vd[0].h, 0);
    assert!(((vd[0].sqd as f64).sqrt() - 4.0 * 2f64.sqrt()).abs() < 1e-12);
    // (5, -5): nearest corner is (10, -10), the second ring point, at
    // distance 5 * sqrt(2).
    assert_eq!(indices[1], 1);
    assert_eq!(vd[1].sqd, 50);
    assert!(((vd[1].sqd as f64).sqrt() - 5.0 * 2f64.sqrt()).abs() < 1e-12);
}

#[test]
fn square_containment() {
    let tree = build_search_tree(vec![square()], 4, 4).unwrap();
    let points = vec![(5, -5), (6, 6), (20, 0), (-20, 0), (0, 20), (0, 0)];
    let inside = polygons::points_are_inside(&tree, &points);
    assert_eq!(inside, vec![true, true, false, false, false, true]);
}

#[test]
fn containment_ray_through_shared_vertex() {
    // A ray through a vertex shared by two edges must count exactly once
    // per boundary passage, never zero or two.
    let tree = build_search_tree(vec![square()], 4, 4).unwrap();
    // At the height of the bottom corners: the ray from (-30, -10) passes
    // exactly through both corners; the point is outside.
    // At the height of the top corners likewise.
    let points = vec![(-30, -10), (-30, 10), (30, -10), (30, 10)];
    let inside = polygons::points_are_inside(&tree, &points);
    assert_eq!(inside, vec![false, false, false, false]);
}

#[test]
fn containment_ray_through_triangle_corner() {
    // The ray from (-5, 0) passes through two corners of the triangle and
    // leaves the point outside; (2, 2) is inside.
    let triangle = vec![(0, 0), (10, 0), (0, 10), (0, 0)];
    let tree = build_search_tree(vec![triangle], 4, 4).unwrap();
    let points = vec![(-5, 0), (2, 2), (2, 9)];
    let inside = polygons::points_are_inside(&tree, &points);
    assert_eq!(inside, vec![false, true, false]);
}

#[test]
fn two_disjoint_islands() {
    // Two disjoint squares merge into one index representing their union.
    let a = vec![(-10, -10), (-2, -10), (-2, -2), (-10, -2), (-10, -10)];
    let b = vec![(2, 2), (10, 2), (10, 10), (2, 10), (2, 2)];
    let tree = build_search_tree(vec![a, b], 2, 2).unwrap();
    let points = vec![(-6, -6), (6, 6), (0, 0)];
    let inside = polygons::points_are_inside(&tree, &points);
    assert_eq!(inside, vec![true, true, false]);
    let d = polygons::distances_nearest_edges(&tree, &points);
    // (0, 0) is 2 away from both islands' nearest corners? No: nearest is
    // the corner (-2, -2) or (2, 2), both at squared distance 8.
    assert_eq!(d[2].num as f64 / d[2].den as f64, 8.0);
    let (indices, vd) = polygons::distances_nearest_vertices(&tree, &points);
    // The corner (-2, -2) of the first island comes first in input order.
    assert_eq!(vd[2].sqd, 8);
    assert_eq!(indices[2], 2);
}

#[test]
fn vertex_query_tracks_heights() {
    // Heights shift the vertex metric: the far corner with no offset beats
    // the near corner carrying a large one.
    let poly = vec![(0, 0, 100), (10, 0, 0), (10, 10, 0), (0, 10, 0), (0, 0, 100)];
    let tree = polygons::build_search_tree_h(vec![poly], 4, 4).unwrap();
    let points = vec![(1, 1)];
    let (indices, vd) = polygons::distances_nearest_vertices(&tree, &points);
    // Distance to (0,0) is sqrt(2) + 100; to (10, 0) it is sqrt(82).
    assert_eq!(indices[0], 1);
    assert_eq!(vd[0].sqd, 82);
    assert_eq!(vd[0].h, 0);
}
