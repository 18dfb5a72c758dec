//! Exercises the lower-level public functions directly: the crossing
//! predicate, the per-node traversals, and the single-point queries.

use polygons::{
    build_search_tree, crosses, distance_squared, get_distance_edge, get_distance_vertex,
    nearest_edge_distance, nearest_vertex_distance, num_intersections, point_is_inside, Edge,
    Point,
};

fn square() -> Vec<(i64, i64)> {
    vec![(-10, -10), (10, -10), (10, 10), (-10, 10), (-10, -10)]
}

fn edge(x1: i64, y1: i64, x2: i64, y2: i64) -> Edge {
    Edge { p1: Point::new(x1, y1), p2: Point::new(x2, y2) }
}

#[test]
fn distance_squared_is_exact() {
    assert_eq!(distance_squared(3, 4), 25);
    assert_eq!(distance_squared(-3, 4), 25);
    assert_eq!(distance_squared(0, 0), 0);
}

#[test]
fn crosses_half_open_rule() {
    // An upward edge owns its lower endpoint and excludes its upper one.
    let up = edge(5, 0, 5, 10);
    assert!(crosses((0, 0), &up));
    assert!(crosses((0, 9), &up));
    assert!(!crosses((0, 10), &up));
    // From the right of the edge, the rightward ray cannot cross it.
    assert!(!crosses((6, 5), &up));
    // A downward edge owns its lower endpoint the same way.
    let down = edge(5, 10, 5, 0);
    assert!(crosses((0, 0), &down));
    assert!(!crosses((0, 10), &down));
    // Horizontal and degenerate edges are never crossed.
    assert!(!crosses((0, 0), &edge(-5, 0, 5, 0)));
    assert!(!crosses((0, 0), &edge(5, 0, 5, 0)));
}

#[test]
fn per_node_traversals() {
    let tree = build_search_tree(vec![square()], 4, 4).unwrap();
    let root = &tree[0];
    // Crossing count from inside is odd, from outside even.
    assert_eq!(num_intersections(root, 0, (0, 0)) % 2, 1);
    assert_eq!(num_intersections(root, 0, (30, 0)) % 2, 0);
    // The count accumulates on top of the starting value.
    let base = num_intersections(root, 0, (0, 0));
    assert_eq!(num_intersections(root, 5, (0, 0)), base + 5);
    // The edge traversal threads its running best through the root.
    let d = get_distance_edge(root, None, (6, 6)).unwrap();
    assert_eq!((d.num, d.den), (6400, 400));
    // A better starting bound survives unchanged.
    let better = polygons::EdgeDist { num: 1, den: 1 };
    let kept = get_distance_edge(root, Some(better), (6, 6)).unwrap();
    assert_eq!((kept.num, kept.den), (1, 1));
    // The vertex traversal reports the nearest corner.
    let v = get_distance_vertex(root, None, (6, 6)).unwrap();
    assert_eq!((v.index, v.sqd, v.h), (2, 32, 0));
}

#[test]
fn single_point_queries() {
    let tree = build_search_tree(vec![square()], 4, 4).unwrap();
    assert!(point_is_inside(&tree, (0, 0)));
    assert!(!point_is_inside(&tree, (30, 0)));
    let d = nearest_edge_distance(&tree, (6, 6));
    assert_eq!((d.num, d.den), (6400, 400));
    let v = nearest_vertex_distance(&tree, (5, -5));
    assert_eq!((v.index, v.sqd, v.h), (1, 50, 0));
}
