use polygons::{build_search_tree, build_search_tree_h, create_polygon, BuildError, Point};

fn square() -> Vec<(i64, i64)> {
    vec![(-10, -10), (10, -10), (10, 10), (-10, 10), (-10, -10)]
}

#[test]
fn build_returns_single_root() {
    let tree = build_search_tree(vec![square()], 4, 4).unwrap();
    assert_eq!(tree.len(), 1);
}

#[test]
fn build_empty_input_fails() {
    let r = build_search_tree(Vec::new(), 4, 4);
    assert_eq!(r.unwrap_err(), BuildError::EmptyIndex);
    let r = build_search_tree(vec![Vec::new(), Vec::new()], 4, 4);
    assert_eq!(r.unwrap_err(), BuildError::EmptyIndex);
}

#[test]
fn build_skips_empty_polygons() {
    let tree = build_search_tree(vec![Vec::new(), square(), Vec::new()], 4, 4).unwrap();
    let points = vec![(0, 0)];
    let inside = polygons::points_are_inside(&tree, &points);
    assert_eq!(inside, vec![true]);
}

#[test]
fn build_single_point_polygon() {
    // One point yields one degenerate edge; the index still answers.
    let tree = build_search_tree(vec![vec![(3, 4)]], 4, 4).unwrap();
    let points = vec![(0, 0)];
    let d = polygons::distances_nearest_edges(&tree, &points);
    assert_eq!(d[0].num, 25);
    assert_eq!(d[0].den, 1);
    let (idx, vd) = polygons::distances_nearest_vertices(&tree, &points);
    assert_eq!(idx[0], 0);
    assert_eq!(vd[0].sqd, 25);
    assert_eq!(vd[0].h, 0);
    let inside = polygons::points_are_inside(&tree, &points);
    assert_eq!(inside, vec![false]);
}

#[test]
fn build_with_heights_carries_offsets() {
    let poly = vec![(0, 0, 7), (10, 0, 7), (0, 10, 7), (0, 0, 7)];
    let tree = build_search_tree_h(vec![poly], 2, 2).unwrap();
    let points = vec![(0, 0)];
    let (_, vd) = polygons::distances_nearest_vertices(&tree, &points);
    assert_eq!(vd[0].sqd, 0);
    assert_eq!(vd[0].h, 7);
}

#[test]
fn create_polygon_offsets_and_indices() {
    let xs: Vec<i64> = vec![0, 10, 0, 0];
    let ys: Vec<i64> = vec![0, 0, 10, 0];
    let edges = create_polygon(4, &xs, 100, &ys, -50, 20);
    assert_eq!(edges.len(), 3);
    assert_eq!(edges[0].p1.x, 100);
    assert_eq!(edges[0].p1.y, -50);
    assert_eq!(edges[0].p1.index, 20);
    assert_eq!(edges[2].p2.x, 100);
    assert_eq!(edges[2].p2.y, -50);
    assert_eq!(edges[2].p2.index, 23);
}

#[test]
fn point_new_has_no_offset() {
    let p = Point::new(5, -3);
    assert_eq!(p.x, 5);
    assert_eq!(p.y, -3);
    assert_eq!(p.h, 0);
    assert_eq!(p.index, 0);
}
