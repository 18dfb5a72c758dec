//! Property scenarios: tree queries equal brute force, grouping sizes and
//! rebuilding change nothing, height offsets move results monotonically,
//! and batch results follow their inputs' order.

use polygons::build_search_tree_h;

fn islands() -> Vec<Vec<(i64, i64, i64)>> {
    vec![
        vec![(-80, -60, 0), (-20, -65, 0), (-10, -15, 0), (-60, -5, 0), (-80, -60, 0)],
        vec![(10, 10, 0), (90, 15, 0), (70, 70, 0), (40, 85, 0), (15, 55, 0), (10, 10, 0)],
        vec![(-50, 40, 5), (-10, 45, 5), (-30, 80, 5), (-50, 40, 5)],
    ]
}

fn reference_points() -> Vec<(i64, i64)> {
    vec![
        (0, 0), (-40, -30), (50, 40), (-30, 60), (100, 100), (-100, -100),
        (12, 11), (-79, -59), (70, 70), (1, -1), (-35, 62), (33, 44),
    ]
}

/// Brute-force squared distance to one segment, as an exact rational.
fn seg_dist2(px: i128, py: i128, x1: i128, y1: i128, x2: i128, y2: i128) -> (i128, i128) {
    let (vx, vy) = (x2 - x1, y2 - y1);
    let (wx, wy) = (px - x1, py - y1);
    let c1 = vx * wx + vy * wy;
    let c2 = vx * vx + vy * vy;
    if c1 <= 0 {
        ((px - x1) * (px - x1) + (py - y1) * (py - y1), 1)
    } else if c1 >= c2 {
        ((px - x2) * (px - x2) + (py - y2) * (py - y2), 1)
    } else {
        ((wx * wx + wy * wy) * c2 - c1 * c1, c2)
    }
}

/// All edges of all polygons, as the builder forms them: consecutive pairs
/// plus a closing edge per ring.
fn all_edges(polys: &[Vec<(i64, i64, i64)>]) -> Vec<((i64, i64, i64), (i64, i64, i64))> {
    let mut edges = Vec::new();
    for poly in polys {
        let n = poly.len();
        for i in 0..n {
            let a = poly[i];
            let b = poly[(i + 1) % n];
            edges.push((a, b));
        }
    }
    edges
}

#[test]
fn round_trip_with_brute_force_edges() {
    let polys = islands();
    let tree = build_search_tree_h(polys.clone(), 4, 4).unwrap();
    let points = reference_points();
    let got = polygons::distances_nearest_edges(&tree, &points);
    for (k, &(px, py)) in points.iter().enumerate() {
        let mut best: Option<(i128, i128)> = None;
        for &(a, b) in &all_edges(&polys) {
            let c = seg_dist2(px as i128, py as i128, a.0 as i128, a.1 as i128, b.0 as i128, b.1 as i128);
            best = match best {
                None => Some(c),
                Some(bst) => {
                    if c.0 * bst.1 < bst.0 * c.1 {
                        Some(c)
                    } else {
                        Some(bst)
                    }
                },
            };
        }
        let bst = best.unwrap();
        // The tree returns not only the same value but the same exact
        // rational: the first minimal edge in input order.
        assert_eq!((got[k].num, got[k].den), bst);
    }
}

#[test]
fn round_trip_with_brute_force_vertices() {
    let polys = islands();
    let tree = build_search_tree_h(polys.clone(), 4, 4).unwrap();
    let points = reference_points();
    let (indices, got) = polygons::distances_nearest_vertices(&tree, &points);
    for (k, &(px, py)) in points.iter().enumerate() {
        // Brute force in floating point over every vertex of every polygon.
        let mut best = f64::MAX;
        let mut best_idx = 0usize;
        let mut idx = 0usize;
        for poly in &polys {
            for &(x, y, h) in poly {
                let dx = (x - px) as f64;
                let dy = (y - py) as f64;
                let d = (dx * dx + dy * dy).sqrt() + h as f64;
                if d < best {
                    best = d;
                    best_idx = idx;
                }
                idx += 1;
            }
        }
        let tree_val = (got[k].sqd as f64).sqrt() + got[k].h as f64;
        assert!((tree_val - best).abs() < 1e-9);
        assert_eq!(indices[k], best_idx);
    }
}

#[test]
fn branching_factor_invariance() {
    let polys = islands();
    let points = reference_points();
    let baseline = build_search_tree_h(polys.clone(), 4, 4).unwrap();
    let inside0 = polygons::points_are_inside(&baseline, &points);
    let edges0 = polygons::distances_nearest_edges(&baseline, &points);
    let verts0 = polygons::distances_nearest_vertices(&baseline, &points);
    for &eg in &[1usize, 2, 3, 4, 16] {
        for &ng in &[2usize, 3, 4, 16] {
            let tree = build_search_tree_h(polys.clone(), eg, ng).unwrap();
            assert_eq!(polygons::points_are_inside(&tree, &points), inside0);
            assert_eq!(polygons::distances_nearest_edges(&tree, &points), edges0);
            assert_eq!(polygons::distances_nearest_vertices(&tree, &points), verts0);
        }
    }
}

#[test]
fn determinism() {
    let points = reference_points();
    let t1 = build_search_tree_h(islands(), 3, 5).unwrap();
    let t2 = build_search_tree_h(islands(), 3, 5).unwrap();
    assert_eq!(
        polygons::points_are_inside(&t1, &points),
        polygons::points_are_inside(&t2, &points),
    );
    assert_eq!(
        polygons::distances_nearest_edges(&t1, &points),
        polygons::distances_nearest_edges(&t2, &points),
    );
    assert_eq!(
        polygons::distances_nearest_vertices(&t1, &points),
        polygons::distances_nearest_vertices(&t2, &points),
    );
}

#[test]
fn height_offset_monotonicity() {
    let polys = islands();
    let points = reference_points();
    let before = build_search_tree_h(polys.clone(), 4, 4).unwrap();
    let (_, vd_before) = polygons::distances_nearest_vertices(&before, &points);
    // Raise one vertex's height (both its ring occurrences) by delta.
    let delta: i64 = 30;
    let mut raised = polys.clone();
    raised[0][0].2 += delta;
    raised[0][4].2 += delta;
    let after = build_search_tree_h(raised, 4, 4).unwrap();
    let (_, vd_after) = polygons::distances_nearest_vertices(&after, &points);
    for k in 0..points.len() {
        let v0 = (vd_before[k].sqd as f64).sqrt() + vd_before[k].h as f64;
        let v1 = (vd_after[k].sqd as f64).sqrt() + vd_after[k].h as f64;
        assert!(v1 >= v0 - 1e-9);
        assert!(v1 <= v0 + delta as f64 + 1e-9);
    }
}

#[test]
fn height_offset_misses_nearest_vertex() {
    // Raising a far vertex's height leaves every result whose nearest
    // vertex is elsewhere exactly unchanged.
    let polys = islands();
    let points = reference_points();
    let before = build_search_tree_h(polys.clone(), 4, 4).unwrap();
    let (vi_before, vd_before) = polygons::distances_nearest_vertices(&before, &points);
    let mut raised = polys.clone();
    // The second ring point of the second island; raise only it.
    raised[1][1].2 += 500;
    let after = build_search_tree_h(raised, 4, 4).unwrap();
    let (vi_after, vd_after) = polygons::distances_nearest_vertices(&after, &points);
    for k in 0..points.len() {
        if vi_before[k] != 6 {
            assert_eq!(vi_after[k], vi_before[k]);
            assert_eq!(vd_after[k], vd_before[k]);
        }
    }
}

#[test]
fn batch_order_follows_permutation() {
    let tree = build_search_tree_h(islands(), 4, 4).unwrap();
    let points = reference_points();
    let n = points.len();
    // A fixed permutation: reverse, then swap the first two.
    let mut perm: Vec<usize> = (0..n).rev().collect();
    perm.swap(0, 1);
    let permuted: Vec<(i64, i64)> = perm.iter().map(|&i| points[i]).collect();
    let inside = polygons::points_are_inside(&tree, &points);
    let inside_p = polygons::points_are_inside(&tree, &permuted);
    let edges = polygons::distances_nearest_edges(&tree, &points);
    let edges_p = polygons::distances_nearest_edges(&tree, &permuted);
    let (vi, vd) = polygons::distances_nearest_vertices(&tree, &points);
    let (vi_p, vd_p) = polygons::distances_nearest_vertices(&tree, &permuted);
    for i in 0..n {
        assert_eq!(inside_p[i], inside[perm[i]]);
        assert_eq!(edges_p[i], edges[perm[i]]);
        assert_eq!(vi_p[i], vi[perm[i]]);
        assert_eq!(vd_p[i], vd[perm[i]]);
    }
}

/// The half-open ray-crossing rule, applied directly to one edge.
fn crossed(px: i64, py: i64, a: (i64, i64, i64), b: (i64, i64, i64)) -> bool {
    let az = (b.0 - a.0) as i128 * (py - a.1) as i128 - (b.1 - a.1) as i128 * (px - a.0) as i128;
    if a.1 < b.1 {
        a.1 <= py && py < b.1 && az > 0
    } else if b.1 < a.1 {
        b.1 <= py && py < a.1 && az < 0
    } else {
        false
    }
}

#[test]
fn basic() {
    // All three queries against brute force over every edge and vertex.
    let polys = islands();
    let tree = build_search_tree_h(polys.clone(), 4, 4).unwrap();
    let points = reference_points();

    let inside = polygons::points_are_inside(&tree, &points);
    for (k, &(px, py)) in points.iter().enumerate() {
        let count = all_edges(&polys)
            .iter()
            .filter(|&&(a, b)| crossed(px, py, a, b))
            .count();
        assert_eq!(inside[k], count % 2 == 1);
    }

    let edges = polygons::distances_nearest_edges(&tree, &points);
    for (k, &(px, py)) in points.iter().enumerate() {
        let mut best = f64::MAX;
        for &(a, b) in &all_edges(&polys) {
            let (num, den) = seg_dist2(px as i128, py as i128, a.0 as i128, a.1 as i128,
                b.0 as i128, b.1 as i128);
            let d = (num as f64 / den as f64).sqrt();
            if d < best {
                best = d;
            }
        }
        let got = (edges[k].num as f64 / edges[k].den as f64).sqrt();
        assert!((got - best).abs() < 1e-9);
    }

    let (_, verts) = polygons::distances_nearest_vertices(&tree, &points);
    for (k, &(px, py)) in points.iter().enumerate() {
        let mut best = f64::MAX;
        for poly in &polys {
            for &(x, y, h) in poly {
                let dx = (x - px) as f64;
                let dy = (y - py) as f64;
                let d = (dx * dx + dy * dy).sqrt() + h as f64;
                if d < best {
                    best = d;
                }
            }
        }
        let got = (verts[k].sqd as f64).sqrt() + verts[k].h as f64;
        assert!((got - best).abs() < 1e-9);
    }
}

#[test]
fn custom_distance() {
    // Nearest-vertex distances under non-zero height offsets match the
    // naive minimum over all vertices.
    let mut polys = islands();
    polys[0][1].2 = 40;
    polys[1][2].2 = 3;
    polys[2][0].2 = 25;
    polys[2][3].2 = 25;
    let tree = build_search_tree_h(polys.clone(), 4, 4).unwrap();
    let points = reference_points();
    let (_, verts) = polygons::distances_nearest_vertices(&tree, &points);
    for (k, &(px, py)) in points.iter().enumerate() {
        let mut best = f64::MAX;
        for poly in &polys {
            for &(x, y, h) in poly {
                let dx = (x - px) as f64;
                let dy = (y - py) as f64;
                let d = (dx * dx + dy * dy).sqrt() + h as f64;
                if d < best {
                    best = d;
                }
            }
        }
        let got = (verts[k].sqd as f64).sqrt() + verts[k].h as f64;
        assert!((got - best).abs() < 1e-9);
    }
}
