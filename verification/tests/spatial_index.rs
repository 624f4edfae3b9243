use bloom::graph::spatial::{Quadtree, AABB};

fn unit_tree(capacity: usize) -> Quadtree {
    Quadtree::new(AABB { min_x: 0, min_y: 0, max_x: 100, max_y: 100 }, capacity)
}

#[test]
fn aabb_contains_is_closed_on_both_edges() {
    let b = AABB { min_x: 0, min_y: 0, max_x: 10, max_y: 10 };
    assert!(b.contains(0, 0));
    assert!(b.contains(10, 10));
    assert!(b.contains(5, 7));
    assert!(!b.contains(11, 5));
    assert!(!b.contains(-1, 5));
}

#[test]
fn aabb_circle_test_clamps_to_the_nearest_point() {
    let b = AABB { min_x: 0, min_y: 0, max_x: 10, max_y: 10 };
    assert!(b.intersects_circle(5, 5, 0)); // center inside
    assert!(b.intersects_circle(13, 4, 3)); // touches the right edge
    assert!(!b.intersects_circle(14, 4, 3)); // one past it
    assert!(b.intersects_circle(13, 14, 5)); // corner: 3-4-5 triangle
    assert!(!b.intersects_circle(14, 14, 5));
}

#[test]
fn capacity_one_tree_subdivides_on_the_second_insert() {
    let mut t = unit_tree(1);
    assert!(!t.subdivided());
    assert!(t.insert(0, 10, 10));
    assert!(!t.subdivided());
    assert!(t.insert(1, 80, 80));
    assert!(t.subdivided());
    // a third point at the first point's exact location is still accepted
    assert!(t.insert(2, 10, 10));
    let hits = t.query_point(10, 10, 1);
    assert!(hits.contains(&0));
    assert!(hits.contains(&2));
}

#[test]
fn points_outside_the_bounds_are_rejected() {
    let mut t = unit_tree(4);
    assert!(!t.insert(0, 101, 50));
    assert!(!t.insert(1, -1, 0));
    assert!(t.insert(2, 100, 100));
    let hits = t.query_point(100, 100, 0);
    assert_eq!(hits, vec![2]);
}

#[test]
fn query_never_misses_a_point_within_the_radius() {
    let mut t = unit_tree(2);
    let pts: [(i32, i32); 8] = [
        (1, 1),
        (99, 99),
        (50, 50),
        (50, 51),
        (49, 50),
        (12, 88),
        (88, 12),
        (1, 99),
    ];
    for (i, &(x, y)) in pts.iter().enumerate() {
        assert!(t.insert(i, x, y));
    }
    let (cx, cy, r) = (50i64, 50i64, 30i64);
    let hits = t.query_point(cx as i32, cy as i32, r as i32);
    for (i, &(x, y)) in pts.iter().enumerate() {
        let d2 = (x as i64 - cx) * (x as i64 - cx) + (y as i64 - cy) * (y as i64 - cy);
        if d2 <= r * r {
            // no false negatives: every truly-near point is reported
            assert!(hits.contains(&i), "point {} at ({}, {}) was omitted", i, x, y);
        }
    }
    // candidates may overshoot; an exact post-filter narrows them down
    let exact: Vec<usize> = hits
        .iter()
        .copied()
        .filter(|&i| {
            let (x, y) = pts[i];
            (x as i64 - cx) * (x as i64 - cx) + (y as i64 - cy) * (y as i64 - cy) <= r * r
        })
        .collect();
    assert!(exact.contains(&2));
    assert!(exact.contains(&3));
    assert!(exact.contains(&4));
    assert!(!exact.contains(&0));
}

#[test]
fn far_query_reports_nothing() {
    let mut t = unit_tree(1);
    assert!(t.insert(0, 10, 10));
    assert!(t.insert(1, 90, 90));
    let hits = t.query_point(10, 10, 2);
    assert!(hits.contains(&0));
    assert!(!hits.contains(&1));
}

#[test]
fn fresh_tree_reports_nothing() {
    let t = unit_tree(3);
    assert!(!t.subdivided());
    assert!(t.query_point(50, 50, 1000).is_empty());
    assert!(t.query_point(0, 0, 0).is_empty());
}
