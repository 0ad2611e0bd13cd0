use tutgame::geom;
use tutgame::geom::Rect;
use tutgame::quad_val::QuadVal;
use tutgame::quad_val::Shape;
use tutgame::quadtree::QNode;
use tutgame::quadtree::Quadtree;
use tutgame::quadtree::compute_bounds;
use tutgame::quadtree::find_quadrant;
use tutgame::quadtree::group_by_quadrant;

fn rect(min_x: i64, min_y: i64, max_x: i64, max_y: i64) -> Rect {
    Rect { min_x, min_y, max_x, max_y }
}

/// A point value: a zero-radius circle. Points with equal positions are
/// equal, as in a plain coordinate pair.
fn pt(x: i32, y: i32) -> QuadVal {
    QuadVal::new(0, x, y, Shape::Circle { radius: 0 })
}

/// A rectangle value, given by center and half-extents.
fn quad(id: u64, x: i32, y: i32, hx: i32, hy: i32) -> QuadVal {
    QuadVal::new(id, x, y, Shape::Quad { half_x: hx, half_y: hy })
}

fn node_contains(node: &QNode, v: &QuadVal) -> bool {
    if node.values.contains(v) {
        return true;
    }
    if !node.is_leaf() {
        for idx in 0..4 {
            if node_contains(node.get_child(idx), v) {
                return true;
            }
        }
    }
    false
}

#[test]
fn compute_rect_works() {
    let parent = rect(0, 0, 4, 4);
    let expected = [rect(0, 0, 2, 2), rect(2, 0, 4, 2), rect(2, 2, 4, 4), rect(0, 2, 2, 4)];
    for idx in 0..4u8 {
        assert_eq!(geom::compute_rect(&parent, idx), expected[idx as usize]);
    }
    // an odd extent splits at the center, rounded down
    let odd = rect(0, 0, 5, 5);
    assert_eq!(geom::compute_rect(&odd, 0), rect(0, 0, 2, 2));
    assert_eq!(geom::compute_rect(&odd, 2), rect(2, 2, 5, 5));
}

#[test]
fn quadtree_find_quadrant_works() {
    let bounds = rect(0, 0, 40, 40);
    let test_cases = vec![
        // Test case 1: box in the bottom-left quadrant (quadrant 0)
        (bounds, rect(0, 0, 19, 19), Some(0u8)),
        // Test case 2: box in the bottom-right quadrant (quadrant 1)
        (bounds, rect(20, 0, 40, 19), Some(1)),
        // Test case 3: box in the top-right quadrant (quadrant 2)
        (bounds, rect(20, 20, 40, 40), Some(2)),
        // Test case 4: box in the top-left quadrant (quadrant 3)
        (bounds, rect(0, 20, 19, 40), Some(3)),
        // Test case 5: box exactly at the center of the parent bounds
        (bounds, rect(15, 15, 25, 25), None),
        // Test case 6: box outside bounds (right)
        (bounds, rect(41, 0, 50, 20), None),
        // Test case 7: box outside bounds (left)
        (bounds, rect(-10, 0, 0, 20), None),
        // Test case 8: box outside bounds (top)
        (bounds, rect(0, 41, 20, 50), None),
        // Test case 9: box outside bounds (bottom)
        (bounds, rect(0, -10, 20, 0), None),
        // Test case 10: empty box (quadrant 2)
        (bounds, rect(20, 20, 20, 20), Some(2)),
    ];

    for (i, (bounds, quad, expected)) in test_cases.iter().enumerate() {
        let result = geom::find_quadrant(bounds, quad);
        assert_eq!(
            result,
            *expected,
            "Test case {} failed: expected {:?}, got {:?}",
            i + 1,
            expected,
            result
        );
    }

    println!("All test cases passed!");
}

#[test]
fn mod_find_quadrant_works() {
    let bounds = rect(0, 0, 80, 80);
    let test_cases = vec![
        // Test case 1: box in the bottom-left quadrant (quadrant 0)
        (bounds, quad(0, 19, 19, 19, 19), Some(0usize)),
        // Test case 2: box in the bottom-right quadrant (quadrant 1)
        (bounds, quad(0, 60, 19, 20, 19), Some(1)),
        // Test case 3: box in the top-right quadrant (quadrant 2)
        (bounds, quad(0, 60, 60, 20, 20), Some(2)),
        // Test case 4: box in the top-left quadrant (quadrant 3)
        (bounds, quad(0, 19, 60, 19, 20), Some(3)),
        // Test case 5: box exactly at the center of the parent bounds
        (bounds, quad(0, 40, 40, 10, 10), None),
        // Test case 6: box outside bounds (right)
        (bounds, quad(0, 91, 20, 9, 20), None),
        // Test case 7: box outside bounds (left)
        (bounds, quad(0, -10, 20, 10, 20), None),
        // Test case 8: box outside bounds (top)
        (bounds, quad(0, 20, 91, 20, 9), None),
        // Test case 9: box outside bounds (bottom)
        (bounds, quad(0, 20, -10, 20, 10), None),
        // Test case 10: empty box (quadrant 2)
        (bounds, quad(0, 40, 40, 0, 0), Some(2)),
    ];

    for (i, (bounds, val, expected)) in test_cases.iter().enumerate() {
        let result = find_quadrant(bounds, val);
        assert_eq!(
            result,
            *expected,
            "Test case {} failed: expected {:?}, got {:?}",
            i + 1,
            expected,
            result
        );
    }
}

#[test]
fn compute_bounds_works() {
    let parent = rect(0, 0, 4, 4);
    let half = (2, 2);

    let test_cases = vec![
        // Quadrant 0
        (0usize, rect(0, 0, half.0, half.1)),
        // Quadrant 1
        (1, rect(half.0, 0, half.0 * 2, half.1)),
        // Quadrant 2
        (2, rect(half.0, half.1, half.0 * 2, half.1 * 2)),
        // Quadrant 3
        (3, rect(0, half.1, half.0, half.1 * 2)),
    ];

    for (idx, expected) in test_cases {
        let result = compute_bounds(parent, idx);
        assert_eq!(result, expected, "Quadrant {} failed: expected {:?}, got {:?}", idx, expected, result);
    }
}

#[test]
fn is_leaf_works() {
    let mut qnode = QNode::new();
    let bounds = rect(0, 0, 4, 4);

    assert!(qnode.is_leaf());

    let pts = [pt(1, 1), pt(4, 0), pt(2, 2), pt(0, 4)];

    for p in pts {
        qnode.insert(bounds, 0, p);
    }
    assert!(qnode.is_leaf());
    assert_eq!(qnode.values.len(), 4);

    qnode.subdivide(bounds);

    assert!(!qnode.is_leaf());
    assert_eq!(qnode.values.len(), 0);

    for (idx, p) in pts.into_iter().enumerate() {
        let child_qnode = qnode.get_child(idx);
        assert!(child_qnode.values.contains(&p));
    }
}

#[test]
fn quadtree_insert_remove_works() {
    let mut qtree = Quadtree::new(rect(0, 0, 16, 16));

    // Points to add
    let pts = vec![
        pt(2, 2),   // bottom-left quadrant
        pt(14, 14), // top-right quadrant
        pt(6, 10),  // top-left quadrant
        pt(13, 3),  // bottom-right quadrant
        pt(8, 8),   // center: top-right quadrant
    ];

    qtree.insert_many(&pts);

    // Initial assertions
    assert!(qtree.root.is_leaf(), "Root should initially be a leaf node");
    assert_eq!(qtree.root.values.len(), 5, "All points should be in root initially");

    // Add enough points to exceed the threshold and trigger a split
    let threshold_pts: Vec<QuadVal> =
        (1..5).flat_map(|x| (1..5).map(move |y| pt(2 * x, 2 * y))).collect();
    for p in threshold_pts.iter() {
        qtree.insert(*p);
    }

    assert!(
        !qtree.root.is_leaf(),
        "Root should no longer be a leaf node after exceeding the threshold"
    );
    assert_eq!(qtree.root.values.len(), 0, "All values should get distributed among children");

    // Verify points are distributed among child nodes
    for idx in 0..4 {
        let child_qnode = qtree.root.get_child(idx);
        let r = compute_bounds(qtree.bounds, idx);
        assert!(
            child_qnode.values.iter().all(|val| val.is_contained_by(&r)),
            "All values in quadrant {} should be within its bounds",
            idx
        );
    }

    // Test adding boundary points
    let boundary_pts = vec![
        pt(0, 0),   // bottom-left corner
        pt(16, 0),  // bottom-right corner
        pt(16, 16), // top-right corner
        pt(0, 16),  // top-left corner
    ];
    qtree.insert_many(&boundary_pts);

    // Verify boundary points are added correctly
    for p in boundary_pts.iter() {
        let added = (0..4).any(|idx| qtree.root.get_child(idx).values.contains(p));
        assert!(added, "Boundary point {:?} should be added to the correct quadrant", p);
    }

    // Test removing points
    let remove_pts = [pt(0, 0), pt(16, 16)];
    for p in remove_pts.iter().chain(threshold_pts.iter()) {
        qtree.remove(p);
    }

    // Verify removed points no longer exist in the tree
    for p in remove_pts.iter() {
        assert!(!node_contains(&qtree.root, p), "Point {:?} should be removed from the quadtree", p);
    }

    // Ensure tree rebalances if possible
    assert!(
        qtree.root.is_leaf(),
        "Tree should rebalance and root should be a leaf after removing points"
    );

    let oob_pts: Vec<QuadVal> =
        (-4..0).flat_map(|x| (-4..0).map(move |y| pt(2 * x, 2 * y))).collect();

    qtree.insert_many(&oob_pts);

    assert!(
        !qtree.root.is_leaf(),
        "out of bounds values get inserted into the root node, but the valid values get split amongst the child nodes"
    );

    assert_eq!(qtree.root.values.len(), 16, "out of bounds values get inserted into the root node");

    qtree.clear();
    assert!(qtree.root.is_leaf());
    assert!(qtree.root.values.is_empty());
}

#[test]
fn quadtree_query_works() {
    let mut qtree = Quadtree::new(rect(0, 0, 16, 16));

    // a pair of points per cell of a 4 x 4 grid: the cell corner and its
    // center; 32 points, so the first quadrant splits twice
    let pts: Vec<QuadVal> = (0..4)
        .flat_map(|x| (0..4).flat_map(move |y| [pt(2 * x, 2 * y), pt(2 * x + 1, 2 * y + 1)]))
        .collect();

    qtree.insert_many(&pts);

    let first_quadrant = qtree.root.get_child(0);
    for i in 0..4 {
        let child = first_quadrant.get_child(i);
        assert_eq!(child.values.len(), 8, "each child of the first quadrant should have 8 values");

        let quadrant_contains_appropriate_value = match i {
            0 => child.values.contains(&pt(0, 0)),
            1 => child.values.contains(&pt(4, 0)),
            2 => child.values.contains(&pt(4, 4)),
            _ => child.values.contains(&pt(0, 4)),
        };

        assert!(quadrant_contains_appropriate_value);
    }

    // points expected in the first quadrant of the first quadrant;
    // the query box is exactly that quadrant's own box, so the quadrants
    // that only share an edge with it contribute nothing
    let expected_query =
        vec![pt(0, 0), pt(1, 1), pt(0, 2), pt(1, 3), pt(2, 0), pt(3, 1), pt(2, 2), pt(3, 3)];
    let query = qtree.query(rect(0, 0, 4, 4));
    assert_eq!(expected_query, query);

    let expected_query: Vec<&QuadVal> =
        pts.iter().filter(|v| v.x >= 2 && v.x <= 6 && v.y >= 2 && v.y <= 6).collect();
    // query a box centered between cells
    let query = qtree.query(rect(2, 2, 6, 6));

    assert_eq!(expected_query.len(), query.len());
    for item in query.iter() {
        assert!(expected_query.contains(&item));
    }
}

#[test]
fn quadtree_find_all_intersections_works() {
    let mut qtree = Quadtree::new(rect(0, 0, 32, 32));
    let items = vec![
        // first quadrant, intersecting
        quad(0, 4, 4, 4, 4),
        quad(1, 8, 8, 4, 4),
        quad(2, 2, 11, 2, 1),
        // root and third quadrant intersections
        quad(3, 16, 26, 4, 6),
        quad(4, 20, 20, 4, 4),
        // non-intersecting, third quadrant
        quad(5, 30, 24, 2, 8),
        // fourth quadrant
        quad(6, 4, 22, 4, 6),
    ];

    qtree.insert_many(&items);

    let intersections = qtree.find_all_intersections();
    assert_eq!(3, intersections.len());
    assert_eq!((items[1], items[0]), intersections[0]);
    assert_eq!((items[2], items[1]), intersections[1]);
    assert_eq!((items[4], items[3]), intersections[2]);
}

#[test]
fn quadtree_nearest_works() {
    let mut qtree = Quadtree::new(rect(0, 0, 16, 16));
    // Points to add
    let pts = vec![
        pt(2, 2),   // bottom-left quadrant
        pt(14, 14), // top-right quadrant
        pt(6, 10),  // top-left quadrant
        pt(13, 3),  // bottom-right quadrant
        pt(8, 8),   // center: top-right quadrant
    ];
    qtree.insert_many(&pts);

    assert_eq!(pts[0], qtree.nearest(0, 0).unwrap());
    assert_eq!(pts[1], qtree.nearest(16, 16).unwrap());
    assert_eq!(pts[2], qtree.nearest(6, 12).unwrap());
    assert_eq!(pts[3], qtree.nearest(12, 4).unwrap());
    assert_eq!(pts[4], qtree.nearest(8, 8).unwrap());
}

#[test]
fn group_by_quadrant_works() {
    let bounds = rect(0, 0, 8, 8);
    let items = vec![
        pt(1, 1),          // quadrant 0
        pt(5, 1),          // quadrant 1
        pt(5, 5),          // quadrant 2
        pt(1, 5),          // quadrant 3
        quad(7, 4, 4, 1, 1), // straddles the center
        pt(9, 1),          // out of bounds
    ];
    let (g0, g1, g2, g3, rest) = group_by_quadrant(&bounds, &items);
    assert_eq!(g0, vec![pt(1, 1)]);
    assert_eq!(g1, vec![pt(5, 1)]);
    assert_eq!(g2, vec![pt(5, 5)]);
    assert_eq!(g3, vec![pt(1, 5)]);
    assert_eq!(rest, vec![quad(7, 4, 4, 1, 1), pt(9, 1)]);
}

#[test]
fn clear_makes_every_query_empty() {
    let mut qtree = Quadtree::new(rect(0, 0, 16, 16));
    let pts: Vec<QuadVal> = (0..6).flat_map(|x| (0..6).map(move |y| pt(2 * x, 2 * y))).collect();
    qtree.insert_many(&pts);
    assert!(!qtree.root.is_leaf());

    qtree.clear();
    // a single empty leaf again
    assert!(qtree.root.is_leaf());
    assert!(qtree.root.values.is_empty());
    assert!(qtree.query(rect(0, 0, 16, 16)).is_empty());
    assert!(qtree.query(rect(3, 3, 5, 5)).is_empty());
    assert!(qtree.find_all_intersections().is_empty());
    assert_eq!(qtree.nearest(4, 4), None);
}

#[test]
fn insert_then_remove_restores_the_values() {
    let mut qtree = Quadtree::new(rect(0, 0, 16, 16));
    let pts = vec![pt(2, 2), pt(14, 14), pt(6, 10), pt(13, 3)];
    qtree.insert_many(&pts);

    let before = qtree.query(rect(0, 0, 16, 16));
    let extra = QuadVal::new(9, 7, 7, Shape::Circle { radius: 2 });
    qtree.insert(extra);
    assert!(node_contains(&qtree.root, &extra));
    qtree.remove(&extra);
    assert!(!node_contains(&qtree.root, &extra));
    let after = qtree.query(rect(0, 0, 16, 16));
    assert_eq!(before, after);
}

#[test]
fn query_includes_touching_shapes() {
    let mut qtree = Quadtree::new(rect(0, 0, 16, 16));
    // a circle that only touches the query box's right edge from outside
    let touching = QuadVal::new(1, 9, 3, Shape::Circle { radius: 3 });
    // a circle clearly outside the query box
    let outside = QuadVal::new(2, 13, 3, Shape::Circle { radius: 2 });
    // a rectangle that pokes into the box across its top edge
    let poking = quad(3, 3, 6, 1, 2);
    qtree.insert_many(&vec![touching, outside, poking]);

    let found = qtree.query(rect(1, 1, 6, 5));
    assert_eq!(found, vec![touching, poking]);
}

#[test]
fn straddlers_and_out_of_bounds_values_stay_reachable() {
    let mut qtree = Quadtree::new(rect(0, 0, 16, 16));
    // enough points to split the root
    let crowd: Vec<QuadVal> = (0..5).flat_map(|x| (0..4).map(move |y| pt(2 * x, 2 * y))).collect();
    // a rectangle straddling the root's center line
    let straddler = quad(100, 8, 4, 2, 1);
    // a value outside the tree bounds altogether
    let outside = QuadVal::new(101, 20, 3, Shape::Circle { radius: 1 });
    qtree.insert_many(&crowd);
    qtree.insert(straddler);
    qtree.insert(outside);

    assert!(!qtree.root.is_leaf());
    // both live in the root's own overflow list
    assert!(qtree.root.values.contains(&straddler));
    assert!(qtree.root.values.contains(&outside));

    // and queries covering them still find them
    let found = qtree.query(rect(7, 3, 9, 5));
    assert!(found.contains(&straddler));
    let found = qtree.query(rect(10, 0, 30, 8));
    assert!(found.contains(&outside));
}

#[test]
fn query_edge_on_region_skips_sibling_quadrant() {
    // The traversal does not descend into a child whose bounds only share
    // an edge with the query box. A value touching the box exactly from
    // inside such a child is therefore not reported; widening the box
    // past the center line reaches it.
    let mut qtree = Quadtree::new(rect(0, 0, 16, 16));
    for x in 1..5 {
        for y in 1..5 {
            qtree.insert(pt(x, y));
        }
    }
    let on_the_line = pt(8, 1);
    qtree.insert(on_the_line);
    assert!(!qtree.root.is_leaf());

    let narrow = qtree.query(rect(0, 0, 8, 4));
    assert_eq!(narrow.len(), 16);
    assert!(!narrow.contains(&on_the_line));

    let wider = qtree.query(rect(0, 0, 9, 4));
    assert!(wider.contains(&on_the_line));
}

#[test]
fn remove_missing_value_is_a_no_op() {
    let mut qtree = Quadtree::new(rect(0, 0, 16, 16));
    let pts = vec![pt(2, 2), pt(14, 14)];
    qtree.insert_many(&pts);
    qtree.remove(&pt(5, 5));
    let all = qtree.query(rect(0, 0, 16, 16));
    assert_eq!(all, pts);
}
