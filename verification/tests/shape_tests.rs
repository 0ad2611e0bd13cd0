use tutgame::geom::Rect;
use tutgame::quad_val::QuadVal;
use tutgame::quad_val::Shape;
use tutgame::quad_val::capsules_intersect;
use tutgame::quad_val::circle_capsule_intersect;
use tutgame::quad_val::circles_intersect;
use tutgame::quad_val::rectangle_capsule_intersect;
use tutgame::quad_val::rectangle_circle_intersect;
use tutgame::quad_val::rects_intersect;

fn rect(min_x: i64, min_y: i64, max_x: i64, max_y: i64) -> Rect {
    Rect { min_x, min_y, max_x, max_y }
}

#[test]
fn intersect_helpers_work() {
    // a 500 x 500 box given as center and half-extents
    let (rx, ry, rhx, rhy) = (250, 250, 250, 250);
    let c_center = (-10, 250);
    let c_radius = 40;
    let c_center2 = (-40, 20);
    let c_radius2 = 40;

    assert!(rectangle_circle_intersect(rx, ry, rhx, rhy, c_center.0, c_center.1, c_radius));
    assert!(rectangle_circle_intersect(rx, ry, rhx, rhy, c_center2.0, c_center2.1, c_radius2));

    let field = rect(0, 0, 500, 500);
    let rect_49 = rect(490, 490, 520, 520);
    let rect_centered = rect(225, 225, 275, 275);
    let rect_touching = rect(500, 500, 510, 510);

    assert!(rects_intersect(&field, &rect_49));
    assert!(rects_intersect(&field, &rect_centered));
    assert!(rects_intersect(&field, &rect_touching));
    assert!(!rects_intersect(&rect_49, &rect_centered));

    let c2 = (40, 250);
    let r2 = 10;
    let r3 = 100;
    let r4 = 3;

    assert!(circles_intersect(c_center.0, c_center.1, c_radius, c2.0, c2.1, r2));
    assert!(circles_intersect(c_center.0, c_center.1, c_radius, c2.0, c2.1, r3));
    assert!(!circles_intersect(c_center.0, c_center.1, c_radius, c2.0, c2.1, r4));

    let cap = (40, -30);
    // capsules as (radius, half_length)
    let capsule = (10, 30);
    let capsule2 = (10, 20);
    let capsule3 = (5, 20);
    assert!(rectangle_capsule_intersect(rx, ry, rhx, rhy, cap.0, cap.1, capsule.0, capsule.1));
    assert!(rectangle_capsule_intersect(rx, ry, rhx, rhy, cap.0, cap.1, capsule2.0, capsule2.1));
    assert!(!rectangle_capsule_intersect(rx, ry, rhx, rhy, cap.0, cap.1, capsule3.0, capsule3.1));

    let c_pos = (60, -30);
    let c_rad = 10;
    let c_rad2 = 5;
    assert!(circle_capsule_intersect(c_pos.0, c_pos.1, c_rad, cap.0, cap.1, capsule.0, capsule.1));
    assert!(!circle_capsule_intersect(c_pos.0, c_pos.1, c_rad2, cap.0, cap.1, capsule.0, capsule.1));
    let c_pos = (50, -70);
    let c_rad = 10;
    assert!(circle_capsule_intersect(c_pos.0, c_pos.1, c_rad, cap.0, cap.1, capsule.0, capsule.1));

    let cap2 = (40, -100);
    let capsule2 = (10, 20);
    let capsule3 = (50, 5);
    assert!(capsules_intersect(
        cap.0, cap.1, capsule.0, capsule.1, cap2.0, cap2.1, capsule2.0, capsule2.1
    ));
    assert!(capsules_intersect(
        cap.0, cap.1, capsule.0, capsule.1, cap2.0, cap2.1, capsule3.0, capsule3.1
    ));
}

#[test]
fn shapes_work() {
    let field = rect(0, 0, 40, 40);

    let r = QuadVal::new(0, 4, 4, Shape::Quad { half_x: 4, half_y: 4 });
    let cap = QuadVal::new(0, 10, 10, Shape::Capsule { radius: 1, half_length: 5 });
    let circ = QuadVal::new(0, 4, 9, Shape::Circle { radius: 1 });
    let circ2 = QuadVal::new(0, 11, 9, Shape::Circle { radius: 2 });

    assert!(r.intersects(&circ));
    assert!(cap.intersects(&circ2));
    assert!(!r.intersects(&circ2));
    assert!(!cap.intersects(&r));

    for shape in [r, cap, circ, circ2] {
        assert!(shape.is_contained_by(&field));
    }
}

#[test]
fn aabb_works() {
    let q = QuadVal::new(1, 10, -20, Shape::Quad { half_x: 3, half_y: 7 });
    assert_eq!(q.aabb(), rect(7, -27, 13, -13));

    let c = QuadVal::new(2, 0, 5, Shape::Circle { radius: 4 });
    assert_eq!(c.aabb(), rect(-4, 1, 4, 9));

    let cap = QuadVal::new(3, 2, 3, Shape::Capsule { radius: 2, half_length: 6 });
    assert_eq!(cap.aabb(), rect(0, -5, 4, 11));

    assert_eq!(cap.center(), (2, 3));
}

#[test]
fn shape_matrix_touching_works() {
    // every unordered pair of shape kinds, with a touching fixture
    // (expected: intersecting) and a separated one, in both orientations
    let quad_a = QuadVal::new(0, 0, 0, Shape::Quad { half_x: 2, half_y: 2 });
    let quad_touch = QuadVal::new(1, 4, 0, Shape::Quad { half_x: 2, half_y: 2 });
    let quad_apart = QuadVal::new(2, 5, 0, Shape::Quad { half_x: 2, half_y: 2 });
    assert!(quad_a.intersects(&quad_touch));
    assert!(quad_touch.intersects(&quad_a));
    assert!(!quad_a.intersects(&quad_apart));

    let circ_touch = QuadVal::new(3, 5, 0, Shape::Circle { radius: 3 });
    let circ_apart = QuadVal::new(4, 6, 0, Shape::Circle { radius: 3 });
    assert!(quad_a.intersects(&circ_touch));
    assert!(circ_touch.intersects(&quad_a));
    assert!(!quad_a.intersects(&circ_apart));

    // a capsule whose inner rectangle reaches the quad's right edge
    let cap_touch = QuadVal::new(5, 5, 10, Shape::Capsule { radius: 3, half_length: 10 });
    assert!(quad_a.intersects(&cap_touch));
    assert!(cap_touch.intersects(&quad_a));
    let cap_apart = QuadVal::new(6, 6, 10, Shape::Capsule { radius: 3, half_length: 10 });
    assert!(!quad_a.intersects(&cap_apart));

    let circ_a = QuadVal::new(7, 0, 0, Shape::Circle { radius: 5 });
    let circ_b_touch = QuadVal::new(8, 8, 0, Shape::Circle { radius: 3 });
    let circ_b_apart = QuadVal::new(9, 9, 0, Shape::Circle { radius: 3 });
    assert!(circ_a.intersects(&circ_b_touch));
    assert!(circ_b_touch.intersects(&circ_a));
    assert!(!circ_a.intersects(&circ_b_apart));

    // the circle touches the capsule's inner rectangle from the side
    let cap_b = QuadVal::new(10, 10, 0, Shape::Capsule { radius: 2, half_length: 4 });
    let circ_c_touch = QuadVal::new(11, 3, 0, Shape::Circle { radius: 5 });
    let circ_c_apart = QuadVal::new(12, 2, 0, Shape::Circle { radius: 5 });
    assert!(cap_b.intersects(&circ_c_touch));
    assert!(circ_c_touch.intersects(&cap_b));
    assert!(!cap_b.intersects(&circ_c_apart));

    // two capsules meeting end cap to end cap
    let cap_up = QuadVal::new(13, 0, 10, Shape::Capsule { radius: 2, half_length: 3 });
    let cap_down_touch = QuadVal::new(14, 0, 0, Shape::Capsule { radius: 2, half_length: 3 });
    let cap_down_apart = QuadVal::new(15, 0, -1, Shape::Capsule { radius: 2, half_length: 3 });
    assert!(cap_up.intersects(&cap_down_touch));
    assert!(cap_down_touch.intersects(&cap_up));
    assert!(!cap_up.intersects(&cap_down_apart));
}
