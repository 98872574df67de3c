use aabb_quadtree::geom::{Point, Rect, Vector, UNSET};

fn rect(l: i32, t: i32, r: i32, b: i32) -> Rect {
    Rect { top_left: Point { x: l, y: t }, bottom_right: Point { x: r, y: b } }
}

fn point(x: i32, y: i32) -> Point {
    Point { x: x, y: y }
}

#[test]
fn contains_is_half_open() {
    let r = rect(0, 0, 4, 4);
    assert!(r.contains(&point(0, 0)));
    assert!(r.contains(&point(3, 3)));
    assert!(!r.contains(&point(4, 3)));
    assert!(!r.contains(&point(3, 4)));
    assert!(!r.contains(&point(-1, 0)));
    assert!(!rect(2, 2, 2, 2).contains(&point(2, 2)));
    assert!(!Rect::null().contains(&point(0, 0)));
}

#[test]
fn rectangles_that_touch_intersect() {
    let r = rect(0, 0, 4, 4);
    assert!(r.does_intersect(&rect(4, 4, 6, 6)));
    assert!(r.does_intersect(&rect(-2, -2, 0, 0)));
    assert!(r.does_intersect(&rect(1, 1, 2, 2)));
    assert!(r.does_intersect(&rect(2, 2, 2, 2)));
    assert!(!r.does_intersect(&rect(5, 0, 6, 4)));
    assert!(!r.does_intersect(&rect(0, 5, 4, 6)));
    // corners out of order hold no point
    assert!(!r.does_intersect(&rect(3, 3, 1, 1)));
    assert!(!r.does_intersect(&Rect::null()));
    assert!(!Rect::null().does_intersect(&r));
}

#[test]
fn midpoint_and_quadrants_have_the_documented_values() {
    let r = rect(-10, -10, 10, 10);
    assert_eq!(r.midpoint(), point(0, 0));
    assert_eq!(
        r.split_quad(),
        [rect(-10, -10, 0, 0), rect(0, -10, 10, 0), rect(-10, 0, 0, 10), rect(0, 0, 10, 10)]
    );
    // an odd side is halved downwards, and the quadrants still cover the box
    let odd = rect(0, 0, 5, 3);
    assert_eq!(odd.midpoint(), point(2, 1));
    assert_eq!(odd.split_quad(), [rect(0, 0, 2, 1), rect(2, 0, 5, 1), rect(0, 1, 2, 3), rect(2, 1, 5, 3)]);
    assert_eq!(rect(-5, -3, 0, 0).midpoint(), point(-3, -2));
    assert_eq!(rect(i32::MAX - 2, 0, i32::MAX, 2).midpoint(), point(i32::MAX - 1, 1));
    assert_eq!(r.split_vert(), (rect(-10, -10, 0, 10), rect(0, -10, 10, 10)));
    assert_eq!(r.split_hori(), (rect(-10, -10, 10, 0), rect(-10, 0, 10, 10)));
}

#[test]
fn close_to_compares_the_squared_corner_distance() {
    let a = rect(0, 0, 10, 10);
    assert!(a.close_to(&a, 1));
    assert!(!a.close_to(&rect(0, 0, 10, 11), 1));
    assert!(a.close_to(&rect(0, 1, 10, 11), 2));
    assert!(!a.close_to(&rect(0, 2, 10, 10), 2));
    assert!(!a.close_to(&a, 0));
    assert!(point(0, 0).close_to(&point(3, 4), 6));
    assert!(!point(0, 0).close_to(&point(3, 4), 5));
    assert_eq!(point(0, 0).distance_2(&point(3, 4)), 25);
    assert_eq!(point(i32::MIN, i32::MIN).distance_2(&point(i32::MAX, i32::MAX)), 2 * 4294967295i128 * 4294967295i128);
    assert!(!point(i32::MIN, 0).close_to(&point(i32::MAX, 0), i32::MAX));
}

#[test]
fn null_rectangle_gives_way_in_unions() {
    let null = Rect::null();
    assert!(null.is_null());
    assert_eq!(null.top_left.x, UNSET);
    let r = rect(1, 2, 3, 4);
    assert!(!r.is_null());
    assert_eq!(null.union_with(&r), r);
    assert_eq!(r.union_with(&null), r);
    assert_eq!(null.expanded_by(&point(7, 8)), rect(7, 8, 7, 8));
    let mut grown = Rect::null();
    grown.expand_to_include(&point(5, 5));
    grown.expand_to_include(&point(1, 9));
    assert_eq!(grown, rect(1, 5, 5, 9));
    assert_eq!(r.union_with(&rect(0, 3, 2, 9)), rect(0, 2, 3, 9));
    assert_eq!(r.expanded_by(&point(2, 3)), r);
}

#[test]
fn constructors_build_the_expected_corners() {
    assert_eq!(Rect::centered_with_radius(&point(0, 0), 10), rect(-10, -10, 10, 10));
    assert_eq!(Rect::centered_with_radius(&point(3, -2), 2), rect(1, -4, 5, 0));
    assert_eq!(Rect::from_points(&point(5, 1), &point(2, 7)), rect(2, 1, 5, 7));
    assert_eq!(Rect::from_point_and_size(&point(1, 2), &Vector { x: 3, y: 4 }), rect(1, 2, 4, 6));
    assert_eq!(Rect::null_at(&point(4, 5)), rect(4, 5, 4, 5));
    assert_eq!(rect(0, 0, 4, 4).expand(1, 2, 3, 4), rect(-1, -2, 7, 8));
}

#[test]
fn edges_and_corners_are_reported() {
    let r = rect(2, 4, 10, 9);
    assert_eq!(r.width(), 8);
    assert_eq!(r.height(), 5);
    assert_eq!((r.left(), r.top(), r.right(), r.bottom()), (2, 4, 10, 9));
    assert_eq!(r.top_left(), point(2, 4));
    assert_eq!(r.bottom_right(), point(10, 9));
    assert_eq!(r.bottom_left(), point(2, 9));
    assert_eq!(r.top_right(), point(10, 4));
    assert_eq!(r.north(), point(6, 4));
    assert_eq!(r.south(), point(6, 9));
    assert_eq!(r.west(), point(2, 6));
    assert_eq!(r.east(), point(10, 6));
    assert_eq!(rect(i32::MIN + 1, 0, i32::MAX, 0).width(), 4294967294i64);
}

#[test]
fn intersection_is_the_common_part() {
    let a = rect(0, 0, 6, 6);
    assert_eq!(a.intersect_with(&rect(4, 2, 9, 5)), rect(4, 2, 6, 5));
    assert_eq!(a.intersect_with(&rect(6, 6, 9, 9)), rect(6, 6, 6, 6));
    assert!(a.intersect_with(&rect(7, 7, 9, 9)).is_null());
}

#[test]
fn vector_products_are_exact() {
    let a = Vector { x: 3, y: -4 };
    let b = Vector { x: 2, y: 5 };
    assert_eq!(a.mul_e(&b), Vector { x: 6, y: -20 });
    assert_eq!(a.scale_e(2, -3), Vector { x: 6, y: 12 });
    assert_eq!(a.cross(&b), 23);
    assert_eq!(a.dot(&b), -14);
    let big = Vector { x: i32::MIN, y: i32::MIN };
    assert_eq!(big.dot(&big), 2 * 2147483648i128 * 2147483648i128);
}

#[test]
fn points_and_vectors_add_and_subtract() {
    let p = point(3, 4);
    let v = Vector { x: 1, y: -2 };
    assert_eq!(p + v, point(4, 2));
    assert_eq!(p - v, point(2, 6));
    assert_eq!(v + p, point(4, 2));
    assert_eq!(v - p, point(-2, -6));
    assert_eq!(p - point(1, 1), Vector { x: 2, y: 3 });
    assert_eq!(-v, Vector { x: -1, y: 2 });
    assert_eq!((p + v) - v, p);
}
