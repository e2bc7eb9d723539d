use anneal_splines::rect::{Point, Rect};

#[test]
fn rect_intersects_and_contains() {
    let a = Rect::new(0, 10, 0, 10);
    let b = Rect::new(5, 15, 5, 15);
    let c = Rect::new(11, 12, 0, 10);
    let d = Rect::new(2, 3, 2, 3);
    assert!(a.intersects(&b));
    assert!(!a.intersects(&c));
    assert!(a.intersects(&Rect::new(10, 12, 10, 12)));
    assert!(a.contains(&d));
    assert!(!a.contains(&b));
    assert!(a.contains(&a));
    assert!(a.contains_point(Point::new(10, 0)));
    assert!(!a.contains_point(Point::new(11, 0)));
}

#[test]
fn rect_combine_is_union_box() {
    let a = Rect::new(0, 4, 2, 3);
    let b = Rect::new(-2, 1, 5, 9);
    assert_eq!(a.combine(b), Rect::new(-2, 4, 2, 9));
    assert_eq!(b.combine(a), Rect::new(-2, 4, 2, 9));
}

#[test]
fn rect_from_points_is_tight() {
    let pts = vec![Point::new(3, -1), Point::new(-4, 2), Point::new(0, 7), Point::new(1, 1)];
    assert_eq!(Rect::from_points(&pts), Rect::new(-4, 3, -1, 7));
    assert_eq!(Rect::from_points(&vec![Point::new(5, 6)]), Rect::new(5, 5, 6, 6));
}

#[test]
fn rect_translate_and_radius() {
    let a = Rect::new(0, 4, 2, 3);
    assert_eq!(a.translate(Point::new(3, -2)), Rect::new(3, 7, 0, 1));
    assert_eq!(a.translate(Point::new(3, -2)).translate(Point::new(-3, 2)), a);
    assert_eq!(a.add_radius(2), Rect::new(-2, 6, 0, 5));
    assert_eq!(Rect::new(0, 10, 0, 6).add_radius(-3), Rect::new(3, 7, 3, 3));
    assert_eq!(a.width(), 4);
    assert_eq!(a.height(), 1);
}

#[test]
fn rect_center_and_quadrants() {
    let a = Rect::new(0, 10, 0, 6);
    assert_eq!(a.get_center(), Point::new(5, 3));
    let q = a.get_quadrants();
    assert_eq!(q[0], Rect::new(0, 5, 0, 3));
    assert_eq!(q[1], Rect::new(0, 5, 3, 6));
    assert_eq!(q[2], Rect::new(5, 10, 0, 3));
    assert_eq!(q[3], Rect::new(5, 10, 3, 6));
    let odd = Rect::new(-3, 0, -1, 0);
    assert_eq!(odd.get_center(), Point::new(-2, -1));
}

#[test]
fn signed_distance_sign_by_position() {
    let r = Rect::new(0, 10, 0, 10);
    assert_eq!(r.signed_distance(Point::new(0, 5)), 0);
    assert_eq!(r.signed_distance(Point::new(10, 10)), 0);
    assert_eq!(r.signed_distance(Point::new(5, 5)), -5);
    assert_eq!(r.signed_distance(Point::new(2, 5)), -2);
    assert_eq!(r.signed_distance(Point::new(15, 5)), 5);
    assert_eq!(r.signed_distance(Point::new(-3, 12)), 3);
    assert!(r.signed_distance(Point::new(11, 0)) > 0);
}
