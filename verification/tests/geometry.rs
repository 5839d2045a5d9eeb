use reflow::geometry::{Au, Point2D, Rect, Size2D};

fn rect(x: i32, y: i32, w: i32, h: i32) -> Rect {
    Rect::new(Point2D::new(Au(x), Au(y)), Size2D::new(Au(w), Au(h)))
}

#[test]
fn from_px_is_sixty_app_units_a_pixel() {
    assert_eq!(Au::from_px(0), Au(0));
    assert_eq!(Au::from_px(1), Au(60));
    assert_eq!(Au::from_px(-3), Au(-180));
    assert_eq!(Au::from_px(800), Au(48000));
}

#[test]
fn from_px_wraps_at_32_bits() {
    // 40_000_000 * 60 = 2_400_000_000 = 2^32 - 1_894_967_296
    assert_eq!(Au::from_px(40_000_000), Au(-1_894_967_296));
}

#[test]
fn to_nearest_px_rounds_half_away_from_zero() {
    assert_eq!(Au(0).to_nearest_px(), 0);
    assert_eq!(Au(29).to_nearest_px(), 0);
    assert_eq!(Au(30).to_nearest_px(), 1);
    assert_eq!(Au(89).to_nearest_px(), 1);
    assert_eq!(Au(90).to_nearest_px(), 2);
    assert_eq!(Au(-29).to_nearest_px(), 0);
    assert_eq!(Au(-30).to_nearest_px(), -1);
    assert_eq!(Au(-90).to_nearest_px(), -2);
    assert_eq!(Au(6000).to_nearest_px(), 100);
    assert_eq!(Au(i32::MAX).to_nearest_px(), 35_791_394);
    assert_eq!(Au(i32::MIN).to_nearest_px(), -35_791_394);
}

#[test]
fn au_sums_and_differences() {
    assert_eq!(Au(5).add(Au(7)), Au(12));
    assert_eq!(Au(5).sub(Au(7)), Au(-2));
    assert_eq!(Au(i32::MAX).add(Au(1)), Au(i32::MIN));
    assert_eq!(Au(i32::MIN).sub(Au(1)), Au(i32::MAX));
    assert_eq!(Au(1200).scale(3), Au(3600));
    assert_eq!(Au(3).min(Au(-4)), Au(-4));
    assert_eq!(Au(3).max(Au(-4)), Au(3));
    assert_eq!(Au::zero(), Au(0));
}

#[test]
fn union_spans_both_rectangles() {
    let a = rect(0, 0, 10, 10);
    let b = rect(5, 5, 15, 15);
    assert_eq!(a.union(&b), rect(0, 0, 20, 20));
    assert_eq!(b.union(&a), rect(0, 0, 20, 20));
    assert_eq!(a.union(&a), a);
}

#[test]
fn union_of_disjoint_rectangles_covers_the_gap() {
    let a = rect(-10, -10, 5, 5);
    let b = rect(100, 200, 1, 2);
    assert_eq!(a.union(&b), rect(-10, -10, 111, 212));
}

#[test]
fn union_with_an_empty_rectangle_still_reaches_its_corner() {
    let a = rect(10, 10, 10, 10);
    let empty = Rect::zero();
    assert_eq!(a.union(&empty), rect(0, 0, 20, 20));
}

#[test]
fn translate_moves_the_origin_only() {
    let a = rect(1, 2, 3, 4);
    assert_eq!(a.translate(&Point2D::new(Au(10), Au(-20))), rect(11, -18, 3, 4));
    assert_eq!(Point2D::zero().add(Point2D::new(Au(4), Au(5))), Point2D::new(Au(4), Au(5)));
}

#[test]
fn contains_is_half_open_on_both_axes() {
    let r = rect(10, 20, 30, 40);
    assert!(r.contains(Au(10), Au(20)));
    assert!(r.contains(Au(39), Au(59)));
    assert!(!r.contains(Au(40), Au(30)));
    assert!(!r.contains(Au(20), Au(60)));
    assert!(!r.contains(Au(9), Au(30)));
    assert!(!r.contains(Au(20), Au(19)));
    assert_eq!(r.max_x(), Au(40));
    assert_eq!(r.max_y(), Au(60));
}

#[test]
fn an_empty_rectangle_contains_nothing() {
    let r = rect(10, 20, 0, 0);
    assert!(!r.contains(Au(10), Au(20)));
}

#[test]
fn intersects_needs_a_shared_point() {
    let a = rect(0, 0, 10, 10);
    assert!(a.intersects(&rect(5, 5, 10, 10)));
    assert!(!a.intersects(&rect(10, 0, 10, 10)));
    assert!(!a.intersects(&rect(0, 10, 10, 10)));
    assert!(a.intersects(&rect(9, 9, 1, 1)));
}
