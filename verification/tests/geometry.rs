use embedded_graphics_profont::geometry::{anchored_origin, can_anchor};
use embedded_graphics_profont::{Anchor, Point};

#[test]
fn point_new() {
    let p = Point::new(-3, 7);
    assert_eq!(p.x, -3);
    assert_eq!(p.y, 7);
}

#[test]
fn anchored_origin_corners_and_middles() {
    let p = Point::new(20, 30);
    assert_eq!(anchored_origin(p, 10, 6, Anchor::TopLeft), Point::new(20, 30));
    assert_eq!(anchored_origin(p, 10, 6, Anchor::MiddleCenter), Point::new(15, 27));
    assert_eq!(anchored_origin(p, 10, 6, Anchor::BottomRight), Point::new(10, 24));
    assert_eq!(anchored_origin(p, 11, 7, Anchor::MiddleCenter), Point::new(15, 27));
    assert_eq!(anchored_origin(p, 11, 7, Anchor::BottomCenter), Point::new(15, 23));
}

#[test]
fn anchored_box_meets_position() {
    // the anchor point of the placed box is the requested position
    let p = Point::new(5, -5);
    for anchor in [
        Anchor::TopLeft,
        Anchor::TopCenter,
        Anchor::TopRight,
        Anchor::MiddleLeft,
        Anchor::MiddleCenter,
        Anchor::MiddleRight,
        Anchor::BottomLeft,
        Anchor::BottomCenter,
        Anchor::BottomRight,
    ] {
        let o = anchored_origin(p, 8, 4, anchor);
        let dx = match anchor {
            Anchor::TopLeft | Anchor::MiddleLeft | Anchor::BottomLeft => 0,
            Anchor::TopCenter | Anchor::MiddleCenter | Anchor::BottomCenter => 4,
            _ => 8,
        };
        let dy = match anchor {
            Anchor::TopLeft | Anchor::TopCenter | Anchor::TopRight => 0,
            Anchor::MiddleLeft | Anchor::MiddleCenter | Anchor::MiddleRight => 2,
            _ => 4,
        };
        assert_eq!(Point::new(o.x + dx, o.y + dy), p);
    }
}

#[test]
fn can_anchor_detects_underflow() {
    assert!(can_anchor(Point::new(i32::MIN, i32::MIN), 10, 10, Anchor::TopLeft));
    assert!(!can_anchor(Point::new(i32::MIN, 0), 10, 10, Anchor::TopCenter));
    assert!(!can_anchor(Point::new(0, i32::MIN + 4), 10, 10, Anchor::MiddleLeft));
    assert!(can_anchor(Point::new(0, i32::MIN + 5), 10, 10, Anchor::MiddleLeft));
}
