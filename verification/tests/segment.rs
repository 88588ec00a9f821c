//! Segment distance, intersection, the overlap test and clipping.

use pointy::bbox::{BBox, Bounds};
use pointy::point::Pt;
use pointy::rat::Rat;
use pointy::segment::Seg;

fn r(n: i64, d: i64) -> Rat {
    Rat::new(n, d).unwrap()
}

fn pt(x: i64, y: i64) -> Pt {
    Pt::from_int(x, y)
}

fn ph(x: (i64, i64), y: (i64, i64)) -> Pt {
    Pt::new(r(x.0, x.1), r(y.0, y.1))
}

fn seg(p0: Pt, p1: Pt) -> Seg {
    Seg::new(p0, p1)
}

fn unit_box() -> BBox {
    BBox::new(&[pt(0, 0), pt(1, 1)])
}

#[test]
fn segment_distance() {
    // Squared distances; the point is five away in every case.
    let a = seg(pt(0, 0), pt(10, 0));
    assert_eq!(a.distance_sq(pt(0, 5)), Some(Rat::from_int(25)));
    assert_eq!(a.distance_sq(pt(5, 5)), Some(Rat::from_int(25)));
    assert_eq!(a.distance_sq(pt(10, 5)), Some(Rat::from_int(25)));
    assert_eq!(a.distance_sq(pt(-5, 0)), Some(Rat::from_int(25)));
    assert_eq!(a.distance_sq(pt(15, 0)), Some(Rat::from_int(25)));
    assert_eq!(a.distance_sq(pt(0, -5)), Some(Rat::from_int(25)));
    assert_eq!(a.distance_sq(pt(5, -5)), Some(Rat::from_int(25)));
    assert_eq!(a.distance_sq(pt(10, -5)), Some(Rat::from_int(25)));
}

#[test]
fn segment_intersection() {
    let a = seg(pt(0, 0), pt(1, 0));
    assert_eq!(a.intersection(a), None);
    let b = seg(pt(1, 1), pt(1, 0));
    assert_eq!(a.intersection(b), Some(pt(1, 0)));
    let c = seg(ph((1, 2), (1, 1)), ph((1, 2), (10, 1)));
    assert_eq!(a.intersection(c), None);
    let d = seg(ph((1, 2), (1, 1)), ph((1, 2), (-1, 1)));
    assert_eq!(a.intersection(d), Some(ph((1, 2), (0, 1))));
}

#[test]
fn bounded() {
    let b = unit_box();
    assert!(seg(pt(0, 0), pt(1, 1)).bounded_by(&b));
    assert!(seg(pt(1, 1), pt(2, 2)).bounded_by(&b));
    assert!(seg(pt(0, 0), pt(-1, -1)).bounded_by(&b));
    assert!(!seg(pt(2, 2), pt(3, 3)).bounded_by(&b));
    assert!(!seg(pt(-1, -1), pt(-2, -2)).bounded_by(&b));
    assert!(seg(ph((1, 2), (1, 1)), ph((3, 2), (1, 2))).bounded_by(&b));
    assert!(seg(ph((1, 2), (1, 2)), ph((1, 2), (3, 2))).bounded_by(&b));
    assert!(seg(ph((1, 2), (3, 2)), ph((3, 2), (1, 2))).bounded_by(&b));
    assert!(!seg(ph((1, 2), (8, 5)), ph((8, 5), (1, 2))).bounded_by(&b));
    assert!(seg(ph((-1, 2), (1, 2)), ph((3, 2), (1, 2))).bounded_by(&b));
    assert!(seg(ph((1, 2), (-1, 2)), ph((1, 2), (3, 2))).bounded_by(&b));
}

#[test]
fn clip_crossing() {
    // A segment crossing the box from left to right keeps only the
    // part inside, and both clipped endpoints land within the box.
    let b = unit_box();
    let s = seg(ph((-1, 2), (1, 2)), ph((3, 2), (1, 2)));
    let c = s.clip(&b).unwrap();
    assert_eq!(c, seg(ph((0, 1), (1, 2)), ph((1, 1), (1, 2))));
    assert_eq!(b.check(c.p0.x, c.p0.y), Bounds::Within);
    assert_eq!(b.check(c.p1.x, c.p1.y), Bounds::Within);
}

#[test]
fn clip_idempotent() {
    let b = unit_box();
    let cases = [
        seg(ph((-1, 2), (1, 2)), ph((3, 2), (1, 2))),
        seg(pt(-1, -1), pt(2, 2)),
        seg(ph((1, 4), (1, 4)), ph((3, 4), (3, 4))),
        seg(ph((1, 2), (-1, 2)), ph((1, 2), (3, 2))),
    ];
    for s in cases.iter() {
        let once = s.clip(&b).unwrap();
        assert_eq!(once.clip(&b), Some(once));
    }
}

#[test]
fn clip_rejects() {
    let b = unit_box();
    assert_eq!(seg(pt(2, 2), pt(3, 3)).clip(&b), None);
    assert_eq!(seg(ph((1, 2), (8, 5)), ph((8, 5), (1, 2))).clip(&b), None);
}

#[test]
fn clip_diagonal() {
    // A diagonal through two corner regions is trimmed to the box's
    // diagonal.
    let b = unit_box();
    let s = seg(pt(-1, -1), pt(2, 2));
    assert_eq!(s.clip(&b), Some(seg(pt(0, 0), pt(1, 1))));
}

#[test]
fn clip_inside_unchanged() {
    let b = unit_box();
    let s = seg(ph((1, 4), (1, 4)), ph((3, 4), (3, 4)));
    assert_eq!(s.clip(&b), Some(s));
}

#[test]
fn intersects_answers() {
    let a = seg(pt(0, 0), pt(1, 0));
    assert!(a.intersects(seg(pt(1, 1), pt(1, 0))));
    assert!(!a.intersects(seg(ph((1, 2), (1, 1)), ph((1, 2), (10, 1)))));
}

#[test]
fn clip_flat_box() {
    // Against a zero-height box the edge segments are degenerate, so
    // their support-line intersections report nothing and clipping
    // leaves an endpoint beyond the side untouched: containment of the
    // clipped endpoints needs a box with extent on both axes.
    let b = BBox::new(&[pt(0, 0), pt(1, 0)]);
    let s = seg(ph((-1, 2), (0, 1)), ph((1, 2), (0, 1)));
    let c = s.clip(&b).unwrap();
    assert_eq!(c, s);
    assert_eq!(b.check(c.p0.x, c.p0.y), Bounds::Left);
}

#[test]
fn intersection_unrepresentable() {
    // The crossing sits at y = 200/199: exceeds the coordinate
    // limits, so the segments report no intersection.
    let a = seg(pt(0, 0), pt(199, 200));
    let b = seg(pt(1, 0), pt(1, 300));
    assert_eq!(a.intersection(b), None);
}
