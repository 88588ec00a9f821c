//! Exact rational coordinates and point arithmetic.

use pointy::point::Pt;
use pointy::rat::Rat;

fn r(n: i64, d: i64) -> Rat {
    Rat::new(n, d).unwrap()
}

fn pt(x: i64, y: i64) -> Pt {
    Pt::from_int(x, y)
}

#[test]
fn rat_reduction_and_eq() {
    assert_eq!(r(2, 4), r(1, 2));
    assert_eq!(r(-6, -4), r(3, 2));
    assert_eq!(r(6, -4), r(-3, 2));
    assert_eq!(r(0, 7), Rat::from_int(0));
    assert_ne!(r(1, 2), r(1, 3));
    assert_eq!(r(262144, 2), Rat::from_int(131072));
}

#[test]
fn rat_limits() {
    // A zero denominator, a denominator beyond the limit, and a
    // numerator beyond the limit are all rejected.
    assert_eq!(Rat::new(1, 0), None);
    assert_eq!(Rat::new(1, 129), None);
    assert_eq!(Rat::new(131073, 1), None);
    assert!(Rat::new(1, 128).is_some());
    assert!(Rat::new(131072, 1).is_some());
    assert!(Rat::new(-131072, 1).is_some());
}

#[test]
fn rat_arithmetic() {
    assert_eq!(r(1, 3).add(r(1, 6)), Some(r(1, 2)));
    assert_eq!(r(1, 2).sub(r(1, 3)), Some(r(1, 6)));
    assert_eq!(r(2, 3).mul(r(3, 4)), Some(r(1, 2)));
    assert_eq!(r(1, 2).div(r(3, 4)), Some(r(2, 3)));
    assert_eq!(r(1, 2).div(r(-3, 4)), Some(r(-2, 3)));
    assert_eq!(r(3, 2).neg(), r(-3, 2));
    // A sum whose reduced denominator exceeds the limit is rejected.
    assert_eq!(r(1, 127).add(r(1, 128)), None);
}

#[test]
fn rat_order() {
    assert!(r(1, 3).lt(r(1, 2)));
    assert!(r(-1, 2).lt(r(1, 3)));
    assert!(r(1, 2).le(r(2, 4)));
    assert!(!r(1, 2).lt(r(2, 4)));
    assert_eq!(r(1, 3).min(r(1, 2)), r(1, 3));
    assert_eq!(r(1, 3).max(r(1, 2)), r(1, 2));
}

#[test]
fn point_ops() {
    let a = pt(2, 1);
    let b = pt(3, 4);
    assert_eq!(a.add(b), Some(pt(5, 5)));
    assert_eq!(b.sub(a), Some(pt(1, 3)));
    assert_eq!(a.scale(Rat::from_int(2)), Some(pt(4, 2)));
    assert_eq!(a.neg(), pt(-2, -1));
    assert_eq!(a.distance_sq(b), Some(Rat::from_int(10)));
    assert_eq!(a.midpoint(b), Some(Pt::new(r(5, 2), r(5, 2))));
    assert_eq!(a.left(), pt(-1, 2));
    assert_eq!(a.right(), pt(1, -2));
    assert_eq!(a.cross(b), Some(Rat::from_int(5)));
    assert_eq!(a.dot(b), Some(Rat::from_int(10)));
    assert_eq!(a.lerp(b, r(1, 2)), Some(Pt::new(r(5, 2), r(5, 2))));
    assert_eq!(a.lerp(b, Rat::from_int(1)), Some(a));
    assert_eq!(a.lerp(b, Rat::from_int(0)), Some(b));
    assert_eq!(a.with_min(b), pt(2, 1));
    assert_eq!(a.with_max(b), pt(3, 4));
    assert_eq!(pt(1, 4).with_min(pt(2, 3)), pt(1, 3));
    assert_eq!(pt(1, 4).with_max(pt(2, 3)), pt(2, 4));
}
