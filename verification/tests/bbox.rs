//! Bounding-box construction, extension and classification.

use pointy::bbox::{BBox, Bounds};
use pointy::point::Pt;
use pointy::rat::Rat;

fn r(n: i64, d: i64) -> Rat {
    Rat::new(n, d).unwrap()
}

fn pt(x: i64, y: i64) -> Pt {
    Pt::from_int(x, y)
}

fn boxi(x0: i64, y0: i64, x1: i64, y1: i64) -> BBox {
    BBox::new(&[pt(x0, y0), pt(x1, y1)])
}

#[test]
fn bounds() {
    let a = BBox::new(&[pt(0, 0)]);
    assert_eq!(a.x_min(), Rat::from_int(0));
    assert_eq!(a.x_max(), Rat::from_int(0));
    assert_eq!(a.x_span(), Some(Rat::from_int(0)));
    assert_eq!(a.y_min(), Rat::from_int(0));
    assert_eq!(a.y_max(), Rat::from_int(0));
    assert_eq!(a.y_span(), Some(Rat::from_int(0)));
    let b = boxi(0, 10, 100, 200);
    assert_eq!(b.x_min(), Rat::from_int(0));
    assert_eq!(b.x_max(), Rat::from_int(100));
    assert_eq!(b.x_span(), Some(Rat::from_int(100)));
    assert_eq!(b.y_min(), Rat::from_int(10));
    assert_eq!(b.y_max(), Rat::from_int(200));
    assert_eq!(b.y_span(), Some(Rat::from_int(190)));
}

#[test]
fn from_vec() {
    let pts = [
        Pt::new(r(26, 5), r(279, 5)),
        Pt::new(r(-294, 5), r(20, 1)),
        Pt::new(r(150, 1), r(-240, 1)),
    ];
    let b = BBox::new(&pts);
    assert_eq!(b.x_min(), r(-294, 5));
    assert_eq!(b.x_max(), r(150, 1));
    assert_eq!(b.x_span(), Some(r(1044, 5)));
    assert_eq!(b.y_min(), r(-240, 1));
    assert_eq!(b.y_max(), r(279, 5));
    assert_eq!(b.y_span(), Some(r(1479, 5)));
}

#[test]
fn box_bounded_by() {
    let a = boxi(0, 0, 1, 1);
    assert!(a.bounded_by(&boxi(0, 0, 5, 5)));
    assert!(a.bounded_by(&boxi(-1, -1, 0, 0)));
    assert!(a.bounded_by(&BBox::new(&[Pt::new(r(0, 1), r(1, 2)), pt(1, 1)])));
    assert!(a.bounded_by(&boxi(1, 1, 2, 2)));
    assert!(!a.bounded_by(&BBox::new(&[Pt::new(r(11, 10), r(1, 1)), pt(2, 2)])));
    assert!(!a.bounded_by(&boxi(0, 10, 100, 200)));
}

#[test]
fn box_overlap_symmetric() {
    let a = boxi(0, 0, 1, 1);
    let cases = [
        boxi(0, 0, 5, 5),
        boxi(-1, -1, 0, 0),
        boxi(1, 1, 2, 2),
        boxi(2, 2, 3, 3),
        boxi(0, 10, 100, 200),
    ];
    for b in cases.iter() {
        assert_eq!(a.bounded_by(b), b.bounded_by(&a));
    }
}

#[test]
fn pt_bounded_by() {
    let p = pt(0, 0);
    assert!(p.bounded_by(&boxi(0, 0, 5, 5)));
    assert!(p.bounded_by(&boxi(-1, -1, 0, 0)));
    assert!(!p.bounded_by(&BBox::new(&[Pt::new(r(0, 1), r(1, 2)), pt(1, 1)])));
    assert!(!p.bounded_by(&boxi(1, 1, 2, 2)));
    assert!(!p.bounded_by(&BBox::new(&[Pt::new(r(11, 10), r(1, 1)), pt(2, 2)])));
    assert!(!p.bounded_by(&boxi(0, 10, 100, 200)));
    let p = Pt::new(r(1, 1), r(11, 10));
    assert!(!p.bounded_by(&boxi(0, 0, 1, 1)));
}

#[test]
fn extend() {
    let mut a = boxi(0, 0, 1, 1);
    a.extend(&[pt(-1, -1)]);
    assert_eq!(a.x_min(), Rat::from_int(-1));
    assert_eq!(a.x_max(), Rat::from_int(1));
    assert_eq!(a.x_span(), Some(Rat::from_int(2)));
    assert_eq!(a.y_min(), Rat::from_int(-1));
    assert_eq!(a.y_max(), Rat::from_int(1));
    assert_eq!(a.y_span(), Some(Rat::from_int(2)));
    let mut a = BBox::default();
    a.extend(&[pt(0, 0)]);
    assert_eq!(a.x_min(), Rat::from_int(0));
    assert_eq!(a.x_max(), Rat::from_int(0));
    assert_eq!(a.x_span(), Some(Rat::from_int(0)));
    assert_eq!(a.y_min(), Rat::from_int(0));
    assert_eq!(a.y_max(), Rat::from_int(0));
    assert_eq!(a.y_span(), Some(Rat::from_int(0)));
}

#[test]
fn check_nine_regions() {
    let b = boxi(0, 0, 2, 2);
    assert_eq!(b.check(Rat::from_int(1), Rat::from_int(1)), Bounds::Within);
    assert_eq!(b.check(Rat::from_int(-1), Rat::from_int(1)), Bounds::Left);
    assert_eq!(b.check(Rat::from_int(3), Rat::from_int(1)), Bounds::Right);
    assert_eq!(b.check(Rat::from_int(1), Rat::from_int(-1)), Bounds::Below);
    assert_eq!(b.check(Rat::from_int(1), Rat::from_int(3)), Bounds::Above);
    assert_eq!(b.check(Rat::from_int(-1), Rat::from_int(-1)), Bounds::BelowLeft);
    assert_eq!(b.check(Rat::from_int(-1), Rat::from_int(3)), Bounds::AboveLeft);
    assert_eq!(b.check(Rat::from_int(3), Rat::from_int(-1)), Bounds::BelowRight);
    assert_eq!(b.check(Rat::from_int(3), Rat::from_int(3)), Bounds::AboveRight);
    // Values exactly on a bound classify as within on that axis.
    assert_eq!(b.check(Rat::from_int(0), Rat::from_int(2)), Bounds::Within);
    assert_eq!(b.check(Rat::from_int(2), Rat::from_int(0)), Bounds::Within);
}

#[test]
fn mid_values() {
    let b = boxi(0, 0, 1, 3);
    assert_eq!(b.x_mid(), Some(r(1, 2)));
    assert_eq!(b.y_mid(), Some(r(3, 2)));
}
