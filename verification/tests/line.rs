//! Line distance, intersection, projection and canonical form.

use pointy::line::Line;
use pointy::point::Pt;
use pointy::rat::Rat;

fn pt(x: i64, y: i64) -> Pt {
    Pt::from_int(x, y)
}

fn li(x0: i64, y0: i64, x1: i64, y1: i64) -> Line {
    Line::new(pt(x0, y0), pt(x1, y1))
}

#[test]
fn line_distance() {
    // Squared distances: one away from a horizontal line, two away
    // from a vertical one.
    let a = li(0, 0, 1, 0);
    assert_eq!(a.distance_sq(pt(0, 1)), Some(Rat::from_int(1)));
    let b = li(0, 0, 0, 1);
    assert_eq!(b.distance_sq(pt(2, 0)), Some(Rat::from_int(4)));
}

#[test]
fn line_intersection() {
    let a = li(0, 0, 1, 0);
    assert_eq!(a.intersection(a), None);
    let c = li(1, 1, 1, 0);
    assert_eq!(a.intersection(c), Some(pt(1, 0)));
    let b = li(0, 0, 0, 1);
    assert_eq!(b.intersection(b), None);
}

#[test]
fn projection() {
    let d = li(0, 0, 10, 0);
    assert_eq!(d.project(pt(0, 5)), Some(pt(0, 0)));
    assert_eq!(d.project(pt(5, 5)), Some(pt(5, 0)));
    assert_eq!(d.project(pt(10, 5)), Some(pt(10, 0)));
    assert_eq!(d.project(pt(-5, 0)), Some(pt(-5, 0)));
    assert_eq!(d.project(pt(15, 0)), Some(pt(15, 0)));
    assert_eq!(d.project(pt(0, -5)), Some(pt(0, 0)));
    assert_eq!(d.project(pt(5, -5)), Some(pt(5, 0)));
    assert_eq!(d.project(pt(10, -5)), Some(pt(10, 0)));
}

#[test]
fn canonical() {
    let a = li(0, 0, 1, 0);
    assert_eq!(a.canonical(), Some(a));
    let a1 = li(0, 15, 37, 0);
    assert_eq!(a1.canonical(), Some(a1));
    let a2 = li(23, 0, 0, -19);
    assert_eq!(a2.canonical(), Some(li(0, -19, 23, 0)));
    let h0 = li(0, 0, 2, 0);
    assert_eq!(h0.canonical(), Some(li(0, 0, 1, 0)));
    let h1 = li(0, 1, 5, 1);
    assert_eq!(h1.canonical(), Some(li(0, 1, 1, 1)));
    let v0 = li(0, -1, 0, 1);
    assert_eq!(v0.canonical(), Some(li(0, 0, 0, 1)));
    let v1 = li(1, -3, 1, 8);
    assert_eq!(v1.canonical(), Some(li(1, 0, 1, 1)));
}

#[test]
fn canonical_idempotent() {
    // Re-canonicalizing a canonical form changes nothing, and two
    // descriptions of the same infinite line canonicalize alike.
    let cases = [
        li(23, 0, 0, -19),
        li(0, -19, 23, 0),
        li(3, 7, 5, 11),
        li(5, 11, 3, 7),
        li(0, 0, 2, 4),
    ];
    for l in cases.iter() {
        let c = l.canonical().unwrap();
        assert_eq!(c.canonical(), Some(c));
    }
    assert_eq!(
        li(23, 0, 0, -19).canonical(),
        li(0, -19, 23, 0).canonical(),
    );
    assert_eq!(li(3, 7, 5, 11).canonical(), li(5, 11, 3, 7).canonical());
    assert_eq!(li(0, 0, 1, 2).canonical(), li(0, 0, 2, 4).canonical());
}

#[test]
fn line_isect_unrepresentable() {
    // The crossing of these lines sits at y = 200/199, whose reduced
    // denominator exceeds the coordinate limits, so nothing is
    // reported.
    let a = li(0, 0, 199, 200);
    let b = li(1, 0, 1, 1);
    assert_eq!(a.intersection(b), None);
}
