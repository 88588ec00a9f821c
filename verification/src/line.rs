//! Infinite lines through two points, and the exact line-line
//! intersection at the heart of the kernel.

use crate::point::{pcross, pdot, peq, psub, pwf, Pt, PtF};
use crate::rat::{canon, fadd, feq, fdiv, fmul, fneg, fsub, fwf, representable, Frac, Rat,
    DEN_MAX, NUM_MAX};
use vstd::prelude::*;

verus! {

/// Mathematical model of a line: the two points defining it.
pub ghost struct LineF {
    pub p0: PtF,
    pub p1: PtF,
}

/// Both defining points are well formed.
pub open spec fn lwf(l: LineF) -> bool {
    pwf(l.p0) && pwf(l.p1)
}

/// The zero fraction.
pub open spec fn fzero() -> Frac {
    Frac { n: 0, d: 1 }
}

/// Three points are collinear: the vectors from the first to the other
/// two have a zero cross product.
pub open spec fn collinear(p: PtF, q: PtF, r: PtF) -> bool {
    feq(pcross(psub(q, p), psub(r, p)), fzero())
}

/// A line is degenerate when its two defining points coincide.
pub open spec fn degenerate(l: LineF) -> bool {
    peq(l.p0, l.p1)
}

/// The scaled direction of a line: its direction vector with both
/// components brought over a common positive denominator, numerators
/// only. Parallelism and intersections are decided by these integers.
pub open spec fn li_sdir_x(l: LineF) -> int {
    let vx = crate::rat::fsub(l.p1.x, l.p0.x);
    let vy = crate::rat::fsub(l.p1.y, l.p0.y);
    vx.n * vy.d
}

/// See [`li_sdir_x`].
pub open spec fn li_sdir_y(l: LineF) -> int {
    let vx = crate::rat::fsub(l.p1.x, l.p0.x);
    let vy = crate::rat::fsub(l.p1.y, l.p0.y);
    vy.n * vx.d
}

/// The scaled cross product of the two lines' directions: zero exactly
/// when the lines are parallel (or one is degenerate).
pub open spec fn li_den(a: LineF, b: LineF) -> int {
    li_sdir_x(a) * li_sdir_y(b) - li_sdir_y(a) * li_sdir_x(b)
}

/// The scaled cross product of `b`'s direction with the vector between
/// the two anchor points: the numerator of the intersection parameter.
pub open spec fn li_num(a: LineF, b: LineF) -> int {
    let v2x = crate::rat::fsub(a.p0.x, b.p0.x);
    let v2y = crate::rat::fsub(a.p0.y, b.p0.y);
    li_sdir_x(b) * (v2y.n * v2x.d) - li_sdir_y(b) * (v2x.n * v2y.d)
}

/// The common positive denominator of the anchor difference vector.
pub open spec fn li_v2dd(a: LineF, b: LineF) -> int {
    let v2x = crate::rat::fsub(a.p0.x, b.p0.x);
    let v2y = crate::rat::fsub(a.p0.y, b.p0.y);
    v2x.d * v2y.d
}

/// The denominator shared by both coordinates of the intersection
/// point, before sign adjustment.
pub open spec fn li_ud(a: LineF, b: LineF) -> int {
    li_v2dd(a, b) * li_den(a, b)
}

/// The X coordinate of the intersection point of the two lines, as a
/// fraction: the anchor plus the parameter times the direction.
pub open spec fn li_xf(a: LineF, b: LineF) -> Frac {
    let n = a.p0.x.n * li_ud(a, b) + (li_num(a, b) * li_sdir_x(a)) * a.p0.x.d;
    let d = a.p0.x.d * li_ud(a, b);
    if li_den(a, b) >= 0 {
        Frac { n: n, d: d }
    } else {
        Frac { n: -n, d: -d }
    }
}

/// The Y coordinate of the intersection point of the two lines, as a
/// fraction.
pub open spec fn li_yf(a: LineF, b: LineF) -> Frac {
    let n = a.p0.y.n * li_ud(a, b) + (li_num(a, b) * li_sdir_y(a)) * a.p0.y.d;
    let d = a.p0.y.d * li_ud(a, b);
    if li_den(a, b) >= 0 {
        Frac { n: n, d: d }
    } else {
        Frac { n: -n, d: -d }
    }
}

/// The intersection point of the two lines as a model point, reduced.
pub open spec fn li_pt(a: LineF, b: LineF) -> PtF {
    PtF { x: canon(li_xf(a, b)), y: canon(li_yf(a, b)) }
}

/// Whether both coordinates of the intersection point have reduced
/// forms within the coordinate limits.
pub open spec fn li_fits(a: LineF, b: LineF) -> bool {
    representable(li_xf(a, b)) && representable(li_yf(a, b))
}

/// Outcome of the exact line-line intersection.
pub(crate) enum RawIsect {
    /// The directions' cross product is zero: parallel, coincident or
    /// degenerate; no single intersection point exists.
    Parallel,
    /// A single intersection point exists but a reduced coordinate
    /// exceeds the coordinate limits.
    Unrepresentable,
    /// The single intersection point.
    At(Pt),
}

/// The exact intersection of the line through `a0`, `a1` with the line
/// through `b0`, `b1`.
pub(crate) fn isect_raw(a0: Pt, a1: Pt, b0: Pt, b1: Pt) -> (r: RawIsect)
    ensures
        ({
            let a = LineF { p0: a0@, p1: a1@ };
            let b = LineF { p0: b0@, p1: b1@ };
            &&& (r is Parallel <==> li_den(a, b) == 0)
            &&& (r is Unrepresentable <==> li_den(a, b) != 0 && !li_fits(a, b))
            &&& (r matches RawIsect::At(p) ==> li_den(a, b) != 0 && li_fits(a, b) && p@ == li_pt(
                a,
                b,
            ))
            &&& (li_den(a, b) != 0 && li_fits(a, b) ==> r is At)
        }),
{
    let ghost a = LineF { p0: a0@, p1: a1@ };
    let ghost b = LineF { p0: b0@, p1: b1@ };
    let (axn, axd) = a0.x.parts();
    let (ayn, ayd) = a0.y.parts();
    let (bxn, bxd) = a1.x.parts();
    let (byn, byd) = a1.y.parts();
    let (cxn, cxd) = b0.x.parts();
    let (cyn, cyd) = b0.y.parts();
    let (dxn, dxd) = b1.x.parts();
    let (dyn_, dyd) = b1.y.parts();
    proof {
        lemma_li_bounds_in(
            axn as int, axd as int, ayn as int, ayd as int,
            bxn as int, bxd as int, byn as int, byd as int,
        );
        lemma_li_bounds_in(
            cxn as int, cxd as int, cyn as int, cyd as int,
            dxn as int, dxd as int, dyn_ as int, dyd as int,
        );
        lemma_li_bounds_in(
            axn as int, axd as int, ayn as int, ayd as int,
            cxn as int, cxd as int, cyn as int, cyd as int,
        );
    }
    // Direction of each line, over a common positive denominator.
    let v0xn = (bxn as i128) * (axd as i128) - (axn as i128) * (bxd as i128);
    let v0xd = (bxd as i128) * (axd as i128);
    let v0yn = (byn as i128) * (ayd as i128) - (ayn as i128) * (byd as i128);
    let v0yd = (byd as i128) * (ayd as i128);
    let v1xn = (dxn as i128) * (cxd as i128) - (cxn as i128) * (dxd as i128);
    let v1xd = (dxd as i128) * (cxd as i128);
    let v1yn = (dyn_ as i128) * (cyd as i128) - (cyn as i128) * (dyd as i128);
    let v1yd = (dyd as i128) * (cyd as i128);
    proof {
        lemma_li_bounds_dir(v0xn as int, v0yd as int, v0yn as int, v0xd as int);
        lemma_li_bounds_dir(v1xn as int, v1yd as int, v1yn as int, v1xd as int);
    }
    let sv0x = v0xn * v0yd;
    let sv0y = v0yn * v0xd;
    let sv1x = v1xn * v1yd;
    let sv1y = v1yn * v1xd;
    proof {
        lemma_li_bounds_den(sv0x as int, sv0y as int, sv1x as int, sv1y as int);
    }
    let den = sv0x * sv1y - sv0y * sv1x;
    proof {
        assert(sv0x == li_sdir_x(a) && sv0y == li_sdir_y(a));
        assert(sv1x == li_sdir_x(b) && sv1y == li_sdir_y(b));
        assert(den == li_den(a, b));
    }
    if den == 0 {
        return RawIsect::Parallel;
    }
    // Anchor difference and the intersection parameter numerator.
    let v2xn = (axn as i128) * (cxd as i128) - (cxn as i128) * (axd as i128);
    let v2xd = (axd as i128) * (cxd as i128);
    let v2yn = (ayn as i128) * (cyd as i128) - (cyn as i128) * (ayd as i128);
    let v2yd = (ayd as i128) * (cyd as i128);
    proof {
        lemma_li_bounds_num(
            sv1x as int, sv1y as int, v2xn as int, v2xd as int, v2yn as int, v2yd as int,
        );
    }
    let num = sv1x * (v2yn * v2xd) - sv1y * (v2xn * v2yd);
    let v2dd = v2xd * v2yd;
    proof {
        lemma_li_bounds_out(
            num as int, den as int, v2dd as int,
            sv0x as int, sv0y as int,
            axn as int, axd as int, ayn as int, ayd as int,
        );
    }
    let ud = v2dd * den;
    let xn = (axn as i128) * ud + (num * sv0x) * (axd as i128);
    let xd = (axd as i128) * ud;
    let yn = (ayn as i128) * ud + (num * sv0y) * (ayd as i128);
    let yd = (ayd as i128) * ud;
    proof {
        assert(num == li_num(a, b));
        assert(v2dd == li_v2dd(a, b));
        assert(ud == li_ud(a, b));
    }
    let x = if den > 0 {
        Rat::from_i128(xn, xd)
    } else {
        Rat::from_i128(-xn, -xd)
    };
    let y = if den > 0 {
        Rat::from_i128(yn, yd)
    } else {
        Rat::from_i128(-yn, -yd)
    };
    match (x, y) {
        (Some(x), Some(y)) => RawIsect::At(Pt { x, y }),
        _ => RawIsect::Unrepresentable,
    }
}

/// Line of infinite length through two points.
#[derive(Clone, Copy, Debug)]
pub struct Line {
    p0: Pt,
    p1: Pt,
}

impl View for Line {
    type V = LineF;

    closed spec fn view(&self) -> LineF {
        LineF { p0: self.p0@, p1: self.p1@ }
    }
}

impl PartialEq for Line {
    /// Lines compare equal exactly when their defining points do, in
    /// order; geometric equality of infinite lines goes through
    /// [`Line::canonical`] instead.
    fn eq(&self, other: &Line) -> (r: bool) {
        self.p0 == other.p0 && self.p1 == other.p1
    }
}

impl vstd::std_specs::cmp::PartialEqSpecImpl for Line {
    open spec fn obeys_eq_spec() -> bool {
        true
    }

    open spec fn eq_spec(&self, other: &Line) -> bool {
        peq(self@.p0, other@.p0) && peq(self@.p1, other@.p1)
    }
}

impl Line {
    /// Create a new line through two points.
    pub fn new(p0: Pt, p1: Pt) -> (r: Line)
        ensures
            r@ == (LineF { p0: p0@, p1: p1@ }),
    {
        Line { p0, p1 }
    }

    /// Get the point where two lines intersect: the single point on
    /// both lines, and provably collinear with the defining points of
    /// each. `None` when the lines are parallel or coincident — never
    /// a point for them, by design — and when a reduced coordinate of
    /// the point exceeds the coordinate limits.
    pub fn intersection(self, rhs: Line) -> (r: Option<Pt>)
        ensures
            r is Some <==> li_den(self@, rhs@) != 0 && li_fits(self@, rhs@),
            r matches Some(p) ==> p@ == li_pt(self@, rhs@) && collinear(self@.p0, self@.p1, p@)
                && collinear(rhs@.p0, rhs@.p1, p@),
    {
        proof {
            use_type_invariant(self.p0.x);
            use_type_invariant(self.p0.y);
            use_type_invariant(self.p1.x);
            use_type_invariant(self.p1.y);
            use_type_invariant(rhs.p0.x);
            use_type_invariant(rhs.p0.y);
            use_type_invariant(rhs.p1.x);
            use_type_invariant(rhs.p1.y);
            self.p0.x.lemma_wf();
            self.p0.y.lemma_wf();
            self.p1.x.lemma_wf();
            self.p1.y.lemma_wf();
            rhs.p0.x.lemma_wf();
            rhs.p0.y.lemma_wf();
            rhs.p1.x.lemma_wf();
            rhs.p1.y.lemma_wf();
            if li_den(self@, rhs@) != 0 {
                lemma_isect_on_line(self@, rhs@);
                lemma_isect_on_second(self@, rhs@);
            }
        }
        match isect_raw(self.p0, self.p1, rhs.p0, rhs.p1) {
            RawIsect::At(p) => Some(p),
            _ => None,
        }
    }
}

/// The squared distance from a line to a point: the squared cross
/// product of direction and offset over the squared direction length.
pub open spec fn spec_line_dist_sq(l: LineF, p: PtF) -> Frac {
    let v = psub(l.p1, l.p0);
    let w = psub(p, l.p0);
    fdiv(fmul(pcross(v, w), pcross(v, w)), pdot(v, v))
}

/// Whether the squared line-point distance and its two reduced
/// intermediate values all fit within the coordinate limits.
pub open spec fn spec_line_dist_ok(l: LineF, p: PtF) -> bool {
    let v = psub(l.p1, l.p0);
    let w = psub(p, l.p0);
    &&& representable(pcross(v, w))
    &&& representable(pdot(v, v))
    &&& representable(spec_line_dist_sq(l, p))
}

/// The projection of a point onto a line: intersect the line with the
/// perpendicular through the point, built from the reduced direction
/// vector. `None` when an auxiliary value or
/// a coordinate of the result exceeds the coordinate limits.
pub open spec fn spec_project(l: LineF, p: PtF) -> Option<PtF> {
    let vxf = fsub(l.p1.x, l.p0.x);
    let vyf = fsub(l.p1.y, l.p0.y);
    if !representable(vxf) || !representable(vyf) {
        None
    } else {
        let qx = fadd(p.x, canon(vyf));
        let qy = fadd(p.y, fneg(canon(vxf)));
        if !representable(qx) || !representable(qy) {
            None
        } else {
            let m = LineF { p0: p, p1: PtF { x: canon(qx), y: canon(qy) } };
            if li_den(l, m) != 0 && li_fits(l, m) {
                Some(li_pt(l, m))
            } else {
                None
            }
        }
    }
}

/// The reference line `x = 0`.
pub open spec fn ref_x0() -> LineF {
    LineF {
        p0: PtF { x: Frac { n: 0, d: 1 }, y: Frac { n: 0, d: 1 } },
        p1: PtF { x: Frac { n: 0, d: 1 }, y: Frac { n: 1, d: 1 } },
    }
}

/// The reference line `x = 1`.
pub open spec fn ref_x1() -> LineF {
    LineF {
        p0: PtF { x: Frac { n: 1, d: 1 }, y: Frac { n: 0, d: 1 } },
        p1: PtF { x: Frac { n: 1, d: 1 }, y: Frac { n: 1, d: 1 } },
    }
}

/// The reference line `y = 0`.
pub open spec fn ref_y0() -> LineF {
    LineF {
        p0: PtF { x: Frac { n: 0, d: 1 }, y: Frac { n: 0, d: 1 } },
        p1: PtF { x: Frac { n: 1, d: 1 }, y: Frac { n: 0, d: 1 } },
    }
}

/// The reference line `y = 1`.
pub open spec fn ref_y1() -> LineF {
    LineF {
        p0: PtF { x: Frac { n: 0, d: 1 }, y: Frac { n: 1, d: 1 } },
        p1: PtF { x: Frac { n: 1, d: 1 }, y: Frac { n: 1, d: 1 } },
    }
}

/// Re-anchoring during canonicalization: the first canonical point with
/// the line's crossing of one more reference line.
pub open spec fn spec_canon_anchor(l: LineF, p0: PtF, rl: LineF) -> Option<LineF> {
    if li_den(l, rl) != 0 && li_fits(l, rl) {
        Some(LineF { p0, p1: li_pt(l, rl) })
    } else {
        None
    }
}

/// The canonical form of a line: anchor it at its crossings with the
/// fixed reference lines `x = 0` and `y = 0`; a line through the origin
/// re-anchors at `x = 1`, a horizontal line at `x = 1`, a vertical line
/// at `y = 1`. `None` when a crossing's reduced coordinate exceeds the
/// coordinate limits.
pub open spec fn spec_canonical(l: LineF) -> Option<LineF> {
    if li_den(l, ref_x0()) != 0 {
        if li_fits(l, ref_x0()) {
            let p0 = li_pt(l, ref_x0());
            if li_den(l, ref_y0()) != 0 {
                if li_fits(l, ref_y0()) {
                    let p1 = li_pt(l, ref_y0());
                    if peq(p0, p1) {
                        spec_canon_anchor(l, p0, ref_x1())
                    } else {
                        Some(LineF { p0, p1 })
                    }
                } else {
                    None
                }
            } else {
                spec_canon_anchor(l, p0, ref_x1())
            }
        } else {
            None
        }
    } else {
        if li_den(l, ref_y0()) != 0 {
            if li_fits(l, ref_y0()) {
                spec_canon_anchor(l, li_pt(l, ref_y0()), ref_y1())
            } else {
                None
            }
        } else {
            None
        }
    }
}

impl Line {
    /// Get the squared distance from the line to a point, exactly.
    /// `None` when a reduced intermediate or the result exceeds the
    /// coordinate limits.
    pub fn distance_sq(self, pt: Pt) -> (r: Option<Rat>)
        requires
            !degenerate(self@),
        ensures
            r is Some <==> spec_line_dist_ok(self@, pt@),
            r matches Some(q) ==> q@ == canon(spec_line_dist_sq(self@, pt@)),
    {
        line_dist_sq_raw(self.p0, self.p1, pt)
    }

    /// Project a point onto the line: the point on the line nearest to
    /// the given point, found by intersecting with the perpendicular
    /// through it; the result provably lies on the line. `None` when an
    /// auxiliary value or a coordinate of the result exceeds the
    /// coordinate limits.
    pub fn project(self, pt: Pt) -> (r: Option<Pt>)
        requires
            !degenerate(self@),
        ensures
            r is Some <==> spec_project(self@, pt@) is Some,
            r matches Some(p) ==> p@ == spec_project(self@, pt@).unwrap() && collinear(
                self@.p0,
                self@.p1,
                p@,
            ),
    {
        let v = match self.p1.sub(self.p0) {
            Some(v) => v,
            None => {
                return None;
            },
        };
        let perp = v.right();
        let q = match pt.add(perp) {
            Some(q) => q,
            None => {
                return None;
            },
        };
        proof {
            use_type_invariant(self.p0.x);
            use_type_invariant(self.p0.y);
            use_type_invariant(self.p1.x);
            use_type_invariant(self.p1.y);
            use_type_invariant(pt.x);
            use_type_invariant(pt.y);
            use_type_invariant(q.x);
            use_type_invariant(q.y);
            self.p0.x.lemma_wf();
            self.p0.y.lemma_wf();
            self.p1.x.lemma_wf();
            self.p1.y.lemma_wf();
            pt.x.lemma_wf();
            pt.y.lemma_wf();
            q.x.lemma_wf();
            q.y.lemma_wf();
            let m = LineF { p0: pt@, p1: q@ };
            if li_den(self@, m) != 0 {
                lemma_isect_on_line(self@, m);
            }
        }
        match isect_raw(self.p0, self.p1, pt, q) {
            RawIsect::At(p) => Some(p),
            _ => None,
        }
    }

    /// Make the canonical line: two canonical lines can be compared for
    /// equality to decide whether they describe the same infinite line.
    /// Both points of the canonical form lie on this line. `None` when
    /// a crossing's reduced coordinate exceeds the coordinate limits.
    pub fn canonical(self) -> (r: Option<Line>)
        requires
            !degenerate(self@),
        ensures
            r is Some <==> spec_canonical(self@) is Some,
            r matches Some(c) ==> c@ == spec_canonical(self@).unwrap(),
            r matches Some(c) ==> collinear(self@.p0, self@.p1, c@.p0) && collinear(
                self@.p0,
                self@.p1,
                c@.p1,
            ),
    {
        let rx0 = Line::new(Pt::from_int(0, 0), Pt::from_int(0, 1));
        let rx1 = Line::new(Pt::from_int(1, 0), Pt::from_int(1, 1));
        let ry0 = Line::new(Pt::from_int(0, 0), Pt::from_int(1, 0));
        let ry1 = Line::new(Pt::from_int(0, 1), Pt::from_int(1, 1));
        proof {
            assert(rx0@ == ref_x0());
            assert(rx1@ == ref_x1());
            assert(ry0@ == ref_y0());
            assert(ry1@ == ref_y1());
            use_type_invariant(self.p0.x);
            use_type_invariant(self.p0.y);
            use_type_invariant(self.p1.x);
            use_type_invariant(self.p1.y);
            self.p0.x.lemma_wf();
            self.p0.y.lemma_wf();
            self.p1.x.lemma_wf();
            self.p1.y.lemma_wf();
            if li_den(self@, ref_x0()) != 0 {
                lemma_isect_on_line(self@, ref_x0());
            }
            if li_den(self@, ref_x1()) != 0 {
                lemma_isect_on_line(self@, ref_x1());
            }
            if li_den(self@, ref_y0()) != 0 {
                lemma_isect_on_line(self@, ref_y0());
            }
            if li_den(self@, ref_y1()) != 0 {
                lemma_isect_on_line(self@, ref_y1());
            }
        }
        match isect_raw(self.p0, self.p1, rx0.p0, rx0.p1) {
            RawIsect::At(p0) => match isect_raw(self.p0, self.p1, ry0.p0, ry0.p1) {
                RawIsect::At(p1) => {
                    if p0 == p1 {
                        // the line passes through the origin
                        match isect_raw(self.p0, self.p1, rx1.p0, rx1.p1) {
                            RawIsect::At(q) => Some(Line::new(p0, q)),
                            _ => None,
                        }
                    } else {
                        Some(Line::new(p0, p1))
                    }
                },
                RawIsect::Parallel => {
                    // horizontal: re-anchor at x = 1
                    match isect_raw(self.p0, self.p1, rx1.p0, rx1.p1) {
                        RawIsect::At(q) => Some(Line::new(p0, q)),
                        _ => None,
                    }
                },
                RawIsect::Unrepresentable => None,
            },
            RawIsect::Parallel => {
                // vertical: anchor at y = 0 and y = 1
                match isect_raw(self.p0, self.p1, ry0.p0, ry0.p1) {
                    RawIsect::At(p0) => match isect_raw(self.p0, self.p1, ry1.p0, ry1.p1) {
                        RawIsect::At(q) => Some(Line::new(p0, q)),
                        _ => None,
                    },
                    _ => None,
                }
            },
            RawIsect::Unrepresentable => None,
        }
    }
}

/// The exact squared distance from the line through `p0`, `p1` to
/// `pt`, with the cross product and squared length reduced on the way.
pub(crate) fn line_dist_sq_raw(p0: Pt, p1: Pt, pt: Pt) -> (r: Option<Rat>)
    requires
        !peq(p0@, p1@),
    ensures
        ({
            let l = LineF { p0: p0@, p1: p1@ };
            &&& (r is Some <==> spec_line_dist_ok(l, pt@))
            &&& (r matches Some(q) ==> q@ == canon(spec_line_dist_sq(l, pt@)))
        }),
{
    let ghost l = LineF { p0: p0@, p1: p1@ };
    let ghost vf = psub(l.p1, l.p0);
    let ghost wf = psub(pt@, l.p0);
    let (axn, axd) = p0.x.parts();
    let (ayn, ayd) = p0.y.parts();
    let (bxn, bxd) = p1.x.parts();
    let (byn, byd) = p1.y.parts();
    let (cxn, cxd) = pt.x.parts();
    let (cyn, cyd) = pt.y.parts();
    proof {
        lemma_li_bounds_in(
            axn as int, axd as int, ayn as int, ayd as int,
            bxn as int, bxd as int, byn as int, byd as int,
        );
        lemma_li_bounds_in(
            axn as int, axd as int, ayn as int, ayd as int,
            cxn as int, cxd as int, cyn as int, cyd as int,
        );
    }
    let vxn = (bxn as i128) * (axd as i128) - (axn as i128) * (bxd as i128);
    let vxd = (bxd as i128) * (axd as i128);
    let vyn = (byn as i128) * (ayd as i128) - (ayn as i128) * (byd as i128);
    let vyd = (byd as i128) * (ayd as i128);
    let wxn = (cxn as i128) * (axd as i128) - (axn as i128) * (cxd as i128);
    let wxd = (cxd as i128) * (axd as i128);
    let wyn = (cyn as i128) * (ayd as i128) - (ayn as i128) * (cyd as i128);
    let wyd = (cyd as i128) * (ayd as i128);
    proof {
        lemma_ld_bounds(
            vxn as int, vxd as int, vyn as int, vyd as int,
            wxn as int, wxd as int, wyn as int, wyd as int,
        );
    }
    let crn = vxn * wyn * (vyd * wxd) - vyn * wxn * (vxd * wyd);
    let crd = vxd * wyd * (vyd * wxd);
    let vvn = vxn * vxn * (vyd * vyd) + vyn * vyn * (vxd * vxd);
    let vvd = vxd * vxd * (vyd * vyd);
    proof {
        assert(crn == pcross(vf, wf).n && crd == pcross(vf, wf).d);
        assert(vvn == pdot(vf, vf).n && vvd == pdot(vf, vf).d);
        lemma_dot_self_pos(vf);
    }
    let c = match Rat::from_i128(crn, crd) {
        Some(c) => c,
        None => {
            return None;
        },
    };
    let v = match Rat::from_i128(vvn, vvd) {
        Some(v) => v,
        None => {
            return None;
        },
    };
    proof {
        crate::rat::lemma_canon_parts(pdot(vf, vf));
        crate::rat::lemma_feq_sign(v@, pdot(vf, vf));
        crate::rat::lemma_canon_parts(pcross(vf, wf));
    }
    let (cn, cd) = c.parts();
    let (vn, vd) = v.parts();
    proof {
        lemma_ld_final_bounds(cn as int, cd as int, vn as int, vd as int);
    }
    let n = ((cn as i128) * (cn as i128)) * (vd as i128);
    let d = ((cd as i128) * (cd as i128)) * (vn as i128);
    let r = Rat::from_i128(n, d);
    proof {
        let raw = Frac { n: n as int, d: d as int };
        assert(raw == fdiv(fmul(c@, c@), v@));
        crate::rat::lemma_fmul_congr(c@, c@, pcross(vf, wf), pcross(vf, wf));
        assert(fmul(pcross(vf, wf), pcross(vf, wf)).d >= 1) by (nonlinear_arith)
            requires
                pcross(vf, wf).d >= 1,
        ;
        assert(fmul(c@, c@).d >= 1) by (nonlinear_arith)
            requires
                c@.d >= 1,
        ;
        assert(fdiv(fmul(pcross(vf, wf), pcross(vf, wf)), pdot(vf, vf)).d >= 1)
            by (nonlinear_arith)
            requires
                fmul(pcross(vf, wf), pcross(vf, wf)).d >= 1,
                pdot(vf, vf).n >= 1,
        ;
        crate::rat::lemma_fdiv_congr(
            fmul(c@, c@),
            v@,
            fmul(pcross(vf, wf), pcross(vf, wf)),
            pdot(vf, vf),
        );
        crate::rat::lemma_representable_same(raw, spec_line_dist_sq(l, pt@));
        if r is Some {
            crate::rat::lemma_canon_unique(raw, spec_line_dist_sq(l, pt@));
        }
    }
    r
}

/// The squared length of a nonzero vector is positive: a scaled sum of
/// squares with at least one nonzero term.
proof fn lemma_dot_self_pos(v: PtF)
    by (nonlinear_arith)
    requires
        pwf(v),
        v.x.n != 0 || v.y.n != 0,
    ensures
        pdot(v, v).n > 0,
        pdot(v, v).d > 0,
{
}

/// Bounds for the cross and dot products of two difference vectors.
proof fn lemma_ld_bounds(
    vxn: int, vxd: int, vyn: int, vyd: int,
    wxn: int, wxd: int, wyn: int, wyd: int,
)
    by (nonlinear_arith)
    requires
        -0x2000000 <= vxn <= 0x2000000,
        -0x2000000 <= vyn <= 0x2000000,
        -0x2000000 <= wxn <= 0x2000000,
        -0x2000000 <= wyn <= 0x2000000,
        1 <= vxd <= 0x4000,
        1 <= vyd <= 0x4000,
        1 <= wxd <= 0x4000,
        1 <= wyd <= 0x4000,
    ensures
        -0x4000000000000 <= vxn * wyn <= 0x4000000000000,
        -0x4000000000000 <= vyn * wxn <= 0x4000000000000,
        -0x4000000000000 <= vxn * vxn <= 0x4000000000000,
        -0x4000000000000 <= vyn * vyn <= 0x4000000000000,
        1 <= vyd * wxd <= 0x10000000,
        1 <= vxd * wyd <= 0x10000000,
        1 <= vyd * vyd <= 0x10000000,
        1 <= vxd * vxd <= 0x10000000,
        -0x40000000000000000000 <= vxn * wyn * (vyd * wxd) <= 0x40000000000000000000,
        -0x40000000000000000000 <= vyn * wxn * (vxd * wyd) <= 0x40000000000000000000,
        -0x40000000000000000000 <= vxn * vxn * (vyd * vyd) <= 0x40000000000000000000,
        -0x40000000000000000000 <= vyn * vyn * (vxd * vxd) <= 0x40000000000000000000,
        1 <= vxd * wyd * (vyd * wxd) <= 0x100000000000000,
        1 <= vxd * vxd * (vyd * vyd) <= 0x100000000000000,
{
}

/// Bounds for the final quotient of the squared distance.
proof fn lemma_ld_final_bounds(cn: int, cd: int, vn: int, vd: int)
    by (nonlinear_arith)
    requires
        -NUM_MAX <= cn <= NUM_MAX,
        1 <= cd <= DEN_MAX,
        1 <= vn <= NUM_MAX,
        1 <= vd <= DEN_MAX,
    ensures
        -0x400000000 <= cn * cn <= 0x400000000,
        1 <= cd * cd <= 0x4000,
        -0x20000000000 <= (cn * cn) * vd <= 0x20000000000,
        1 <= (cd * cd) * vn <= 0x80000000,
{
}

/// When the lines are not parallel, the intersection coordinates are
/// well-formed fractions, and the intersection point carries their
/// reduced values.
pub proof fn lemma_li_wf(a: LineF, b: LineF)
    requires
        lwf(a),
        lwf(b),
        li_den(a, b) != 0,
    ensures
        fwf(li_xf(a, b)),
        fwf(li_yf(a, b)),
        pwf(li_pt(a, b)),
        feq(li_pt(a, b).x, li_xf(a, b)),
        feq(li_pt(a, b).y, li_yf(a, b)),
{
    let den = li_den(a, b);
    let v2x = fsub(a.p0.x, b.p0.x);
    let v2y = fsub(a.p0.y, b.p0.y);
    assert(v2x.d > 0 && v2y.d > 0) by (nonlinear_arith)
        requires
            a.p0.x.d > 0,
            b.p0.x.d > 0,
            a.p0.y.d > 0,
            b.p0.y.d > 0,
            v2x.d == a.p0.x.d * b.p0.x.d,
            v2y.d == a.p0.y.d * b.p0.y.d,
    ;
    assert(li_v2dd(a, b) > 0) by (nonlinear_arith)
        requires
            v2x.d > 0,
            v2y.d > 0,
            li_v2dd(a, b) == v2x.d * v2y.d,
    ;
    let ud = li_ud(a, b);
    assert((den > 0 ==> ud > 0) && (den < 0 ==> ud < 0)) by (nonlinear_arith)
        requires
            li_v2dd(a, b) > 0,
            ud == li_v2dd(a, b) * den,
    ;
    assert((den > 0 ==> a.p0.x.d * ud > 0 && a.p0.y.d * ud > 0) && (den < 0 ==> a.p0.x.d * ud < 0
        && a.p0.y.d * ud < 0)) by (nonlinear_arith)
        requires
            a.p0.x.d > 0,
            a.p0.y.d > 0,
            (den > 0 ==> ud > 0) && (den < 0 ==> ud < 0),
    ;
    crate::rat::lemma_canon_parts(li_xf(a, b));
    crate::rat::lemma_canon_parts(li_yf(a, b));
}

/// The intersection point lies on the first line: the vector from the
/// line's anchor to the point is parallel to the line's direction.
pub proof fn lemma_isect_on_line(a: LineF, b: LineF)
    requires
        lwf(a),
        lwf(b),
        li_den(a, b) != 0,
    ensures
        collinear(a.p0, a.p1, li_pt(a, b)),
{
    let num = li_num(a, b);
    let ud = li_ud(a, b);
    let sdx = li_sdir_x(a);
    let sdy = li_sdir_y(a);
    let an = a.p0.x.n;
    let ad = a.p0.x.d;
    let bn = a.p0.y.n;
    let bd = a.p0.y.d;
    let vx = fsub(a.p1.x, a.p0.x);
    let vy = fsub(a.p1.y, a.p0.y);
    crate::line::lemma_li_wf(a, b);
    assert(ud != 0) by (nonlinear_arith)
        requires
            li_xf(a, b).d == a.p0.x.d * ud || li_xf(a, b).d == -(a.p0.x.d * ud),
            fwf(li_xf(a, b)),
            a.p0.x.d > 0,
    ;
    // The unflipped fraction pair stands for the same coordinate as
    // the sign-adjusted one.
    let xn = an * ud + (num * sdx) * ad;
    let xd = ad * ud;
    let yn = bn * ud + (num * sdy) * bd;
    let yd = bd * ud;
    let xf0 = Frac { n: xn, d: xd };
    let yf0 = Frac { n: yn, d: yd };
    assert(feq(li_xf(a, b), xf0) && feq(li_yf(a, b), yf0)) by (nonlinear_arith)
        requires
            li_xf(a, b) == xf0 || li_xf(a, b) == (Frac { n: -xn, d: -xd }),
            li_yf(a, b) == yf0 || li_yf(a, b) == (Frac { n: -yn, d: -yd }),
            xf0 == (Frac { n: xn, d: xd }),
            yf0 == (Frac { n: yn, d: yd }),
    ;
    let p0f = PtF { x: xf0, y: yf0 };
    // The offset from the anchor to the unflipped point is the
    // direction scaled by the intersection parameter.
    let w = psub(p0f, a.p0);
    assert(w.x.n == (num * sdx) * (ad * ad)) by (nonlinear_arith)
        requires
            w.x.n == xn * ad - an * xd,
            xn == an * ud + (num * sdx) * ad,
            xd == ad * ud,
    ;
    assert(w.y.n == (num * sdy) * (bd * bd)) by (nonlinear_arith)
        requires
            w.y.n == yn * bd - bn * yd,
            yn == bn * ud + (num * sdy) * bd,
            yd == bd * ud,
    ;
    assert(w.x.d == xd * ad && w.y.d == yd * bd);
    let ws = PtF { x: Frac { n: num * sdx, d: ud }, y: Frac { n: num * sdy, d: ud } };
    assert(feq(w.x, ws.x)) by (nonlinear_arith)
        requires
            w.x.n == (num * sdx) * (ad * ad),
            w.x.d == (ad * ud) * ad,
            ws.x == (Frac { n: num * sdx, d: ud }),
    ;
    assert(feq(w.y, ws.y)) by (nonlinear_arith)
        requires
            w.y.n == (num * sdy) * (bd * bd),
            w.y.d == (bd * ud) * bd,
            ws.y == (Frac { n: num * sdy, d: ud }),
    ;
    // Crossed with the direction, the scaled offset cancels exactly.
    let cr = pcross(psub(a.p1, a.p0), ws);
    assert(cr.n == (vx.n * (num * sdy)) * (vy.d * ud) - (vy.n * (num * sdx)) * (vx.d * ud));
    assert((vx.n * (num * sdy)) * (vy.d * ud) == ((num * ud) * (vx.n * vy.d)) * (vy.n * vx.d))
        by (nonlinear_arith)
        requires
            sdy == vy.n * vx.d,
    ;
    assert((vy.n * (num * sdx)) * (vx.d * ud) == ((num * ud) * (vx.n * vy.d)) * (vy.n * vx.d))
        by (nonlinear_arith)
        requires
            sdx == vx.n * vy.d,
    ;
    assert(cr.n == 0);
    // The same holds of the reduced point, because the cross product
    // respects equality of the coordinates.
    let p = li_pt(a, b);
    let wp = psub(p, a.p0);
    assert(xf0.d != 0 && yf0.d != 0) by (nonlinear_arith)
        requires
            xf0.d == ad * ud,
            yf0.d == bd * ud,
            ad > 0,
            bd > 0,
            ud != 0,
    ;
    assert(w.x.d != 0 && w.y.d != 0) by (nonlinear_arith)
        requires
            w.x.d == (ad * ud) * ad,
            w.y.d == (bd * ud) * bd,
            ad > 0,
            bd > 0,
            ud != 0,
    ;
    crate::rat::lemma_feq_trans_nz(p.x, li_xf(a, b), xf0);
    crate::rat::lemma_feq_trans_nz(p.y, li_yf(a, b), yf0);
    crate::point::lemma_psub_congr(p, a.p0, p0f, a.p0);
    assert(feq(wp.x, ws.x)) by {
        crate::rat::lemma_feq_trans_nz(wp.x, w.x, ws.x);
    }
    assert(feq(wp.y, ws.y)) by {
        crate::rat::lemma_feq_trans_nz(wp.y, w.y, ws.y);
    }
    crate::point::lemma_pcross_congr(psub(a.p1, a.p0), wp, psub(a.p1, a.p0), ws);
    let crp = pcross(psub(a.p1, a.p0), wp);
    assert(vx.d > 0 && vy.d > 0) by (nonlinear_arith)
        requires
            vx.d == a.p1.x.d * a.p0.x.d,
            vy.d == a.p1.y.d * a.p0.y.d,
            a.p1.x.d > 0,
            a.p0.x.d > 0,
            a.p1.y.d > 0,
            a.p0.y.d > 0,
    ;
    assert(cr.d != 0) by (nonlinear_arith)
        requires
            cr.d == (vx.d * ud) * (vy.d * ud),
            vx.d > 0,
            vy.d > 0,
            ud != 0,
    ;
    assert(crp.n * cr.d == cr.n * crp.d);
    assert(crp.n == 0) by (nonlinear_arith)
        requires
            crp.n * cr.d == 0,
            cr.d != 0,
    ;
}

/// The intersection point lies on the second line as well: together
/// with [`lemma_isect_on_line`] it is the single point on both lines.
pub proof fn lemma_isect_on_second(a: LineF, b: LineF)
    requires
        lwf(a),
        lwf(b),
        li_den(a, b) != 0,
    ensures
        collinear(b.p0, b.p1, li_pt(a, b)),
{
    let num = li_num(a, b);
    let den = li_den(a, b);
    let ud = li_ud(a, b);
    let sdx = li_sdir_x(a);
    let sdy = li_sdir_y(a);
    let an = a.p0.x.n;
    let ad = a.p0.x.d;
    let bn = a.p0.y.n;
    let bd = a.p0.y.d;
    let exn = b.p0.x.n;
    let exd = b.p0.x.d;
    let eyn = b.p0.y.n;
    let eyd = b.p0.y.d;
    let ux = fsub(b.p1.x, b.p0.x);
    let uy = fsub(b.p1.y, b.p0.y);
    let sv1x = li_sdir_x(b);
    let sv1y = li_sdir_y(b);
    let v2x = fsub(a.p0.x, b.p0.x);
    let v2y = fsub(a.p0.y, b.p0.y);
    let v2dd = li_v2dd(a, b);
    crate::line::lemma_li_wf(a, b);
    assert(ud != 0) by (nonlinear_arith)
        requires
            li_xf(a, b).d == a.p0.x.d * ud || li_xf(a, b).d == -(a.p0.x.d * ud),
            fwf(li_xf(a, b)),
            a.p0.x.d > 0,
    ;
    let xn = an * ud + (num * sdx) * ad;
    let xd = ad * ud;
    let yn = bn * ud + (num * sdy) * bd;
    let yd = bd * ud;
    let xf0 = Frac { n: xn, d: xd };
    let yf0 = Frac { n: yn, d: yd };
    assert(feq(li_xf(a, b), xf0) && feq(li_yf(a, b), yf0)) by (nonlinear_arith)
        requires
            li_xf(a, b) == xf0 || li_xf(a, b) == (Frac { n: -xn, d: -xd }),
            li_yf(a, b) == yf0 || li_yf(a, b) == (Frac { n: -yn, d: -yd }),
            xf0 == (Frac { n: xn, d: xd }),
            yf0 == (Frac { n: yn, d: yd }),
    ;
    let p0f = PtF { x: xf0, y: yf0 };
    // The offset from the second line's anchor: the anchor difference
    // plus the scaled direction of the first line.
    let w = psub(p0f, b.p0);
    let k2 = ud * v2x.n + (num * sdx) * v2x.d;
    let k1 = ud * v2y.n + (num * sdy) * v2y.d;
    assert((an * ud + (num * sdx) * ad) * exd == (an * ud) * exd + ((num * sdx) * ad) * exd)
        by (nonlinear_arith);
    assert((an * ud) * exd - exn * (ad * ud) == ud * (an * exd - exn * ad)) by (nonlinear_arith);
    assert(((num * sdx) * ad) * exd == (num * sdx) * (ad * exd)) by (nonlinear_arith);
    assert(w.x.n == k2);
    assert((bn * ud + (num * sdy) * bd) * eyd == (bn * ud) * eyd + ((num * sdy) * bd) * eyd)
        by (nonlinear_arith);
    assert((bn * ud) * eyd - eyn * (bd * ud) == ud * (bn * eyd - eyn * bd)) by (nonlinear_arith);
    assert(((num * sdy) * bd) * eyd == (num * sdy) * (bd * eyd)) by (nonlinear_arith);
    assert(w.y.n == k1);
    let wsx = Frac { n: k2, d: v2x.d * ud };
    let wsy = Frac { n: k1, d: v2y.d * ud };
    assert(w.x.d == wsx.d) by (nonlinear_arith)
        requires
            w.x.d == (ad * ud) * exd,
            wsx.d == (ad * exd) * ud,
    ;
    assert(w.y.d == wsy.d) by (nonlinear_arith)
        requires
            w.y.d == (bd * ud) * eyd,
            wsy.d == (bd * eyd) * ud,
    ;
    let ws = PtF { x: wsx, y: wsy };
    assert(w == ws);
    // Crossed with the second direction, the anchor part yields the
    // parameter numerator and the scaled part cancels it.
    let cr = pcross(psub(b.p1, b.p0), ws);
    assert(cr.n == (ux.n * k1) * (uy.d * (v2x.d * ud)) - (uy.n * k2) * (ux.d * (v2y.d * ud)));
    assert((ux.n * k1) * (uy.d * (v2x.d * ud)) == (sv1x * (v2x.d * ud)) * k1) by (nonlinear_arith)
        requires
            sv1x == ux.n * uy.d,
    ;
    assert((uy.n * k2) * (ux.d * (v2y.d * ud)) == (sv1y * (v2y.d * ud)) * k2) by (nonlinear_arith)
        requires
            sv1y == uy.n * ux.d,
    ;
    assert((sv1x * (v2x.d * ud)) * k1 == (sv1x * (v2x.d * ud)) * (ud * v2y.n) + (sv1x * (v2x.d
        * ud)) * ((num * sdy) * v2y.d)) by (nonlinear_arith)
        requires
            k1 == ud * v2y.n + (num * sdy) * v2y.d,
    ;
    assert((sv1y * (v2y.d * ud)) * k2 == (sv1y * (v2y.d * ud)) * (ud * v2x.n) + (sv1y * (v2y.d
        * ud)) * ((num * sdx) * v2x.d)) by (nonlinear_arith)
        requires
            k2 == ud * v2x.n + (num * sdx) * v2x.d,
    ;
    assert((sv1x * (v2x.d * ud)) * (ud * v2y.n) == (ud * ud) * (sv1x * (v2y.n * v2x.d)))
        by (nonlinear_arith);
    assert((sv1y * (v2y.d * ud)) * (ud * v2x.n) == (ud * ud) * (sv1y * (v2x.n * v2y.d)))
        by (nonlinear_arith);
    assert((ud * ud) * (sv1x * (v2y.n * v2x.d)) - (ud * ud) * (sv1y * (v2x.n * v2y.d)) == (ud
        * ud) * num) by (nonlinear_arith)
        requires
            num == sv1x * (v2y.n * v2x.d) - sv1y * (v2x.n * v2y.d),
    ;
    assert((sv1x * (v2x.d * ud)) * ((num * sdy) * v2y.d) == (num * ud) * ((v2x.d * v2y.d) * (sdy
        * sv1x))) by (nonlinear_arith);
    assert((sv1y * (v2y.d * ud)) * ((num * sdx) * v2x.d) == (num * ud) * ((v2x.d * v2y.d) * (sdx
        * sv1y))) by (nonlinear_arith);
    assert((num * ud) * ((v2x.d * v2y.d) * (sdy * sv1x)) - (num * ud) * ((v2x.d * v2y.d) * (sdx
        * sv1y)) == (num * ud) * ((v2x.d * v2y.d) * ((sdy * sv1x) - (sdx * sv1y))))
        by (nonlinear_arith);
    assert((sdy * sv1x) - (sdx * sv1y) == -den);
    assert((num * ud) * ((v2x.d * v2y.d) * (-den)) == -((ud * ud) * num)) by (nonlinear_arith)
        requires
            ud == (v2x.d * v2y.d) * den,
    ;
    assert(ud == (v2x.d * v2y.d) * den);
    assert(cr.n == 0);
    // Transfer to the reduced point through coordinate equality.
    let p = li_pt(a, b);
    let wp = psub(p, b.p0);
    assert(xf0.d != 0 && yf0.d != 0) by (nonlinear_arith)
        requires
            xf0.d == ad * ud,
            yf0.d == bd * ud,
            ad > 0,
            bd > 0,
            ud != 0,
    ;
    crate::rat::lemma_feq_trans_nz(p.x, li_xf(a, b), xf0);
    crate::rat::lemma_feq_trans_nz(p.y, li_yf(a, b), yf0);
    crate::point::lemma_psub_congr(p, b.p0, p0f, b.p0);
    crate::point::lemma_pcross_congr(psub(b.p1, b.p0), wp, psub(b.p1, b.p0), ws);
    let crp = pcross(psub(b.p1, b.p0), wp);
    assert(ux.d > 0 && uy.d > 0 && v2x.d > 0 && v2y.d > 0) by (nonlinear_arith)
        requires
            ux.d == b.p1.x.d * b.p0.x.d,
            uy.d == b.p1.y.d * b.p0.y.d,
            v2x.d == a.p0.x.d * b.p0.x.d,
            v2y.d == a.p0.y.d * b.p0.y.d,
            a.p0.x.d > 0,
            a.p0.y.d > 0,
            b.p1.x.d > 0,
            b.p0.x.d > 0,
            b.p1.y.d > 0,
            b.p0.y.d > 0,
    ;
    assert(cr.d != 0) by (nonlinear_arith)
        requires
            cr.d == (ux.d * (v2y.d * ud)) * (uy.d * (v2x.d * ud)),
            ux.d > 0,
            uy.d > 0,
            v2x.d > 0,
            v2y.d > 0,
            ud != 0,
    ;
    assert(crp.n * cr.d == cr.n * crp.d);
    assert(crp.n == 0) by (nonlinear_arith)
        requires
            crp.n * cr.d == 0,
            cr.d != 0,
    ;
}

/// A line never intersects itself: the cross product of a direction
/// with itself is zero, so self-intersection always reports nothing.
pub proof fn lemma_self_parallel(l: LineF)
    ensures
        li_den(l, l) == 0,
{
    assert(li_sdir_x(l) * li_sdir_y(l) == li_sdir_y(l) * li_sdir_x(l)) by (nonlinear_arith);
}

/// Crossing a vertical line: when both defining points of `b` share
/// the same X fraction, the intersection's X coordinate stands for
/// exactly that value.
pub proof fn lemma_isect_vertical(a: LineF, b: LineF)
    requires
        lwf(a),
        lwf(b),
        b.p0.x == b.p1.x,
        li_den(a, b) != 0,
    ensures
        feq(li_xf(a, b), b.p0.x),
{
    let c = b.p0.x;
    let an = a.p0.x.n;
    let ad = a.p0.x.d;
    let sdxa = li_sdir_x(a);
    let sv1y = li_sdir_y(b);
    let v2yd = fsub(a.p0.y, b.p0.y).d;
    let m = an * c.d - c.n * ad;
    let s = sdxa * sv1y;
    let k = (ad * c.d) * v2yd;
    assert(fsub(c, c).n == 0);
    assert(li_sdir_x(b) == 0);
    let den = li_den(a, b);
    assert(li_sdir_y(a) * li_sdir_x(b) == 0) by (nonlinear_arith)
        requires
            li_sdir_x(b) == 0,
    ;
    assert(den == s);
    let num = li_num(a, b);
    assert(num == -(sv1y * (m * v2yd)));
    let ud = li_ud(a, b);
    assert(li_v2dd(a, b) == (ad * c.d) * v2yd);
    assert(ud == k * s);
    let xn = an * ud + (num * sdxa) * ad;
    assert(li_xf(a, b).n == xn || li_xf(a, b).n == -xn);
    assert(li_xf(a, b).d == ad * ud || li_xf(a, b).d == -(ad * ud));
    assert((num * sdxa) * ad == -(((m * v2yd) * s) * ad)) by (nonlinear_arith)
        requires
            num == -(sv1y * (m * v2yd)),
            s == sdxa * sv1y,
    ;
    assert(an * (k * s) + (-(((m * v2yd) * s) * ad)) == (an * k - (m * v2yd) * ad) * s)
        by (nonlinear_arith);
    assert(an * k == ((an * ad) * c.d) * v2yd) by (nonlinear_arith)
        requires
            k == (ad * c.d) * v2yd,
    ;
    assert((m * v2yd) * ad == (m * ad) * v2yd) by (nonlinear_arith);
    assert((an * ad) * c.d - m * ad == c.n * (ad * ad)) by (nonlinear_arith)
        requires
            m == an * c.d - c.n * ad,
    ;
    assert(((an * ad) * c.d) * v2yd - (m * ad) * v2yd == ((an * ad) * c.d - m * ad) * v2yd)
        by (nonlinear_arith);
    assert(an * k - (m * v2yd) * ad == ((c.n * (ad * ad)) * v2yd));
    assert(xn == ((c.n * (ad * ad)) * v2yd) * s);
    assert((((c.n * (ad * ad)) * v2yd) * s) * c.d == c.n * (ad * (k * s))) by (nonlinear_arith)
        requires
            k == (ad * c.d) * v2yd,
    ;
    assert(xn * c.d == c.n * (ad * ud));
    assert((-xn) * c.d == c.n * (-(ad * ud))) by (nonlinear_arith)
        requires
            xn * c.d == c.n * (ad * ud),
    ;
}

/// Crossing a horizontal line: when both defining points of `b` share
/// the same Y fraction, the intersection's Y coordinate stands for
/// exactly that value.
pub proof fn lemma_isect_horizontal(a: LineF, b: LineF)
    requires
        lwf(a),
        lwf(b),
        b.p0.y == b.p1.y,
        li_den(a, b) != 0,
    ensures
        feq(li_yf(a, b), b.p0.y),
{
    let c = b.p0.y;
    let an = a.p0.y.n;
    let ad = a.p0.y.d;
    let sdya = li_sdir_y(a);
    let sv1x = li_sdir_x(b);
    let v2xd = fsub(a.p0.x, b.p0.x).d;
    let m = an * c.d - c.n * ad;
    let s = -(sdya * sv1x);
    let k = (ad * c.d) * v2xd;
    assert(fsub(c, c).n == 0);
    assert(li_sdir_y(b) == 0);
    let den = li_den(a, b);
    assert(li_sdir_x(a) * li_sdir_y(b) == 0) by (nonlinear_arith)
        requires
            li_sdir_y(b) == 0,
    ;
    assert(den == s);
    let num = li_num(a, b);
    assert(num == sv1x * (m * v2xd));
    let ud = li_ud(a, b);
    assert(li_v2dd(a, b) == v2xd * (ad * c.d));
    assert(ud == (v2xd * (ad * c.d)) * s);
    assert(ud == k * s) by (nonlinear_arith)
        requires
            ud == (v2xd * (ad * c.d)) * s,
            k == (ad * c.d) * v2xd,
    ;
    let yn = an * ud + (num * sdya) * ad;
    assert(li_yf(a, b).n == yn || li_yf(a, b).n == -yn);
    assert(li_yf(a, b).d == ad * ud || li_yf(a, b).d == -(ad * ud));
    assert((num * sdya) * ad == -(((m * v2xd) * s) * ad)) by (nonlinear_arith)
        requires
            num == sv1x * (m * v2xd),
            s == -(sdya * sv1x),
    ;
    assert(an * (k * s) + (-(((m * v2xd) * s) * ad)) == (an * k - (m * v2xd) * ad) * s)
        by (nonlinear_arith);
    assert(an * k == ((an * ad) * c.d) * v2xd) by (nonlinear_arith)
        requires
            k == (ad * c.d) * v2xd,
    ;
    assert((m * v2xd) * ad == (m * ad) * v2xd) by (nonlinear_arith);
    assert((an * ad) * c.d - m * ad == c.n * (ad * ad)) by (nonlinear_arith)
        requires
            m == an * c.d - c.n * ad,
    ;
    assert(((an * ad) * c.d) * v2xd - (m * ad) * v2xd == ((an * ad) * c.d - m * ad) * v2xd)
        by (nonlinear_arith);
    assert(an * k - (m * v2xd) * ad == ((c.n * (ad * ad)) * v2xd));
    assert(yn == ((c.n * (ad * ad)) * v2xd) * s);
    assert((((c.n * (ad * ad)) * v2xd) * s) * c.d == c.n * (ad * (k * s))) by (nonlinear_arith)
        requires
            k == (ad * c.d) * v2xd,
    ;
    assert(yn * c.d == c.n * (ad * ud));
    assert((-yn) * c.d == c.n * (-(ad * ud))) by (nonlinear_arith)
        requires
            yn * c.d == c.n * (ad * ud),
    ;
}

/// Bounds on the parts of a reduced coordinate pair and their pairwise
/// products.
proof fn lemma_li_bounds_in(
    axn: int, axd: int, ayn: int, ayd: int,
    bxn: int, bxd: int, byn: int, byd: int,
)
    by (nonlinear_arith)
    requires
        -NUM_MAX <= axn <= NUM_MAX,
        -NUM_MAX <= ayn <= NUM_MAX,
        -NUM_MAX <= bxn <= NUM_MAX,
        -NUM_MAX <= byn <= NUM_MAX,
        1 <= axd <= DEN_MAX,
        1 <= ayd <= DEN_MAX,
        1 <= bxd <= DEN_MAX,
        1 <= byd <= DEN_MAX,
    ensures
        -0x1000000 <= bxn * axd <= 0x1000000,
        -0x1000000 <= axn * bxd <= 0x1000000,
        -0x1000000 <= byn * ayd <= 0x1000000,
        -0x1000000 <= ayn * byd <= 0x1000000,
        1 <= bxd * axd <= 0x4000,
        1 <= byd * ayd <= 0x4000,
{
}

/// Bounds on the scaled direction components.
proof fn lemma_li_bounds_dir(vxn: int, vyd: int, vyn: int, vxd: int)
    by (nonlinear_arith)
    requires
        -0x2000000 <= vxn <= 0x2000000,
        -0x2000000 <= vyn <= 0x2000000,
        1 <= vxd <= 0x4000,
        1 <= vyd <= 0x4000,
    ensures
        -0x8000000000 <= vxn * vyd <= 0x8000000000,
        -0x8000000000 <= vyn * vxd <= 0x8000000000,
{
}

/// Bounds on the scaled cross product of two directions.
proof fn lemma_li_bounds_den(sv0x: int, sv0y: int, sv1x: int, sv1y: int)
    by (nonlinear_arith)
    requires
        -0x8000000000 <= sv0x <= 0x8000000000,
        -0x8000000000 <= sv0y <= 0x8000000000,
        -0x8000000000 <= sv1x <= 0x8000000000,
        -0x8000000000 <= sv1y <= 0x8000000000,
    ensures
        -0x40000000000000000000 <= sv0x * sv1y <= 0x40000000000000000000,
        -0x40000000000000000000 <= sv0y * sv1x <= 0x40000000000000000000,
{
}

/// Bounds on the intersection parameter numerator.
proof fn lemma_li_bounds_num(
    sv1x: int, sv1y: int, v2xn: int, v2xd: int, v2yn: int, v2yd: int,
)
    by (nonlinear_arith)
    requires
        -0x8000000000 <= sv1x <= 0x8000000000,
        -0x8000000000 <= sv1y <= 0x8000000000,
        -0x2000000 <= v2xn <= 0x2000000,
        -0x2000000 <= v2yn <= 0x2000000,
        1 <= v2xd <= 0x4000,
        1 <= v2yd <= 0x4000,
    ensures
        -0x8000000000 <= v2yn * v2xd <= 0x8000000000,
        -0x8000000000 <= v2xn * v2yd <= 0x8000000000,
        -0x40000000000000000000 <= sv1x * (v2yn * v2xd) <= 0x40000000000000000000,
        -0x40000000000000000000 <= sv1y * (v2xn * v2yd) <= 0x40000000000000000000,
        1 <= v2xd * v2yd <= 0x10000000,
{
}

/// Bounds on the assembled intersection coordinates.
proof fn lemma_li_bounds_out(
    num: int, den: int, v2dd: int,
    sv0x: int, sv0y: int,
    axn: int, axd: int, ayn: int, ayd: int,
)
    by (nonlinear_arith)
    requires
        -0x80000000000000000000 <= num <= 0x80000000000000000000,
        -0x80000000000000000000 <= den <= 0x80000000000000000000,
        den != 0,
        1 <= v2dd <= 0x10000000,
        -0x8000000000 <= sv0x <= 0x8000000000,
        -0x8000000000 <= sv0y <= 0x8000000000,
        -NUM_MAX <= axn <= NUM_MAX,
        -NUM_MAX <= ayn <= NUM_MAX,
        1 <= axd <= DEN_MAX,
        1 <= ayd <= DEN_MAX,
    ensures
        ({
            let ud = v2dd * den;
            &&& -0x800000000000000000000000000 <= ud <= 0x800000000000000000000000000
            &&& ud != 0
            &&& den > 0 ==> ud >= 1
            &&& den < 0 ==> ud <= -1
            &&& -0x400000000000000000000000000000 <= num * sv0x
                <= 0x400000000000000000000000000000
            &&& -0x400000000000000000000000000000 <= num * sv0y
                <= 0x400000000000000000000000000000
            &&& -0x10000000000000000000000000000000 <= axn * ud <= 0x10000000000000000000000000000000
            &&& -0x10000000000000000000000000000000 <= ayn * ud <= 0x10000000000000000000000000000000
            &&& -0x20000000000000000000000000000000 <= (num * sv0x) * axd
                <= 0x20000000000000000000000000000000
            &&& -0x20000000000000000000000000000000 <= (num * sv0y) * ayd
                <= 0x20000000000000000000000000000000
            &&& -0x40000000000000000000000000000 <= axd * ud <= 0x40000000000000000000000000000
            &&& -0x40000000000000000000000000000 <= ayd * ud <= 0x40000000000000000000000000000
            &&& (den > 0 ==> 1 <= axd * ud && 1 <= ayd * ud)
            &&& (den < 0 ==> axd * ud <= -1 && ayd * ud <= -1)
        }),
{
}

} // verus!
