//! Two-dimensional points and vectors over exact rational coordinates.

use crate::rat::{
    canon, fadd, feq, fle, fmul, fneg, fsub, fwf, representable, Frac, Rat, DEN_MAX, NUM_MAX,
};
use vstd::prelude::*;

verus! {

/// Mathematical model of a point: a pair of fractions.
pub ghost struct PtF {
    pub x: Frac,
    pub y: Frac,
}

/// A point model is well formed when both coordinates are.
pub open spec fn pwf(p: PtF) -> bool {
    fwf(p.x) && fwf(p.y)
}

/// Two point models stand for the same point.
pub open spec fn peq(a: PtF, b: PtF) -> bool {
    feq(a.x, b.x) && feq(a.y, b.y)
}

/// Componentwise difference of two point models.
pub open spec fn psub(a: PtF, b: PtF) -> PtF {
    PtF { x: fsub(a.x, b.x), y: fsub(a.y, b.y) }
}

/// Componentwise sum of two point models.
pub open spec fn padd(a: PtF, b: PtF) -> PtF {
    PtF { x: fadd(a.x, b.x), y: fadd(a.y, b.y) }
}

/// Cross product of two vector models: `a.x * b.y - a.y * b.x`, zero
/// exactly when the vectors are parallel.
pub open spec fn pcross(a: PtF, b: PtF) -> Frac {
    fsub(fmul(a.x, b.y), fmul(a.y, b.x))
}

/// Dot product of two vector models.
pub open spec fn pdot(a: PtF, b: PtF) -> Frac {
    fadd(fmul(a.x, b.x), fmul(a.y, b.y))
}

/// 2-dimensional point / vector with exact rational coordinates.
#[derive(Clone, Copy, Debug)]
pub struct Pt {
    /// X coordinate.
    pub x: Rat,
    /// Y coordinate.
    pub y: Rat,
}

impl View for Pt {
    type V = PtF;

    open spec fn view(&self) -> PtF {
        PtF { x: self.x@, y: self.y@ }
    }
}

impl PartialEq for Pt {
    /// Points compare equal exactly when both coordinates stand for the
    /// same rationals.
    fn eq(&self, other: &Pt) -> (r: bool) {
        self.x == other.x && self.y == other.y
    }
}

impl vstd::std_specs::cmp::PartialEqSpecImpl for Pt {
    open spec fn obeys_eq_spec() -> bool {
        true
    }

    open spec fn eq_spec(&self, other: &Pt) -> bool {
        peq(self@, other@)
    }
}

impl Pt {
    /// Create a new point.
    pub fn new(x: Rat, y: Rat) -> (r: Pt)
        ensures
            r@ == (PtF { x: x@, y: y@ }),
    {
        Pt { x, y }
    }

    /// Create a whole-number point.
    pub fn from_int(x: i64, y: i64) -> (r: Pt)
        requires
            -NUM_MAX <= x <= NUM_MAX,
            -NUM_MAX <= y <= NUM_MAX,
        ensures
            r@ == (PtF { x: Frac { n: x as int, d: 1 }, y: Frac { n: y as int, d: 1 } }),
    {
        Pt { x: Rat::from_int(x), y: Rat::from_int(y) }
    }

    /// Create a point with minimum component values of two points.
    pub fn with_min(self, rhs: Pt) -> (r: Pt)
        ensures
            r.x == if fle(self@.x, rhs@.x) {
                self.x
            } else {
                rhs.x
            },
            r.y == if fle(self@.y, rhs@.y) {
                self.y
            } else {
                rhs.y
            },
    {
        Pt { x: self.x.min(rhs.x), y: self.y.min(rhs.y) }
    }

    /// Create a point with maximum component values of two points.
    pub fn with_max(self, rhs: Pt) -> (r: Pt)
        ensures
            r.x == if fle(self@.x, rhs@.x) {
                rhs.x
            } else {
                self.x
            },
            r.y == if fle(self@.y, rhs@.y) {
                rhs.y
            } else {
                self.y
            },
    {
        Pt { x: self.x.max(rhs.x), y: self.y.max(rhs.y) }
    }

    /// Componentwise sum; `None` when a reduced coordinate exceeds the
    /// coordinate limits.
    pub fn add(self, rhs: Pt) -> (r: Option<Pt>)
        ensures
            r is Some <==> representable(fadd(self@.x, rhs@.x)) && representable(
                fadd(self@.y, rhs@.y),
            ),
            r matches Some(p) ==> p@.x == canon(fadd(self@.x, rhs@.x)) && p@.y == canon(
                fadd(self@.y, rhs@.y),
            ),
    {
        let x = self.x.add(rhs.x);
        let y = self.y.add(rhs.y);
        match (x, y) {
            (Some(x), Some(y)) => Some(Pt { x, y }),
            _ => None,
        }
    }

    /// Componentwise difference; `None` when a reduced coordinate exceeds
    /// the coordinate limits.
    pub fn sub(self, rhs: Pt) -> (r: Option<Pt>)
        ensures
            r is Some <==> representable(fsub(self@.x, rhs@.x)) && representable(
                fsub(self@.y, rhs@.y),
            ),
            r matches Some(p) ==> p@.x == canon(fsub(self@.x, rhs@.x)) && p@.y == canon(
                fsub(self@.y, rhs@.y),
            ),
    {
        let x = self.x.sub(rhs.x);
        let y = self.y.sub(rhs.y);
        match (x, y) {
            (Some(x), Some(y)) => Some(Pt { x, y }),
            _ => None,
        }
    }

    /// Negation; exact for every point.
    pub fn neg(self) -> (r: Pt)
        ensures
            r@.x == fneg(self@.x),
            r@.y == fneg(self@.y),
    {
        Pt { x: self.x.neg(), y: self.y.neg() }
    }

    /// Scale both components by a factor; `None` when a reduced
    /// coordinate exceeds the coordinate limits.
    pub fn scale(self, s: Rat) -> (r: Option<Pt>)
        ensures
            r is Some <==> representable(fmul(self@.x, s@)) && representable(fmul(self@.y, s@)),
            r matches Some(p) ==> p@.x == canon(fmul(self@.x, s@)) && p@.y == canon(
                fmul(self@.y, s@),
            ),
    {
        let x = self.x.mul(s);
        let y = self.y.mul(s);
        match (x, y) {
            (Some(x), Some(y)) => Some(Pt { x, y }),
            _ => None,
        }
    }

    /// Get left-hand perpendicular vector.
    pub fn left(self) -> (r: Pt)
        ensures
            r@.x == fneg(self@.y),
            r@.y == self@.x,
    {
        Pt { x: self.y.neg(), y: self.x }
    }

    /// Get right-hand perpendicular vector.
    pub fn right(self) -> (r: Pt)
        ensures
            r@.x == self@.y,
            r@.y == fneg(self@.x),
    {
        Pt { x: self.y, y: self.x.neg() }
    }

    /// Cross product with another vector: the signed magnitude of the 3D
    /// cross product, zero exactly for parallel vectors. `None` when the
    /// reduced result exceeds the coordinate limits.
    pub fn cross(self, rhs: Pt) -> (r: Option<Rat>)
        ensures
            r is Some <==> representable(pcross(self@, rhs@)),
            r matches Some(q) ==> q@ == canon(pcross(self@, rhs@)),
    {
        let (axn, axd) = self.x.parts();
        let (ayn, ayd) = self.y.parts();
        let (bxn, bxd) = rhs.x.parts();
        let (byn, byd) = rhs.y.parts();
        proof {
            lemma_pt_term_bounds(
                axn as int,
                axd as int,
                ayn as int,
                ayd as int,
                bxn as int,
                bxd as int,
                byn as int,
                byd as int,
            );
        }
        let n = (axn as i128) * (byn as i128) * ((ayd as i128) * (bxd as i128)) - (ayn as i128)
            * (bxn as i128) * ((axd as i128) * (byd as i128));
        let d = (axd as i128) * (byd as i128) * ((ayd as i128) * (bxd as i128));
        Rat::from_i128(n, d)
    }

    /// Dot product with another vector; `None` when the reduced result
    /// exceeds the coordinate limits.
    pub fn dot(self, rhs: Pt) -> (r: Option<Rat>)
        ensures
            r is Some <==> representable(pdot(self@, rhs@)),
            r matches Some(q) ==> q@ == canon(pdot(self@, rhs@)),
    {
        let (axn, axd) = self.x.parts();
        let (ayn, ayd) = self.y.parts();
        let (bxn, bxd) = rhs.x.parts();
        let (byn, byd) = rhs.y.parts();
        proof {
            lemma_pt_term_bounds(
                axn as int,
                axd as int,
                ayn as int,
                ayd as int,
                bxn as int,
                bxd as int,
                byn as int,
                byd as int,
            );
        }
        let n = (axn as i128) * (bxn as i128) * ((ayd as i128) * (byd as i128)) + (ayn as i128)
            * (byn as i128) * ((axd as i128) * (bxd as i128));
        let d = (axd as i128) * (bxd as i128) * ((ayd as i128) * (byd as i128));
        Rat::from_i128(n, d)
    }

    /// Get distance squared to another point, exactly; `None` when the
    /// reduced result exceeds the coordinate limits.
    pub fn distance_sq(self, rhs: Pt) -> (r: Option<Rat>)
        ensures
            r is Some <==> representable(pdot(psub(self@, rhs@), psub(self@, rhs@))),
            r matches Some(q) ==> q@ == canon(pdot(psub(self@, rhs@), psub(self@, rhs@))),
    {
        let (axn, axd) = self.x.parts();
        let (ayn, ayd) = self.y.parts();
        let (bxn, bxd) = rhs.x.parts();
        let (byn, byd) = rhs.y.parts();
        proof {
            lemma_pt_diff_bounds(
                axn as int,
                axd as int,
                ayn as int,
                ayd as int,
                bxn as int,
                bxd as int,
                byn as int,
                byd as int,
            );
        }
        let vxn = (axn as i128) * (bxd as i128) - (bxn as i128) * (axd as i128);
        let vxd = (axd as i128) * (bxd as i128);
        let vyn = (ayn as i128) * (byd as i128) - (byn as i128) * (ayd as i128);
        let vyd = (ayd as i128) * (byd as i128);
        let n = vxn * vxn * (vyd * vyd) + vyn * vyn * (vxd * vxd);
        let d = vxd * vxd * (vyd * vyd);
        Rat::from_i128(n, d)
    }

    /// Get the midpoint from this to another point; `None` when a reduced
    /// coordinate exceeds the coordinate limits.
    pub fn midpoint(self, rhs: Pt) -> (r: Option<Pt>)
        ensures
            r is Some <==> representable(fmul(fadd(self@.x, rhs@.x), half())) && representable(
                fmul(fadd(self@.y, rhs@.y), half()),
            ),
            r matches Some(p) ==> p@.x == canon(fmul(fadd(self@.x, rhs@.x), half())) && p@.y
                == canon(fmul(fadd(self@.y, rhs@.y), half())),
    {
        let (axn, axd) = self.x.parts();
        let (ayn, ayd) = self.y.parts();
        let (bxn, bxd) = rhs.x.parts();
        let (byn, byd) = rhs.y.parts();
        proof {
            lemma_pt_diff_bounds(
                axn as int,
                axd as int,
                ayn as int,
                ayd as int,
                bxn as int,
                bxd as int,
                byn as int,
                byd as int,
            );
        }
        let xn = (axn as i128) * (bxd as i128) + (bxn as i128) * (axd as i128);
        let xd = (axd as i128) * (bxd as i128) * 2;
        let yn = (ayn as i128) * (byd as i128) + (byn as i128) * (ayd as i128);
        let yd = (ayd as i128) * (byd as i128) * 2;
        let x = Rat::from_i128(xn, xd);
        let y = Rat::from_i128(yn, yd);
        match (x, y) {
            (Some(x), Some(y)) => Some(Pt { x, y }),
            _ => None,
        }
    }

    /// Calculate linear interpolation to another point: the result runs
    /// from `rhs` at `t == 0` to `self` at `t == 1`. `None` when a
    /// reduced coordinate exceeds the coordinate limits.
    pub fn lerp(self, rhs: Pt, t: Rat) -> (r: Option<Pt>)
        ensures
            r is Some <==> representable(fadd(rhs@.x, fmul(fsub(self@.x, rhs@.x), t@)))
                && representable(fadd(rhs@.y, fmul(fsub(self@.y, rhs@.y), t@))),
            r matches Some(p) ==> p@.x == canon(fadd(rhs@.x, fmul(fsub(self@.x, rhs@.x), t@)))
                && p@.y == canon(fadd(rhs@.y, fmul(fsub(self@.y, rhs@.y), t@))),
    {
        let (axn, axd) = self.x.parts();
        let (ayn, ayd) = self.y.parts();
        let (bxn, bxd) = rhs.x.parts();
        let (byn, byd) = rhs.y.parts();
        let (tn, td) = t.parts();
        proof {
            lemma_pt_lerp_bounds(
                axn as int,
                axd as int,
                ayn as int,
                ayd as int,
                bxn as int,
                bxd as int,
                byn as int,
                byd as int,
                tn as int,
                td as int,
            );
        }
        let vxn = ((axn as i128) * (bxd as i128) - (bxn as i128) * (axd as i128)) * (tn as i128);
        let vxd = (axd as i128) * (bxd as i128) * (td as i128);
        let xn = (bxn as i128) * vxd + vxn * (bxd as i128);
        let xd = (bxd as i128) * vxd;
        let vyn = ((ayn as i128) * (byd as i128) - (byn as i128) * (ayd as i128)) * (tn as i128);
        let vyd = (ayd as i128) * (byd as i128) * (td as i128);
        let yn = (byn as i128) * vyd + vyn * (byd as i128);
        let yd = (byd as i128) * vyd;
        let x = Rat::from_i128(xn, xd);
        let y = Rat::from_i128(yn, yd);
        match (x, y) {
            (Some(x), Some(y)) => Some(Pt { x, y }),
            _ => None,
        }
    }
}

/// The fraction one half.
pub open spec fn half() -> Frac {
    Frac { n: 1, d: 2 }
}

/// Whether the dot product of the two difference vectors `a - b` and
/// `c - d` is strictly positive, decided exactly without reduction.
pub(crate) fn diff_dot_pos(a: Pt, b: Pt, c: Pt, d: Pt) -> (r: bool)
    ensures
        r == crate::rat::fpos(pdot(psub(a@, b@), psub(c@, d@))),
{
    let (axn, axd) = a.x.parts();
    let (ayn, ayd) = a.y.parts();
    let (bxn, bxd) = b.x.parts();
    let (byn, byd) = b.y.parts();
    let (cxn, cxd) = c.x.parts();
    let (cyn, cyd) = c.y.parts();
    let (dxn, dxd) = d.x.parts();
    let (dyn_, dyd) = d.y.parts();
    proof {
        lemma_pt_diff_bounds(
            axn as int,
            axd as int,
            ayn as int,
            ayd as int,
            bxn as int,
            bxd as int,
            byn as int,
            byd as int,
        );
        lemma_pt_diff_bounds(
            cxn as int,
            cxd as int,
            cyn as int,
            cyd as int,
            dxn as int,
            dxd as int,
            dyn_ as int,
            dyd as int,
        );
    }
    let uxn = (axn as i128) * (bxd as i128) - (bxn as i128) * (axd as i128);
    let uxd = (axd as i128) * (bxd as i128);
    let uyn = (ayn as i128) * (byd as i128) - (byn as i128) * (ayd as i128);
    let uyd = (ayd as i128) * (byd as i128);
    let wxn = (cxn as i128) * (dxd as i128) - (dxn as i128) * (cxd as i128);
    let wxd = (cxd as i128) * (dxd as i128);
    let wyn = (cyn as i128) * (dyd as i128) - (dyn_ as i128) * (cyd as i128);
    let wyd = (cyd as i128) * (dyd as i128);
    proof {
        lemma_pt_dot_bounds(
            uxn as int,
            uxd as int,
            uyn as int,
            uyd as int,
            wxn as int,
            wxd as int,
            wyn as int,
            wyd as int,
        );
    }
    let n = uxn * wxn * (uyd * wyd) + uyn * wyn * (uxd * wxd);
    n > 0
}

/// Bounds for the dot product of two difference vectors.
proof fn lemma_pt_dot_bounds(
    uxn: int,
    uxd: int,
    uyn: int,
    uyd: int,
    wxn: int,
    wxd: int,
    wyn: int,
    wyd: int,
)
    by (nonlinear_arith)
    requires
        -0x4000000 <= uxn <= 0x4000000,
        -0x4000000 <= uyn <= 0x4000000,
        -0x4000000 <= wxn <= 0x4000000,
        -0x4000000 <= wyn <= 0x4000000,
        1 <= uxd <= 0x4000,
        1 <= uyd <= 0x4000,
        1 <= wxd <= 0x4000,
        1 <= wyd <= 0x4000,
    ensures
        -0x10000000000000 <= uxn * wxn <= 0x10000000000000,
        -0x10000000000000 <= uyn * wyn <= 0x10000000000000,
        1 <= uyd * wyd <= 0x10000000,
        1 <= uxd * wxd <= 0x10000000,
        -0x100000000000000000000 <= uxn * wxn * (uyd * wyd) <= 0x100000000000000000000,
        -0x100000000000000000000 <= uyn * wyn * (uxd * wxd) <= 0x100000000000000000000,
{
}

/// Cross products of componentwise-equal vectors are equal.
pub proof fn lemma_pcross_congr(u: PtF, v: PtF, u2: PtF, v2: PtF)
    requires
        feq(u.x, u2.x),
        feq(u.y, u2.y),
        feq(v.x, v2.x),
        feq(v.y, v2.y),
    ensures
        feq(pcross(u, v), pcross(u2, v2)),
{
    crate::rat::lemma_fmul_congr(u.x, v.y, u2.x, v2.y);
    crate::rat::lemma_fmul_congr(u.y, v.x, u2.y, v2.x);
    crate::rat::lemma_fadd_congr(fmul(u.x, v.y), fmul(u.y, v.x), fmul(u2.x, v2.y), fmul(u2.y, v2.x));
}

/// Differences of componentwise-equal points are equal.
pub proof fn lemma_psub_congr(a: PtF, b: PtF, a2: PtF, b2: PtF)
    requires
        feq(a.x, a2.x),
        feq(a.y, a2.y),
        feq(b.x, b2.x),
        feq(b.y, b2.y),
    ensures
        feq(psub(a, b).x, psub(a2, b2).x),
        feq(psub(a, b).y, psub(a2, b2).y),
{
    crate::rat::lemma_fadd_congr(a.x, b.x, a2.x, b2.x);
    crate::rat::lemma_fadd_congr(a.y, b.y, a2.y, b2.y);
}

/// Bounds for the products in cross and dot computations on coordinates
/// within the limits.
proof fn lemma_pt_term_bounds(
    axn: int,
    axd: int,
    ayn: int,
    ayd: int,
    bxn: int,
    bxd: int,
    byn: int,
    byd: int,
)
    by (nonlinear_arith)
    requires
        -NUM_MAX <= axn <= NUM_MAX,
        -NUM_MAX <= ayn <= NUM_MAX,
        -NUM_MAX <= bxn <= NUM_MAX,
        -NUM_MAX <= byn <= NUM_MAX,
        1 <= axd <= DEN_MAX,
        1 <= ayd <= DEN_MAX,
        1 <= bxd <= DEN_MAX,
        1 <= byd <= DEN_MAX,
    ensures
        -0x10000000000000000 <= axn * byn <= 0x10000000000000000,
        -0x10000000000000000 <= ayn * bxn <= 0x10000000000000000,
        -0x10000000000000000 <= axn * bxn <= 0x10000000000000000,
        -0x10000000000000000 <= ayn * byn <= 0x10000000000000000,
        1 <= ayd * bxd <= 0x4000,
        1 <= axd * byd <= 0x4000,
        1 <= axd * bxd <= 0x4000,
        1 <= ayd * byd <= 0x4000,
        -0x40000000000000000000 <= axn * byn * (ayd * bxd) <= 0x40000000000000000000,
        -0x40000000000000000000 <= ayn * bxn * (axd * byd) <= 0x40000000000000000000,
        -0x40000000000000000000 <= axn * bxn * (ayd * byd) <= 0x40000000000000000000,
        -0x40000000000000000000 <= ayn * byn * (axd * bxd) <= 0x40000000000000000000,
        1 <= axd * byd * (ayd * bxd) <= 0x10000000,
        1 <= axd * bxd * (ayd * byd) <= 0x10000000,
{
}

/// Bounds for the products in difference-based computations on
/// coordinates within the limits.
proof fn lemma_pt_diff_bounds(
    axn: int,
    axd: int,
    ayn: int,
    ayd: int,
    bxn: int,
    bxd: int,
    byn: int,
    byd: int,
)
    by (nonlinear_arith)
    requires
        -NUM_MAX <= axn <= NUM_MAX,
        -NUM_MAX <= ayn <= NUM_MAX,
        -NUM_MAX <= bxn <= NUM_MAX,
        -NUM_MAX <= byn <= NUM_MAX,
        1 <= axd <= DEN_MAX,
        1 <= ayd <= DEN_MAX,
        1 <= bxd <= DEN_MAX,
        1 <= byd <= DEN_MAX,
    ensures
        -0x2000000 <= axn * bxd <= 0x2000000,
        -0x2000000 <= bxn * axd <= 0x2000000,
        -0x2000000 <= ayn * byd <= 0x2000000,
        -0x2000000 <= byn * ayd <= 0x2000000,
        1 <= axd * bxd <= 0x4000,
        1 <= ayd * byd <= 0x4000,
        ({
            let vxn = axn * bxd - bxn * axd;
            let vyn = ayn * byd - byn * ayd;
            let vxd = axd * bxd;
            let vyd = ayd * byd;
            &&& -0x4000000 <= vxn <= 0x4000000
            &&& -0x4000000 <= vyn <= 0x4000000
            &&& -0x10000000000000 <= vxn * vxn <= 0x10000000000000
            &&& -0x10000000000000 <= vyn * vyn <= 0x10000000000000
            &&& 1 <= vxd * vxd <= 0x10000000
            &&& 1 <= vyd * vyd <= 0x10000000
            &&& -0x100000000000000000000 <= vxn * vxn * (vyd * vyd) <= 0x100000000000000000000
            &&& -0x100000000000000000000 <= vyn * vyn * (vxd * vxd) <= 0x100000000000000000000
            &&& 1 <= vxd * vxd * (vyd * vyd) <= 0x100000000000000
            &&& 1 <= axd * bxd * 2 <= 0x8000
            &&& 1 <= ayd * byd * 2 <= 0x8000
        }),
{
}

/// Bounds for the products in the interpolation computation on
/// coordinates within the limits.
proof fn lemma_pt_lerp_bounds(
    axn: int,
    axd: int,
    ayn: int,
    ayd: int,
    bxn: int,
    bxd: int,
    byn: int,
    byd: int,
    tn: int,
    td: int,
)
    by (nonlinear_arith)
    requires
        -NUM_MAX <= axn <= NUM_MAX,
        -NUM_MAX <= ayn <= NUM_MAX,
        -NUM_MAX <= bxn <= NUM_MAX,
        -NUM_MAX <= byn <= NUM_MAX,
        -NUM_MAX <= tn <= NUM_MAX,
        1 <= axd <= DEN_MAX,
        1 <= ayd <= DEN_MAX,
        1 <= bxd <= DEN_MAX,
        1 <= byd <= DEN_MAX,
        1 <= td <= DEN_MAX,
    ensures
        ({
            let vxn = (axn * bxd - bxn * axd) * tn;
            let vxd = axd * bxd * td;
            let vyn = (ayn * byd - byn * ayd) * tn;
            let vyd = ayd * byd * td;
            &&& -0x2000000 <= axn * bxd <= 0x2000000
            &&& -0x2000000 <= bxn * axd <= 0x2000000
            &&& -0x2000000 <= ayn * byd <= 0x2000000
            &&& -0x2000000 <= byn * ayd <= 0x2000000
            &&& 1 <= axd * bxd <= 0x4000
            &&& 1 <= ayd * byd <= 0x4000
            &&& -0x80000000000 <= vxn <= 0x80000000000
            &&& -0x80000000000 <= vyn <= 0x80000000000
            &&& 1 <= vxd <= 0x200000
            &&& 1 <= vyd <= 0x200000
            &&& -0x8000000000000000000 <= bxn * vxd <= 0x8000000000000000000
            &&& -0x8000000000000000000 <= byn * vyd <= 0x8000000000000000000
            &&& -0x8000000000000000000 <= vxn * bxd <= 0x8000000000000000000
            &&& -0x8000000000000000000 <= vyn * byd <= 0x8000000000000000000
            &&& 1 <= bxd * vxd <= 0x10000000
            &&& 1 <= byd * vyd <= 0x10000000
        }),
{
}

} // verus!
