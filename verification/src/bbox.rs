//! Axis-aligned bounding boxes and the nine-region classification.

use crate::point::{Pt, PtF};
use crate::rat::{canon, fadd, fle, flt, fmul, fsub, representable, Frac, Rat, NUM_MAX};
use vstd::prelude::*;

verus! {

/// Position relative to a bounding box: one of nine mutually exclusive
/// regions, the product of a three-way classification on each axis.
/// Values exactly on a bound count as within on that axis.
#[derive(Clone, Copy, Debug, PartialEq, Eq, Structural)]
pub enum Bounds {
    /// Within box.
    Within,
    /// Below box.
    Below,
    /// Below and left of box.
    BelowLeft,
    /// Left of box.
    Left,
    /// Above and left of box.
    AboveLeft,
    /// Above box.
    Above,
    /// Above and right of box.
    AboveRight,
    /// Right of box.
    Right,
    /// Below and right of box.
    BelowRight,
}

/// Mathematical model of a bounding box: its two extreme corners.
pub ghost struct BoxF {
    pub min: PtF,
    pub max: PtF,
}

/// The region of a coordinate pair relative to a box: each axis is
/// classified as less than the minimum, greater than the maximum, or
/// within the closed range, and the pair of outcomes names the region.
pub open spec fn spec_check(b: BoxF, x: Frac, y: Frac) -> Bounds {
    if flt(x, b.min.x) {
        if flt(y, b.min.y) {
            Bounds::BelowLeft
        } else if flt(b.max.y, y) {
            Bounds::AboveLeft
        } else {
            Bounds::Left
        }
    } else if flt(b.max.x, x) {
        if flt(y, b.min.y) {
            Bounds::BelowRight
        } else if flt(b.max.y, y) {
            Bounds::AboveRight
        } else {
            Bounds::Right
        }
    } else {
        if flt(y, b.min.y) {
            Bounds::Below
        } else if flt(b.max.y, y) {
            Bounds::Above
        } else {
            Bounds::Within
        }
    }
}

/// A box model is well formed: both corners are well-formed points
/// with coordinates within the coordinate limits.
pub open spec fn box_wf(b: BoxF) -> bool {
    &&& crate::point::pwf(b.min)
    &&& crate::point::pwf(b.max)
    &&& crate::rat::in_range(b.min.x)
    &&& crate::rat::in_range(b.min.y)
    &&& crate::rat::in_range(b.max.x)
    &&& crate::rat::in_range(b.max.y)
}

/// A box is valid when its corners are ordered on both axes; the empty
/// box is deliberately invalid.
pub open spec fn box_valid(b: BoxF) -> bool {
    fle(b.min.x, b.max.x) && fle(b.min.y, b.max.y)
}

/// The classification is total, and `Within` holds exactly when both
/// coordinates lie in the closed ranges of the box.
pub proof fn lemma_check_within_iff(b: BoxF, x: Frac, y: Frac)
    ensures
        spec_check(b, x, y) == Bounds::Within <==> fle(b.min.x, x) && fle(x, b.max.x) && fle(
            b.min.y,
            y,
        ) && fle(y, b.max.y),
{
}

/// Interval overlap of two boxes on both axes.
pub open spec fn spec_box_overlap(a: BoxF, b: BoxF) -> bool {
    &&& fle(a.min.x, b.max.x)
    &&& fle(b.min.x, a.max.x)
    &&& fle(a.min.y, b.max.y)
    &&& fle(b.min.y, a.max.y)
}

/// The empty box: an intentionally inverted pair of corners, so that
/// every overlap test against it fails and any extension restores a
/// valid box.
pub open spec fn spec_empty_box() -> BoxF {
    BoxF {
        min: PtF { x: Frac { n: NUM_MAX as int, d: 1 }, y: Frac { n: NUM_MAX as int, d: 1 } },
        max: PtF { x: Frac { n: -NUM_MAX as int, d: 1 }, y: Frac { n: -NUM_MAX as int, d: 1 } },
    }
}

/// Extending a box by one point: each extreme moves just far enough to
/// take the point in.
pub open spec fn spec_box_extend(b: BoxF, p: PtF) -> BoxF {
    BoxF {
        min: PtF {
            x: if fle(b.min.x, p.x) {
                b.min.x
            } else {
                p.x
            },
            y: if fle(b.min.y, p.y) {
                b.min.y
            } else {
                p.y
            },
        },
        max: PtF {
            x: if fle(b.max.x, p.x) {
                p.x
            } else {
                b.max.x
            },
            y: if fle(b.max.y, p.y) {
                p.y
            } else {
                b.max.y
            },
        },
    }
}

/// Extending a box by a sequence of points, in order.
pub open spec fn spec_box_fold(b: BoxF, ps: Seq<PtF>) -> BoxF
    decreases ps.len(),
{
    if ps.len() == 0 {
        b
    } else {
        spec_box_extend(spec_box_fold(b, ps.drop_last()), ps.last())
    }
}

/// Axis-aligned bounding box, held as its two extreme corners.
#[derive(Clone, Copy, Debug)]
pub struct BBox {
    p_min: Pt,
    p_max: Pt,
}

impl View for BBox {
    type V = BoxF;

    closed spec fn view(&self) -> BoxF {
        BoxF { min: self.p_min@, max: self.p_max@ }
    }
}

impl PartialEq for BBox {
    /// Boxes compare equal exactly when both corners do.
    fn eq(&self, other: &BBox) -> (r: bool) {
        self.p_min == other.p_min && self.p_max == other.p_max
    }
}

impl vstd::std_specs::cmp::PartialEqSpecImpl for BBox {
    open spec fn obeys_eq_spec() -> bool {
        true
    }

    open spec fn eq_spec(&self, other: &BBox) -> bool {
        crate::point::peq(self@.min, other@.min) && crate::point::peq(self@.max, other@.max)
    }
}

impl Default for BBox {
    /// Create the empty box.
    fn default() -> (r: Self)
        ensures
            r@ == spec_empty_box(),
    {
        BBox {
            p_min: Pt::from_int(NUM_MAX, NUM_MAX),
            p_max: Pt::from_int(-NUM_MAX, -NUM_MAX),
        }
    }
}

impl BBox {
    /// Create a new axis-aligned bounding box holding all the given
    /// points: the empty box extended by each point in order.
    pub fn new(pts: &[Pt]) -> (r: BBox)
        ensures
            r@ == spec_box_fold(spec_empty_box(), pts@.map_values(|p: Pt| p@)),
    {
        let mut bbox = BBox::default();
        bbox.extend(pts);
        bbox
    }

    /// Extend the bounding box with a set of points. Extending can only
    /// grow or keep the extents, never shrink them.
    pub fn extend(&mut self, pts: &[Pt])
        ensures
            final(self)@ == spec_box_fold(old(self)@, pts@.map_values(|p: Pt| p@)),
            fle(final(self)@.min.x, old(self)@.min.x),
            fle(final(self)@.min.y, old(self)@.min.y),
            fle(old(self)@.max.x, final(self)@.max.x),
            fle(old(self)@.max.y, final(self)@.max.y),
    {
        let ghost models = pts@.map_values(|p: Pt| p@);
        proof {
            use_type_invariant(self.p_min.x);
            use_type_invariant(self.p_min.y);
            use_type_invariant(self.p_max.x);
            use_type_invariant(self.p_max.y);
            self.p_min.x.lemma_wf();
            self.p_min.y.lemma_wf();
            self.p_max.x.lemma_wf();
            self.p_max.y.lemma_wf();
        }
        let mut i: usize = 0;
        while i < pts.len()
            invariant
                0 <= i <= pts.len(),
                models == pts@.map_values(|p: Pt| p@),
                self@ == spec_box_fold(old(self)@, models.take(i as int)),
                crate::point::pwf(old(self)@.min),
                crate::point::pwf(old(self)@.max),
                crate::point::pwf(self@.min),
                crate::point::pwf(self@.max),
                fle(self@.min.x, old(self)@.min.x),
                fle(self@.min.y, old(self)@.min.y),
                fle(old(self)@.max.x, self@.max.x),
                fle(old(self)@.max.y, self@.max.y),
            decreases pts.len() - i,
        {
            proof {
                assert(models.take(i + 1).drop_last() == models.take(i as int));
                assert(models.take(i + 1).last() == pts@[i as int]@);
            }
            let ghost prev = self@;
            self.include_pt(pts[i]);
            proof {
                use_type_invariant(self.p_min.x);
                use_type_invariant(self.p_min.y);
                use_type_invariant(self.p_max.x);
                use_type_invariant(self.p_max.y);
                self.p_min.x.lemma_wf();
                self.p_min.y.lemma_wf();
                self.p_max.x.lemma_wf();
                self.p_max.y.lemma_wf();
                crate::rat::lemma_fle_trans(self@.min.x, prev.min.x, old(self)@.min.x);
                crate::rat::lemma_fle_trans(self@.min.y, prev.min.y, old(self)@.min.y);
                crate::rat::lemma_fle_trans(old(self)@.max.x, prev.max.x, self@.max.x);
                crate::rat::lemma_fle_trans(old(self)@.max.y, prev.max.y, self@.max.y);
            }
            i += 1;
        }
        proof {
            assert(models.take(pts@.len() as int) == models);
        }
    }

    /// Take one more point into the box.
    pub(crate) fn include_pt(&mut self, p: Pt)
        ensures
            final(self)@ == spec_box_extend(old(self)@, p@),
            fle(final(self)@.min.x, old(self)@.min.x),
            fle(final(self)@.min.y, old(self)@.min.y),
            fle(old(self)@.max.x, final(self)@.max.x),
            fle(old(self)@.max.y, final(self)@.max.y),
    {
        let minp = self.p_min.with_min(p);
        let maxp = self.p_max.with_max(p);
        self.p_min = minp;
        self.p_max = maxp;
    }

    /// Get the minimum X value.
    pub fn x_min(&self) -> (r: Rat)
        ensures
            r@ == self@.min.x,
    {
        self.p_min.x
    }

    /// Get the maximum X value.
    pub fn x_max(&self) -> (r: Rat)
        ensures
            r@ == self@.max.x,
    {
        self.p_max.x
    }

    /// Get the minimum Y value.
    pub fn y_min(&self) -> (r: Rat)
        ensures
            r@ == self@.min.y,
    {
        self.p_min.y
    }

    /// Get the maximum Y value.
    pub fn y_max(&self) -> (r: Rat)
        ensures
            r@ == self@.max.y,
    {
        self.p_max.y
    }

    /// Get the middle X value; `None` when its reduced form exceeds the
    /// coordinate limits.
    pub fn x_mid(&self) -> (r: Option<Rat>)
        ensures
            r is Some <==> representable(fmul(fadd(self@.min.x, self@.max.x), crate::point::half())),
            r matches Some(q) ==> q@ == canon(
                fmul(fadd(self@.min.x, self@.max.x), crate::point::half()),
            ),
    {
        mid_rat(self.p_min.x, self.p_max.x)
    }

    /// Get the middle Y value; `None` when its reduced form exceeds the
    /// coordinate limits.
    pub fn y_mid(&self) -> (r: Option<Rat>)
        ensures
            r is Some <==> representable(fmul(fadd(self@.min.y, self@.max.y), crate::point::half())),
            r matches Some(q) ==> q@ == canon(
                fmul(fadd(self@.min.y, self@.max.y), crate::point::half()),
            ),
    {
        mid_rat(self.p_min.y, self.p_max.y)
    }

    /// Get the X span; `None` when its reduced form exceeds the
    /// coordinate limits.
    pub fn x_span(&self) -> (r: Option<Rat>)
        ensures
            r is Some <==> representable(fsub(self@.max.x, self@.min.x)),
            r matches Some(q) ==> q@ == canon(fsub(self@.max.x, self@.min.x)),
    {
        self.p_max.x.sub(self.p_min.x)
    }

    /// Get the Y span; `None` when its reduced form exceeds the
    /// coordinate limits.
    pub fn y_span(&self) -> (r: Option<Rat>)
        ensures
            r is Some <==> representable(fsub(self@.max.y, self@.min.y)),
            r matches Some(q) ==> q@ == canon(fsub(self@.max.y, self@.min.y)),
    {
        self.p_max.y.sub(self.p_min.y)
    }

    /// Classify a coordinate pair against the box: each axis three ways,
    /// the pair of outcomes naming one of the nine regions. Total, and
    /// `Within` exactly when both coordinates lie in the closed ranges.
    pub fn check(&self, x: Rat, y: Rat) -> (r: Bounds)
        ensures
            r == spec_check(self@, x@, y@),
            r == Bounds::Within <==> fle(self@.min.x, x@) && fle(x@, self@.max.x) && fle(
                self@.min.y,
                y@,
            ) && fle(y@, self@.max.y),
    {
        if x.lt(self.p_min.x) {
            if y.lt(self.p_min.y) {
                Bounds::BelowLeft
            } else if self.p_max.y.lt(y) {
                Bounds::AboveLeft
            } else {
                Bounds::Left
            }
        } else if self.p_max.x.lt(x) {
            if y.lt(self.p_min.y) {
                Bounds::BelowRight
            } else if self.p_max.y.lt(y) {
                Bounds::AboveRight
            } else {
                Bounds::Right
            }
        } else {
            if y.lt(self.p_min.y) {
                Bounds::Below
            } else if self.p_max.y.lt(y) {
                Bounds::Above
            } else {
                Bounds::Within
            }
        }
    }

    /// Check whether this box overlaps another: standard interval
    /// overlap on both axes, symmetric in its two operands.
    pub fn bounded_by(&self, bbox: &BBox) -> (r: bool)
        ensures
            r == spec_box_overlap(self@, bbox@),
    {
        self.p_min.x.le(bbox.p_max.x) && bbox.p_min.x.le(self.p_max.x) && self.p_min.y.le(
            bbox.p_max.y,
        ) && bbox.p_min.y.le(self.p_max.y)
    }
}

impl Pt {
    /// A point is bounded by a box exactly when it classifies `Within`.
    pub fn bounded_by(&self, bbox: &BBox) -> (r: bool)
        ensures
            r == (spec_check(bbox@, self@.x, self@.y) == Bounds::Within),
    {
        bbox.check(self.x, self.y) == Bounds::Within
    }
}

/// Box overlap is symmetric: each side of the interval test pairs with
/// its mirror on the other operand.
pub proof fn lemma_box_overlap_sym(a: BoxF, b: BoxF)
    ensures
        spec_box_overlap(a, b) == spec_box_overlap(b, a),
{
}

/// The midpoint of two coordinates, reduced.
fn mid_rat(a: Rat, b: Rat) -> (r: Option<Rat>)
    ensures
        r is Some <==> representable(fmul(fadd(a@, b@), crate::point::half())),
        r matches Some(q) ==> q@ == canon(fmul(fadd(a@, b@), crate::point::half())),
{
    let (an, ad) = a.parts();
    let (bn, bd) = b.parts();
    proof {
        crate::rat::lemma_mul_abs_bound(an as int, bd as int, NUM_MAX as int, crate::rat::DEN_MAX as int);
        crate::rat::lemma_mul_abs_bound(bn as int, ad as int, NUM_MAX as int, crate::rat::DEN_MAX as int);
        crate::rat::lemma_mul_pos_range(ad as int, bd as int, crate::rat::DEN_MAX as int, crate::rat::DEN_MAX as int);
    }
    let n = (an as i128) * (bd as i128) + (bn as i128) * (ad as i128);
    let d = (ad as i128) * (bd as i128) * 2;
    Rat::from_i128(n, d)
}


} // verus!
