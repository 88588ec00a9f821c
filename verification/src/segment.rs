//! Bounded line segments: distance, intersection, the outcode overlap
//! test against a box, and clipping.

use crate::bbox::{spec_box_extend, spec_check, spec_empty_box, BBox, Bounds, BoxF};
use crate::line::{li_den, li_fits, li_pt, LineF, RawIsect};
use crate::point::{diff_dot_pos, pcross, pdot, peq, psub, Pt, PtF};
use crate::rat::{canon, fdiv, feq, fle, flt, fmul, fpos, fwf, representable, Frac, Rat};
use vstd::prelude::*;

verus! {

/// Mathematical model of a segment: its two endpoints.
pub ghost struct SegF {
    pub p0: PtF,
    pub p1: PtF,
}

/// Both endpoints are well formed.
pub open spec fn swf(s: SegF) -> bool {
    crate::point::pwf(s.p0) && crate::point::pwf(s.p1)
}

/// The bounding box of a segment's two endpoints.
pub open spec fn spec_pair_box(a: PtF, b: PtF) -> BoxF {
    spec_box_extend(spec_box_extend(spec_empty_box(), a), b)
}

/// Outcome of intersecting a segment with another segment.
pub ghost enum SegHit {
    /// No single intersection point: the support lines are parallel or
    /// coincident, or the point falls outside the second segment's
    /// bounding box.
    Miss,
    /// A single intersection point exists but a reduced coordinate
    /// exceeds the coordinate limits.
    Big,
    /// The intersection point, on the support line of the first
    /// segment and within the second segment's bounding box.
    Hit(PtF),
}

/// The intersection of two segments: the support lines' intersection
/// point, kept only when it lies within the bounding box of the second
/// segment's endpoints.
pub open spec fn seg_hit(s: SegF, r: SegF) -> SegHit {
    let a = LineF { p0: s.p0, p1: s.p1 };
    let b = LineF { p0: r.p0, p1: r.p1 };
    if li_den(a, b) == 0 {
        SegHit::Miss
    } else if !li_fits(a, b) {
        SegHit::Big
    } else {
        let p = li_pt(a, b);
        if spec_check(spec_pair_box(r.p0, r.p1), p.x, p.y) == Bounds::Within {
            SegHit::Hit(p)
        } else {
            SegHit::Miss
        }
    }
}

/// The segment intersection as an optional point: the oversize outcome
/// also reports nothing.
pub open spec fn spec_seg_isect(s: SegF, r: SegF) -> Option<PtF> {
    match seg_hit(s, r) {
        SegHit::Hit(p) => Some(p),
        _ => None,
    }
}

/// Whether two segments intersect.
pub open spec fn spec_seg_intersects(s: SegF, r: SegF) -> bool {
    seg_hit(s, r) is Hit
}

/// Segment of a line between two endpoints.
#[derive(Clone, Copy, Debug)]
pub struct Seg {
    /// First endpoint.
    pub p0: Pt,
    /// Second endpoint.
    pub p1: Pt,
}

impl View for Seg {
    type V = SegF;

    open spec fn view(&self) -> SegF {
        SegF { p0: self.p0@, p1: self.p1@ }
    }
}

impl PartialEq for Seg {
    /// Segments compare equal exactly when their endpoints do, in
    /// order.
    fn eq(&self, other: &Seg) -> (r: bool) {
        self.p0 == other.p0 && self.p1 == other.p1
    }
}

impl vstd::std_specs::cmp::PartialEqSpecImpl for Seg {
    open spec fn obeys_eq_spec() -> bool {
        true
    }

    open spec fn eq_spec(&self, other: &Seg) -> bool {
        peq(self@.p0, other@.p0) && peq(self@.p1, other@.p1)
    }
}

/// Outcome of the exact segment intersection, with the oversize case
/// kept apart so that clipping can report it.
pub(crate) enum SegRaw {
    Miss,
    Big,
    At(Pt),
}

/// Intersect the support line of `s` with the support line of `r` and
/// keep the point only when it lies within the bounding box of `r`'s
/// endpoints.
pub(crate) fn seg_isect_raw(s: Seg, r: Seg) -> (h: SegRaw)
    ensures
        h is Miss <==> seg_hit(s@, r@) is Miss,
        h is Big <==> seg_hit(s@, r@) is Big,
        h matches SegRaw::At(p) ==> seg_hit(s@, r@) matches SegHit::Hit(q) && p@ == q,
        seg_hit(s@, r@) is Hit ==> h is At,
{
    match crate::line::isect_raw(s.p0, s.p1, r.p0, r.p1) {
        RawIsect::Parallel => SegRaw::Miss,
        RawIsect::Unrepresentable => SegRaw::Big,
        RawIsect::At(p) => {
            let mut bb = BBox::default();
            bb.include_pt(r.p0);
            bb.include_pt(r.p1);
            if p.bounded_by(&bb) {
                SegRaw::At(p)
            } else {
                SegRaw::Miss
            }
        },
    }
}

impl Seg {
    /// Create a new line segment.
    pub fn new(p0: Pt, p1: Pt) -> (r: Seg)
        ensures
            r@ == (SegF { p0: p0@, p1: p1@ }),
    {
        Seg { p0, p1 }
    }

    /// Get the point where two segments intersect: the support lines'
    /// single intersection point, if it falls within the bounding box
    /// of `rhs`'s endpoints; the point is provably collinear with both
    /// segments' endpoints. `None` for parallel or coincident support
    /// lines, for a point outside that box, and for a point whose
    /// reduced coordinates exceed the coordinate limits.
    pub fn intersection(self, rhs: Seg) -> (r: Option<Pt>)
        ensures
            r is Some <==> spec_seg_isect(self@, rhs@) is Some,
            r matches Some(p) ==> p@ == spec_seg_isect(self@, rhs@).unwrap() && crate::line::collinear(
                self@.p0,
                self@.p1,
                p@,
            ) && crate::line::collinear(rhs@.p0, rhs@.p1, p@),
    {
        proof {
            use_type_invariant(self.p0.x);
            use_type_invariant(self.p0.y);
            use_type_invariant(self.p1.x);
            use_type_invariant(self.p1.y);
            use_type_invariant(rhs.p0.x);
            use_type_invariant(rhs.p0.y);
            use_type_invariant(rhs.p1.x);
            use_type_invariant(rhs.p1.y);
            self.p0.x.lemma_wf();
            self.p0.y.lemma_wf();
            self.p1.x.lemma_wf();
            self.p1.y.lemma_wf();
            rhs.p0.x.lemma_wf();
            rhs.p0.y.lemma_wf();
            rhs.p1.x.lemma_wf();
            rhs.p1.y.lemma_wf();
            let a = LineF { p0: self@.p0, p1: self@.p1 };
            let b = LineF { p0: rhs@.p0, p1: rhs@.p1 };
            if li_den(a, b) != 0 {
                crate::line::lemma_isect_on_line(a, b);
                crate::line::lemma_isect_on_second(a, b);
            }
        }
        match seg_isect_raw(self, rhs) {
            SegRaw::At(p) => Some(p),
            _ => None,
        }
    }

    /// Check if this segment intersects with another segment.
    pub fn intersects(self, rhs: Seg) -> (r: bool)
        ensures
            r == spec_seg_intersects(self@, rhs@),
    {
        match seg_isect_raw(self, rhs) {
            SegRaw::At(_) => true,
            _ => false,
        }
    }
}

// Edges of a box as segments, used as intersection targets during the
// overlap test and clipping.
impl BBox {
    /// Get edge on X min side.
    pub(crate) fn x_min_edge(&self) -> (r: Seg)
        ensures
            r@ == spec_xmin_edge(self@),
    {
        Seg::new(Pt::new(self.x_min(), self.y_min()), Pt::new(self.x_min(), self.y_max()))
    }

    /// Get edge on X max side.
    pub(crate) fn x_max_edge(&self) -> (r: Seg)
        ensures
            r@ == spec_xmax_edge(self@),
    {
        Seg::new(Pt::new(self.x_max(), self.y_min()), Pt::new(self.x_max(), self.y_max()))
    }

    /// Get edge on Y min side.
    pub(crate) fn y_min_edge(&self) -> (r: Seg)
        ensures
            r@ == spec_ymin_edge(self@),
    {
        Seg::new(Pt::new(self.x_min(), self.y_min()), Pt::new(self.x_max(), self.y_min()))
    }

    /// Get edge on Y max side.
    pub(crate) fn y_max_edge(&self) -> (r: Seg)
        ensures
            r@ == spec_ymax_edge(self@),
    {
        Seg::new(Pt::new(self.x_min(), self.y_max()), Pt::new(self.x_max(), self.y_max()))
    }
}

/// The endpoint region is on the left side of the box, strictly.
pub open spec fn leftish(b: Bounds) -> bool {
    b == Bounds::Left || b == Bounds::BelowLeft || b == Bounds::AboveLeft
}

/// The endpoint region is on the right side of the box, strictly.
pub open spec fn rightish(b: Bounds) -> bool {
    b == Bounds::Right || b == Bounds::BelowRight || b == Bounds::AboveRight
}

/// The endpoint region is below the box, strictly.
pub open spec fn belowish(b: Bounds) -> bool {
    b == Bounds::Below || b == Bounds::BelowLeft || b == Bounds::BelowRight
}

/// The endpoint region is above the box, strictly.
pub open spec fn aboveish(b: Bounds) -> bool {
    b == Bounds::Above || b == Bounds::AboveLeft || b == Bounds::AboveRight
}

/// The outcode overlap test of a segment against a box: classify both
/// endpoints; accept when one is within or the two sit on strictly
/// opposite sides of one axis; reject when both sit beyond the same
/// side; otherwise test intersection against the edges implicated by
/// the endpoints' regions, in their order of appearance.
pub open spec fn spec_seg_bounded(s: SegF, bb: BoxF) -> bool {
    let b0 = spec_check(bb, s.p0.x, s.p0.y);
    let b1 = spec_check(bb, s.p1.x, s.p1.y);
    if b0 == Bounds::Within || b1 == Bounds::Within {
        true
    } else if b0 == Bounds::Left && b1 == Bounds::Right {
        true
    } else if b0 == Bounds::Right && b1 == Bounds::Left {
        true
    } else if b0 == Bounds::Below && b1 == Bounds::Above {
        true
    } else if b0 == Bounds::Above && b1 == Bounds::Below {
        true
    } else if leftish(b0) && leftish(b1) {
        false
    } else if rightish(b0) && rightish(b1) {
        false
    } else if belowish(b0) && belowish(b1) {
        false
    } else if aboveish(b0) && aboveish(b1) {
        false
    } else if b0 == Bounds::Left || b1 == Bounds::Left {
        spec_seg_intersects(s, spec_xmin_edge(bb))
    } else if b0 == Bounds::Right || b1 == Bounds::Right {
        spec_seg_intersects(s, spec_xmax_edge(bb))
    } else if b0 == Bounds::BelowLeft || b1 == Bounds::BelowLeft {
        spec_seg_intersects(s, spec_xmin_edge(bb)) || spec_seg_intersects(s, spec_ymin_edge(bb))
    } else if b0 == Bounds::AboveLeft || b1 == Bounds::AboveLeft {
        spec_seg_intersects(s, spec_xmin_edge(bb)) || spec_seg_intersects(s, spec_ymax_edge(bb))
    } else if b0 == Bounds::BelowRight || b1 == Bounds::BelowRight {
        spec_seg_intersects(s, spec_xmax_edge(bb)) || spec_seg_intersects(s, spec_ymin_edge(bb))
    } else if b0 == Bounds::AboveRight || b1 == Bounds::AboveRight {
        spec_seg_intersects(s, spec_xmax_edge(bb)) || spec_seg_intersects(s, spec_ymax_edge(bb))
    } else {
        false
    }
}

impl Seg {
    /// Check if this segment at least partially overlaps a bounding
    /// box, by the outcode test [`spec_seg_bounded`].
    pub fn bounded_by(&self, bbox: &BBox) -> (r: bool)
        ensures
            r == spec_seg_bounded(self@, bbox@),
    {
        let b0 = bbox.check(self.p0.x, self.p0.y);
        let b1 = bbox.check(self.p1.x, self.p1.y);
        if b0 == Bounds::Within || b1 == Bounds::Within {
            true
        } else if b0 == Bounds::Left && b1 == Bounds::Right {
            true
        } else if b0 == Bounds::Right && b1 == Bounds::Left {
            true
        } else if b0 == Bounds::Below && b1 == Bounds::Above {
            true
        } else if b0 == Bounds::Above && b1 == Bounds::Below {
            true
        } else if (b0 == Bounds::Left || b0 == Bounds::BelowLeft || b0 == Bounds::AboveLeft) && (b1
            == Bounds::Left || b1 == Bounds::BelowLeft || b1 == Bounds::AboveLeft) {
            false
        } else if (b0 == Bounds::Right || b0 == Bounds::BelowRight || b0 == Bounds::AboveRight)
            && (b1 == Bounds::Right || b1 == Bounds::BelowRight || b1 == Bounds::AboveRight) {
            false
        } else if (b0 == Bounds::Below || b0 == Bounds::BelowLeft || b0 == Bounds::BelowRight)
            && (b1 == Bounds::Below || b1 == Bounds::BelowLeft || b1 == Bounds::BelowRight) {
            false
        } else if (b0 == Bounds::Above || b0 == Bounds::AboveLeft || b0 == Bounds::AboveRight)
            && (b1 == Bounds::Above || b1 == Bounds::AboveLeft || b1 == Bounds::AboveRight) {
            false
        } else if b0 == Bounds::Left || b1 == Bounds::Left {
            self.intersects(bbox.x_min_edge())
        } else if b0 == Bounds::Right || b1 == Bounds::Right {
            self.intersects(bbox.x_max_edge())
        } else if b0 == Bounds::BelowLeft || b1 == Bounds::BelowLeft {
            self.intersects(bbox.x_min_edge()) || self.intersects(bbox.y_min_edge())
        } else if b0 == Bounds::AboveLeft || b1 == Bounds::AboveLeft {
            self.intersects(bbox.x_min_edge()) || self.intersects(bbox.y_max_edge())
        } else if b0 == Bounds::BelowRight || b1 == Bounds::BelowRight {
            self.intersects(bbox.x_max_edge()) || self.intersects(bbox.y_min_edge())
        } else if b0 == Bounds::AboveRight || b1 == Bounds::AboveRight {
            self.intersects(bbox.x_max_edge()) || self.intersects(bbox.y_max_edge())
        } else {
            false
        }
    }
}

/// One clipping pass against the left edge: when an endpoint lies
/// strictly left of the box, replace it with the segment's crossing of
/// that edge; a missing crossing changes nothing, and a crossing whose
/// reduced coordinates exceed the coordinate limits gives up.
pub open spec fn spec_clip_xmin(s: SegF, bb: BoxF) -> Option<SegF> {
    if flt(s.p0.x, bb.min.x) || flt(s.p1.x, bb.min.x) {
        match seg_hit(s, spec_xmin_edge(bb)) {
            SegHit::Hit(p) => if flt(s.p0.x, bb.min.x) {
                Some(SegF { p0: p, p1: s.p1 })
            } else {
                Some(SegF { p0: s.p0, p1: p })
            },
            SegHit::Miss => Some(s),
            SegHit::Big => None,
        }
    } else {
        Some(s)
    }
}

/// One clipping pass against the right edge; see [`spec_clip_xmin`].
pub open spec fn spec_clip_xmax(s: SegF, bb: BoxF) -> Option<SegF> {
    if flt(bb.max.x, s.p0.x) || flt(bb.max.x, s.p1.x) {
        match seg_hit(s, spec_xmax_edge(bb)) {
            SegHit::Hit(p) => if flt(bb.max.x, s.p0.x) {
                Some(SegF { p0: p, p1: s.p1 })
            } else {
                Some(SegF { p0: s.p0, p1: p })
            },
            SegHit::Miss => Some(s),
            SegHit::Big => None,
        }
    } else {
        Some(s)
    }
}

/// One clipping pass against the bottom edge; see [`spec_clip_xmin`].
pub open spec fn spec_clip_ymin(s: SegF, bb: BoxF) -> Option<SegF> {
    if flt(s.p0.y, bb.min.y) || flt(s.p1.y, bb.min.y) {
        match seg_hit(s, spec_ymin_edge(bb)) {
            SegHit::Hit(p) => if flt(s.p0.y, bb.min.y) {
                Some(SegF { p0: p, p1: s.p1 })
            } else {
                Some(SegF { p0: s.p0, p1: p })
            },
            SegHit::Miss => Some(s),
            SegHit::Big => None,
        }
    } else {
        Some(s)
    }
}

/// One clipping pass against the top edge; see [`spec_clip_xmin`].
pub open spec fn spec_clip_ymax(s: SegF, bb: BoxF) -> Option<SegF> {
    if flt(bb.max.y, s.p0.y) || flt(bb.max.y, s.p1.y) {
        match seg_hit(s, spec_ymax_edge(bb)) {
            SegHit::Hit(p) => if flt(bb.max.y, s.p0.y) {
                Some(SegF { p0: p, p1: s.p1 })
            } else {
                Some(SegF { p0: s.p0, p1: p })
            },
            SegHit::Miss => Some(s),
            SegHit::Big => None,
        }
    } else {
        Some(s)
    }
}

/// Clipping a segment against a box: reject segments that do not
/// overlap the box, then apply the four edge passes in a fixed order,
/// each working on the endpoints the previous one left.
pub open spec fn spec_clip(s: SegF, bb: BoxF) -> Option<SegF> {
    if !spec_seg_bounded(s, bb) {
        None
    } else {
        match spec_clip_xmin(s, bb) {
            None => None,
            Some(s1) => match spec_clip_xmax(s1, bb) {
                None => None,
                Some(s2) => match spec_clip_ymin(s2, bb) {
                    None => None,
                    Some(s3) => spec_clip_ymax(s3, bb),
                },
            },
        }
    }
}

impl Seg {
    /// Clip this segment with a bounding box: trim each endpoint to the
    /// box by intersecting with its four edges in turn. `None` when the
    /// segment does not overlap the box, and when a crossing's reduced
    /// coordinates exceed the coordinate limits. For a valid box, every
    /// endpoint the passes moved lies within the box.
    pub fn clip(self, bbox: &BBox) -> (r: Option<Seg>)
        ensures
            r is Some <==> spec_clip(self@, bbox@) is Some,
            r matches Some(s) ==> s@ == spec_clip(self@, bbox@).unwrap(),
            r matches Some(s) ==> crate::bbox::box_valid(bbox@) ==> {
                &&& s@.p0 == self@.p0 || spec_check(bbox@, s@.p0.x, s@.p0.y) == Bounds::Within
                &&& s@.p1 == self@.p1 || spec_check(bbox@, s@.p1.x, s@.p1.y) == Bounds::Within
            },
    {
        proof {
            use_type_invariant(self.p0.x);
            use_type_invariant(self.p0.y);
            use_type_invariant(self.p1.x);
            use_type_invariant(self.p1.y);
            self.p0.x.lemma_wf();
            self.p0.y.lemma_wf();
            self.p1.x.lemma_wf();
            self.p1.y.lemma_wf();
        }
        let lo_x = bbox.x_min();
        let hi_x = bbox.x_max();
        let lo_y = bbox.y_min();
        let hi_y = bbox.y_max();
        proof {
            use_type_invariant(lo_x);
            use_type_invariant(hi_x);
            use_type_invariant(lo_y);
            use_type_invariant(hi_y);
            lo_x.lemma_wf();
            hi_x.lemma_wf();
            lo_y.lemma_wf();
            hi_y.lemma_wf();
            if crate::bbox::box_valid(bbox@) {
                lemma_clip_endpoints(self@, bbox@);
            }
        }
        if !self.bounded_by(bbox) {
            return None;
        }
        let mut s = self;
        let xmn = bbox.x_min();
        if s.p0.x.lt(xmn) || s.p1.x.lt(xmn) {
            match seg_isect_raw(s, bbox.x_min_edge()) {
                SegRaw::At(p) => {
                    if s.p0.x.lt(xmn) {
                        s.p0 = p;
                    } else {
                        s.p1 = p;
                    }
                },
                SegRaw::Miss => {},
                SegRaw::Big => {
                    return None;
                },
            }
        }
        let xmx = bbox.x_max();
        if xmx.lt(s.p0.x) || xmx.lt(s.p1.x) {
            match seg_isect_raw(s, bbox.x_max_edge()) {
                SegRaw::At(p) => {
                    if xmx.lt(s.p0.x) {
                        s.p0 = p;
                    } else {
                        s.p1 = p;
                    }
                },
                SegRaw::Miss => {},
                SegRaw::Big => {
                    return None;
                },
            }
        }
        let ymn = bbox.y_min();
        if s.p0.y.lt(ymn) || s.p1.y.lt(ymn) {
            match seg_isect_raw(s, bbox.y_min_edge()) {
                SegRaw::At(p) => {
                    if s.p0.y.lt(ymn) {
                        s.p0 = p;
                    } else {
                        s.p1 = p;
                    }
                },
                SegRaw::Miss => {},
                SegRaw::Big => {
                    return None;
                },
            }
        }
        let ymx = bbox.y_max();
        if ymx.lt(s.p0.y) || ymx.lt(s.p1.y) {
            match seg_isect_raw(s, bbox.y_max_edge()) {
                SegRaw::At(p) => {
                    if ymx.lt(s.p0.y) {
                        s.p0 = p;
                    } else {
                        s.p1 = p;
                    }
                },
                SegRaw::Miss => {},
                SegRaw::Big => {
                    return None;
                },
            }
        }
        Some(s)
    }
}

/// The squared distance from a segment to a point, by the three-way
/// case split: past the far endpoint, past the near endpoint, or
/// against the support line in between. Ties at a zero dot product
/// fall to the in-between case.
pub open spec fn spec_seg_dist_sq(s: SegF, p: PtF) -> Frac {
    let v0 = psub(s.p1, s.p0);
    let v1 = psub(p, s.p1);
    let v2 = psub(s.p0, s.p1);
    let v3 = psub(p, s.p0);
    if fpos(pdot(v0, v1)) {
        pdot(v1, v1)
    } else if fpos(pdot(v2, v3)) {
        pdot(v3, v3)
    } else {
        fdiv(fmul(pcross(v0, v3), pcross(v0, v3)), pdot(v0, v0))
    }
}

/// Whether the squared segment-point distance, and in the in-between
/// case its two reduced intermediate values, fit within the coordinate
/// limits.
pub open spec fn spec_seg_dist_ok(s: SegF, p: PtF) -> bool {
    let v0 = psub(s.p1, s.p0);
    let v1 = psub(p, s.p1);
    let v2 = psub(s.p0, s.p1);
    let v3 = psub(p, s.p0);
    if fpos(pdot(v0, v1)) {
        representable(pdot(v1, v1))
    } else if fpos(pdot(v2, v3)) {
        representable(pdot(v3, v3))
    } else {
        &&& representable(pcross(v0, v3))
        &&& representable(pdot(v0, v0))
        &&& representable(spec_seg_dist_sq(s, p))
    }
}

impl Seg {
    /// Get the squared distance from the line segment to a point,
    /// exactly. `None` when a reduced intermediate or the result
    /// exceeds the coordinate limits.
    pub fn distance_sq(self, pt: Pt) -> (r: Option<Rat>)
        requires
            !peq(self@.p0, self@.p1),
        ensures
            r is Some <==> spec_seg_dist_ok(self@, pt@),
            r matches Some(q) ==> q@ == canon(spec_seg_dist_sq(self@, pt@)),
    {
        // If the dot product of `v0` and `v1` is positive, the nearest
        // point on the segment is `p1`.
        if diff_dot_pos(self.p1, self.p0, pt, self.p1) {
            return pt.distance_sq(self.p1);
        }
        // If the dot product of `v2` and `v3` is positive, the nearest
        // point on the segment is `p0`.
        if diff_dot_pos(self.p0, self.p1, pt, self.p0) {
            return pt.distance_sq(self.p0);
        }
        // Otherwise the nearest point lies between the endpoints, so
        // the distance is the point-line distance.
        crate::line::line_dist_sq_raw(self.p0, self.p1, pt)
    }
}

/// The bounding box of two points holds exactly the span between them:
/// each side is one of the two coordinates, and the extremes bracket
/// both points.
pub proof fn lemma_pair_box(a: PtF, b: PtF)
    requires
        crate::point::pwf(a),
        crate::point::pwf(b),
        crate::rat::in_range(a.x),
        crate::rat::in_range(a.y),
        crate::rat::in_range(b.x),
        crate::rat::in_range(b.y),
    ensures
        ({
            let pb = spec_pair_box(a, b);
            &&& fwf(pb.min.x) && fwf(pb.min.y) && fwf(pb.max.x) && fwf(pb.max.y)
            &&& fle(pb.min.x, a.x) && fle(pb.min.x, b.x)
            &&& fle(a.x, pb.max.x) && fle(b.x, pb.max.x)
            &&& fle(pb.min.y, a.y) && fle(pb.min.y, b.y)
            &&& fle(a.y, pb.max.y) && fle(b.y, pb.max.y)
            &&& feq(pb.min.x, a.x) || pb.min.x == b.x
            &&& feq(pb.max.x, a.x) || pb.max.x == b.x
            &&& feq(pb.min.y, a.y) || pb.min.y == b.y
            &&& feq(pb.max.y, a.y) || pb.max.y == b.y
        }),
{
    let e = spec_empty_box();
    let m = spec_box_extend(e, a);
    let pb = spec_pair_box(a, b);
    assert(feq(m.min.x, a.x) && feq(m.min.y, a.y));
    assert(m.max.x == a.x && m.max.y == a.y);
    if fle(m.min.x, b.x) {
        crate::rat::lemma_cmp_feq(m.min.x, b.x, a.x, b.x);
    } else {
        crate::rat::lemma_cmp_feq(b.x, m.min.x, b.x, a.x);
    }
    if fle(m.min.y, b.y) {
        crate::rat::lemma_cmp_feq(m.min.y, b.y, a.y, b.y);
    } else {
        crate::rat::lemma_cmp_feq(b.y, m.min.y, b.y, a.y);
    }
}

/// The intersection point a hit against a vertical box edge reports
/// lies within the box: its X coordinate is the edge's, and the edge's
/// own bounding box pins its Y coordinate into the box's Y range.
pub proof fn lemma_hit_vertical(s: SegF, bb: BoxF, e: SegF)
    requires
        swf(s),
        crate::bbox::box_wf(bb),
        crate::bbox::box_valid(bb),
        e == spec_xmin_edge(bb) || e == spec_xmax_edge(bb),
        spec_seg_isect(s, e) is Some,
    ensures
        ({
            let p = spec_seg_isect(s, e).unwrap();
            spec_check(bb, p.x, p.y) == Bounds::Within
        }),
{
    let a = LineF { p0: s.p0, p1: s.p1 };
    let bl = LineF { p0: e.p0, p1: e.p1 };
    let p = spec_seg_isect(s, e).unwrap();
    let c = e.p0.x;
    crate::line::lemma_isect_vertical(a, bl);
    crate::line::lemma_li_wf(a, bl);
    crate::rat::lemma_feq_trans(p.x, crate::line::li_xf(a, bl), c);
    lemma_pair_box(e.p0, e.p1);
    let pb = spec_pair_box(e.p0, e.p1);
    assert(fle(pb.min.x, p.x) && fle(p.x, pb.max.x) && fle(pb.min.y, p.y) && fle(p.y, pb.max.y));
    // The edge's Y range is the box's Y range, whichever corner the
    // fold kept.
    assert(fle(bb.min.y, p.y)) by {
        if feq(pb.min.y, e.p0.y) {
            crate::rat::lemma_cmp_feq(pb.min.y, p.y, bb.min.y, p.y);
        } else {
            assert(pb.min.y == bb.max.y);
            assert(fle(bb.max.y, bb.min.y));
            crate::rat::lemma_cmp_feq(pb.min.y, p.y, bb.min.y, p.y);
        }
    }
    assert(fle(p.y, bb.max.y)) by {
        if feq(pb.max.y, e.p0.y) {
            assert(pb.max.y == bb.max.y || feq(pb.max.y, bb.min.y));
            if feq(pb.max.y, bb.min.y) {
                assert(fle(bb.min.y, pb.max.y));
                assert(fle(bb.max.y, bb.min.y)) by {
                    crate::rat::lemma_cmp_feq(e.p1.y, pb.max.y, bb.max.y, bb.min.y);
                }
            }
            crate::rat::lemma_cmp_feq(p.y, pb.max.y, p.y, bb.max.y);
        } else {
            assert(pb.max.y == bb.max.y);
        }
    }
    // The X coordinate is the edge's own, so it lies in the box's X
    // range on either edge.
    if e == spec_xmin_edge(bb) {
        crate::rat::lemma_cmp_feq(p.x, bb.min.x, bb.min.x, bb.min.x);
        crate::rat::lemma_cmp_feq(p.x, bb.max.x, bb.min.x, bb.max.x);
    } else {
        crate::rat::lemma_cmp_feq(p.x, bb.min.x, bb.max.x, bb.min.x);
        crate::rat::lemma_cmp_feq(p.x, bb.max.x, bb.max.x, bb.max.x);
    }
    crate::bbox::lemma_check_within_iff(bb, p.x, p.y);
}

/// The intersection point a hit against a horizontal box edge reports
/// lies within the box.
pub proof fn lemma_hit_horizontal(s: SegF, bb: BoxF, e: SegF)
    requires
        swf(s),
        crate::bbox::box_wf(bb),
        crate::bbox::box_valid(bb),
        e == spec_ymin_edge(bb) || e == spec_ymax_edge(bb),
        spec_seg_isect(s, e) is Some,
    ensures
        ({
            let p = spec_seg_isect(s, e).unwrap();
            spec_check(bb, p.x, p.y) == Bounds::Within
        }),
{
    let a = LineF { p0: s.p0, p1: s.p1 };
    let bl = LineF { p0: e.p0, p1: e.p1 };
    let p = spec_seg_isect(s, e).unwrap();
    let c = e.p0.y;
    crate::line::lemma_isect_horizontal(a, bl);
    crate::line::lemma_li_wf(a, bl);
    crate::rat::lemma_feq_trans(p.y, crate::line::li_yf(a, bl), c);
    lemma_pair_box(e.p0, e.p1);
    let pb = spec_pair_box(e.p0, e.p1);
    assert(fle(pb.min.x, p.x) && fle(p.x, pb.max.x) && fle(pb.min.y, p.y) && fle(p.y, pb.max.y));
    assert(fle(bb.min.x, p.x)) by {
        if feq(pb.min.x, e.p0.x) {
            crate::rat::lemma_cmp_feq(pb.min.x, p.x, bb.min.x, p.x);
        } else {
            assert(pb.min.x == bb.max.x);
            assert(fle(bb.max.x, bb.min.x));
            crate::rat::lemma_cmp_feq(pb.min.x, p.x, bb.min.x, p.x);
        }
    }
    assert(fle(p.x, bb.max.x)) by {
        if feq(pb.max.x, e.p0.x) {
            assert(pb.max.x == bb.max.x || feq(pb.max.x, bb.min.x));
            if feq(pb.max.x, bb.min.x) {
                assert(fle(bb.min.x, pb.max.x));
                assert(fle(bb.max.x, bb.min.x)) by {
                    crate::rat::lemma_cmp_feq(e.p1.x, pb.max.x, bb.max.x, bb.min.x);
                }
            }
            crate::rat::lemma_cmp_feq(p.x, pb.max.x, p.x, bb.max.x);
        } else {
            assert(pb.max.x == bb.max.x);
        }
    }
    if e == spec_ymin_edge(bb) {
        crate::rat::lemma_cmp_feq(p.y, bb.min.y, bb.min.y, bb.min.y);
        crate::rat::lemma_cmp_feq(p.y, bb.max.y, bb.min.y, bb.max.y);
    } else {
        crate::rat::lemma_cmp_feq(p.y, bb.min.y, bb.max.y, bb.min.y);
        crate::rat::lemma_cmp_feq(p.y, bb.max.y, bb.max.y, bb.max.y);
    }
    crate::bbox::lemma_check_within_iff(bb, p.x, p.y);
}

/// Clip containment, shown for every endpoint the passes move: each
/// endpoint of a clipped segment is either the matching endpoint of
/// the input segment, untouched, or lies within the box.
pub proof fn lemma_clip_endpoints(s: SegF, bb: BoxF)
    requires
        swf(s),
        crate::bbox::box_wf(bb),
        crate::bbox::box_valid(bb),
    ensures
        spec_clip(s, bb) matches Some(s2) ==> {
            &&& s2.p0 == s.p0 || spec_check(bb, s2.p0.x, s2.p0.y) == Bounds::Within
            &&& s2.p1 == s.p1 || spec_check(bb, s2.p1.x, s2.p1.y) == Bounds::Within
            &&& swf(s2)
        },
{
    if spec_clip(s, bb) is Some {
        let s1 = spec_clip_xmin(s, bb).unwrap();
        lemma_pass_keeps(s, bb, spec_xmin_edge(bb), s1);
        let s2 = spec_clip_xmax(s1, bb).unwrap();
        lemma_pass_keeps(s1, bb, spec_xmax_edge(bb), s2);
        let s3 = spec_clip_ymin(s2, bb).unwrap();
        lemma_pass_keeps(s2, bb, spec_ymin_edge(bb), s3);
        let s4 = spec_clip_ymax(s3, bb).unwrap();
        lemma_pass_keeps(s3, bb, spec_ymax_edge(bb), s4);
    }
}

/// One clipping pass leaves each endpoint in place or moves it to a
/// point within the box.
proof fn lemma_pass_keeps(s: SegF, bb: BoxF, e: SegF, t: SegF)
    requires
        swf(s),
        crate::bbox::box_wf(bb),
        crate::bbox::box_valid(bb),
        (e == spec_xmin_edge(bb) && spec_clip_xmin(s, bb) == Some(t)) || (e == spec_xmax_edge(
            bb,
        ) && spec_clip_xmax(s, bb) == Some(t)) || (e == spec_ymin_edge(bb) && spec_clip_ymin(
            s,
            bb,
        ) == Some(t)) || (e == spec_ymax_edge(bb) && spec_clip_ymax(s, bb) == Some(t)),
    ensures
        t.p0 == s.p0 || spec_check(bb, t.p0.x, t.p0.y) == Bounds::Within,
        t.p1 == s.p1 || spec_check(bb, t.p1.x, t.p1.y) == Bounds::Within,
        swf(t),
{
    if t.p0 == s.p0 && t.p1 == s.p1 {
    } else {
        assert(seg_hit(s, e) is Hit);
        if e == spec_xmin_edge(bb) || e == spec_xmax_edge(bb) {
            lemma_hit_vertical(s, bb, e);
        } else {
            lemma_hit_horizontal(s, bb, e);
        }
        let a = LineF { p0: s.p0, p1: s.p1 };
        let bl = LineF { p0: e.p0, p1: e.p1 };
        crate::line::lemma_li_wf(a, bl);
    }
}

/// Clipping a segment that already lies within the box changes
/// nothing: the overlap test accepts it and no pass finds an endpoint
/// beyond its edge.
pub proof fn lemma_clip_inside_noop(s: SegF, bb: BoxF)
    requires
        spec_check(bb, s.p0.x, s.p0.y) == Bounds::Within,
        spec_check(bb, s.p1.x, s.p1.y) == Bounds::Within,
    ensures
        spec_clip(s, bb) == Some(s),
{
}

/// The left edge of a box, running the box's full Y span at its
/// minimum X.
pub open spec fn spec_xmin_edge(b: BoxF) -> SegF {
    SegF {
        p0: PtF { x: b.min.x, y: b.min.y },
        p1: PtF { x: b.min.x, y: b.max.y },
    }
}

/// The right edge of a box.
pub open spec fn spec_xmax_edge(b: BoxF) -> SegF {
    SegF {
        p0: PtF { x: b.max.x, y: b.min.y },
        p1: PtF { x: b.max.x, y: b.max.y },
    }
}

/// The bottom edge of a box.
pub open spec fn spec_ymin_edge(b: BoxF) -> SegF {
    SegF {
        p0: PtF { x: b.min.x, y: b.min.y },
        p1: PtF { x: b.max.x, y: b.min.y },
    }
}

/// The top edge of a box.
pub open spec fn spec_ymax_edge(b: BoxF) -> SegF {
    SegF {
        p0: PtF { x: b.min.x, y: b.max.y },
        p1: PtF { x: b.max.x, y: b.max.y },
    }
}

} // verus!
