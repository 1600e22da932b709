//! Planar geometric primitives over exact rational coordinates.
//!
//! Points live in the affine plane with `Rat` coordinates; headings are
//! direction vectors (a direction stands for a heading angle without leaving
//! the rational field; any positive scaling of the vector denotes the same
//! heading). The hyperbolic point
//! type stores the same disk point in both conformal charts.

use vstd::prelude::*;
use crate::rat::{
    Frac, Rat, frac_wf, frac_eqv, frac_add, frac_sub, frac_mul, frac_div, frac_le, frac_lt,
    frac_of_int, frac_is_zero, frac_norm, frac_fits, lemma_wf_ops, lemma_add_cong, lemma_mul_cong, lemma_eqv_trans,
    lemma_cmp_cong, lemma_add_cong_trans, lemma_sub_cong_trans, lemma_mul_cong_trans,
    lemma_div_cong_trans,
};

verus! {

/// The failure cases of the geometric kernel.
#[derive(Clone, Copy, PartialEq, Eq, Structural, Debug)]
pub enum BilliardsError {
    /// A coordinate lies outside the geometry's valid domain.
    DomainError,
    /// Two coincident points were given where distinct points are required.
    DegenerateGeometryError,
    /// A polygon with fewer than three vertices, or a degenerate edge.
    InvalidTableError,
    /// A tangent query from a point that is not external to the table.
    NoTangentError,
    /// Two lines that do not meet where an intersection was required.
    NoIntersectionError,
    /// An exact result left the 64-bit rational range.
    ArithmeticRangeError,
}

/// Ghost model of a planar point or vector: a pair of fractions.
pub ghost struct F2 {
    pub x: Frac,
    pub y: Frac,
}

pub open spec fn f2_wf(a: F2) -> bool {
    frac_wf(a.x) && frac_wf(a.y)
}

/// Componentwise value equality.
pub open spec fn f2_eqv(a: F2, b: F2) -> bool {
    frac_eqv(a.x, b.x) && frac_eqv(a.y, b.y)
}

pub open spec fn f2_add(a: F2, b: F2) -> F2 {
    F2 { x: frac_add(a.x, b.x), y: frac_add(a.y, b.y) }
}

pub open spec fn f2_sub(a: F2, b: F2) -> F2 {
    F2 { x: frac_sub(a.x, b.x), y: frac_sub(a.y, b.y) }
}

pub open spec fn f2_scale(s: Frac, v: F2) -> F2 {
    F2 { x: frac_mul(s, v.x), y: frac_mul(s, v.y) }
}

pub open spec fn f2_dot(a: F2, b: F2) -> Frac {
    frac_add(frac_mul(a.x, b.x), frac_mul(a.y, b.y))
}

pub open spec fn f2_cross(a: F2, b: F2) -> Frac {
    frac_sub(frac_mul(a.x, b.y), frac_mul(a.y, b.x))
}

pub open spec fn f2_is_zero(a: F2) -> bool {
    frac_is_zero(a.x) && frac_is_zero(a.y)
}

/// The reduced componentwise difference, exactly as the executable layer
/// stores it.
pub open spec fn f2_nsub(a: F2, b: F2) -> F2 {
    F2 { x: frac_norm(frac_sub(a.x, b.x)), y: frac_norm(frac_sub(a.y, b.y)) }
}

/// Both components of the difference fit the reduced 64-bit range.
pub open spec fn sub_fits(a: F2, b: F2) -> bool {
    frac_fits(frac_sub(a.x, b.x)) && frac_fits(frac_sub(a.y, b.y))
}

/// The dot product exactly as the executable layer computes it: each
/// intermediate reduced to canonical form.
pub open spec fn dot_n(a: F2, b: F2) -> Frac {
    frac_norm(frac_add(frac_norm(frac_mul(a.x, b.x)), frac_norm(frac_mul(a.y, b.y))))
}

/// Every intermediate of the dot product fits the reduced 64-bit range.
pub open spec fn dot_fits(a: F2, b: F2) -> bool {
    &&& frac_fits(frac_mul(a.x, b.x))
    &&& frac_fits(frac_mul(a.y, b.y))
    &&& frac_fits(frac_add(frac_norm(frac_mul(a.x, b.x)), frac_norm(frac_mul(a.y, b.y))))
}

/// The cross product exactly as the executable layer computes it.
pub open spec fn cross_n(a: F2, b: F2) -> Frac {
    frac_norm(frac_sub(frac_norm(frac_mul(a.x, b.y)), frac_norm(frac_mul(a.y, b.x))))
}

/// Every intermediate of the cross product fits the reduced 64-bit range.
pub open spec fn cross_fits(a: F2, b: F2) -> bool {
    &&& frac_fits(frac_mul(a.x, b.y))
    &&& frac_fits(frac_mul(a.y, b.x))
    &&& frac_fits(frac_sub(frac_norm(frac_mul(a.x, b.y)), frac_norm(frac_mul(a.y, b.x))))
}

/// Every intermediate of `p + s * v` fits the reduced 64-bit range.
pub open spec fn translate_fits(p: F2, s: Frac, v: F2) -> bool {
    &&& frac_fits(frac_mul(s, v.x))
    &&& frac_fits(frac_mul(s, v.y))
    &&& frac_fits(frac_add(p.x, frac_norm(frac_mul(s, v.x))))
    &&& frac_fits(frac_add(p.y, frac_norm(frac_mul(s, v.y))))
}

/// `p + s * v` exactly as the executable layer computes it.
pub open spec fn translate_n(p: F2, s: Frac, v: F2) -> F2 {
    F2 {
        x: frac_norm(frac_add(p.x, frac_norm(frac_mul(s, v.x)))),
        y: frac_norm(frac_add(p.y, frac_norm(frac_mul(s, v.y)))),
    }
}

/// Every intermediate of `2*c - o` fits the reduced 64-bit range.
pub open spec fn invert_fits(c: F2, o: F2) -> bool {
    &&& frac_fits(frac_mul(frac_of_int(2), c.x))
    &&& frac_fits(frac_mul(frac_of_int(2), c.y))
    &&& frac_fits(frac_sub(frac_norm(frac_mul(frac_of_int(2), c.x)), o.x))
    &&& frac_fits(frac_sub(frac_norm(frac_mul(frac_of_int(2), c.y)), o.y))
}

/// The squared distance from `a` to `b` exactly as the executable layer
/// computes it.
pub open spec fn dist2_n(a: F2, b: F2) -> Frac {
    dot_n(f2_nsub(b, a), f2_nsub(b, a))
}

/// Every intermediate of the squared distance fits the reduced 64-bit
/// range.
pub open spec fn dist2_fits(a: F2, b: F2) -> bool {
    sub_fits(b, a) && dot_fits(f2_nsub(b, a), f2_nsub(b, a))
}

/// Every intermediate of the reflection formula fits the reduced 64-bit
/// range.
pub open spec fn reflect_fits(d: F2, u: F2) -> bool {
    let tn = frac_norm(frac_mul(frac_of_int(2), dot_n(d, u)));
    let uun = dot_n(u, u);
    &&& dot_fits(d, u)
    &&& dot_fits(u, u)
    &&& frac_fits(frac_mul(frac_of_int(2), dot_n(d, u)))
    &&& frac_fits(frac_mul(tn, u.x))
    &&& frac_fits(frac_mul(tn, u.y))
    &&& frac_fits(frac_mul(uun, d.x))
    &&& frac_fits(frac_mul(uun, d.y))
    &&& frac_fits(frac_sub(frac_norm(frac_mul(tn, u.x)), frac_norm(frac_mul(uun, d.x))))
    &&& frac_fits(frac_sub(frac_norm(frac_mul(tn, u.y)), frac_norm(frac_mul(uun, d.y))))
}

/// Cross and dot products respect value equality of their operands.
pub proof fn lemma_cross_cong(a: F2, a2: F2, b: F2, b2: F2)
    requires
        f2_wf(a),
        f2_wf(a2),
        f2_wf(b),
        f2_wf(b2),
        f2_eqv(a, a2),
        f2_eqv(b, b2),
    ensures
        frac_eqv(f2_cross(a, b), f2_cross(a2, b2)),
        frac_eqv(f2_dot(a, b), f2_dot(a2, b2)),
        frac_wf(f2_cross(a, b)),
        frac_wf(f2_dot(a, b)),
        frac_wf(f2_cross(a2, b2)),
        frac_wf(f2_dot(a2, b2)),
{
    lemma_mul_cong(a.x, a2.x, b.y, b2.y);
    lemma_mul_cong(a.y, a2.y, b.x, b2.x);
    lemma_mul_cong(a.x, a2.x, b.x, b2.x);
    lemma_mul_cong(a.y, a2.y, b.y, b2.y);
    lemma_wf_ops(a.x, b.y);
    lemma_wf_ops(a.y, b.x);
    lemma_wf_ops(a.x, b.x);
    lemma_wf_ops(a.y, b.y);
    lemma_wf_ops(a2.x, b2.y);
    lemma_wf_ops(a2.y, b2.x);
    lemma_wf_ops(a2.x, b2.x);
    lemma_wf_ops(a2.y, b2.y);
    lemma_wf_ops(frac_mul(a.x, b.y), frac_mul(a.y, b.x));
    lemma_wf_ops(frac_mul(a.x, b.x), frac_mul(a.y, b.y));
    lemma_wf_ops(frac_mul(a2.x, b2.y), frac_mul(a2.y, b2.x));
    lemma_wf_ops(frac_mul(a2.x, b2.x), frac_mul(a2.y, b2.y));
    lemma_add_cong(
        frac_mul(a.x, b.y),
        frac_mul(a2.x, b2.y),
        frac_mul(a.y, b.x),
        frac_mul(a2.y, b2.x),
    );
    lemma_add_cong(
        frac_mul(a.x, b.x),
        frac_mul(a2.x, b2.x),
        frac_mul(a.y, b.y),
        frac_mul(a2.y, b2.y),
    );
}

/// An affine point with exact rational coordinates.
#[derive(Clone, Copy, PartialEq, Eq, Structural, Debug)]
pub struct AffinePoint {
    pub x: Rat,
    pub y: Rat,
}

impl View for AffinePoint {
    type V = F2;

    open spec fn view(&self) -> F2 {
        F2 { x: self.x@, y: self.y@ }
    }
}

/// A direction in the plane, stored as a vector.
#[derive(Clone, Copy, PartialEq, Eq, Structural, Debug)]
pub struct Heading {
    pub dx: Rat,
    pub dy: Rat,
}

impl View for Heading {
    type V = F2;

    open spec fn view(&self) -> F2 {
        F2 { x: self.dx@, y: self.dy@ }
    }
}

impl Heading {
    pub open spec fn wf(self) -> bool {
        self.dx.wf() && self.dy.wf()
    }

    /// Exact dot product with another direction.
    pub fn dot(&self, o: &Heading) -> (r: Option<Rat>)
        requires
            self.wf(),
            o.wf(),
        ensures
            r matches Some(v) ==> v.wf() && frac_eqv(v@, f2_dot(self@, o@)) && v@ == dot_n(
                self@,
                o@,
            ),
            (r is Some) == dot_fits(self@, o@),
    {
        let xx = match self.dx.mul(o.dx) {
            Some(v) => v,
            None => { return None; },
        };
        let yy = match self.dy.mul(o.dy) {
            Some(v) => v,
            None => { return None; },
        };
        match xx.add(yy) {
            Some(v) => {
                proof {
                    lemma_wf_ops(self@.x, o@.x);
                    lemma_wf_ops(self@.y, o@.y);
                    lemma_add_cong_trans(
                        v@,
                        xx@,
                        yy@,
                        frac_mul(self@.x, o@.x),
                        frac_mul(self@.y, o@.y),
                    );
                }
                Some(v)
            },
            None => None,
        }
    }

    /// Exact cross product with another direction.
    pub fn cross(&self, o: &Heading) -> (r: Option<Rat>)
        requires
            self.wf(),
            o.wf(),
        ensures
            r matches Some(v) ==> v.wf() && frac_eqv(v@, f2_cross(self@, o@)) && v@ == cross_n(
                self@,
                o@,
            ),
            (r is Some) == cross_fits(self@, o@),
    {
        let xy = match self.dx.mul(o.dy) {
            Some(v) => v,
            None => { return None; },
        };
        let yx = match self.dy.mul(o.dx) {
            Some(v) => v,
            None => { return None; },
        };
        match xy.sub(yx) {
            Some(v) => {
                proof {
                    lemma_wf_ops(self@.x, o@.y);
                    lemma_wf_ops(self@.y, o@.x);
                    lemma_sub_cong_trans(
                        v@,
                        xy@,
                        yx@,
                        frac_mul(self@.x, o@.y),
                        frac_mul(self@.y, o@.x),
                    );
                }
                Some(v)
            },
            None => None,
        }
    }

    /// Whether the direction is the zero vector (no direction at all).
    pub fn is_degenerate(&self) -> (r: bool)
        requires
            self.wf(),
        ensures
            r == f2_is_zero(self@),
    {
        self.dx.is_zero() && self.dy.is_zero()
    }
}

impl AffinePoint {
    pub open spec fn wf(self) -> bool {
        self.x.wf() && self.y.wf()
    }

    /// Exact value equality of two points.
    pub fn eq_pt(&self, o: &AffinePoint) -> (r: bool)
        requires
            self.wf(),
            o.wf(),
        ensures
            r == f2_eqv(self@, o@),
    {
        self.x.eq_val(&o.x) && self.y.eq_val(&o.y)
    }

    /// The vector from `self` to `o`.
    pub fn vector_to(&self, o: &AffinePoint) -> (r: Option<Heading>)
        requires
            self.wf(),
            o.wf(),
        ensures
            r matches Some(v) ==> v.wf() && f2_eqv(v@, f2_sub(o@, self@)) && v@ == f2_nsub(
                o@,
                self@,
            ),
            (r is Some) == sub_fits(o@, self@),
    {
        let dx = match o.x.sub(self.x) {
            Some(v) => v,
            None => { return None; },
        };
        let dy = match o.y.sub(self.y) {
            Some(v) => v,
            None => { return None; },
        };
        Some(Heading { dx, dy })
    }

    /// The heading from `self` toward `o`; fails with
    /// `DegenerateGeometryError` when the points coincide, or on range
    /// exhaustion.
    pub fn heading_to(&self, o: &AffinePoint) -> (r: Result<Heading, BilliardsError>)
        requires
            self.wf(),
            o.wf(),
        ensures
            r matches Ok(v) ==> v.wf() && f2_eqv(v@, f2_sub(o@, self@)) && !f2_eqv(self@, o@)
                && v@ == f2_nsub(o@, self@),
            (r is Ok) == (!f2_eqv(self@, o@) && sub_fits(o@, self@)),
            r matches Err(e) ==> e == BilliardsError::DegenerateGeometryError
                || e == BilliardsError::ArithmeticRangeError,
            f2_eqv(self@, o@) ==> (r matches Err(e) && e
                == BilliardsError::DegenerateGeometryError),
    {
        if self.eq_pt(o) {
            return Err(BilliardsError::DegenerateGeometryError);
        }
        match self.vector_to(o) {
            Some(v) => Ok(v),
            None => Err(BilliardsError::ArithmeticRangeError),
        }
    }

    /// The point `self + s * v`.
    pub fn translate(&self, v: &Heading, s: &Rat) -> (r: Option<AffinePoint>)
        requires
            self.wf(),
            v.wf(),
            s.wf(),
        ensures
            r matches Some(q) ==> q.wf() && f2_eqv(q@, f2_add(self@, f2_scale(s@, v@))) && q@
                == translate_n(self@, s@, v@),
            (r is Some) == translate_fits(self@, s@, v@),
    {
        let sx = match s.mul(v.dx) {
            Some(t) => t,
            None => { return None; },
        };
        let sy = match s.mul(v.dy) {
            Some(t) => t,
            None => { return None; },
        };
        let qx = match self.x.add(sx) {
            Some(t) => t,
            None => { return None; },
        };
        let qy = match self.y.add(sy) {
            Some(t) => t,
            None => { return None; },
        };
        proof {
            lemma_wf_ops(s@, v@.x);
            lemma_wf_ops(s@, v@.y);
            lemma_add_cong_trans(qx@, self@.x, sx@, self@.x, frac_mul(s@, v@.x));
            lemma_add_cong_trans(qy@, self@.y, sy@, self@.y, frac_mul(s@, v@.y));
        }
        Some(AffinePoint { x: qx, y: qy })
    }

    /// Point reflection of `other` through `self`: the point
    /// `2*self - other`. This is the affine inversion law of outer billiards.
    pub fn invert(&self, other: &AffinePoint) -> (r: Option<AffinePoint>)
        requires
            self.wf(),
            other.wf(),
        ensures
            r matches Some(q) ==> q.wf() && f2_eqv(
                q@,
                f2_sub(f2_scale(frac_of_int(2), self@), other@),
            ),
            (r is Some) == invert_fits(self@, other@),
    {
        let two = Rat::from_int(2);
        let tx = match two.mul(self.x) {
            Some(t) => t,
            None => { return None; },
        };
        let ty = match two.mul(self.y) {
            Some(t) => t,
            None => { return None; },
        };
        let qx = match tx.sub(other.x) {
            Some(t) => t,
            None => { return None; },
        };
        let qy = match ty.sub(other.y) {
            Some(t) => t,
            None => { return None; },
        };
        proof {
            lemma_wf_ops(frac_of_int(2), self@.x);
            lemma_wf_ops(frac_of_int(2), self@.y);
            lemma_sub_cong_trans(qx@, tx@, other@.x, frac_mul(frac_of_int(2), self@.x), other@.x);
            lemma_sub_cong_trans(qy@, ty@, other@.y, frac_mul(frac_of_int(2), self@.y), other@.y);
        }
        Some(AffinePoint { x: qx, y: qy })
    }

    /// The squared Euclidean distance to `o`, exact.
    pub fn dist_sqr(&self, o: &AffinePoint) -> (r: Option<Rat>)
        requires
            self.wf(),
            o.wf(),
        ensures
            r matches Some(v) ==> v.wf() && frac_eqv(
                v@,
                f2_dot(f2_sub(o@, self@), f2_sub(o@, self@)),
            ) && v@ == dist2_n(self@, o@),
            (r is Some) == dist2_fits(self@, o@),
    {
        let d = match self.vector_to(o) {
            Some(v) => v,
            None => { return None; },
        };
        match d.dot(&d) {
            Some(v) => {
                proof {
                    lemma_wf_ops(o@.x, self@.x);
                    lemma_wf_ops(o@.y, self@.y);
                    lemma_cross_cong(d@, f2_sub(o@, self@), d@, f2_sub(o@, self@));
                    lemma_eqv_trans(
                        v@,
                        f2_dot(d@, d@),
                        f2_dot(f2_sub(o@, self@), f2_sub(o@, self@)),
                    );
                }
                Some(v)
            },
            None => None,
        }
    }
}

/// The direction of the reflection of direction `d` about the tangent
/// direction `u`, scaled by the positive factor `dot(u, u)`:
/// `2*dot(d, u)*u - dot(u, u)*d`. A heading is scale-free, so this denotes
/// the classical reflected heading.
pub open spec fn reflect_frac(d: F2, u: F2) -> F2 {
    f2_sub(
        f2_scale(frac_mul(frac_of_int(2), f2_dot(d, u)), u),
        f2_scale(f2_dot(u, u), d),
    )
}

/// Law of reflection on integer direction components: the reflected vector
/// `r = 2*(d . u)*u - (u . u)*d` keeps the tangential component of `d`
/// along `u` and reverses the normal component, so the angle of incidence
/// equals the angle of reflection. Every heading is a positive scaling of
/// such an integer pair over a common denominator.
pub proof fn lemma_reflection_law(dx: int, dy: int, ux: int, uy: int)
    ensures
        (2 * (dx * ux + dy * uy) * ux - (ux * ux + uy * uy) * dx) * ux + (2 * (dx * ux + dy
            * uy) * uy - (ux * ux + uy * uy) * dy) * uy == (ux * ux + uy * uy) * (dx * ux + dy
            * uy),
        ux * (2 * (dx * ux + dy * uy) * uy - (ux * ux + uy * uy) * dy) - uy * (2 * (dx * ux
            + dy * uy) * ux - (ux * ux + uy * uy) * dx) == -((ux * ux + uy * uy) * (ux * dy
            - uy * dx)),
{
    assert((2 * (dx * ux + dy * uy) * ux - (ux * ux + uy * uy) * dx) * ux + (2 * (dx * ux + dy
        * uy) * uy - (ux * ux + uy * uy) * dy) * uy == (ux * ux + uy * uy) * (dx * ux + dy
        * uy)) by (nonlinear_arith);
    assert(ux * (2 * (dx * ux + dy * uy) * uy - (ux * ux + uy * uy) * dy) - uy * (2 * (dx * ux
        + dy * uy) * ux - (ux * ux + uy * uy) * dx) == -((ux * ux + uy * uy) * (ux * dy - uy
        * dx))) by (nonlinear_arith);
}

/// The reflection of an incoming heading about a tangent heading: the
/// standard law of reflection. Fails with `DegenerateGeometryError` when
/// the tangent is the zero vector, or on range exhaustion.
pub fn reflect(incident: &Heading, tangent: &Heading) -> (r: Result<Heading, BilliardsError>)
    requires
        incident.wf(),
        tangent.wf(),
    ensures
        r matches Ok(v) ==> v.wf() && f2_eqv(v@, reflect_frac(incident@, tangent@)),
        (r is Ok) == (!f2_is_zero(tangent@) && reflect_fits(incident@, tangent@)),
        r matches Err(e) ==> e == BilliardsError::DegenerateGeometryError
            || e == BilliardsError::ArithmeticRangeError,
        f2_is_zero(tangent@) ==> (r matches Err(e) && e
            == BilliardsError::DegenerateGeometryError),
{
    if tangent.is_degenerate() {
        return Err(BilliardsError::DegenerateGeometryError);
    }
    let du = match incident.dot(tangent) {
        Some(v) => v,
        None => { return Err(BilliardsError::ArithmeticRangeError); },
    };
    let uu = match tangent.dot(tangent) {
        Some(v) => v,
        None => { return Err(BilliardsError::ArithmeticRangeError); },
    };
    let two = Rat::from_int(2);
    let t = match two.mul(du) {
        Some(v) => v,
        None => { return Err(BilliardsError::ArithmeticRangeError); },
    };
    let ax = match t.mul(tangent.dx) {
        Some(v) => v,
        None => { return Err(BilliardsError::ArithmeticRangeError); },
    };
    let ay = match t.mul(tangent.dy) {
        Some(v) => v,
        None => { return Err(BilliardsError::ArithmeticRangeError); },
    };
    let bx = match uu.mul(incident.dx) {
        Some(v) => v,
        None => { return Err(BilliardsError::ArithmeticRangeError); },
    };
    let by = match uu.mul(incident.dy) {
        Some(v) => v,
        None => { return Err(BilliardsError::ArithmeticRangeError); },
    };
    let rx = match ax.sub(bx) {
        Some(v) => v,
        None => { return Err(BilliardsError::ArithmeticRangeError); },
    };
    let ry = match ay.sub(by) {
        Some(v) => v,
        None => { return Err(BilliardsError::ArithmeticRangeError); },
    };
    proof {
        let d = incident@;
        let u = tangent@;
        let du_s = f2_dot(d, u);
        let uu_s = f2_dot(u, u);
        let t_s = frac_mul(frac_of_int(2), du_s);
        lemma_cross_cong(d, d, u, u);
        lemma_cross_cong(u, u, u, u);
        lemma_wf_ops(frac_of_int(2), du_s);
        lemma_mul_cong_trans(t@, frac_of_int(2), du@, frac_of_int(2), du_s);
        lemma_mul_cong_trans(ax@, t@, u.x, t_s, u.x);
        lemma_mul_cong_trans(ay@, t@, u.y, t_s, u.y);
        lemma_mul_cong_trans(bx@, uu@, d.x, uu_s, d.x);
        lemma_mul_cong_trans(by@, uu@, d.y, uu_s, d.y);
        lemma_sub_cong_trans(rx@, ax@, bx@, frac_mul(t_s, u.x), frac_mul(uu_s, d.x));
        lemma_sub_cong_trans(ry@, ay@, by@, frac_mul(t_s, u.y), frac_mul(uu_s, d.y));
    }
    Ok(Heading { dx: rx, dy: ry })
}

/// A line through two distinct points.
#[derive(Clone, Copy, PartialEq, Eq, Structural, Debug)]
pub struct Line {
    pub point1: AffinePoint,
    pub point2: AffinePoint,
}

/// The cross product of the two lines' directions; the lines are parallel
/// or coincident exactly when it is zero.
pub open spec fn isect_den(a1: F2, a2: F2, b1: F2, b2: F2) -> Frac {
    f2_cross(f2_sub(a2, a1), f2_sub(b2, b1))
}

/// The Cramer parameter along `a1 -> a2` at which that line meets the line
/// `b1 -> b2`; meaningful when the denominator is not zero.
pub open spec fn isect_s(a1: F2, a2: F2, b1: F2, b2: F2) -> Frac {
    frac_div(f2_cross(f2_sub(b1, a1), f2_sub(b2, b1)), isect_den(a1, a2, b1, b2))
}

/// The two directions cross transversally and every intermediate of the
/// intersection computation fits the reduced 64-bit range.
pub open spec fn isect_fits(a1: F2, a2: F2, b1: F2, b2: F2) -> bool {
    let dan = f2_nsub(a2, a1);
    let dbn = f2_nsub(b2, b1);
    let denn = cross_n(dan, dbn);
    let wn = f2_nsub(b1, a1);
    let numn = cross_n(wn, dbn);
    let sn = frac_norm(frac_div(numn, denn));
    &&& sub_fits(a2, a1)
    &&& sub_fits(b2, b1)
    &&& cross_fits(dan, dbn)
    &&& !frac_is_zero(denn)
    &&& sub_fits(b1, a1)
    &&& cross_fits(wn, dbn)
    &&& frac_fits(frac_div(numn, denn))
    &&& translate_fits(a1, sn, dan)
}

impl Line {
    pub open spec fn wf(self) -> bool {
        self.point1.wf() && self.point2.wf()
    }

    /// The line through two points; fails with `DegenerateGeometryError`
    /// exactly when the points are equal.
    pub fn from_two_points(point1: AffinePoint, point2: AffinePoint) -> (r: Result<
        Line,
        BilliardsError,
    >)
        requires
            point1.wf(),
            point2.wf(),
        ensures
            r matches Ok(l) ==> l.point1 == point1 && l.point2 == point2 && !f2_eqv(
                point1@,
                point2@,
            ),
            (r is Err) == f2_eqv(point1@, point2@),
            r matches Err(e) ==> e == BilliardsError::DegenerateGeometryError,
    {
        if point1.eq_pt(&point2) {
            Err(BilliardsError::DegenerateGeometryError)
        } else {
            Ok(Line { point1, point2 })
        }
    }

    /// The heading from the line's first defining point to its second.
    pub fn start_heading(&self) -> (r: Result<Heading, BilliardsError>)
        requires
            self.wf(),
        ensures
            r matches Ok(v) ==> v.wf() && f2_eqv(v@, f2_sub(self.point2@, self.point1@)),
            (r is Ok) == (!f2_eqv(self.point1@, self.point2@) && sub_fits(
                self.point2@,
                self.point1@,
            )),
            r matches Err(e) ==> e == BilliardsError::DegenerateGeometryError
                || e == BilliardsError::ArithmeticRangeError,
    {
        self.point1.heading_to(&self.point2)
    }

    /// The unique intersection point with another line, as
    /// `point1 + s * (point2 - point1)` for the Cramer parameter `s`.
    /// `NoIntersectionError` reports parallel (or coincident) lines.
    pub fn intersect(&self, other: &Line) -> (r: Result<AffinePoint, BilliardsError>)
        requires
            self.wf(),
            other.wf(),
        ensures
            r matches Ok(q) ==> q.wf() && !frac_is_zero(
                isect_den(self.point1@, self.point2@, other.point1@, other.point2@),
            ) && f2_eqv(
                q@,
                f2_add(
                    self.point1@,
                    f2_scale(
                        isect_s(self.point1@, self.point2@, other.point1@, other.point2@),
                        f2_sub(self.point2@, self.point1@),
                    ),
                ),
            ),
            (r is Ok) == isect_fits(self.point1@, self.point2@, other.point1@, other.point2@),
            r matches Err(e) ==> e == BilliardsError::NoIntersectionError
                || e == BilliardsError::ArithmeticRangeError,
            (r matches Err(e) && e == BilliardsError::NoIntersectionError) ==> frac_is_zero(
                isect_den(self.point1@, self.point2@, other.point1@, other.point2@),
            ),
    {
        let ghost a1 = self.point1@;
        let ghost a2 = self.point2@;
        let ghost b1 = other.point1@;
        let ghost b2 = other.point2@;
        let da = match self.point1.vector_to(&self.point2) {
            Some(v) => v,
            None => { return Err(BilliardsError::ArithmeticRangeError); },
        };
        let db = match other.point1.vector_to(&other.point2) {
            Some(v) => v,
            None => { return Err(BilliardsError::ArithmeticRangeError); },
        };
        let den = match da.cross(&db) {
            Some(v) => v,
            None => { return Err(BilliardsError::ArithmeticRangeError); },
        };
        proof {
            lemma_wf_ops(a2.x, a1.x);
            lemma_wf_ops(a2.y, a1.y);
            lemma_wf_ops(b2.x, b1.x);
            lemma_wf_ops(b2.y, b1.y);
            lemma_cross_cong(da@, f2_sub(a2, a1), db@, f2_sub(b2, b1));
            lemma_eqv_trans(den@, f2_cross(da@, db@), isect_den(a1, a2, b1, b2));
            lemma_cmp_cong(
                den@,
                isect_den(a1, a2, b1, b2),
                den@,
                isect_den(a1, a2, b1, b2),
            );
        }
        if den.is_zero() {
            return Err(BilliardsError::NoIntersectionError);
        }
        let w = match self.point1.vector_to(&other.point1) {
            Some(v) => v,
            None => { return Err(BilliardsError::ArithmeticRangeError); },
        };
        let num = match w.cross(&db) {
            Some(v) => v,
            None => { return Err(BilliardsError::ArithmeticRangeError); },
        };
        let s = match num.div(den) {
            Some(v) => v,
            None => { return Err(BilliardsError::ArithmeticRangeError); },
        };
        proof {
            lemma_wf_ops(b1.x, a1.x);
            lemma_wf_ops(b1.y, a1.y);
            lemma_wf_ops(b2.x, b1.x);
            lemma_wf_ops(b2.y, b1.y);
            lemma_cross_cong(w@, f2_sub(b1, a1), db@, f2_sub(b2, b1));
            lemma_eqv_trans(
                num@,
                f2_cross(w@, db@),
                f2_cross(f2_sub(b1, a1), f2_sub(b2, b1)),
            );
            lemma_div_cong_trans(
                s@,
                num@,
                den@,
                f2_cross(f2_sub(b1, a1), f2_sub(b2, b1)),
                isect_den(a1, a2, b1, b2),
            );
        }
        let q = match self.point1.translate(&da, &s) {
            Some(v) => v,
            None => { return Err(BilliardsError::ArithmeticRangeError); },
        };
        proof {
            let s_s = isect_s(a1, a2, b1, b2);
            lemma_wf_ops(a2.x, a1.x);
            lemma_wf_ops(a2.y, a1.y);
            lemma_mul_cong(s@, s_s, da@.x, f2_sub(a2, a1).x);
            lemma_mul_cong(s@, s_s, da@.y, f2_sub(a2, a1).y);
            lemma_wf_ops(s@, da@.x);
            lemma_wf_ops(s@, da@.y);
            lemma_wf_ops(s_s, f2_sub(a2, a1).x);
            lemma_wf_ops(s_s, f2_sub(a2, a1).y);
            lemma_add_cong_trans(
                q@.x,
                a1.x,
                frac_mul(s@, da@.x),
                a1.x,
                frac_mul(s_s, f2_sub(a2, a1).x),
            );
            lemma_add_cong_trans(
                q@.y,
                a1.y,
                frac_mul(s@, da@.y),
                a1.y,
                frac_mul(s_s, f2_sub(a2, a1).y),
            );
        }
        Ok(q)
    }
}

/// A ray: a start point and a heading.
#[derive(Clone, Copy, PartialEq, Eq, Structural, Debug)]
pub struct Ray {
    pub start: AffinePoint,
    pub direction: Heading,
}

impl Ray {
    pub open spec fn wf(self) -> bool {
        self.start.wf() && self.direction.wf()
    }

    /// The ray from `point1` toward `point2`; fails with
    /// `DegenerateGeometryError` exactly when the points are equal.
    pub fn from_two_points(point1: AffinePoint, point2: AffinePoint) -> (r: Result<
        Ray,
        BilliardsError,
    >)
        requires
            point1.wf(),
            point2.wf(),
        ensures
            r matches Ok(ray) ==> ray.start == point1 && ray.wf() && f2_eqv(
                ray.direction@,
                f2_sub(point2@, point1@),
            ) && ray.direction@ == f2_nsub(point2@, point1@),
            (r is Ok) == (!f2_eqv(point1@, point2@) && sub_fits(point2@, point1@)),
            f2_eqv(point1@, point2@) ==> (r matches Err(e) && e
                == BilliardsError::DegenerateGeometryError),
            r matches Err(e) ==> e == BilliardsError::DegenerateGeometryError
                || e == BilliardsError::ArithmeticRangeError,
    {
        let direction = match point1.heading_to(&point2) {
            Ok(v) => v,
            Err(e) => { return Err(e); },
        };
        Ok(Ray { start: point1, direction })
    }

    /// The point at parameter `distance` along the ray, measured in units
    /// of the ray's direction vector: `start + distance * direction`.
    pub fn point_along(&self, distance: &Rat) -> (r: Option<AffinePoint>)
        requires
            self.wf(),
            distance.wf(),
        ensures
            r matches Some(q) ==> q.wf() && f2_eqv(
                q@,
                f2_add(self.start@, f2_scale(distance@, self.direction@)),
            ) && q@ == translate_n(self.start@, distance@, self.direction@),
            (r is Some) == translate_fits(self.start@, distance@, self.direction@),
    {
        self.start.translate(&self.direction, distance)
    }
}

/// A segment between two points.
#[derive(Clone, Copy, PartialEq, Eq, Structural, Debug)]
pub struct Segment {
    pub point1: AffinePoint,
    pub point2: AffinePoint,
}

/// A circle given by its center and radius.
#[derive(Clone, Copy, PartialEq, Eq, Structural, Debug)]
pub struct Circle {
    pub center: AffinePoint,
    pub radius: Rat,
}

/// The squared norm of a point's coordinate vector.
pub open spec fn norm_sqr_frac(p: F2) -> Frac {
    f2_dot(p, p)
}

/// The scale factor taking a Poincaré coordinate to the Klein coordinate of
/// the same disk point: `2 / (1 + |p|^2)`.
pub open spec fn klein_scale(p: F2) -> Frac {
    frac_div(frac_of_int(2), frac_add(frac_of_int(1), norm_sqr_frac(p)))
}

/// Every intermediate of the Poincaré-to-Klein conversion fits the reduced
/// 64-bit range.
pub open spec fn poincare_fits(p: F2) -> bool {
    let nsn = dot_n(p, p);
    let denn = frac_norm(frac_add(frac_of_int(1), nsn));
    let sn = frac_norm(frac_div(frac_of_int(2), denn));
    &&& dot_fits(p, p)
    &&& frac_fits(frac_add(frac_of_int(1), nsn))
    &&& !frac_is_zero(denn)
    &&& frac_fits(frac_div(frac_of_int(2), denn))
    &&& frac_fits(frac_mul(sn, p.x))
    &&& frac_fits(frac_mul(sn, p.y))
}

/// A point of the hyperbolic disk, stored redundantly in the Poincaré and
/// Klein conformal charts; both charts always denote the same point.
#[derive(Clone, Copy, PartialEq, Eq, Structural, Debug)]
pub struct HyperPoint {
    pub poincare: AffinePoint,
    pub klein: AffinePoint,
}

impl HyperPoint {
    /// Both charts are inside the closed unit disk and consistent: the
    /// Klein coordinate is the Poincaré coordinate scaled by
    /// `2 / (1 + |p|^2)`.
    pub open spec fn wf(self) -> bool {
        self.poincare.wf() && self.klein.wf() && frac_le(
            norm_sqr_frac(self.poincare@),
            frac_of_int(1),
        ) && f2_eqv(self.klein@, f2_scale(klein_scale(self.poincare@), self.poincare@))
    }

    /// Construct from a Poincaré coordinate. Fails with `DomainError` when
    /// the coordinate lies outside the closed unit disk; the Poincaré chart
    /// of the result is exactly the given point.
    pub fn from_poincare(poincare: AffinePoint) -> (r: Result<HyperPoint, BilliardsError>)
        requires
            poincare.wf(),
        ensures
            r matches Ok(h) ==> h.wf() && h.poincare == poincare,
            (r is Ok) == (poincare_fits(poincare@) && !frac_lt(
                frac_of_int(1),
                dot_n(poincare@, poincare@),
            )),
            r matches Err(e) ==> e == BilliardsError::DomainError
                || e == BilliardsError::ArithmeticRangeError,
            (r matches Err(e) && e == BilliardsError::DomainError) ==> frac_lt(
                frac_of_int(1),
                norm_sqr_frac(poincare@),
            ),
            r is Ok ==> frac_le(norm_sqr_frac(poincare@), frac_of_int(1)),
    {
        let ghost p = poincare@;
        let v = Heading { dx: poincare.x, dy: poincare.y };
        let ns = match v.dot(&v) {
            Some(t) => t,
            None => { return Err(BilliardsError::ArithmeticRangeError); },
        };
        let one = Rat::from_int(1);
        proof {
            lemma_cross_cong(v@, p, v@, p);
            lemma_cmp_cong(one@, frac_of_int(1), ns@, norm_sqr_frac(p));
            lemma_cmp_cong(ns@, norm_sqr_frac(p), one@, frac_of_int(1));
        }
        if one.lt(&ns) {
            return Err(BilliardsError::DomainError);
        }
        let denom = match one.add(ns) {
            Some(t) => t,
            None => { return Err(BilliardsError::ArithmeticRangeError); },
        };
        let two = Rat::from_int(2);
        let scale = match two.div(denom) {
            Some(t) => t,
            None => { return Err(BilliardsError::ArithmeticRangeError); },
        };
        let kx = match scale.mul(poincare.x) {
            Some(t) => t,
            None => { return Err(BilliardsError::ArithmeticRangeError); },
        };
        let ky = match scale.mul(poincare.y) {
            Some(t) => t,
            None => { return Err(BilliardsError::ArithmeticRangeError); },
        };
        proof {
            lemma_add_cong_trans(denom@, one@, ns@, frac_of_int(1), norm_sqr_frac(p));
            lemma_div_cong_trans(
                scale@,
                two@,
                denom@,
                frac_of_int(2),
                frac_add(frac_of_int(1), norm_sqr_frac(p)),
            );
            lemma_mul_cong_trans(kx@, scale@, p.x, klein_scale(p), p.x);
            lemma_mul_cong_trans(ky@, scale@, p.y, klein_scale(p), p.y);
        }
        Ok(HyperPoint { poincare, klein: AffinePoint { x: kx, y: ky } })
    }

    /// The Poincaré chart of the point, exactly as given at construction.
    pub fn poincare_coordinate(&self) -> (r: AffinePoint)
        ensures
            r == self.poincare,
    {
        self.poincare
    }

    /// The Klein chart of the point.
    pub fn klein_coordinate(&self) -> (r: AffinePoint)
        ensures
            r == self.klein,
    {
        self.klein
    }
}

/// The dot product of a vector with itself is nonnegative, and zero exactly
/// when the vector is zero.
pub proof fn lemma_dot_self(u: F2)
    requires
        f2_wf(u),
    ensures
        frac_wf(f2_dot(u, u)),
        frac_le(frac_of_int(0), f2_dot(u, u)),
        frac_is_zero(f2_dot(u, u)) == f2_is_zero(u),
        !f2_is_zero(u) ==> frac_lt(frac_of_int(0), f2_dot(u, u)),
{
    lemma_wf_ops(u.x, u.x);
    lemma_wf_ops(u.y, u.y);
    lemma_wf_ops(frac_mul(u.x, u.x), frac_mul(u.y, u.y));
    let s = f2_dot(u, u);
    assert(s.n >= 0 && (s.n == 0 <==> (u.x.n == 0 && u.y.n == 0))) by (nonlinear_arith)
        requires
            s.n == (u.x.n * u.x.n) * (u.y.d * u.y.d) + (u.y.n * u.y.n) * (u.x.d * u.x.d),
            u.x.d > 0,
            u.y.d > 0;
}

/// A difference of points is the zero vector exactly when the points are
/// equal as values.
pub proof fn lemma_sub_zero_iff(a: F2, b: F2)
    requires
        f2_wf(a),
        f2_wf(b),
    ensures
        f2_is_zero(f2_sub(b, a)) == f2_eqv(a, b),
{
}

} // verus!
