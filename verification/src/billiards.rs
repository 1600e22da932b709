//! Billiard state machines over a polygonal table.
//!
//! Engines are immutable once built; all orbit state lives in the state
//! values threaded through `next_state`. Iteration is an explicit fold: the
//! first error aborts the orbit and is surfaced, and the partial sequence is
//! discarded.

use vstd::prelude::*;
use crate::rat::{Rat, Frac, frac_of_int, frac_eqv, frac_wf};
use crate::geometry::{
    AffinePoint, BilliardsError, F2, Heading, f2_wf, f2_eqv, f2_sub, f2_scale, reflect,
    reflect_frac, invert_fits, reflect_fits, sub_fits, f2_nsub,
};
use crate::table::{
    PolygonTable, TableV, tbl_n, next_idx, edge_interval, edge_vec, fixed_of, point_rel,
    chord_hit, tangent_sided, scan_fits, chord_fits, point_callable, tangent_callable,
};

verus! {

/// Which transition law an engine applies.
#[derive(Clone, Copy, PartialEq, Eq, Structural, Debug)]
pub enum Flavor {
    /// The classical law: reflection (inner), point inversion (outer).
    Regular,
    /// The area-preserving twist variant (inner: the second chord is
    /// re-launched from the original start time).
    Symplectic,
}

/// Inner-billiards state: currently at the boundary point of `start_time`,
/// about to travel along `heading`.
#[derive(Clone, Copy, PartialEq, Eq, Structural, Debug)]
pub struct InnerBilliardsState {
    pub start_time: Rat,
    pub heading: Heading,
}

impl InnerBilliardsState {
    pub open spec fn wf(self) -> bool {
        self.start_time.wf() && self.heading.wf()
    }
}

/// Outer-billiards state: the current orbit point outside the table.
#[derive(Clone, Copy, PartialEq, Eq, Structural, Debug)]
pub struct OuterBilliardsState {
    pub point: AffinePoint,
}

impl OuterBilliardsState {
    pub open spec fn wf(self) -> bool {
        self.point.wf()
    }
}

/// One Regular inner step from `(t, h)` to `(t2, h2)`: the chord from the
/// boundary point at `t` with heading `h` ends at boundary time `t2`, and
/// `h2` is the reflection of the chord's heading about the tangent heading
/// of the edge containing `t2`.
pub open spec fn inner_regular_step(tv: TableV, t: Frac, h: F2, t2: Frac, h2: F2) -> bool {
    exists|j0: int, p0: F2, j: int, tan: F2|
        {
            &&& chord_hit(tv, t, h, t2, j0, p0, j)
            &&& (exists|jt: int|
                0 <= jt < tbl_n(tv) && edge_interval(tv, jt, fixed_of(tv, t2)) && f2_eqv(
                    tan,
                    edge_vec(tv, jt),
                ))
            &&& f2_wf(tan)
            &&& f2_eqv(h2, reflect_frac(h, tan))
        }
}

/// One Symplectic inner step: the first chord from `(t, h)` ends at `t2`;
/// a second chord is cast from the original start time `t` (the chord
/// heading at a chord's end is the chord's own heading, so it repeats `h`),
/// ending at `t3`; the new heading points from the boundary point at `t` to
/// the boundary point at `t3`; the new time is `t2`.
pub open spec fn inner_symplectic_step(tv: TableV, t: Frac, h: F2, t2: Frac, h2: F2) -> bool {
    exists|j0: int, p0: F2, j: int, t3: Frac, j0b: int, p0b: F2, jb: int, q0: F2, q2: F2|
        {
            &&& chord_hit(tv, t, h, t2, j0, p0, j)
            &&& frac_wf(t3)
            &&& chord_hit(tv, t, h, t3, j0b, p0b, jb)
            &&& point_rel(tv, t, q0)
            &&& point_rel(tv, t3, q2)
            &&& f2_wf(q0)
            &&& f2_wf(q2)
            &&& !f2_eqv(q0, q2)
            &&& f2_eqv(h2, f2_sub(q2, q0))
        }
}

/// One Regular outer step from orbit point `p` to `p2`: `p2` is the point
/// reflection of `p` through the right tangent vertex of the table.
pub open spec fn outer_regular_step(tv: TableV, p: F2, p2: F2) -> bool {
    exists|i: int|
        0 <= i < tbl_n(tv) && tangent_sided(tv, p, i, true) && f2_eqv(
            p2,
            f2_sub(f2_scale(frac_of_int(2), tv.vs[i]), p),
        )
}

/// One inner step in the given flavor, on state pairs (time, heading).
pub open spec fn inner_step(
    tv: TableV,
    flavor: Flavor,
    s1: (Frac, F2),
    s2: (Frac, F2),
) -> bool {
    match flavor {
        Flavor::Regular => inner_regular_step(tv, s1.0, s1.1, s2.0, s2.1),
        Flavor::Symplectic => inner_symplectic_step(tv, s1.0, s1.1, s2.0, s2.1),
    }
}

/// The ways an inner step can exhaust the 64-bit range: in the chord cast
/// or start-point computation from the given state, or — for a chord that
/// did end at some boundary time `t2` — in the tangent, reflection,
/// boundary-point or heading computation there.
pub open spec fn inner_step_range_blame(tv: TableV, t: Frac, h: F2) -> bool {
    ||| !chord_fits(tv, t, h)
    ||| !point_callable(tv, t)
    ||| (exists|t2: Frac, j0: int, p0: F2, j: int|
        frac_wf(t2) && #[trigger] chord_hit(tv, t, h, t2, j0, p0, j) && {
            ||| !tangent_callable(tv, t2)
            ||| !point_callable(tv, t2)
            ||| (exists|jt: int|
                0 <= jt < tbl_n(tv) && edge_interval(tv, jt, fixed_of(tv, t2))
                    && !reflect_fits(
                    h,
                    f2_nsub(tv.vs[next_idx(tv, jt)], tv.vs[jt]),
                ))
            ||| (exists|q0: F2, q2: F2|
                point_rel(tv, t, q0) && point_rel(tv, t2, q2) && f2_wf(q0) && f2_wf(q2)
                    && !sub_fits(q2, q0))
        })
}

/// The inputs on which a Regular outer step cannot exhaust the 64-bit
/// range: every scan product fits, and the inversion through any possible
/// tangent vertex fits.
pub open spec fn outer_step_fits(tv: TableV, p: F2) -> bool {
    &&& scan_fits(tv, p)
    &&& (forall|i: int|
        0 <= i < tbl_n(tv) && tangent_sided(tv, p, i, true) ==> #[trigger] invert_fits(
            tv.vs[i],
            p,
        ))
}

/// Inner billiards on a polygonal table, in either flavor.
pub struct PolygonalInnerBilliards {
    pub table: PolygonTable,
    pub flavor: Flavor,
}

impl PolygonalInnerBilliards {
    pub open spec fn wf(self) -> bool {
        self.table.wf()
    }

    /// Build an inner-billiards engine over a table, with the given flavor.
    pub fn new(table: PolygonTable, flavor: Flavor) -> (r: PolygonalInnerBilliards)
        requires
            table.wf(),
        ensures
            r.wf(),
            r.table == table,
            r.flavor == flavor,
    {
        PolygonalInnerBilliards { table, flavor }
    }

    /// Advance the orbit by one bounce.
    pub fn next_state(&self, state: &InnerBilliardsState) -> (r: Result<
        InnerBilliardsState,
        BilliardsError,
    >)
        requires
            self.wf(),
            state.wf(),
        ensures
            r matches Ok(s2) ==> s2.wf() && (self.flavor == Flavor::Regular
                ==> inner_regular_step(
                self.table@,
                state.start_time@,
                state.heading@,
                s2.start_time@,
                s2.heading@,
            )) && (self.flavor == Flavor::Symplectic ==> inner_symplectic_step(
                self.table@,
                state.start_time@,
                state.heading@,
                s2.start_time@,
                s2.heading@,
            )),
            r matches Err(e) ==> e == BilliardsError::NoIntersectionError
                || e == BilliardsError::DegenerateGeometryError
                || e == BilliardsError::ArithmeticRangeError,
            (r matches Err(e) && e == BilliardsError::ArithmeticRangeError)
                ==> inner_step_range_blame(self.table@, state.start_time@, state.heading@),
    {
        match self.flavor {
            Flavor::Regular => {
                let pair = match self.table.chord_end(&state.start_time, &state.heading) {
                    Ok(v) => v,
                    Err(e) => { return Err(e); },
                };
                let t2 = pair.0;
                let h_in = pair.1;
                let tan = match self.table.tangent_heading(&t2) {
                    Ok(v) => v,
                    Err(e) => {
                        proof {
                            let tv = self.table@;
                            let (j0, p0, j) = choose|j0: int, p0: F2, j: int| chord_hit(
                                tv,
                                state.start_time@,
                                state.heading@,
                                t2@,
                                j0,
                                p0,
                                j,
                            );
                            assert(frac_wf(t2@) && chord_hit(
                                tv,
                                state.start_time@,
                                state.heading@,
                                t2@,
                                j0,
                                p0,
                                j,
                            ) && !tangent_callable(tv, t2@));
                        }
                        return Err(e);
                    },
                };
                let h2 = match reflect(&h_in, &tan) {
                    Ok(v) => v,
                    Err(e) => {
                        proof {
                            let tv = self.table@;
                            if e == BilliardsError::ArithmeticRangeError {
                                let (j0, p0, j) = choose|j0: int, p0: F2, j: int| chord_hit(
                                    tv,
                                    state.start_time@,
                                    state.heading@,
                                    t2@,
                                    j0,
                                    p0,
                                    j,
                                );
                                let jt = choose|jt: int|
                                    0 <= jt < tbl_n(tv) && edge_interval(
                                        tv,
                                        jt,
                                        fixed_of(tv, t2@),
                                    ) && f2_eqv(tan@, edge_vec(tv, jt)) && tan@ == f2_nsub(
                                        tv.vs[next_idx(tv, jt)],
                                        tv.vs[jt],
                                    );
                                assert(frac_wf(t2@) && chord_hit(
                                    tv,
                                    state.start_time@,
                                    state.heading@,
                                    t2@,
                                    j0,
                                    p0,
                                    j,
                                ));
                                assert(0 <= jt < tbl_n(tv) && edge_interval(
                                    tv,
                                    jt,
                                    fixed_of(tv, t2@),
                                ) && !reflect_fits(
                                    state.heading@,
                                    f2_nsub(tv.vs[next_idx(tv, jt)], tv.vs[jt]),
                                ));
                                assert(inner_step_range_blame(
                                    tv,
                                    state.start_time@,
                                    state.heading@,
                                ));
                            }
                        }
                        return Err(e);
                    },
                };
                proof {
                    let tv = self.table@;
                    let (j0, p0, j) = choose|j0: int, p0: F2, j: int| chord_hit(
                        tv,
                        state.start_time@,
                        state.heading@,
                        t2@,
                        j0,
                        p0,
                        j,
                    );
                    let jt = choose|jt: int|
                        0 <= jt < tbl_n(tv) && edge_interval(tv, jt, fixed_of(tv, t2@))
                            && f2_eqv(tan@, edge_vec(tv, jt));
                    assert(chord_hit(tv, state.start_time@, state.heading@, t2@, j0, p0, j));
                    assert(0 <= jt < tbl_n(tv) && edge_interval(tv, jt, fixed_of(tv, t2@))
                        && f2_eqv(tan@, edge_vec(tv, jt)));
                    assert(f2_wf(tan@));
                    assert(f2_eqv(h2@, reflect_frac(state.heading@, tan@)));
                    assert(inner_regular_step(
                        tv,
                        state.start_time@,
                        state.heading@,
                        t2@,
                        h2@,
                    ));
                }
                Ok(InnerBilliardsState { start_time: t2, heading: h2 })
            },
            Flavor::Symplectic => {
                let pair = match self.table.chord_end(&state.start_time, &state.heading) {
                    Ok(v) => v,
                    Err(e) => { return Err(e); },
                };
                let t2 = pair.0;
                let h1 = pair.1;
                let pair2 = match self.table.chord_end(&state.start_time, &h1) {
                    Ok(v) => v,
                    Err(e) => { return Err(e); },
                };
                let t3 = pair2.0;
                let q0 = match self.table.point(&state.start_time) {
                    Ok(v) => v,
                    Err(e) => { return Err(e); },
                };
                let q2 = match self.table.point(&t3) {
                    Ok(v) => v,
                    Err(e) => {
                        proof {
                            let tv = self.table@;
                            let (j0b, p0b, jb) = choose|j0b: int, p0b: F2, jb: int| chord_hit(
                                tv,
                                state.start_time@,
                                state.heading@,
                                t3@,
                                j0b,
                                p0b,
                                jb,
                            );
                            assert(frac_wf(t3@) && chord_hit(
                                tv,
                                state.start_time@,
                                state.heading@,
                                t3@,
                                j0b,
                                p0b,
                                jb,
                            ) && !point_callable(tv, t3@));
                        }
                        return Err(e);
                    },
                };
                let h2 = match q0.heading_to(&q2) {
                    Ok(v) => v,
                    Err(e) => {
                        proof {
                            let tv = self.table@;
                            if e == BilliardsError::ArithmeticRangeError {
                                let (j0b, p0b, jb) = choose|j0b: int, p0b: F2, jb: int| chord_hit(
                                    tv,
                                    state.start_time@,
                                    state.heading@,
                                    t3@,
                                    j0b,
                                    p0b,
                                    jb,
                                );
                                assert(frac_wf(t3@) && chord_hit(
                                    tv,
                                    state.start_time@,
                                    state.heading@,
                                    t3@,
                                    j0b,
                                    p0b,
                                    jb,
                                ));
                                assert(point_rel(tv, state.start_time@, q0@) && point_rel(
                                    tv,
                                    t3@,
                                    q2@,
                                ) && f2_wf(q0@) && f2_wf(q2@) && !sub_fits(q2@, q0@));
                                assert(inner_step_range_blame(
                                    tv,
                                    state.start_time@,
                                    state.heading@,
                                ));
                            }
                        }
                        return Err(e);
                    },
                };
                proof {
                    let tv = self.table@;
                    let (j0, p0, j) = choose|j0: int, p0: F2, j: int| chord_hit(
                        tv,
                        state.start_time@,
                        state.heading@,
                        t2@,
                        j0,
                        p0,
                        j,
                    );
                    let (j0b, p0b, jb) = choose|j0b: int, p0b: F2, jb: int| chord_hit(
                        tv,
                        state.start_time@,
                        state.heading@,
                        t3@,
                        j0b,
                        p0b,
                        jb,
                    );
                    assert(chord_hit(tv, state.start_time@, state.heading@, t2@, j0, p0, j));
                    assert(chord_hit(tv, state.start_time@, state.heading@, t3@, j0b, p0b, jb));
                    assert(point_rel(tv, state.start_time@, q0@));
                    assert(point_rel(tv, t3@, q2@));
                    assert(frac_wf(t3@) && f2_wf(q0@) && f2_wf(q2@));
                    assert(!f2_eqv(q0@, q2@) && f2_eqv(h2@, f2_sub(q2@, q0@)));
                    assert(inner_symplectic_step(
                        tv,
                        state.start_time@,
                        state.heading@,
                        t2@,
                        h2@,
                    ));
                }
                Ok(InnerBilliardsState { start_time: t2, heading: h2 })
            },
        }
    }

    /// Trace an orbit: the starting boundary point followed by the boundary
    /// point after each of `steps` bounces. The first failing step aborts
    /// the whole orbit and its error is surfaced; the partial sequence is
    /// discarded.
    pub fn iterate(&self, state: InnerBilliardsState, steps: usize) -> (r: Result<
        Vec<AffinePoint>,
        BilliardsError,
    >)
        requires
            self.wf(),
            state.wf(),
        ensures
            r matches Ok(pts) ==> pts@.len() == steps + 1 && point_rel(
                self.table@,
                state.start_time@,
                pts@[0]@,
            ) && (exists|sts: Seq<(Frac, F2)>|
                #![trigger sts.len()]
                {
                    &&& sts.len() == steps + 1
                    &&& sts[0] == (state.start_time@, state.heading@)
                    &&& (forall|k: int|
                        0 <= k < steps ==> inner_step(
                            self.table@,
                            self.flavor,
                            #[trigger] sts[k],
                            sts[k + 1],
                        ))
                    &&& (forall|k: int|
                        0 <= k < sts.len() ==> point_rel(
                            self.table@,
                            (#[trigger] sts[k]).0,
                            pts@[k]@,
                        ))
                }),
            steps == 0 ==> (r matches Ok(pts) ==> pts@.len() == 1) && (r matches Err(e)
                ==> e == BilliardsError::ArithmeticRangeError),
            r matches Err(e) ==> e == BilliardsError::NoIntersectionError
                || e == BilliardsError::DegenerateGeometryError
                || e == BilliardsError::ArithmeticRangeError,
            (r matches Err(e) && e == BilliardsError::ArithmeticRangeError) ==> exists|
                sts: Seq<(Frac, F2)>,
            |
                #![trigger sts.len()]
                {
                    &&& 1 <= sts.len()
                    &&& sts[0] == (state.start_time@, state.heading@)
                    &&& (forall|kk: int|
                        0 <= kk < sts.len() - 1 ==> inner_step(
                            self.table@,
                            self.flavor,
                            #[trigger] sts[kk],
                            sts[kk + 1],
                        ))
                    &&& (inner_step_range_blame(self.table@, sts.last().0, sts.last().1)
                        || !point_callable(self.table@, sts.last().0))
                },
    {
        let ghost sts0: Seq<(Frac, F2)> = Seq::empty().push(
            (state.start_time@, state.heading@),
        );
        let mut pts: Vec<AffinePoint> = Vec::new();
        let p0 = match self.table.point(&state.start_time) {
            Ok(v) => v,
            Err(e) => {
                proof {
                    assert(sts0.len() == 1 && sts0[0] == (state.start_time@, state.heading@)
                        && sts0.last() == (state.start_time@, state.heading@));
                }
                return Err(e);
            },
        };
        pts.push(p0);
        let mut current = state;
        let mut i: usize = 0;
        let ghost mut sts: Seq<(Frac, F2)> = sts0;
        while i < steps
            invariant
                self.wf(),
                current.wf(),
                i <= steps,
                pts@.len() == i + 1,
                sts.len() == i + 1,
                sts[0] == (state.start_time@, state.heading@),
                sts[i as int] == (current.start_time@, current.heading@),
                point_rel(self.table@, state.start_time@, pts@[0]@),
                forall|k: int|
                    0 <= k < i ==> inner_step(
                        self.table@,
                        self.flavor,
                        #[trigger] sts[k],
                        sts[k + 1],
                    ),
                forall|k: int|
                    0 <= k < sts.len() ==> point_rel(
                        self.table@,
                        (#[trigger] sts[k]).0,
                        pts@[k]@,
                    ),
            decreases steps - i,
        {
            current = match self.next_state(&current) {
                Ok(v) => v,
                Err(e) => {
                    proof {
                        if e == BilliardsError::ArithmeticRangeError {
                            assert(sts.last() == (current.start_time@, current.heading@));
                        }
                    }
                    return Err(e);
                },
            };
            let q = match self.table.point(&current.start_time) {
                Ok(v) => v,
                Err(e) => {
                    proof {
                        let sts2 = sts.push((current.start_time@, current.heading@));
                        assert(sts2.last() == (current.start_time@, current.heading@)
                            && sts2[0] == (state.start_time@, state.heading@));
                        assert(forall|kk: int|
                            0 <= kk < sts2.len() - 1 ==> inner_step(
                                self.table@,
                                self.flavor,
                                #[trigger] sts2[kk],
                                sts2[kk + 1],
                            ));
                    }
                    return Err(e);
                },
            };
            pts.push(q);
            proof {
                sts = sts.push((current.start_time@, current.heading@));
            }
            i = i + 1;
        }
        proof {
            assert(sts.len() == steps + 1 && sts[0] == (state.start_time@, state.heading@));
        }
        Ok(pts)
    }
}

/// Outer billiards on a convex polygonal table, Regular flavor: the orbit
/// point is reflected through the right tangent vertex at each step. (The
/// Symplectic outer variant rests on tangent-circle constructions whose
/// coordinates are not rational; it lives with the floating-point layer
/// around this crate, not here.)
pub struct PolygonalOuterBilliards {
    pub table: PolygonTable,
}

impl PolygonalOuterBilliards {
    pub open spec fn wf(self) -> bool {
        self.table.wf()
    }

    /// Build a Regular outer-billiards engine over a table.
    pub fn new(table: PolygonTable) -> (r: PolygonalOuterBilliards)
        requires
            table.wf(),
        ensures
            r.wf(),
            r.table == table,
    {
        PolygonalOuterBilliards { table }
    }

    /// Advance the orbit by one inversion through the right tangent vertex.
    pub fn next_state(&self, state: &OuterBilliardsState) -> (r: Result<
        OuterBilliardsState,
        BilliardsError,
    >)
        requires
            self.wf(),
            state.wf(),
        ensures
            r matches Ok(s2) ==> s2.wf() && outer_regular_step(
                self.table@,
                state.point@,
                s2.point@,
            ),
            r matches Err(e) ==> e == BilliardsError::NoTangentError
                || e == BilliardsError::ArithmeticRangeError,
            (r matches Err(e) && e == BilliardsError::NoTangentError) ==> forall|i: int|
                0 <= i < tbl_n(self.table@) ==> !tangent_sided(
                    self.table@,
                    state.point@,
                    i,
                    true,
                ),
            outer_step_fits(self.table@, state.point@) ==> !(r matches Err(e) && e
                == BilliardsError::ArithmeticRangeError),
            (r matches Err(e) && e == BilliardsError::ArithmeticRangeError)
                ==> !outer_step_fits(self.table@, state.point@),
    {
        let w = match self.table.right_tangent_point(&state.point) {
            Ok(v) => v,
            Err(e) => { return Err(e); },
        };
        let q = match w.invert(&state.point) {
            Some(v) => v,
            None => {
                proof {
                    let tv = self.table@;
                    if outer_step_fits(tv, state.point@) {
                        let i = choose|i: int|
                            0 <= i < tbl_n(tv) && tangent_sided(tv, state.point@, i, true)
                                && w@ == tv.vs[i];
                        assert(invert_fits(tv.vs[i], state.point@));
                        assert(false);
                    }
                }
                return Err(BilliardsError::ArithmeticRangeError);
            },
        };
        Ok(OuterBilliardsState { point: q })
    }

    /// Trace an orbit: the starting point followed by `steps` transitioned
    /// points. With zero steps the result is exactly the starting point,
    /// unmodified, and the call cannot fail.
    pub fn iterate(&self, state: OuterBilliardsState, steps: usize) -> (r: Result<
        Vec<AffinePoint>,
        BilliardsError,
    >)
        requires
            self.wf(),
            state.wf(),
        ensures
            r matches Ok(pts) ==> pts@.len() == steps + 1 && pts@[0] == state.point && forall|
                i: int,
            | 0 <= i < steps ==> outer_regular_step(self.table@, (#[trigger] pts@[i])@, pts@[i + 1]@),
            steps == 0 ==> r is Ok,
            r matches Err(e) ==> e == BilliardsError::NoTangentError
                || e == BilliardsError::ArithmeticRangeError,
            (r matches Err(e) && e == BilliardsError::ArithmeticRangeError) ==> exists|
                ps: Seq<F2>,
            |
                #![trigger ps.len()]
                {
                    &&& 1 <= ps.len()
                    &&& ps[0] == state.point@
                    &&& (forall|kk: int|
                        0 <= kk < ps.len() - 1 ==> outer_regular_step(
                            self.table@,
                            #[trigger] ps[kk],
                            ps[kk + 1],
                        ))
                    &&& !outer_step_fits(self.table@, ps.last())
                },
    {
        let mut pts: Vec<AffinePoint> = Vec::new();
        pts.push(state.point);
        let mut current = state;
        let mut i: usize = 0;
        while i < steps
            invariant
                self.wf(),
                current.wf(),
                i <= steps,
                pts@.len() == i + 1,
                pts@[0] == state.point,
                pts@[i as int] == current.point,
                forall|k: int| 0 <= k < i ==> outer_regular_step(
                    self.table@,
                    (#[trigger] pts@[k])@,
                    pts@[k + 1]@,
                ),
            decreases steps - i,
        {
            current = match self.next_state(&current) {
                Ok(v) => v,
                Err(e) => {
                    proof {
                        if e == BilliardsError::ArithmeticRangeError {
                            let ps = Seq::new(pts@.len(), |kk: int| pts@[kk]@);
                            assert(ps.last() == current.point@ && ps[0] == state.point@);
                            assert(forall|kk: int|
                                0 <= kk < ps.len() - 1 ==> outer_regular_step(
                                    self.table@,
                                    #[trigger] ps[kk],
                                    ps[kk + 1],
                                ));
                        }
                    }
                    return Err(e);
                },
            };
            pts.push(current.point);
            i = i + 1;
        }
        Ok(pts)
    }
}

} // verus!
