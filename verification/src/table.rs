//! Polygonal billiard tables with an arclength-like boundary-time
//! parametrization.
//!
//! The boundary is parametrized by time in `[0, 1)`: a time is mapped to a
//! cumulative length along the edges. Euclidean edge lengths are irrational
//! in general, so the table stores a fixed-precision rational approximation
//! of each edge length, computed once at construction from a verified
//! integer square root; the parametrization, chord casting and tangent
//! queries are exact with respect to those stored lengths.

use vstd::prelude::*;
use vstd::arithmetic::div_mod::{lemma_fundamental_div_mod, lemma_mod_add_multiples_vanish};
use crate::rat::{
    Frac, Rat, frac_wf, frac_eqv, frac_add, frac_sub, frac_mul, frac_div, frac_le, frac_lt,
    frac_of_int, frac_is_zero, frac_norm, frac_fits, lemma_wf_ops, lemma_add_cong, lemma_mul_cong, lemma_div_cong,
    lemma_eqv_trans, lemma_cmp_cong, lemma_add_cong_trans, lemma_mul_cong_trans,
    lemma_div_cong_trans, lemma_fits_when_small, lemma_lt_le_trans,
    lemma_le_lt_trans, lemma_lt_add_pos, lemma_scale_unit,
};
use crate::geometry::{
    AffinePoint, BilliardsError, F2, Heading, f2_wf, f2_eqv, f2_add, f2_sub, f2_scale, f2_cross,
    dist2_n, dist2_fits, sub_fits, cross_fits, cross_n, translate_fits, translate_n, f2_nsub,
    lemma_cross_cong, lemma_dot_self, lemma_sub_zero_iff,
};

verus! {

/// Denominator of the stored edge-length approximations.
pub const SQRT_SCALE: i64 = 1048576;

pub open spec fn is_isqrt(r: int, m: int) -> bool {
    r * r <= m && m < (r + 1) * (r + 1)
}

/// Integer square root by bisection.
fn isqrt_u128(m: u128) -> (r: u64)
    requires
        m < 0x100000000000000000000000000,
    ensures
        is_isqrt(r as int, m as int),
{
    let mut lo: u64 = 0;
    let mut hi: u64 = 0x10000000000000;
    proof {
        assert((0x10000000000000 as int) * (0x10000000000000 as int)
            == 0x100000000000000000000000000) by (nonlinear_arith);
    }
    while lo + 1 < hi
        invariant
            lo < hi <= 0x10000000000000,
            (lo as int) * (lo as int) <= m as int,
            (m as int) < (hi as int) * (hi as int),
        decreases hi - lo,
    {
        let mid: u64 = lo + (hi - lo) / 2;
        proof {
            assert((mid as int) * (mid as int) < 0x100000000000000000000000000000000)
                by (nonlinear_arith)
                requires
                    0 <= mid as int <= 0x10000000000000;
        }
        let sq: u128 = (mid as u128) * (mid as u128);
        if sq <= m {
            lo = mid;
        } else {
            hi = mid;
        }
    }
    lo
}

/// The stored rational approximation of the square root of a positive
/// rational `q`: the integer square root of `q` scaled by `SQRT_SCALE`,
/// never zero.
pub fn approx_sqrt(q: &Rat) -> (r: Rat)
    requires
        q.wf(),
        frac_lt(frac_of_int(0), q@),
    ensures
        r.wf(),
        frac_lt(frac_of_int(0), r@),
        r@.d == SQRT_SCALE as int,
        ({
            let m = q@.n * (SQRT_SCALE as int) * (SQRT_SCALE as int) / q@.d;
            if m >= 1 {
                r@.n >= 1 && is_isqrt(r@.n, m)
            } else {
                r@.n == 1
            }
        }),
{
    let s: u128 = 1048576;
    proof {
        assert((q.num as int) * 1048576 <= 0x800000000000000000000
            && (q.num as int) * 1048576 >= 0) by (nonlinear_arith)
            requires
                0 < q.num as int <= 0x7fffffffffffffff;
        assert(((q.num as int) * 1048576) * 1048576
            <= 0x800000000000000000000000000 && ((q.num as int) * 1048576)
            * 1048576 >= 0) by (nonlinear_arith)
            requires
                0 <= (q.num as int) * 1048576 <= 0x800000000000000000000;
    }
    let w1: u128 = (q.num as u128) * s;
    let w2: u128 = w1 * s;
    let m: u128 = w2 / (q.den as u128);
    proof {
        vstd::arithmetic::div_mod::lemma_div_nonincreasing(w2 as int, q.den as int);
    }
    let isq: u64 = isqrt_u128(m);
    let num: i64 = if isq == 0 {
        1
    } else {
        proof {
            assert((isq as int) * (isq as int) <= m as int);
            assert((isq as int) * (isq as int) >= 1) by (nonlinear_arith)
                requires
                    isq as int >= 1;
            if isq as int > 0x10000000000000 {
                assert((isq as int) * (isq as int) > 0x80000000000000000000000000)
                    by (nonlinear_arith)
                    requires
                        isq as int > 0x10000000000000;
                assert(false);
            }
        }
        isq as i64
    };
    Rat { num, den: SQRT_SCALE }
}

/// The index of the vertex that follows `i` cyclically.
pub open spec fn seq_next(vs: Seq<F2>, i: int) -> int {
    if i + 1 < vs.len() {
        i + 1
    } else {
        0
    }
}

/// The exact squared length of edge `i`, as the executable layer computes
/// and reduces it.
pub open spec fn edge_d2(vs: Seq<F2>, i: int) -> Frac {
    dist2_n(vs[i], vs[seq_next(vs, i)])
}

/// The scaled integer whose square root approximates the length of edge
/// `i`.
pub open spec fn edge_m(vs: Seq<F2>, i: int) -> int {
    edge_d2(vs, i).n * (SQRT_SCALE as int) * (SQRT_SCALE as int) / edge_d2(vs, i).d
}

/// The integer square root of `m`, for `m >= 1`; unique by
/// `lemma_isqrt_unique`.
pub open spec fn sqrt1(m: int) -> int {
    choose|r: int| r >= 1 && is_isqrt(r, m)
}

/// The length the table stores for edge `i`: the integer square root of the
/// scaled exact squared length, over `SQRT_SCALE`, and never zero.
pub open spec fn stored_len(vs: Seq<F2>, i: int) -> Frac {
    Frac {
        n: if edge_m(vs, i) >= 1 {
            sqrt1(edge_m(vs, i))
        } else {
            1
        },
        d: SQRT_SCALE as int,
    }
}

/// The cumulative vertex time the table stores for vertex `i`: the reduced
/// running sum of the stored lengths. At `i == vs.len()` this is the
/// perimeter.
pub open spec fn times_rec(vs: Seq<F2>, i: int) -> Frac
    decreases i,
{
    if i <= 0 {
        frac_of_int(0)
    } else {
        frac_norm(frac_add(times_rec(vs, i - 1), stored_len(vs, i - 1)))
    }
}

/// Every intermediate of the table construction fits the reduced 64-bit
/// range.
pub open spec fn build_fits(vs: Seq<F2>) -> bool {
    forall|i: int|
        0 <= i < vs.len() ==> dist2_fits(vs[i], vs[seq_next(vs, i)]) && frac_fits(
            frac_add(times_rec(vs, i), #[trigger] stored_len(vs, i)),
        )
}

/// The inputs on which table construction is owed success: enough vertices,
/// no degenerate edge, and all construction arithmetic in range.
pub open spec fn buildable(vs: Seq<F2>) -> bool {
    &&& vs.len() >= 3
    &&& (forall|i: int| 0 <= i < vs.len() ==> !f2_eqv(#[trigger] vs[i], vs[seq_next(vs, i)]))
    &&& build_fits(vs)
}

/// The integer square root is unique.
pub proof fn lemma_isqrt_unique(r1: int, r2: int, m: int)
    requires
        r1 >= 0,
        r2 >= 0,
        is_isqrt(r1, m),
        is_isqrt(r2, m),
    ensures
        r1 == r2,
{
    assert(r1 == r2) by (nonlinear_arith)
        requires
            r1 >= 0,
            r2 >= 0,
            r1 * r1 <= m,
            m < (r1 + 1) * (r1 + 1),
            r2 * r2 <= m,
            m < (r2 + 1) * (r2 + 1);
}

/// Ghost model of a table: vertices, cumulative vertex times, edge lengths,
/// and the perimeter, all as exact fractions.
pub ghost struct TableV {
    pub vs: Seq<F2>,
    pub ts: Seq<Frac>,
    pub ls: Seq<Frac>,
    pub p: Frac,
}

pub open spec fn tbl_n(tv: TableV) -> int {
    tv.vs.len() as int
}

/// Well-formedness: at least three vertices; the times start at zero and
/// accumulate the positive edge lengths; the perimeter closes the sum.
pub open spec fn tbl_wf(tv: TableV) -> bool {
    &&& tv.vs.len() >= 3
    &&& tv.ts.len() == tv.vs.len()
    &&& tv.ls.len() == tv.vs.len()
    &&& (forall|i: int| 0 <= i < tbl_n(tv) ==> f2_wf(#[trigger] tv.vs[i]))
    &&& (forall|i: int| 0 <= i < tbl_n(tv) ==> frac_wf(#[trigger] tv.ts[i]))
    &&& (forall|i: int|
        0 <= i < tbl_n(tv) ==> frac_wf(#[trigger] tv.ls[i]) && frac_lt(
            frac_of_int(0),
            tv.ls[i],
        ))
    &&& frac_is_zero(tv.ts[0])
    &&& (forall|i: int|
        0 <= i < tbl_n(tv) - 1 ==> frac_eqv(
            #[trigger] tv.ts[i + 1],
            frac_add(tv.ts[i], tv.ls[i]),
        ))
    &&& frac_wf(tv.p)
    &&& frac_lt(frac_of_int(0), tv.p)
    &&& frac_eqv(tv.p, frac_add(tv.ts[tbl_n(tv) - 1], tv.ls[tbl_n(tv) - 1]))
}

/// The fractional part of a time value.
pub open spec fn frac_fpart(t: Frac) -> Frac {
    Frac { n: t.n % t.d, d: t.d }
}

/// A time wrapped into `[0, 1)` and scaled to cumulative length.
pub open spec fn fixed_of(tv: TableV, t: Frac) -> Frac {
    frac_mul(frac_fpart(t), tv.p)
}

pub open spec fn next_idx(tv: TableV, j: int) -> int {
    if j + 1 < tbl_n(tv) {
        j + 1
    } else {
        0
    }
}

pub open spec fn edge_vec(tv: TableV, j: int) -> F2 {
    f2_sub(tv.vs[next_idx(tv, j)], tv.vs[j])
}

pub open spec fn upper_time(tv: TableV, j: int) -> Frac {
    if j + 1 < tbl_n(tv) {
        tv.ts[j + 1]
    } else {
        tv.p
    }
}

/// Edge `j` owns the cumulative lengths in `[ts[j], ts[j+1])`, the last edge
/// up to the perimeter; an exact vertex time belongs to the edge that starts
/// there (the lower index).
pub open spec fn edge_interval(tv: TableV, j: int, fx: Frac) -> bool {
    frac_le(tv.ts[j], fx) && frac_lt(fx, upper_time(tv, j))
}

/// The fraction of edge `j` covered at cumulative length `fx`.
pub open spec fn edge_u(tv: TableV, j: int, fx: Frac) -> Frac {
    frac_div(frac_sub(fx, tv.ts[j]), tv.ls[j])
}

/// The boundary point of edge `j` at cumulative length `fx`.
pub open spec fn edge_interp(tv: TableV, j: int, fx: Frac) -> F2 {
    f2_add(tv.vs[j], f2_scale(edge_u(tv, j, fx), edge_vec(tv, j)))
}

/// `q` is the boundary point at time `t`, via edge `j`.
pub open spec fn point_rel_at(tv: TableV, t: Frac, j: int, q: F2) -> bool {
    &&& 0 <= j < tbl_n(tv)
    &&& edge_interval(tv, j, fixed_of(tv, t))
    &&& f2_eqv(q, edge_interp(tv, j, fixed_of(tv, t)))
}

/// `q` is the boundary point at time `t`.
pub open spec fn point_rel(tv: TableV, t: Frac, q: F2) -> bool {
    exists|j: int| point_rel_at(tv, t, j, q)
}

/// The cumulative length for time `t`, exactly as the executable layer
/// computes and reduces it; equal in value to `fixed_of`.
pub open spec fn fixed_n(tv: TableV, t: Frac) -> Frac {
    frac_norm(frac_mul(frac_norm(frac_fpart(t)), tv.p))
}

/// The one fallible step of the time computation fits the reduced 64-bit
/// range.
pub open spec fn fixed_fits(tv: TableV, t: Frac) -> bool {
    frac_fits(frac_mul(frac_norm(frac_fpart(t)), tv.p))
}

/// Every intermediate of interpolating edge `j` at cumulative length `fx`
/// fits the reduced 64-bit range.
pub open spec fn edge_fits(tv: TableV, j: int, fx: Frac) -> bool {
    let dn = frac_norm(frac_sub(fx, tv.ts[j]));
    let un = frac_norm(frac_div(dn, tv.ls[j]));
    &&& frac_fits(frac_sub(fx, tv.ts[j]))
    &&& frac_fits(frac_div(dn, tv.ls[j]))
    &&& sub_fits(tv.vs[next_idx(tv, j)], tv.vs[j])
    &&& translate_fits(tv.vs[j], un, f2_nsub(tv.vs[next_idx(tv, j)], tv.vs[j]))
}

/// The boundary point of edge `j` at cumulative length `fx`, exactly as the
/// executable layer computes and reduces it.
pub open spec fn point_n(tv: TableV, j: int, fx: Frac) -> F2 {
    let dn = frac_norm(frac_sub(fx, tv.ts[j]));
    let un = frac_norm(frac_div(dn, tv.ls[j]));
    translate_n(tv.vs[j], un, f2_nsub(tv.vs[next_idx(tv, j)], tv.vs[j]))
}

/// The inputs on which `point` is owed success: the time computation fits,
/// and interpolation fits on every edge whose interval contains the
/// cumulative length.
pub open spec fn point_callable(tv: TableV, t: Frac) -> bool {
    &&& fixed_fits(tv, t)
    &&& (forall|j: int|
        0 <= j < tbl_n(tv) && edge_interval(tv, j, fixed_n(tv, t)) ==> #[trigger] edge_fits(
            tv,
            j,
            fixed_n(tv, t),
        ))
}

/// The inputs on which `tangent_heading` is owed success.
pub open spec fn tangent_callable(tv: TableV, t: Frac) -> bool {
    &&& fixed_fits(tv, t)
    &&& (forall|j: int|
        0 <= j < tbl_n(tv) && edge_interval(tv, j, fixed_n(tv, t)) ==> #[trigger] sub_fits(
            tv.vs[next_idx(tv, j)],
            tv.vs[j],
        ))
}

/// Every cross product taken by the tangent scans fits the reduced 64-bit
/// range.
pub open spec fn scan_fits(tv: TableV, p: F2) -> bool {
    &&& (forall|i: int| 0 <= i < tbl_n(tv) ==> #[trigger] sub_fits(tv.vs[i], p))
    &&& (forall|i: int, k: int|
        0 <= i < tbl_n(tv) && 0 <= k < tbl_n(tv) ==> #[trigger] cross_fits(
            f2_nsub(tv.vs[i], p),
            f2_nsub(tv.vs[k], p),
        ))
}

/// The reduced edge parameter of the chord candidate on edge `k`, exactly
/// as the executable layer computes it.
pub open spec fn cand_un(tv: TableV, k: int, p0: F2, d: F2) -> Frac {
    frac_norm(
        frac_div(
            cross_n(f2_nsub(tv.vs[k], p0), d),
            cross_n(d, f2_nsub(tv.vs[next_idx(tv, k)], tv.vs[k])),
        ),
    )
}

/// Every intermediate of evaluating the chord candidate on edge `k` — and,
/// for a transversal edge, of turning its hit into a boundary time — fits
/// the reduced 64-bit range.
pub open spec fn cand_fits(tv: TableV, k: int, p0: F2, d: F2) -> bool {
    let en = f2_nsub(tv.vs[next_idx(tv, k)], tv.vs[k]);
    let denn = cross_n(d, en);
    let wn = f2_nsub(tv.vs[k], p0);
    let un = cand_un(tv, k, p0, d);
    &&& sub_fits(tv.vs[next_idx(tv, k)], tv.vs[k])
    &&& cross_fits(d, en)
    &&& (!frac_is_zero(denn) ==> {
        &&& sub_fits(tv.vs[k], p0)
        &&& cross_fits(wn, en)
        &&& frac_fits(frac_div(cross_n(wn, en), denn))
        &&& cross_fits(wn, d)
        &&& frac_fits(frac_div(cross_n(wn, d), denn))
        &&& frac_fits(frac_mul(un, tv.ls[k]))
        &&& frac_fits(frac_add(tv.ts[k], frac_norm(frac_mul(un, tv.ls[k]))))
        &&& frac_fits(
            frac_div(frac_norm(frac_add(tv.ts[k], frac_norm(frac_mul(un, tv.ls[k])))), tv.p),
        )
    })
}

/// The inputs on which a chord cast cannot exhaust the 64-bit range: the
/// start point computation fits, and every candidate evaluation fits.
pub open spec fn chord_fits(tv: TableV, t: Frac, d: F2) -> bool {
    &&& fixed_fits(tv, t)
    &&& (forall|j0: int|
        0 <= j0 < tbl_n(tv) && edge_interval(tv, j0, fixed_n(tv, t)) ==> #[trigger] edge_fits(
            tv,
            j0,
            fixed_n(tv, t),
        ) && (forall|k: int|
            0 <= k < tbl_n(tv) ==> #[trigger] cand_fits(
                tv,
                k,
                point_n(tv, j0, fixed_n(tv, t)),
                d,
            )))
}

/// Instantiation of `chord_fits` at a start edge and a candidate edge.
proof fn lemma_chord_fits_at(tv: TableV, t: Frac, d: F2, j0: int, k: int)
    requires
        chord_fits(tv, t, d),
        0 <= j0 < tbl_n(tv),
        edge_interval(tv, j0, fixed_n(tv, t)),
        0 <= k < tbl_n(tv),
    ensures
        edge_fits(tv, j0, fixed_n(tv, t)),
        cand_fits(tv, k, point_n(tv, j0, fixed_n(tv, t)), d),
{
    assert(edge_fits(tv, j0, fixed_n(tv, t)));
    assert(cand_fits(tv, k, point_n(tv, j0, fixed_n(tv, t)), d));
}

/// Instantiation of `scan_fits` at a pair of vertex indices.
proof fn lemma_scan_fits_at(tv: TableV, p: F2, i: int, k: int)
    requires
        scan_fits(tv, p),
        0 <= i < tbl_n(tv),
        0 <= k < tbl_n(tv),
    ensures
        sub_fits(tv.vs[i], p),
        cross_fits(f2_nsub(tv.vs[i], p), f2_nsub(tv.vs[k], p)),
{
    assert(sub_fits(tv.vs[i], p));
    assert(cross_fits(f2_nsub(tv.vs[i], p), f2_nsub(tv.vs[k], p)));
}

/// Chord-candidate data for edge `k`, a ray start `p0` and direction `d`:
/// the Cramer denominator, ray parameter, and edge parameter.
pub open spec fn cand_den(tv: TableV, k: int, d: F2) -> Frac {
    f2_cross(d, edge_vec(tv, k))
}

pub open spec fn cand_s(tv: TableV, k: int, p0: F2, d: F2) -> Frac {
    frac_div(f2_cross(f2_sub(tv.vs[k], p0), edge_vec(tv, k)), cand_den(tv, k, d))
}

pub open spec fn cand_u(tv: TableV, k: int, p0: F2, d: F2) -> Frac {
    frac_div(f2_cross(f2_sub(tv.vs[k], p0), d), cand_den(tv, k, d))
}

/// The ray from `p0` with direction `d` meets edge `k` transversally, ahead
/// of the start, within the half-open edge.
pub open spec fn cand_ok(tv: TableV, k: int, p0: F2, d: F2) -> bool {
    &&& !frac_is_zero(cand_den(tv, k, d))
    &&& frac_lt(frac_of_int(0), cand_s(tv, k, p0, d))
    &&& frac_le(frac_of_int(0), cand_u(tv, k, p0, d))
    &&& frac_lt(cand_u(tv, k, p0, d), frac_of_int(1))
}

/// The boundary time (in `[0, 1)`) of the hit on edge `k`.
pub open spec fn cand_time(tv: TableV, k: int, p0: F2, d: F2) -> Frac {
    frac_div(frac_add(tv.ts[k], frac_mul(cand_u(tv, k, p0, d), tv.ls[k])), tv.p)
}

/// The result `t2` of a chord cast: the chord starts at the boundary point
/// `p0` of edge `j0` at the start time, and ends on edge `j`, the first edge
/// the ray meets among all transversal forward hits off the start edge.
pub open spec fn chord_hit(tv: TableV, t: Frac, d: F2, t2: Frac, j0: int, p0: F2, j: int) -> bool {
    &&& 0 <= j0 < tbl_n(tv)
    &&& edge_interval(tv, j0, fixed_of(tv, t))
    &&& f2_wf(p0)
    &&& f2_eqv(p0, edge_interp(tv, j0, fixed_of(tv, t)))
    &&& 0 <= j < tbl_n(tv)
    &&& j != j0
    &&& cand_ok(tv, j, p0, d)
    &&& frac_eqv(t2, cand_time(tv, j, p0, d))
    &&& (forall|k: int|
        0 <= k < tbl_n(tv) && k != j0 && #[trigger] cand_ok(tv, k, p0, d) ==> frac_le(
            cand_s(tv, j, p0, d),
            cand_s(tv, k, p0, d),
        ))
}

/// No edge other than the start edge is hit by the ray.
pub open spec fn chord_miss(tv: TableV, t: Frac, d: F2, j0: int, p0: F2) -> bool {
    &&& 0 <= j0 < tbl_n(tv)
    &&& edge_interval(tv, j0, fixed_of(tv, t))
    &&& f2_wf(p0)
    &&& f2_eqv(p0, edge_interp(tv, j0, fixed_of(tv, t)))
    &&& (forall|k: int|
        0 <= k < tbl_n(tv) && k != j0 ==> !(#[trigger] cand_ok(tv, k, p0, d)))
}

/// Vertex `i` is the tangent point of the table seen from the external
/// point `p`: every vertex lies (weakly) on one side of the ray from `p`
/// through vertex `i` — the left side for the right tangent, the right side
/// for the left tangent.
pub open spec fn tangent_sided(tv: TableV, p: F2, i: int, right: bool) -> bool {
    forall|k: int|
        0 <= k < tbl_n(tv) ==> {
            let c = f2_cross(f2_sub(tv.vs[i], p), f2_sub(#[trigger] tv.vs[k], p));
            if right {
                frac_le(frac_of_int(0), c)
            } else {
                frac_le(c, frac_of_int(0))
            }
        }
}

/// Intervals and interpolations are stable under replacing the cumulative
/// length by an equal value.
proof fn lemma_fx_cong(tv: TableV, j: int, a: Frac, b: Frac)
    requires
        tbl_wf(tv),
        0 <= j < tbl_n(tv),
        frac_wf(a),
        frac_wf(b),
        frac_eqv(a, b),
    ensures
        edge_interval(tv, j, a) == edge_interval(tv, j, b),
        f2_eqv(edge_interp(tv, j, a), edge_interp(tv, j, b)),
        f2_wf(edge_interp(tv, j, a)),
        f2_wf(edge_interp(tv, j, b)),
{
    lemma_cmp_cong(tv.ts[j], tv.ts[j], a, b);
    lemma_cmp_cong(a, b, upper_time(tv, j), upper_time(tv, j));
    lemma_wf_ops(a, tv.ts[j]);
    lemma_wf_ops(b, tv.ts[j]);
    lemma_add_cong(a, b, tv.ts[j], tv.ts[j]);
    lemma_div_cong(frac_sub(a, tv.ts[j]), frac_sub(b, tv.ts[j]), tv.ls[j], tv.ls[j]);
    let ua = edge_u(tv, j, a);
    let ub = edge_u(tv, j, b);
    let ev = edge_vec(tv, j);
    let ni = next_idx(tv, j);
    lemma_wf_ops(tv.vs[ni].x, tv.vs[j].x);
    lemma_wf_ops(tv.vs[ni].y, tv.vs[j].y);
    lemma_mul_cong(ua, ub, ev.x, ev.x);
    lemma_mul_cong(ua, ub, ev.y, ev.y);
    lemma_wf_ops(ua, ev.x);
    lemma_wf_ops(ua, ev.y);
    lemma_wf_ops(ub, ev.x);
    lemma_wf_ops(ub, ev.y);
    lemma_add_cong(tv.vs[j].x, tv.vs[j].x, frac_mul(ua, ev.x), frac_mul(ub, ev.x));
    lemma_add_cong(tv.vs[j].y, tv.vs[j].y, frac_mul(ua, ev.y), frac_mul(ub, ev.y));
    lemma_wf_ops(tv.vs[j].x, frac_mul(ua, ev.x));
    lemma_wf_ops(tv.vs[j].y, frac_mul(ua, ev.y));
    lemma_wf_ops(tv.vs[j].x, frac_mul(ub, ev.x));
    lemma_wf_ops(tv.vs[j].y, frac_mul(ub, ev.y));
}

/// A polygonal table with its derived parametrization cache, computed once
/// at construction and immutable afterwards.
#[derive(Debug)]
pub struct PolygonTable {
    pub vertices: Vec<AffinePoint>,
    pub vertex_times: Vec<Rat>,
    pub lengths: Vec<Rat>,
    pub perimeter: Rat,
}

impl View for PolygonTable {
    type V = TableV;

    open spec fn view(&self) -> TableV {
        TableV {
            vs: Seq::new(self.vertices@.len(), |i: int| self.vertices@[i]@),
            ts: Seq::new(self.vertex_times@.len(), |i: int| self.vertex_times@[i]@),
            ls: Seq::new(self.lengths@.len(), |i: int| self.lengths@[i]@),
            p: self.perimeter@,
        }
    }
}

impl PolygonTable {
    pub open spec fn wf(self) -> bool {
        tbl_wf(self@)
    }

    /// Build a table from its vertices. Fails with `InvalidTableError`
    /// exactly when fewer than three vertices are given, with
    /// `DegenerateGeometryError` when two cyclically adjacent vertices
    /// coincide, and with `ArithmeticRangeError` on range exhaustion.
    pub fn new(vertices: Vec<AffinePoint>) -> (r: Result<PolygonTable, BilliardsError>)
        requires
            forall|i: int| 0 <= i < vertices@.len() ==> (#[trigger] vertices@[i]).wf(),
        ensures
            r matches Ok(t) ==> t.wf() && t@.vs =~= Seq::new(vertices@.len(), |i: int| vertices@[i]@)
                && (forall|k: int|
                0 <= k < tbl_n(t@) ==> #[trigger] t@.ls[k] == stored_len(t@.vs, k) && t@.ts[k]
                    == times_rec(t@.vs, k)) && t@.p == times_rec(t@.vs, tbl_n(t@)),
            (vertices@.len() < 3) == (r matches Err(e) && e == BilliardsError::InvalidTableError),
            (r matches Err(e) && e == BilliardsError::DegenerateGeometryError) ==> exists|i: int|
                0 <= i < vertices@.len() && f2_eqv(
                    #[trigger] vertices@[i]@,
                    vertices@[if i + 1 < vertices@.len() { i + 1 } else { 0 }]@,
                ),
            buildable(Seq::new(vertices@.len(), |i: int| vertices@[i]@)) ==> r is Ok,
            r matches Err(e) ==> e == BilliardsError::InvalidTableError
                || e == BilliardsError::DegenerateGeometryError
                || e == BilliardsError::ArithmeticRangeError,
    {
        let ghost vsq = Seq::new(vertices@.len(), |i: int| vertices@[i]@);
        let n = vertices.len();
        if n < 3 {
            return Err(BilliardsError::InvalidTableError);
        }
        let mut vertex_times: Vec<Rat> = Vec::new();
        let mut lengths: Vec<Rat> = Vec::new();
        let mut acc: Rat = Rat::from_int(0);
        let mut i: usize = 0;
        while i < n
            invariant
                n == vertices@.len(),
                3 <= n,
                vsq == Seq::new(vertices@.len(), |i: int| vertices@[i]@),
                forall|k: int| 0 <= k < vertices@.len() ==> (#[trigger] vertices@[k]).wf(),
                vertex_times@.len() == i,
                lengths@.len() == i,
                i <= n,
                acc.wf(),
                forall|k: int| 0 <= k < i ==> (#[trigger] vertex_times@[k]).wf(),
                forall|k: int|
                    0 <= k < i ==> (#[trigger] lengths@[k]).wf() && frac_lt(
                        frac_of_int(0),
                        lengths@[k]@,
                    ),
                forall|k: int| 0 <= k < i ==> (#[trigger] lengths@[k])@ == stored_len(vsq, k),
                forall|k: int|
                    0 <= k < i ==> (#[trigger] vertex_times@[k])@ == times_rec(vsq, k),
                acc@ == times_rec(vsq, i as int),
                i > 0 ==> frac_is_zero(vertex_times@[0]@),
                forall|k: int|
                    0 <= k < i - 1 ==> frac_eqv(
                        #[trigger] vertex_times@[k + 1]@,
                        frac_add(vertex_times@[k]@, lengths@[k]@),
                    ),
                i > 0 ==> frac_eqv(
                    acc@,
                    frac_add(vertex_times@[i - 1]@, lengths@[i - 1]@),
                ),
                i == 0 ==> frac_is_zero(acc@) && acc@ == frac_of_int(0),
                i > 0 ==> frac_lt(frac_of_int(0), acc@),
            decreases n - i,
        {
            let ghost ii = i as int;
            let v = vertices[i];
            let jn: usize = if i + 1 < n {
                i + 1
            } else {
                0
            };
            let vn = vertices[jn];
            proof {
                assert(vsq[ii] == v@ && vsq[seq_next(vsq, ii)] == vn@);
            }
            if v.eq_pt(&vn) {
                proof {
                    assert(f2_eqv(vertices@[ii]@, vertices@[
                        if ii + 1 < vertices@.len() { ii + 1 } else { 0 }
                    ]@));
                }
                return Err(BilliardsError::DegenerateGeometryError);
            }
            let d2 = match v.dist_sqr(&vn) {
                Some(t) => t,
                None => {
                    proof {
                        if buildable(vsq) {
                            let l = stored_len(vsq, ii);
                            assert(dist2_fits(vsq[ii], vsq[seq_next(vsq, ii)]) && frac_fits(
                                frac_add(times_rec(vsq, ii), l),
                            ));
                            assert(false);
                        }
                    }
                    return Err(BilliardsError::ArithmeticRangeError);
                },
            };
            proof {
                lemma_sub_zero_iff(v@, vn@);
                lemma_wf_ops(vn@.x, v@.x);
                lemma_wf_ops(vn@.y, v@.y);
                lemma_dot_self(f2_sub(vn@, v@));
                lemma_cmp_cong(
                    frac_of_int(0),
                    frac_of_int(0),
                    crate::geometry::f2_dot(f2_sub(vn@, v@), f2_sub(vn@, v@)),
                    d2@,
                );
            }
            let len = approx_sqrt(&d2);
            proof {
                assert(d2@ == edge_d2(vsq, ii));
                let m = edge_m(vsq, ii);
                if m >= 1 {
                    assert(len@.n >= 1 && is_isqrt(len@.n, m));
                    assert(exists|r: int| r >= 1 && is_isqrt(r, m));
                    let r0 = sqrt1(m);
                    assert(r0 >= 1 && is_isqrt(r0, m));
                    lemma_isqrt_unique(r0, len@.n, m);
                }
                assert(len@ == stored_len(vsq, ii));
            }
            let ghost old_acc = acc@;
            vertex_times.push(acc);
            lengths.push(len);
            acc = match acc.add(len) {
                Some(t) => t,
                None => {
                    proof {
                        if buildable(vsq) {
                            assert(frac_fits(frac_add(times_rec(vsq, ii), stored_len(vsq, ii))));
                            assert(false);
                        }
                    }
                    return Err(BilliardsError::ArithmeticRangeError);
                },
            };
            proof {
                assert(acc@ == frac_norm(frac_add(old_acc, len@)));
                assert(acc@ == times_rec(vsq, ii + 1));
                lemma_lt_add_pos(old_acc, len@);
                lemma_wf_ops(old_acc, len@);
                lemma_le_lt_trans(frac_of_int(0), old_acc, frac_add(old_acc, len@));
                lemma_cmp_cong(
                    frac_of_int(0),
                    frac_of_int(0),
                    frac_add(old_acc, len@),
                    acc@,
                );
            }
            i = i + 1;
        }
        let table = PolygonTable { vertices, vertex_times, lengths, perimeter: acc };
        proof {
            assert(table@.vs =~= vsq);
            assert(table@.vs == vsq);
        }
        Ok(table)
    }

    /// The cumulative length for a time: `(t mod 1) * perimeter`, always in
    /// `[0, perimeter)`.
    fn fixed_time(&self, t: &Rat) -> (r: Result<Rat, BilliardsError>)
        requires
            self.wf(),
            t.wf(),
        ensures
            r matches Ok(fx) ==> fx.wf() && frac_wf(fixed_of(self@, t@)) && frac_eqv(
                fx@,
                fixed_of(self@, t@),
            ) && frac_le(frac_of_int(0), fx@) && frac_lt(fx@, self@.p) && fx@ == fixed_n(
                self@,
                t@,
            ),
            (r is Ok) == fixed_fits(self@, t@),
            r matches Err(e) ==> e == BilliardsError::ArithmeticRangeError,
    {
        let fl = t.floor();
        proof {
            lemma_fundamental_div_mod(t@.n, t@.d);
            assert(t@.d * (t@.n / t@.d) == (t@.n / t@.d) * t@.d) by (nonlinear_arith);
            assert(frac_sub(t@, frac_of_int(fl as int)) == frac_fpart(t@));
            lemma_fits_when_small(frac_fpart(t@));
        }
        let fr = match t.sub(Rat::from_int(fl)) {
            Some(v) => v,
            None => unreached(),
        };
        let fx = match fr.mul(self.perimeter) {
            Some(v) => v,
            None => { return Err(BilliardsError::ArithmeticRangeError); },
        };
        proof {
            lemma_mul_cong_trans(fx@, fr@, self@.p, frac_fpart(t@), self@.p);
            lemma_scale_unit(frac_fpart(t@), self@.p);
            lemma_cmp_cong(frac_of_int(0), frac_of_int(0), fx@, fixed_of(self@, t@));
            lemma_cmp_cong(fx@, fixed_of(self@, t@), self@.p, self@.p);
        }
        Ok(fx)
    }

    /// The index of the edge whose cumulative-length interval contains `fx`.
    fn locate(&self, fx: &Rat) -> (j: usize)
        requires
            self.wf(),
            fx.wf(),
            frac_le(frac_of_int(0), fx@),
            frac_lt(fx@, self@.p),
        ensures
            (j as int) < tbl_n(self@),
            edge_interval(self@, j as int, fx@),
    {
        let n = self.vertex_times.len();
        proof {
            lemma_cmp_cong(self@.ts[0], frac_of_int(0), fx@, fx@);
        }
        let mut i: usize = 1;
        let mut j: usize = n - 1;
        let mut found: bool = false;
        while i < n
            invariant
                self.wf(),
                fx.wf(),
                frac_le(frac_of_int(0), fx@),
                frac_lt(fx@, self@.p),
                n == self.vertex_times@.len(),
                n == self@.vs.len(),
                1 <= i <= n,
                !found ==> j == n - 1 && frac_le(self@.ts[i - 1], fx@),
                found ==> (j as int) < tbl_n(self@) && edge_interval(self@, j as int, fx@),
            decreases n - i,
        {
            proof {
                assert(frac_wf(self@.ts[i as int]));
            }
            if !found {
                if fx.lt(&self.vertex_times[i]) {
                    j = i - 1;
                    found = true;
                }
            }
            i = i + 1;
        }
        j
    }

    /// The boundary point of edge `j` at cumulative length `fx`.
    fn point_at_edge(&self, j: usize, fx: &Rat) -> (r: Result<AffinePoint, BilliardsError>)
        requires
            self.wf(),
            fx.wf(),
            (j as int) < tbl_n(self@),
        ensures
            r matches Ok(q) ==> q.wf() && f2_eqv(q@, edge_interp(self@, j as int, fx@)) && q@
                == point_n(self@, j as int, fx@),
            (r is Ok) == edge_fits(self@, j as int, fx@),
            r matches Err(e) ==> e == BilliardsError::ArithmeticRangeError,
    {
        let ghost tv = self@;
        proof {
            assert(frac_wf(tv.ts[j as int]));
            assert(frac_wf(tv.ls[j as int]) && frac_lt(frac_of_int(0), tv.ls[j as int]));
            assert(f2_wf(tv.vs[j as int]));
            assert(f2_wf(tv.vs[next_idx(tv, j as int)]));
        }
        let tj = self.vertex_times[j];
        let lj = self.lengths[j];
        let diff = match fx.sub(tj) {
            Some(v) => v,
            None => { return Err(BilliardsError::ArithmeticRangeError); },
        };
        let u = match diff.div(lj) {
            Some(v) => v,
            None => { return Err(BilliardsError::ArithmeticRangeError); },
        };
        let n = self.vertices.len();
        let jn: usize = if j + 1 < n {
            j + 1
        } else {
            0
        };
        let vj = self.vertices[j];
        let vn = self.vertices[jn];
        let e = match vj.vector_to(&vn) {
            Some(v) => v,
            None => { return Err(BilliardsError::ArithmeticRangeError); },
        };
        let q = match vj.translate(&e, &u) {
            Some(v) => v,
            None => { return Err(BilliardsError::ArithmeticRangeError); },
        };
        proof {
            let ji = j as int;
            lemma_wf_ops(fx@, tv.ts[ji]);
            lemma_div_cong_trans(
                u@,
                diff@,
                lj@,
                frac_sub(fx@, tv.ts[ji]),
                tv.ls[ji],
            );
            let us = edge_u(tv, ji, fx@);
            let ev = edge_vec(tv, ji);
            lemma_wf_ops(tv.vs[next_idx(tv, ji)].x, tv.vs[ji].x);
            lemma_wf_ops(tv.vs[next_idx(tv, ji)].y, tv.vs[ji].y);
            lemma_mul_cong(u@, us, e@.x, ev.x);
            lemma_mul_cong(u@, us, e@.y, ev.y);
            lemma_wf_ops(u@, e@.x);
            lemma_wf_ops(u@, e@.y);
            lemma_wf_ops(us, ev.x);
            lemma_wf_ops(us, ev.y);
            lemma_add_cong_trans(
                q@.x,
                tv.vs[ji].x,
                frac_mul(u@, e@.x),
                tv.vs[ji].x,
                frac_mul(us, ev.x),
            );
            lemma_add_cong_trans(
                q@.y,
                tv.vs[ji].y,
                frac_mul(u@, e@.y),
                tv.vs[ji].y,
                frac_mul(us, ev.y),
            );
        }
        Ok(q)
    }

    /// The boundary point at time `t` (periodic in `t` with period one).
    pub fn point(&self, point_time: &Rat) -> (r: Result<AffinePoint, BilliardsError>)
        requires
            self.wf(),
            point_time.wf(),
        ensures
            r matches Ok(q) ==> q.wf() && point_rel(self@, point_time@, q@),
            point_callable(self@, point_time@) ==> r is Ok,
            r matches Err(e) ==> e == BilliardsError::ArithmeticRangeError && !point_callable(
                self@,
                point_time@,
            ),
    {
        let ghost tv0 = self@;
        let fx = match self.fixed_time(point_time) {
            Ok(v) => v,
            Err(e) => { return Err(e); },
        };
        let j = self.locate(&fx);
        let q = match self.point_at_edge(j, &fx) {
            Ok(v) => v,
            Err(e) => {
                proof {
                    if point_callable(tv0, point_time@) {
                        assert(edge_fits(tv0, j as int, fixed_n(tv0, point_time@)));
                        assert(false);
                    }
                }
                return Err(e);
            },
        };
        proof {
            lemma_fx_cong(self@, j as int, fx@, fixed_of(self@, point_time@));
            crate::rat::lemma_eqv_trans(
                q@.x,
                edge_interp(self@, j as int, fx@).x,
                edge_interp(self@, j as int, fixed_of(self@, point_time@)).x,
            );
            crate::rat::lemma_eqv_trans(
                q@.y,
                edge_interp(self@, j as int, fx@).y,
                edge_interp(self@, j as int, fixed_of(self@, point_time@)).y,
            );
            assert(point_rel_at(self@, point_time@, j as int, q@));
        }
        Ok(q)
    }

    /// The heading of the edge containing time `t`: constant on each edge,
    /// and by the half-open interval convention the heading at a vertex is
    /// that of the edge starting there.
    pub fn tangent_heading(&self, point_time: &Rat) -> (r: Result<Heading, BilliardsError>)
        requires
            self.wf(),
            point_time.wf(),
        ensures
            r matches Ok(h) ==> h.wf() && exists|j: int|
                0 <= j < tbl_n(self@) && edge_interval(
                    self@,
                    j,
                    fixed_of(self@, point_time@),
                ) && f2_eqv(h@, edge_vec(self@, j)) && h@ == f2_nsub(
                    self@.vs[next_idx(self@, j)],
                    self@.vs[j],
                ),
            tangent_callable(self@, point_time@) ==> r is Ok,
            r matches Err(e) ==> e == BilliardsError::ArithmeticRangeError && !tangent_callable(
                self@,
                point_time@,
            ),
    {
        let ghost tv0 = self@;
        let fx = match self.fixed_time(point_time) {
            Ok(v) => v,
            Err(e) => { return Err(e); },
        };
        let j = self.locate(&fx);
        let n = self.vertices.len();
        let jn: usize = if j + 1 < n {
            j + 1
        } else {
            0
        };
        proof {
            assert(f2_wf(self@.vs[j as int]));
            assert(f2_wf(self@.vs[next_idx(self@, j as int)]));
            assert(jn as int == next_idx(self@, j as int));
        }
        let h = match self.vertices[j].vector_to(&self.vertices[jn]) {
            Some(v) => v,
            None => {
                proof {
                    if tangent_callable(tv0, point_time@) {
                        assert(sub_fits(
                            tv0.vs[next_idx(tv0, j as int)],
                            tv0.vs[j as int],
                        ));
                        assert(false);
                    }
                }
                return Err(BilliardsError::ArithmeticRangeError);
            },
        };
        proof {
            lemma_fx_cong(self@, j as int, fx@, fixed_of(self@, point_time@));
            assert(0 <= (j as int) && (j as int) < tbl_n(self@) && edge_interval(
                self@,
                j as int,
                fixed_of(self@, point_time@),
            ) && f2_eqv(h@, edge_vec(self@, j as int)) && h@ == f2_nsub(
                self@.vs[next_idx(self@, j as int)],
                self@.vs[j as int],
            ));
        }
        Ok(h)
    }

    /// Cast a chord from the boundary point at `chord_start_time` in the
    /// given heading: among all transversal forward intersections with edges
    /// other than the start edge, pick the first one the ray meets and
    /// return its boundary time together with the chord's heading there
    /// (the heading itself: chords are straight). `NoIntersectionError`
    /// reports that no such intersection exists.
    pub fn chord_end(&self, chord_start_time: &Rat, chord_heading: &Heading) -> (r: Result<
        (Rat, Heading),
        BilliardsError,
    >)
        requires
            self.wf(),
            chord_start_time.wf(),
            chord_heading.wf(),
        ensures
            r matches Ok(pair) ==> pair.0.wf() && pair.1 == *chord_heading && exists|
                j0: int,
                p0: F2,
                j: int,
            | chord_hit(self@, chord_start_time@, chord_heading@, pair.0@, j0, p0, j),
            r matches Err(e) ==> e == BilliardsError::NoIntersectionError
                || e == BilliardsError::ArithmeticRangeError,
            (r matches Err(e) && e == BilliardsError::NoIntersectionError) ==> exists|
                j0: int,
                p0: F2,
            | chord_miss(self@, chord_start_time@, chord_heading@, j0, p0),
            chord_fits(self@, chord_start_time@, chord_heading@) ==> !(r matches Err(e) && e
                == BilliardsError::ArithmeticRangeError),
            (r matches Err(e) && e == BilliardsError::ArithmeticRangeError) ==> !chord_fits(
                self@,
                chord_start_time@,
                chord_heading@,
            ),
    {
        let ghost tv = self@;
        let ghost d = chord_heading@;
        let ghost fixed = fixed_of(tv, chord_start_time@);
        let fx = match self.fixed_time(chord_start_time) {
            Ok(v) => v,
            Err(e) => { return Err(e); },
        };
        let j0 = self.locate(&fx);
        let p0 = match self.point_at_edge(j0, &fx) {
            Ok(v) => v,
            Err(e) => {
                proof {
                    if chord_fits(tv, chord_start_time@, d) {
                        assert(edge_fits(tv, j0 as int, fixed_n(tv, chord_start_time@)));
                        assert(false);
                    }
                }
                return Err(e);
            },
        };
        proof {
            lemma_fx_cong(tv, j0 as int, fx@, fixed);
            crate::rat::lemma_eqv_trans(
                p0@.x,
                edge_interp(tv, j0 as int, fx@).x,
                edge_interp(tv, j0 as int, fixed).x,
            );
            crate::rat::lemma_eqv_trans(
                p0@.y,
                edge_interp(tv, j0 as int, fx@).y,
                edge_interp(tv, j0 as int, fixed).y,
            );
        }
        let n = self.vertices.len();
        let zero = Rat::from_int(0);
        let one = Rat::from_int(1);
        let mut k: usize = 0;
        let mut have_best: bool = false;
        let mut bj: usize = 0;
        let mut bs: Rat = zero;
        let mut bu: Rat = zero;
        while k < n
            invariant
                self.wf(),
                chord_heading.wf(),
                tv == self@,
                d == chord_heading@,
                fixed == fixed_of(tv, chord_start_time@),
                chord_start_time.wf(),
                zero@ == frac_of_int(0),
                one@ == frac_of_int(1),
                n == self@.vs.len(),
                (j0 as int) < tbl_n(tv),
                edge_interval(tv, j0 as int, fixed),
                p0.wf(),
                f2_eqv(p0@, edge_interp(tv, j0 as int, fixed)),
                fx.wf(),
                fx@ == fixed_n(tv, chord_start_time@),
                edge_interval(tv, j0 as int, fx@),
                p0@ == point_n(tv, j0 as int, fx@),
                k <= n,
                have_best ==> (bj as int) < tbl_n(tv) && bj != j0 && cand_ok(
                    tv,
                    bj as int,
                    p0@,
                    d,
                ) && bs.wf() && bu.wf() && frac_eqv(bs@, cand_s(tv, bj as int, p0@, d))
                    && frac_eqv(bu@, cand_u(tv, bj as int, p0@, d)) && bu@ == cand_un(
                    tv,
                    bj as int,
                    p0@,
                    d,
                ) && !frac_is_zero(
                    cross_n(d, f2_nsub(tv.vs[next_idx(tv, bj as int)], tv.vs[bj as int])),
                ),
                forall|kk: int|
                    0 <= kk < k && kk != j0 as int && #[trigger] cand_ok(tv, kk, p0@, d)
                        ==> have_best && frac_le(
                        cand_s(tv, bj as int, p0@, d),
                        cand_s(tv, kk, p0@, d),
                    ),
            decreases n - k,
        {
            if k != j0 {
                let ghost ki = k as int;
                let kn: usize = if k + 1 < n {
                    k + 1
                } else {
                    0
                };
                proof {
                    assert(f2_wf(tv.vs[ki]));
                    assert(f2_wf(tv.vs[next_idx(tv, ki)]));
                    assert(kn as int == next_idx(tv, ki));
                }
                let vk = self.vertices[k];
                let vkn = self.vertices[kn];
                let ek = match vk.vector_to(&vkn) {
                    Some(v) => v,
                    None => {
                        proof {
                            if chord_fits(tv, chord_start_time@, d) {
                                lemma_chord_fits_at(tv, chord_start_time@, d, j0 as int, ki);
                                assert(false);
                            }
                        }
                        return Err(BilliardsError::ArithmeticRangeError);
                    },
                };
                let den = match chord_heading.cross(&ek) {
                    Some(v) => v,
                    None => {
                        proof {
                            if chord_fits(tv, chord_start_time@, d) {
                                lemma_chord_fits_at(tv, chord_start_time@, d, j0 as int, ki);
                                assert(false);
                            }
                        }
                        return Err(BilliardsError::ArithmeticRangeError);
                    },
                };
                proof {
                    lemma_wf_ops(tv.vs[next_idx(tv, ki)].x, tv.vs[ki].x);
                    lemma_wf_ops(tv.vs[next_idx(tv, ki)].y, tv.vs[ki].y);
                    lemma_cross_cong(d, d, ek@, edge_vec(tv, ki));
                    crate::rat::lemma_eqv_trans(
                        den@,
                        f2_cross(d, ek@),
                        cand_den(tv, ki, d),
                    );
                    lemma_cmp_cong(den@, cand_den(tv, ki, d), den@, cand_den(tv, ki, d));
                }
                if !den.is_zero() {
                    let w = match p0.vector_to(&vk) {
                        Some(v) => v,
                        None => {
                        proof {
                            if chord_fits(tv, chord_start_time@, d) {
                                lemma_chord_fits_at(tv, chord_start_time@, d, j0 as int, ki);
                                assert(false);
                            }
                        }
                            return Err(BilliardsError::ArithmeticRangeError);
                        },
                    };
                    let ns = match w.cross(&ek) {
                        Some(v) => v,
                        None => {
                        proof {
                            if chord_fits(tv, chord_start_time@, d) {
                                lemma_chord_fits_at(tv, chord_start_time@, d, j0 as int, ki);
                                assert(false);
                            }
                        }
                            return Err(BilliardsError::ArithmeticRangeError);
                        },
                    };
                    let s = match ns.div(den) {
                        Some(v) => v,
                        None => {
                        proof {
                            if chord_fits(tv, chord_start_time@, d) {
                                lemma_chord_fits_at(tv, chord_start_time@, d, j0 as int, ki);
                                assert(false);
                            }
                        }
                            return Err(BilliardsError::ArithmeticRangeError);
                        },
                    };
                    let nu = match w.cross(chord_heading) {
                        Some(v) => v,
                        None => {
                        proof {
                            if chord_fits(tv, chord_start_time@, d) {
                                lemma_chord_fits_at(tv, chord_start_time@, d, j0 as int, ki);
                                assert(false);
                            }
                        }
                            return Err(BilliardsError::ArithmeticRangeError);
                        },
                    };
                    let u = match nu.div(den) {
                        Some(v) => v,
                        None => {
                        proof {
                            if chord_fits(tv, chord_start_time@, d) {
                                lemma_chord_fits_at(tv, chord_start_time@, d, j0 as int, ki);
                                assert(false);
                            }
                        }
                            return Err(BilliardsError::ArithmeticRangeError);
                        },
                    };
                    proof {
                        lemma_wf_ops(tv.vs[ki].x, p0@.x);
                        lemma_wf_ops(tv.vs[ki].y, p0@.y);
                        lemma_cross_cong(w@, f2_sub(tv.vs[ki], p0@), ek@, edge_vec(tv, ki));
                        crate::rat::lemma_eqv_trans(
                            ns@,
                            f2_cross(w@, ek@),
                            f2_cross(f2_sub(tv.vs[ki], p0@), edge_vec(tv, ki)),
                        );
                        lemma_div_cong_trans(
                            s@,
                            ns@,
                            den@,
                            f2_cross(f2_sub(tv.vs[ki], p0@), edge_vec(tv, ki)),
                            cand_den(tv, ki, d),
                        );
                        lemma_cross_cong(w@, f2_sub(tv.vs[ki], p0@), d, d);
                        crate::rat::lemma_eqv_trans(
                            nu@,
                            f2_cross(w@, d),
                            f2_cross(f2_sub(tv.vs[ki], p0@), d),
                        );
                        lemma_div_cong_trans(
                            u@,
                            nu@,
                            den@,
                            f2_cross(f2_sub(tv.vs[ki], p0@), d),
                            cand_den(tv, ki, d),
                        );
                        lemma_cmp_cong(zero@, frac_of_int(0), s@, cand_s(tv, ki, p0@, d));
                        lemma_cmp_cong(zero@, frac_of_int(0), u@, cand_u(tv, ki, p0@, d));
                        lemma_cmp_cong(u@, cand_u(tv, ki, p0@, d), one@, frac_of_int(1));
                    }
                    if zero.lt(&s) && zero.le(&u) && u.lt(&one) {
                        proof {
                            assert(cand_ok(tv, ki, p0@, d));
                        }
                        if !have_best || s.lt(&bs) {
                            proof {
                                lemma_div_wfs(tv, ki, p0@, d);
                                if have_best {
                                    lemma_div_wfs(tv, bj as int, p0@, d);
                                    lemma_cmp_cong(
                                        s@,
                                        cand_s(tv, ki, p0@, d),
                                        bs@,
                                        cand_s(tv, bj as int, p0@, d),
                                    );
                                    assert forall|kk: int|
                                        0 <= kk < k + 1 && kk != j0 as int
                                            && #[trigger] cand_ok(tv, kk, p0@, d) implies frac_le(
                                        cand_s(tv, ki, p0@, d),
                                        cand_s(tv, kk, p0@, d),
                                    ) by {
                                        if kk < k {
                                            lemma_div_wfs(tv, ki, p0@, d);
                                            lemma_div_wfs(tv, kk, p0@, d);
                                            lemma_div_wfs(tv, bj as int, p0@, d);
                                            lemma_lt_le_trans(
                                                cand_s(tv, ki, p0@, d),
                                                cand_s(tv, bj as int, p0@, d),
                                                cand_s(tv, kk, p0@, d),
                                            );
                                        }
                                    }
                                } else {
                                    assert forall|kk: int|
                                        0 <= kk < k + 1 && kk != j0 as int
                                            && #[trigger] cand_ok(tv, kk, p0@, d) implies frac_le(
                                        cand_s(tv, ki, p0@, d),
                                        cand_s(tv, kk, p0@, d),
                                    ) by {
                                        lemma_div_wfs(tv, ki, p0@, d);
                                    }
                                }
                            }
                            have_best = true;
                            bj = k;
                            bs = s;
                            bu = u;
                        } else {
                            proof {
                                lemma_div_wfs(tv, ki, p0@, d);
                                lemma_div_wfs(tv, bj as int, p0@, d);
                                lemma_cmp_cong(
                                    bs@,
                                    cand_s(tv, bj as int, p0@, d),
                                    s@,
                                    cand_s(tv, ki, p0@, d),
                                );
                            }
                        }
                    }
                }
            }
            k = k + 1;
        }
        if !have_best {
            proof {
                assert(chord_miss(tv, chord_start_time@, d, j0 as int, p0@));
            }
            return Err(BilliardsError::NoIntersectionError);
        }
        proof {
            assert(frac_wf(tv.ts[bj as int]));
            assert(frac_wf(tv.ls[bj as int]) && frac_lt(frac_of_int(0), tv.ls[bj as int]));
        }
        let lj = self.lengths[bj];
        let tj = self.vertex_times[bj];
        let m = match bu.mul(lj) {
            Some(v) => v,
            None => {
                proof {
                    if chord_fits(tv, chord_start_time@, d) {
                        lemma_chord_fits_at(tv, chord_start_time@, d, j0 as int, bj as int);
                        assert(false);
                    }
                }
                return Err(BilliardsError::ArithmeticRangeError);
            },
        };
        let a = match tj.add(m) {
            Some(v) => v,
            None => {
                proof {
                    if chord_fits(tv, chord_start_time@, d) {
                        lemma_chord_fits_at(tv, chord_start_time@, d, j0 as int, bj as int);
                        assert(false);
                    }
                }
                return Err(BilliardsError::ArithmeticRangeError);
            },
        };
        let t2 = match a.div(self.perimeter) {
            Some(v) => v,
            None => {
                proof {
                    if chord_fits(tv, chord_start_time@, d) {
                        lemma_chord_fits_at(tv, chord_start_time@, d, j0 as int, bj as int);
                        assert(false);
                    }
                }
                return Err(BilliardsError::ArithmeticRangeError);
            },
        };
        proof {
            let bji = bj as int;
            lemma_div_wfs(tv, bji, p0@, d);
            lemma_mul_cong_trans(m@, bu@, tv.ls[bji], cand_u(tv, bji, p0@, d), tv.ls[bji]);
            lemma_add_cong_trans(
                a@,
                tv.ts[bji],
                m@,
                tv.ts[bji],
                frac_mul(cand_u(tv, bji, p0@, d), tv.ls[bji]),
            );
            lemma_div_cong_trans(
                t2@,
                a@,
                self.perimeter@,
                frac_add(tv.ts[bji], frac_mul(cand_u(tv, bji, p0@, d), tv.ls[bji])),
                tv.p,
            );
            assert(chord_hit(tv, chord_start_time@, d, t2@, j0 as int, p0@, bji));
        }
        Ok((t2, *chord_heading))
    }

    /// Scan the vertices for the one whose ray from `p` keeps every vertex
    /// on the chosen side; ties go to the lowest index.
    fn tangent_scan(&self, point: &AffinePoint, right: bool) -> (r: Result<
        usize,
        BilliardsError,
    >)
        requires
            self.wf(),
            point.wf(),
        ensures
            r matches Ok(i) ==> (i as int) < tbl_n(self@) && tangent_sided(
                self@,
                point@,
                i as int,
                right,
            ),
            r matches Err(e) ==> e == BilliardsError::NoTangentError
                || e == BilliardsError::ArithmeticRangeError,
            (r matches Err(e) && e == BilliardsError::NoTangentError) ==> forall|i2: int|
                0 <= i2 < tbl_n(self@) ==> !tangent_sided(self@, point@, i2, right),
            scan_fits(self@, point@) ==> !(r matches Err(e) && e
                == BilliardsError::ArithmeticRangeError),
            (r matches Err(e) && e == BilliardsError::ArithmeticRangeError) ==> !scan_fits(
                self@,
                point@,
            ),
    {
        let ghost tv = self@;
        let ghost p = point@;
        let n = self.vertices.len();
        let zero = Rat::from_int(0);
        let mut i: usize = 0;
        while i < n
            invariant
                self.wf(),
                point.wf(),
                tv == self@,
                p == point@,
                zero@ == frac_of_int(0),
                n == self@.vs.len(),
                i <= n,
                forall|i2: int| 0 <= i2 < i ==> !tangent_sided(tv, p, i2, right),
            decreases n - i,
        {
            proof {
                assert(f2_wf(tv.vs[i as int]));
            }
            let vi = self.vertices[i];
            let wi = match point.vector_to(&vi) {
                Some(v) => v,
                None => {
                    proof {
                        if scan_fits(tv, p) {
                            lemma_scan_fits_at(tv, p, i as int, i as int);
                            assert(false);
                        }
                    }
                    return Err(BilliardsError::ArithmeticRangeError);
                },
            };
            let mut k: usize = 0;
            let mut all_ok: bool = true;
            while k < n && all_ok
                invariant
                    self.wf(),
                    point.wf(),
                    tv == self@,
                    p == point@,
                    zero@ == frac_of_int(0),
                    n == self@.vs.len(),
                    (i as int) < tbl_n(tv),
                    k <= n,
                    wi.wf(),
                    f2_eqv(wi@, f2_sub(tv.vs[i as int], p)),
                    wi@ == f2_nsub(tv.vs[i as int], p),
                    all_ok ==> forall|k2: int|
                        0 <= k2 < k ==> {
                            let c = f2_cross(
                                f2_sub(tv.vs[i as int], p),
                                f2_sub(#[trigger] tv.vs[k2], p),
                            );
                            if right {
                                frac_le(frac_of_int(0), c)
                            } else {
                                frac_le(c, frac_of_int(0))
                            }
                        },
                    !all_ok ==> !tangent_sided(tv, p, i as int, right),
                decreases n - k,
            {
                proof {
                    assert(f2_wf(tv.vs[k as int]));
                }
                let vk = self.vertices[k];
                let wk = match point.vector_to(&vk) {
                    Some(v) => v,
                    None => {
                        proof {
                            if scan_fits(tv, p) {
                                lemma_scan_fits_at(tv, p, k as int, k as int);
                                assert(false);
                            }
                        }
                        return Err(BilliardsError::ArithmeticRangeError);
                    },
                };
                let c = match wi.cross(&wk) {
                    Some(v) => v,
                    None => {
                        proof {
                            if scan_fits(tv, p) {
                                lemma_scan_fits_at(tv, p, i as int, k as int);
                                assert(false);
                            }
                        }
                        return Err(BilliardsError::ArithmeticRangeError);
                    },
                };
                proof {
                    lemma_wf_ops(tv.vs[i as int].x, p.x);
                    lemma_wf_ops(tv.vs[i as int].y, p.y);
                    lemma_wf_ops(tv.vs[k as int].x, p.x);
                    lemma_wf_ops(tv.vs[k as int].y, p.y);
                    lemma_cross_cong(
                        wi@,
                        f2_sub(tv.vs[i as int], p),
                        wk@,
                        f2_sub(tv.vs[k as int], p),
                    );
                    crate::rat::lemma_eqv_trans(
                        c@,
                        f2_cross(wi@, wk@),
                        f2_cross(f2_sub(tv.vs[i as int], p), f2_sub(tv.vs[k as int], p)),
                    );
                    lemma_cmp_cong(
                        zero@,
                        frac_of_int(0),
                        c@,
                        f2_cross(f2_sub(tv.vs[i as int], p), f2_sub(tv.vs[k as int], p)),
                    );
                    lemma_cmp_cong(
                        c@,
                        f2_cross(f2_sub(tv.vs[i as int], p), f2_sub(tv.vs[k as int], p)),
                        zero@,
                        frac_of_int(0),
                    );
                }
                let ok = if right {
                    zero.le(&c)
                } else {
                    c.le(&zero)
                };
                if !ok {
                    all_ok = false;
                    proof {
                        assert(!tangent_sided(tv, p, i as int, right));
                    }
                }
                k = k + 1;
            }
            if all_ok {
                proof {
                    assert(tangent_sided(tv, p, i as int, right));
                }
                return Ok(i);
            }
            i = i + 1;
        }
        Err(BilliardsError::NoTangentError)
    }

    /// The vertex at which the right tangent line from an external point
    /// touches the table: every vertex lies weakly to the left of the ray
    /// from `point` through it. `NoTangentError` reports that no vertex
    /// qualifies (the point is inside the table).
    pub fn right_tangent_point(&self, point: &AffinePoint) -> (r: Result<
        AffinePoint,
        BilliardsError,
    >)
        requires
            self.wf(),
            point.wf(),
        ensures
            r matches Ok(w) ==> w.wf() && exists|i: int|
                0 <= i < tbl_n(self@) && tangent_sided(self@, point@, i, true) && w@
                    == self@.vs[i],
            r matches Err(e) ==> e == BilliardsError::NoTangentError
                || e == BilliardsError::ArithmeticRangeError,
            (r matches Err(e) && e == BilliardsError::NoTangentError) ==> forall|i2: int|
                0 <= i2 < tbl_n(self@) ==> !tangent_sided(self@, point@, i2, true),
            scan_fits(self@, point@) ==> !(r matches Err(e) && e
                == BilliardsError::ArithmeticRangeError),
            (r matches Err(e) && e == BilliardsError::ArithmeticRangeError) ==> !scan_fits(
                self@,
                point@,
            ),
    {
        let i = match self.tangent_scan(point, true) {
            Ok(v) => v,
            Err(e) => { return Err(e); },
        };
        let w = self.vertices[i];
        proof {
            assert(0 <= (i as int) && (i as int) < tbl_n(self@) && tangent_sided(self@, point@, i as int, true)
                && w@ == self@.vs[i as int]);
        }
        Ok(w)
    }

    /// The vertex of tangency of the left tangent line from an external
    /// point, the mirror image of `right_tangent_point`.
    pub fn left_tangent_point(&self, point: &AffinePoint) -> (r: Result<
        AffinePoint,
        BilliardsError,
    >)
        requires
            self.wf(),
            point.wf(),
        ensures
            r matches Ok(w) ==> w.wf() && exists|i: int|
                0 <= i < tbl_n(self@) && tangent_sided(self@, point@, i, false) && w@
                    == self@.vs[i],
            r matches Err(e) ==> e == BilliardsError::NoTangentError
                || e == BilliardsError::ArithmeticRangeError,
            (r matches Err(e) && e == BilliardsError::NoTangentError) ==> forall|i2: int|
                0 <= i2 < tbl_n(self@) ==> !tangent_sided(self@, point@, i2, false),
            scan_fits(self@, point@) ==> !(r matches Err(e) && e
                == BilliardsError::ArithmeticRangeError),
            (r matches Err(e) && e == BilliardsError::ArithmeticRangeError) ==> !scan_fits(
                self@,
                point@,
            ),
    {
        let i = match self.tangent_scan(point, false) {
            Ok(v) => v,
            Err(e) => { return Err(e); },
        };
        let w = self.vertices[i];
        proof {
            assert(0 <= (i as int) && (i as int) < tbl_n(self@) && tangent_sided(self@, point@, i as int, false)
                && w@ == self@.vs[i as int]);
        }
        Ok(w)
    }
}

/// The denominators appearing in a well-formed candidate are well-formed.
proof fn lemma_div_wfs(tv: TableV, k: int, p0: F2, d: F2)
    requires
        tbl_wf(tv),
        0 <= k < tbl_n(tv),
        f2_wf(p0),
        f2_wf(d),
        !frac_is_zero(cand_den(tv, k, d)),
    ensures
        frac_wf(cand_s(tv, k, p0, d)),
        frac_wf(cand_u(tv, k, p0, d)),
{
    let ni = next_idx(tv, k);
    lemma_wf_ops(tv.vs[ni].x, tv.vs[k].x);
    lemma_wf_ops(tv.vs[ni].y, tv.vs[k].y);
    lemma_wf_ops(tv.vs[k].x, p0.x);
    lemma_wf_ops(tv.vs[k].y, p0.y);
    let ev = edge_vec(tv, k);
    let wv = f2_sub(tv.vs[k], p0);
    lemma_cross_cong(d, d, ev, ev);
    lemma_cross_cong(wv, wv, ev, ev);
    lemma_cross_cong(wv, wv, d, d);
    crate::rat::lemma_div_cong(
        f2_cross(wv, ev),
        f2_cross(wv, ev),
        cand_den(tv, k, d),
        cand_den(tv, k, d),
    );
    crate::rat::lemma_div_cong(
        f2_cross(wv, d),
        f2_cross(wv, d),
        cand_den(tv, k, d),
        cand_den(tv, k, d),
    );
}

/// The sum of the first `k` edge lengths.
pub open spec fn sum_lens(tv: TableV, k: int) -> Frac
    decreases k,
{
    if k <= 0 {
        frac_of_int(0)
    } else {
        frac_add(sum_lens(tv, k - 1), tv.ls[k - 1])
    }
}

proof fn lemma_times_are_sums(tv: TableV, k: int)
    requires
        tbl_wf(tv),
        0 <= k < tbl_n(tv),
    ensures
        frac_wf(sum_lens(tv, k)),
        frac_eqv(tv.ts[k], sum_lens(tv, k)),
    decreases k,
{
    if k == 0 {
        assert(frac_eqv(tv.ts[0], frac_of_int(0)));
    } else {
        lemma_times_are_sums(tv, k - 1);
        assert(frac_eqv(tv.ts[k - 1 + 1], frac_add(tv.ts[k - 1], tv.ls[k - 1])));
        lemma_wf_ops(sum_lens(tv, k - 1), tv.ls[k - 1]);
        lemma_wf_ops(tv.ts[k - 1], tv.ls[k - 1]);
        lemma_add_cong(tv.ts[k - 1], sum_lens(tv, k - 1), tv.ls[k - 1], tv.ls[k - 1]);
        lemma_eqv_trans(
            tv.ts[k],
            frac_add(tv.ts[k - 1], tv.ls[k - 1]),
            frac_add(sum_lens(tv, k - 1), tv.ls[k - 1]),
        );
    }
}

/// The perimeter used by the parametrization is exactly the sum of the
/// stored edge lengths.
pub proof fn lemma_perimeter_is_edge_sum(tv: TableV)
    requires
        tbl_wf(tv),
    ensures
        frac_eqv(tv.p, sum_lens(tv, tbl_n(tv))),
{
    let n = tbl_n(tv);
    lemma_times_are_sums(tv, n - 1);
    lemma_wf_ops(sum_lens(tv, n - 1), tv.ls[n - 1]);
    lemma_wf_ops(tv.ts[n - 1], tv.ls[n - 1]);
    lemma_add_cong(tv.ts[n - 1], sum_lens(tv, n - 1), tv.ls[n - 1], tv.ls[n - 1]);
    lemma_eqv_trans(
        tv.p,
        frac_add(tv.ts[n - 1], tv.ls[n - 1]),
        frac_add(sum_lens(tv, n - 1), tv.ls[n - 1]),
    );
}

/// Periodicity of the boundary parametrization: the boundary point at time
/// `t + 1` is the boundary point at time `t`.
pub proof fn lemma_point_periodic(tv: TableV, t: Frac, q: F2)
    requires
        tbl_wf(tv),
        frac_wf(t),
    ensures
        point_rel(tv, t, q) == point_rel(tv, frac_add(t, frac_of_int(1)), q),
{
    let t1 = frac_add(t, frac_of_int(1));
    assert(t1.n == t.n + t.d && t1.d == t.d);
    lemma_mod_add_multiples_vanish(t.n, t.d);
    assert(frac_fpart(t1) == frac_fpart(t));
    assert(fixed_of(tv, t1) == fixed_of(tv, t));
    if point_rel(tv, t, q) {
        let j = choose|j: int| point_rel_at(tv, t, j, q);
        assert(point_rel_at(tv, t1, j, q));
    }
    if point_rel(tv, t1, q) {
        let j = choose|j: int| point_rel_at(tv, t1, j, q);
        assert(point_rel_at(tv, t, j, q));
    }
}

} // verus!
