//! Exact rational arithmetic on 64-bit numerators and denominators.
//!
//! A `Rat` stores a fraction `num / den` with `den > 0`. Every operation
//! computes the exact result in 128-bit intermediates, reduces it by the
//! greatest common divisor, and returns `None` when even the reduced result
//! falls outside the 64-bit range. Comparisons and equality are total and
//! exact. The ghost model is `Frac`, a fraction over unbounded integers,
//! compared by cross multiplication (`frac_eqv`).

use vstd::prelude::*;
use vstd::arithmetic::div_mod::{
    lemma_fundamental_div_mod, lemma_fundamental_div_mod_converse_div, lemma_div_multiples_vanish,
    lemma_mod_multiples_basic, lemma_mod_self_0, lemma_small_mod, lemma_div_nonincreasing,
    lemma_div_is_ordered, lemma_div_by_multiple,
};
use vstd::arithmetic::mul::{lemma_mul_equality_converse, lemma_mul_is_distributive_add_other_way, lemma_mul_is_distributive_sub_other_way, lemma_mul_inequality_converse, lemma_mul_strict_inequality_converse};

verus! {

/// Ghost model of a rational number: an unbounded integer numerator over an
/// unbounded integer denominator, not necessarily reduced.
pub ghost struct Frac {
    pub n: int,
    pub d: int,
}

/// A fraction is well-formed when its denominator is positive.
pub open spec fn frac_wf(a: Frac) -> bool {
    a.d > 0
}

/// Two fractions denote the same rational value (cross multiplication).
pub open spec fn frac_eqv(a: Frac, b: Frac) -> bool {
    a.n * b.d == b.n * a.d
}

pub open spec fn frac_add(a: Frac, b: Frac) -> Frac {
    Frac { n: a.n * b.d + b.n * a.d, d: a.d * b.d }
}

pub open spec fn frac_sub(a: Frac, b: Frac) -> Frac {
    Frac { n: a.n * b.d - b.n * a.d, d: a.d * b.d }
}

pub open spec fn frac_mul(a: Frac, b: Frac) -> Frac {
    Frac { n: a.n * b.n, d: a.d * b.d }
}

pub open spec fn frac_neg(a: Frac) -> Frac {
    Frac { n: -a.n, d: a.d }
}

/// Quotient of two fractions, with the sign moved into the numerator so that
/// the result is well-formed whenever both inputs are and `b` is not zero.
pub open spec fn frac_div(a: Frac, b: Frac) -> Frac {
    if b.n >= 0 {
        Frac { n: a.n * b.d, d: a.d * b.n }
    } else {
        Frac { n: -(a.n * b.d), d: -(a.d * b.n) }
    }
}

/// `a <= b` as rational values; meaningful when both are well-formed.
pub open spec fn frac_le(a: Frac, b: Frac) -> bool {
    a.n * b.d <= b.n * a.d
}

/// `a < b` as rational values; meaningful when both are well-formed.
pub open spec fn frac_lt(a: Frac, b: Frac) -> bool {
    a.n * b.d < b.n * a.d
}

pub open spec fn frac_of_int(i: int) -> Frac {
    Frac { n: i, d: 1 }
}

pub open spec fn frac_is_zero(a: Frac) -> bool {
    a.n == 0
}

pub open spec fn iabs(i: int) -> int {
    if i >= 0 {
        i
    } else {
        -i
    }
}

pub open spec fn gcd_nat(a: nat, b: nat) -> nat
    decreases b,
{
    if b == 0 {
        a
    } else {
        gcd_nat(b, a % b)
    }
}

/// The positive factor by which a well-formed fraction is reduced.
pub open spec fn fgcd(n: int, d: int) -> int {
    gcd_nat(iabs(n) as nat, d as nat) as int
}

/// The canonical reduced form of a fraction.
pub open spec fn frac_norm(a: Frac) -> Frac {
    Frac { n: a.n / fgcd(a.n, a.d), d: a.d / fgcd(a.n, a.d) }
}

pub open spec fn fits_i64(i: int) -> bool {
    i64::MIN <= i <= i64::MAX
}

/// Whether the reduced form of a fraction fits the 64-bit representation.
pub open spec fn frac_fits(a: Frac) -> bool {
    fits_i64(frac_norm(a).n) && fits_i64(frac_norm(a).d)
}

/// The greatest common divisor divides both arguments and is positive when
/// either argument is.
pub proof fn lemma_gcd_divides(a: nat, b: nat)
    ensures
        a > 0 || b > 0 ==> gcd_nat(a, b) > 0,
        gcd_nat(a, b) > 0 ==> a % gcd_nat(a, b) == 0 && b % gcd_nat(a, b) == 0,
    decreases b,
{
    let g = gcd_nat(a, b);
    if b == 0 {
        if a > 0 {
            lemma_mod_self_0(a as int);
            lemma_small_mod(0, a);
        }
    } else {
        lemma_gcd_divides(b, a % b);
        assert(g == gcd_nat(b, a % b));
        assert(g > 0);
        if g > 0 {
            lemma_fundamental_div_mod(a as int, b as int);
            lemma_fundamental_div_mod(b as int, g as int);
            lemma_fundamental_div_mod((a % b) as int, g as int);
            let q = a as int / b as int;
            let kb = b as int / g as int;
            let kr = (a % b) as int / g as int;
            assert(a as int == (kb * q + kr) * (g as int)) by (nonlinear_arith)
                requires
                    a as int == (b as int) * q + ((a % b) as int),
                    b as int == (g as int) * kb + ((b % g) as int),
                    (b % g) as int == 0,
                    (a % b) as int == (g as int) * kr + (((a % b) % g) as int),
                    ((a % b) % g) as int == 0;
            lemma_mod_multiples_basic(kb * q + kr, g as int);
        }
    }
}

/// Exact division of a signed multiple: the quotient reconstructs the
/// dividend and does not grow in magnitude.
pub proof fn lemma_exact_div(x: int, g: int)
    requires
        g > 0,
        iabs(x) % g == 0,
    ensures
        x == g * (x / g),
        iabs(x / g) <= iabs(x),
{
    if x >= 0 {
        lemma_fundamental_div_mod(x, g);
        lemma_div_nonincreasing(x, g);
    } else {
        let m = -x;
        lemma_fundamental_div_mod(m, g);
        let k = m / g;
        assert(m == g * k);
        lemma_div_multiples_vanish(-k, g);
        assert(g * (-k) == -(g * k)) by (nonlinear_arith);
        assert(x / g == -k);
        lemma_div_nonincreasing(m, g);
    }
}

/// Reduction by the gcd yields a well-formed, equivalent fraction, and the
/// original components are exact multiples of the reduced ones.
pub proof fn lemma_norm_props(a: Frac)
    requires
        frac_wf(a),
    ensures
        fgcd(a.n, a.d) >= 1,
        frac_wf(frac_norm(a)),
        frac_eqv(frac_norm(a), a),
        a.n == fgcd(a.n, a.d) * frac_norm(a).n,
        a.d == fgcd(a.n, a.d) * frac_norm(a).d,
        iabs(frac_norm(a).n) <= iabs(a.n),
        frac_norm(a).d <= a.d,
{
    let g = fgcd(a.n, a.d);
    lemma_gcd_divides(iabs(a.n) as nat, a.d as nat);
    assert(g >= 1);
    lemma_exact_div(a.n, g);
    lemma_exact_div(a.d, g);
    let nn = a.n / g;
    let nd = a.d / g;
    assert(nd > 0) by (nonlinear_arith)
        requires
            a.d == g * nd,
            a.d > 0,
            g >= 1;
    assert(nn * a.d == a.n * nd) by (nonlinear_arith)
        requires
            a.n == g * nn,
            a.d == g * nd;
}

/// A fraction whose raw components already fit the 64-bit range fits after
/// reduction as well.
pub proof fn lemma_fits_when_small(a: Frac)
    requires
        frac_wf(a),
        fits_i64(a.n),
        fits_i64(a.d),
    ensures
        frac_fits(a),
{
    lemma_norm_props(a);
}

/// Equivalence of well-formed fractions is transitive.
pub proof fn lemma_eqv_trans(a: Frac, b: Frac, c: Frac)
    requires
        frac_wf(a),
        frac_wf(b),
        frac_wf(c),
        frac_eqv(a, b),
        frac_eqv(b, c),
    ensures
        frac_eqv(a, c),
{
    assert(b.d * (a.n * c.d) == b.d * (c.n * a.d)) by (nonlinear_arith)
        requires
            a.n * b.d == b.n * a.d,
            b.n * c.d == c.n * b.d;
    lemma_mul_equality_converse(b.d, a.n * c.d, c.n * a.d);
}

/// Sums of equivalent fractions are equivalent.
pub proof fn lemma_add_cong(a: Frac, a2: Frac, b: Frac, b2: Frac)
    requires
        frac_wf(a),
        frac_wf(a2),
        frac_wf(b),
        frac_wf(b2),
        frac_eqv(a, a2),
        frac_eqv(b, b2),
    ensures
        frac_eqv(frac_add(a, b), frac_add(a2, b2)),
        frac_eqv(frac_sub(a, b), frac_sub(a2, b2)),
{
    lemma_mul_is_distributive_add_other_way(a2.d * b2.d, a.n * b.d, b.n * a.d);
    lemma_mul_is_distributive_add_other_way(a.d * b.d, a2.n * b2.d, b2.n * a2.d);
    lemma_mul_is_distributive_sub_other_way(a2.d * b2.d, a.n * b.d, b.n * a.d);
    lemma_mul_is_distributive_sub_other_way(a.d * b.d, a2.n * b2.d, b2.n * a2.d);
    assert((a.n * b.d) * (a2.d * b2.d) == (a.n * a2.d) * (b.d * b2.d)) by (nonlinear_arith);
    assert((b.n * a.d) * (a2.d * b2.d) == (b.n * b2.d) * (a.d * a2.d)) by (nonlinear_arith);
    assert((a2.n * b2.d) * (a.d * b.d) == (a2.n * a.d) * (b.d * b2.d)) by (nonlinear_arith);
    assert((b2.n * a2.d) * (a.d * b.d) == (b2.n * b.d) * (a.d * a2.d)) by (nonlinear_arith);
    assert((a.n * a2.d) * (b.d * b2.d) == (a2.n * a.d) * (b.d * b2.d));
    assert((b.n * b2.d) * (a.d * a2.d) == (b2.n * b.d) * (a.d * a2.d));
}

/// Products of equivalent fractions are equivalent.
pub proof fn lemma_mul_cong(a: Frac, a2: Frac, b: Frac, b2: Frac)
    requires
        frac_wf(a),
        frac_wf(a2),
        frac_wf(b),
        frac_wf(b2),
        frac_eqv(a, a2),
        frac_eqv(b, b2),
    ensures
        frac_eqv(frac_mul(a, b), frac_mul(a2, b2)),
{
    assert((a.n * b.n) * (a2.d * b2.d) == (a2.n * b2.n) * (a.d * b.d)) by (nonlinear_arith)
        requires
            a.n * a2.d == a2.n * a.d,
            b.n * b2.d == b2.n * b.d;
}

/// Order and zero-ness of well-formed fractions respect equivalence.
pub proof fn lemma_cmp_cong(a: Frac, a2: Frac, b: Frac, b2: Frac)
    requires
        frac_wf(a),
        frac_wf(a2),
        frac_wf(b),
        frac_wf(b2),
        frac_eqv(a, a2),
        frac_eqv(b, b2),
    ensures
        frac_le(a, b) == frac_le(a2, b2),
        frac_lt(a, b) == frac_lt(a2, b2),
        frac_is_zero(a) == frac_is_zero(a2),
{
    assert((frac_le(a, b) == frac_le(a2, b2)) && (frac_lt(a, b) == frac_lt(a2, b2)))
        by (nonlinear_arith)
        requires
            a.d > 0,
            a2.d > 0,
            b.d > 0,
            b2.d > 0,
            a.n * a2.d == a2.n * a.d,
            b.n * b2.d == b2.n * b.d;
    assert((a.n == 0) == (a2.n == 0)) by (nonlinear_arith)
        requires
            a.d > 0,
            a2.d > 0,
            a.n * a2.d == a2.n * a.d;
}

/// An exact rational number with 64-bit components; `den` is positive.
#[derive(Clone, Copy, PartialEq, Eq, Structural, Debug)]
pub struct Rat {
    pub num: i64,
    pub den: i64,
}

impl View for Rat {
    type V = Frac;

    open spec fn view(&self) -> Frac {
        Frac { n: self.num as int, d: self.den as int }
    }
}

/// Product of two 64-bit values, exact in 128 bits.
fn wide_mul(a: i64, b: i64) -> (r: i128)
    ensures
        r == a as int * b as int,
{
    proof {
        assert((a as int) * (b as int) <= 0x4000_0000_0000_0000_0000_0000_0000_0000
            && (a as int) * (b as int) >= -0x4000_0000_0000_0000_0000_0000_0000_0000)
            by (nonlinear_arith)
            requires
                -0x8000_0000_0000_0000 <= a as int <= 0x7fff_ffff_ffff_ffff,
                -0x8000_0000_0000_0000 <= b as int <= 0x7fff_ffff_ffff_ffff;
    }
    (a as i128) * (b as i128)
}

/// Euclid's algorithm.
fn gcd_u128(a: u128, b: u128) -> (g: u128)
    ensures
        g as nat == gcd_nat(a as nat, b as nat),
{
    let mut x: u128 = a;
    let mut y: u128 = b;
    while y != 0
        invariant
            gcd_nat(x as nat, y as nat) == gcd_nat(a as nat, b as nat),
        decreases y,
    {
        let t: u128 = x % y;
        x = y;
        y = t;
    }
    x
}

/// Reduce an exact 128-bit fraction and store it in 64 bits if it fits.
fn norm128(n: i128, d: i128) -> (r: Option<Rat>)
    requires
        d > 0,
        n > i128::MIN,
    ensures
        r matches Some(s) ==> s.wf() && s@ == frac_norm(Frac { n: n as int, d: d as int }),
        (r is Some) == frac_fits(Frac { n: n as int, d: d as int }),
{
    let ghost a = Frac { n: n as int, d: d as int };
    proof {
        lemma_norm_props(a);
    }
    let neg = n < 0;
    let m: u128 = if neg {
        (-n) as u128
    } else {
        n as u128
    };
    let dd: u128 = d as u128;
    let g: u128 = gcd_u128(m, dd);
    proof {
        assert(m as int == iabs(a.n));
        assert(g as int == fgcd(a.n, a.d));
    }
    let qm: u128 = m / g;
    let qd: u128 = dd / g;
    proof {
        lemma_gcd_divides(m as nat, dd as nat);
        lemma_exact_div(a.n, g as int);
        lemma_exact_div(a.d, g as int);
        if neg {
            let k = (m as int) / (g as int);
            lemma_fundamental_div_mod(m as int, g as int);
            lemma_div_multiples_vanish(-k, g as int);
            assert((g as int) * (-k) == -((g as int) * k)) by (nonlinear_arith);
            assert(a.n / (g as int) == -k);
        }
        assert(qd as int == frac_norm(a).d);
        assert(frac_norm(a).n == if neg { -(qm as int) } else { qm as int });
    }
    if qd <= 0x7fff_ffff_ffff_ffff && qm <= (if neg { 0x8000_0000_0000_0000 } else { 0x7fff_ffff_ffff_ffff }) {
        let num: i64 = if neg {
            (-(qm as i128)) as i64
        } else {
            qm as i64
        };
        Some(Rat { num, den: qd as i64 })
    } else {
        None
    }
}

impl Rat {
    /// The denominator is positive.
    pub open spec fn wf(self) -> bool {
        self.den > 0
    }

    /// The rational `i`.
    pub fn from_int(i: i64) -> (r: Rat)
        ensures
            r.wf(),
            r@ == frac_of_int(i as int),
    {
        Rat { num: i, den: 1 }
    }

    /// The rational `num / den`; fails exactly when `den` is zero or the
    /// reduced value leaves the 64-bit range.
    pub fn new(num: i64, den: i64) -> (r: Option<Rat>)
        ensures
            r matches Some(s) ==> s.wf() && frac_eqv(s@, Frac { n: num as int, d: den as int })
                && s@ == frac_norm(
                if den > 0 {
                    Frac { n: num as int, d: den as int }
                } else {
                    Frac { n: -(num as int), d: -(den as int) }
                },
            ),
            (r is Some) == (den != 0 && frac_fits(
                Frac {
                    n: if den > 0 { num as int } else { -(num as int) },
                    d: iabs(den as int),
                },
            )),
    {
        if den == 0 {
            None
        } else if den > 0 {
            let r = norm128(num as i128, den as i128);
            proof {
                if r is Some {
                    lemma_norm_props(Frac { n: num as int, d: den as int });
                }
            }
            r
        } else {
            let ghost a = Frac { n: -(num as int), d: iabs(den as int) };
            let r = norm128(-(num as i128), -(den as i128));
            proof {
                if r is Some {
                    lemma_norm_props(a);
                    let s = r.unwrap();
                    assert(s@.n * (den as int) == num as int * s@.d) by (nonlinear_arith)
                        requires
                            s@.n * a.d == a.n * s@.d,
                            a.n == -(num as int),
                            a.d == -(den as int);
                }
            }
            r
        }
    }

    /// Exact sum; `None` exactly when the reduced sum leaves the 64-bit range.
    pub fn add(self, rhs: Rat) -> (r: Option<Rat>)
        requires
            self.wf(),
            rhs.wf(),
        ensures
            r matches Some(s) ==> s.wf() && frac_eqv(s@, frac_add(self@, rhs@)) && s@
                == frac_norm(frac_add(self@, rhs@)),
            (r is Some) == frac_fits(frac_add(self@, rhs@)),
    {
        proof {
            lemma_wide_bounds(self@, rhs@);
        }
        let n: i128 = wide_mul(self.num, rhs.den) + wide_mul(rhs.num, self.den);
        let d: i128 = wide_mul(self.den, rhs.den);
        let r = norm128(n, d);
        proof {
            if r is Some {
                lemma_norm_props(frac_add(self@, rhs@));
            }
        }
        r
    }

    /// Exact difference; `None` exactly when the reduced difference leaves
    /// the 64-bit range.
    pub fn sub(self, rhs: Rat) -> (r: Option<Rat>)
        requires
            self.wf(),
            rhs.wf(),
        ensures
            r matches Some(s) ==> s.wf() && frac_eqv(s@, frac_sub(self@, rhs@)) && s@
                == frac_norm(frac_sub(self@, rhs@)),
            (r is Some) == frac_fits(frac_sub(self@, rhs@)),
    {
        proof {
            lemma_wide_bounds(self@, rhs@);
        }
        let n: i128 = wide_mul(self.num, rhs.den) - wide_mul(rhs.num, self.den);
        let d: i128 = wide_mul(self.den, rhs.den);
        let r = norm128(n, d);
        proof {
            if r is Some {
                lemma_norm_props(frac_sub(self@, rhs@));
            }
        }
        r
    }

    /// Exact product; `None` exactly when the reduced product leaves the
    /// 64-bit range.
    pub fn mul(self, rhs: Rat) -> (r: Option<Rat>)
        requires
            self.wf(),
            rhs.wf(),
        ensures
            r matches Some(s) ==> s.wf() && frac_eqv(s@, frac_mul(self@, rhs@)) && s@
                == frac_norm(frac_mul(self@, rhs@)),
            (r is Some) == frac_fits(frac_mul(self@, rhs@)),
    {
        let n: i128 = wide_mul(self.num, rhs.num);
        let d: i128 = wide_mul(self.den, rhs.den);
        proof {
            lemma_wide_bounds(self@, rhs@);
        }
        let r = norm128(n, d);
        proof {
            if r is Some {
                lemma_norm_props(frac_mul(self@, rhs@));
            }
        }
        r
    }

    /// Exact quotient; `None` exactly when `rhs` is zero or the reduced
    /// quotient leaves the 64-bit range.
    pub fn div(self, rhs: Rat) -> (r: Option<Rat>)
        requires
            self.wf(),
            rhs.wf(),
        ensures
            r matches Some(s) ==> s.wf() && frac_eqv(s@, frac_div(self@, rhs@)) && s@
                == frac_norm(frac_div(self@, rhs@)),
            (r is Some) == (!frac_is_zero(rhs@) && frac_fits(frac_div(self@, rhs@))),
    {
        if rhs.num == 0 {
            None
        } else {
            let n: i128 = wide_mul(self.num, rhs.den);
            let d: i128 = wide_mul(self.den, rhs.num);
            proof {
                lemma_wide_bounds(self@, rhs@);
                assert(d != 0) by (nonlinear_arith)
                    requires
                        d == (self.den as int) * (rhs.num as int),
                        (self.den as int) > 0,
                        (rhs.num as int) != 0;
            }
            let r = if rhs.num > 0 {
                proof {
                    assert(d > 0) by (nonlinear_arith)
                        requires
                            d == (self.den as int) * (rhs.num as int),
                            (self.den as int) > 0,
                            (rhs.num as int) > 0;
                }
                norm128(n, d)
            } else {
                proof {
                    assert(d < 0) by (nonlinear_arith)
                        requires
                            d == (self.den as int) * (rhs.num as int),
                            (self.den as int) > 0,
                            (rhs.num as int) < 0;
                }
                norm128(-n, -d)
            };
            proof {
                if r is Some {
                    lemma_norm_props(frac_div(self@, rhs@));
                }
            }
            r
        }
    }

    /// Exact negation; `None` exactly when the reduced negation leaves the
    /// 64-bit range.
    pub fn neg(self) -> (r: Option<Rat>)
        requires
            self.wf(),
        ensures
            r matches Some(s) ==> s.wf() && frac_eqv(s@, frac_neg(self@)) && s@ == frac_norm(
                frac_neg(self@),
            ),
            (r is Some) == frac_fits(frac_neg(self@)),
    {
        let r = norm128(-(self.num as i128), self.den as i128);
        proof {
            if r is Some {
                lemma_norm_props(frac_neg(self@));
            }
        }
        r
    }

    /// Exact value equality (not representation equality).
    pub fn eq_val(&self, rhs: &Rat) -> (r: bool)
        requires
            self.wf(),
            rhs.wf(),
        ensures
            r == frac_eqv(self@, rhs@),
    {
        wide_mul(self.num, rhs.den) == wide_mul(rhs.num, self.den)
    }

    /// Exact `<=`.
    pub fn le(&self, rhs: &Rat) -> (r: bool)
        requires
            self.wf(),
            rhs.wf(),
        ensures
            r == frac_le(self@, rhs@),
    {
        wide_mul(self.num, rhs.den) <= wide_mul(rhs.num, self.den)
    }

    /// Exact `<`.
    pub fn lt(&self, rhs: &Rat) -> (r: bool)
        requires
            self.wf(),
            rhs.wf(),
        ensures
            r == frac_lt(self@, rhs@),
    {
        wide_mul(self.num, rhs.den) < wide_mul(rhs.num, self.den)
    }

    /// Whether the value is exactly zero.
    pub fn is_zero(&self) -> (r: bool)
        requires
            self.wf(),
        ensures
            r == frac_is_zero(self@),
    {
        self.num == 0
    }

    /// The floor of the value, as an integer.
    pub fn floor(&self) -> (r: i64)
        requires
            self.wf(),
        ensures
            r as int == self@.n / self@.d,
    {
        if self.num >= 0 {
            let q: u64 = (self.num as u64) / (self.den as u64);
            proof {
                lemma_div_nonincreasing(self.num as int, self.den as int);
            }
            q as i64
        } else {
            let m: u128 = (-(self.num as i128)) as u128;
            let dd: u128 = self.den as u128;
            let q: u128 = (m + dd - 1) / dd;
            proof {
                let mi = m as int;
                let di = dd as int;
                let qi = (mi + di - 1) / di;
                lemma_fundamental_div_mod(mi + di - 1, di);
                let rr = (mi + di - 1) % di;
                assert(-mi == (-qi) * di + (di - 1 - rr)) by (nonlinear_arith)
                    requires
                        mi + di - 1 == di * qi + rr;
                lemma_fundamental_div_mod_converse_div(-mi, di, -qi, di - 1 - rr);
                assert(mi + di - 1 <= mi * di) by (nonlinear_arith)
                    requires
                        mi >= 1,
                        di >= 1;
                lemma_div_is_ordered(mi + di - 1, mi * di, di);
                lemma_div_by_multiple(mi, di);
                assert(qi <= mi);
            }
            (-(q as i128)) as i64
        }
    }
}

/// The raw components of sums, differences, products and quotients of 64-bit
/// fractions stay strictly inside the 128-bit range.
proof fn lemma_wide_bounds(a: Frac, b: Frac)
    requires
        frac_wf(a),
        frac_wf(b),
        fits_i64(a.n),
        fits_i64(a.d),
        fits_i64(b.n),
        fits_i64(b.d),
    ensures
        iabs(a.n * b.d + b.n * a.d) < i128::MAX,
        iabs(a.n * b.d - b.n * a.d) < i128::MAX,
        iabs(a.n * b.n) < i128::MAX,
        iabs(a.n * b.d) < i128::MAX,
        iabs(a.d * b.n) < i128::MAX,
        iabs(a.d * b.d) < i128::MAX,
        a.d * b.d > 0,
{
    assert(iabs(a.n * b.d + b.n * a.d) < i128::MAX && iabs(a.n * b.d - b.n * a.d) < i128::MAX
        && iabs(a.n * b.n) < i128::MAX && iabs(a.n * b.d) < i128::MAX
        && iabs(a.d * b.n) < i128::MAX && iabs(a.d * b.d) < i128::MAX && a.d * b.d > 0)
        by (nonlinear_arith)
        requires
            -0x8000_0000_0000_0000 <= a.n <= 0x7fff_ffff_ffff_ffff,
            -0x8000_0000_0000_0000 <= b.n <= 0x7fff_ffff_ffff_ffff,
            0 < a.d <= 0x7fff_ffff_ffff_ffff,
            0 < b.d <= 0x7fff_ffff_ffff_ffff;
}

/// Quotients of equivalent fractions by equivalent nonzero fractions are
/// equivalent and well-formed.
pub proof fn lemma_div_cong(a: Frac, a2: Frac, b: Frac, b2: Frac)
    requires
        frac_wf(a),
        frac_wf(a2),
        frac_wf(b),
        frac_wf(b2),
        frac_eqv(a, a2),
        frac_eqv(b, b2),
        !frac_is_zero(b),
    ensures
        !frac_is_zero(b2),
        frac_wf(frac_div(a, b)),
        frac_wf(frac_div(a2, b2)),
        frac_eqv(frac_div(a, b), frac_div(a2, b2)),
{
    assert(((b.n > 0) == (b2.n > 0)) && ((b.n < 0) == (b2.n < 0))) by (nonlinear_arith)
        requires
            b.n * b2.d == b2.n * b.d,
            b.d > 0,
            b2.d > 0;
    assert((a.n * a2.d) * (b2.n * b.d) == (a2.n * a.d) * (b.n * b2.d));
    assert((a.n * b.d) * (a2.d * b2.n) == (a.n * a2.d) * (b2.n * b.d)) by (nonlinear_arith);
    assert((a2.n * b2.d) * (a.d * b.n) == (a2.n * a.d) * (b.n * b2.d)) by (nonlinear_arith);
    assert((a.n * b.d) * (a2.d * b2.n) == (a2.n * b2.d) * (a.d * b.n));
    if b.n > 0 {
        assert(a.d * b.n > 0) by (nonlinear_arith)
            requires
                a.d > 0,
                b.n > 0;
        assert(a2.d * b2.n > 0) by (nonlinear_arith)
            requires
                a2.d > 0,
                b2.n > 0;
    } else {
        assert(-(a.d * b.n) > 0) by (nonlinear_arith)
            requires
                a.d > 0,
                b.n < 0;
        assert(-(a2.d * b2.n) > 0) by (nonlinear_arith)
            requires
                a2.d > 0,
                b2.n < 0;
        assert((-(a.n * b.d)) * (-(a2.d * b2.n)) == (a.n * b.d) * (a2.d * b2.n)) by (nonlinear_arith);
        assert((-(a2.n * b2.d)) * (-(a.d * b.n)) == (a2.n * b2.d) * (a.d * b.n)) by (nonlinear_arith);
    }
}



/// Well-formedness is closed under the fraction operations.
pub proof fn lemma_wf_ops(a: Frac, b: Frac)
    requires
        frac_wf(a),
        frac_wf(b),
    ensures
        frac_wf(frac_add(a, b)),
        frac_wf(frac_sub(a, b)),
        frac_wf(frac_mul(a, b)),
        frac_wf(frac_neg(a)),
{
    assert(a.d * b.d > 0) by (nonlinear_arith)
        requires
            a.d > 0,
            b.d > 0;
}

/// A value equal to a sum stays equal when both addends are replaced by
/// equivalent fractions.
pub proof fn lemma_add_cong_trans(r: Frac, x: Frac, y: Frac, x2: Frac, y2: Frac)
    requires
        frac_wf(r),
        frac_wf(x),
        frac_wf(y),
        frac_wf(x2),
        frac_wf(y2),
        frac_eqv(r, frac_add(x, y)),
        frac_eqv(x, x2),
        frac_eqv(y, y2),
    ensures
        frac_eqv(r, frac_add(x2, y2)),
        frac_wf(frac_add(x2, y2)),
{
    lemma_wf_ops(x, y);
    lemma_wf_ops(x2, y2);
    lemma_add_cong(x, x2, y, y2);
    lemma_eqv_trans(r, frac_add(x, y), frac_add(x2, y2));
}

/// The analogue for differences.
pub proof fn lemma_sub_cong_trans(r: Frac, x: Frac, y: Frac, x2: Frac, y2: Frac)
    requires
        frac_wf(r),
        frac_wf(x),
        frac_wf(y),
        frac_wf(x2),
        frac_wf(y2),
        frac_eqv(r, frac_sub(x, y)),
        frac_eqv(x, x2),
        frac_eqv(y, y2),
    ensures
        frac_eqv(r, frac_sub(x2, y2)),
        frac_wf(frac_sub(x2, y2)),
{
    lemma_wf_ops(x, y);
    lemma_wf_ops(x2, y2);
    lemma_add_cong(x, x2, y, y2);
    lemma_eqv_trans(r, frac_sub(x, y), frac_sub(x2, y2));
}

/// The analogue for products.
pub proof fn lemma_mul_cong_trans(r: Frac, x: Frac, y: Frac, x2: Frac, y2: Frac)
    requires
        frac_wf(r),
        frac_wf(x),
        frac_wf(y),
        frac_wf(x2),
        frac_wf(y2),
        frac_eqv(r, frac_mul(x, y)),
        frac_eqv(x, x2),
        frac_eqv(y, y2),
    ensures
        frac_eqv(r, frac_mul(x2, y2)),
        frac_wf(frac_mul(x2, y2)),
{
    lemma_wf_ops(x, y);
    lemma_wf_ops(x2, y2);
    lemma_mul_cong(x, x2, y, y2);
    lemma_eqv_trans(r, frac_mul(x, y), frac_mul(x2, y2));
}

/// The analogue for quotients.
pub proof fn lemma_div_cong_trans(r: Frac, x: Frac, y: Frac, x2: Frac, y2: Frac)
    requires
        frac_wf(r),
        frac_wf(x),
        frac_wf(y),
        frac_wf(x2),
        frac_wf(y2),
        frac_eqv(r, frac_div(x, y)),
        frac_eqv(x, x2),
        frac_eqv(y, y2),
        !frac_is_zero(y),
    ensures
        frac_eqv(r, frac_div(x2, y2)),
        !frac_is_zero(y2),
        frac_wf(frac_div(x2, y2)),
{
    lemma_div_cong(x, x2, y, y2);
    lemma_eqv_trans(r, frac_div(x, y), frac_div(x2, y2));
}


/// Strict-then-weak transitivity.
pub proof fn lemma_lt_le_trans(a: Frac, b: Frac, c: Frac)
    requires
        frac_wf(a),
        frac_wf(b),
        frac_wf(c),
        frac_lt(a, b),
        frac_le(b, c),
    ensures
        frac_lt(a, c),
{
    assert(a.n * c.d * b.d < c.n * a.d * b.d) by (nonlinear_arith)
        requires
            a.n * b.d < b.n * a.d,
            b.n * c.d <= c.n * b.d,
            a.d > 0,
            b.d > 0,
            c.d > 0;
    lemma_mul_strict_inequality_converse(a.n * c.d, c.n * a.d, b.d);
}

/// Weak-then-strict transitivity.
pub proof fn lemma_le_lt_trans(a: Frac, b: Frac, c: Frac)
    requires
        frac_wf(a),
        frac_wf(b),
        frac_wf(c),
        frac_le(a, b),
        frac_lt(b, c),
    ensures
        frac_lt(a, c),
{
    assert(a.n * c.d * b.d < c.n * a.d * b.d) by (nonlinear_arith)
        requires
            a.n * b.d <= b.n * a.d,
            b.n * c.d < c.n * b.d,
            a.d > 0,
            b.d > 0,
            c.d > 0;
    lemma_mul_strict_inequality_converse(a.n * c.d, c.n * a.d, b.d);
}

/// Adding a strictly positive fraction strictly increases the value.
pub proof fn lemma_lt_add_pos(a: Frac, l: Frac)
    requires
        frac_wf(a),
        frac_wf(l),
        frac_lt(frac_of_int(0), l),
    ensures
        frac_lt(a, frac_add(a, l)),
        frac_wf(frac_add(a, l)),
{
    lemma_wf_ops(a, l);
    assert(a.n * (a.d * l.d) < (a.n * l.d + l.n * a.d) * a.d) by (nonlinear_arith)
        requires
            l.n > 0,
            a.d > 0,
            l.d > 0;
}

/// A value in `[0, 1)` scaled by a positive value stays in `[0, value)`.
pub proof fn lemma_scale_unit(f: Frac, p: Frac)
    requires
        frac_wf(f),
        frac_wf(p),
        frac_le(frac_of_int(0), f),
        frac_lt(f, frac_of_int(1)),
        frac_lt(frac_of_int(0), p),
    ensures
        frac_le(frac_of_int(0), frac_mul(f, p)),
        frac_lt(frac_mul(f, p), p),
        frac_wf(frac_mul(f, p)),
{
    lemma_wf_ops(f, p);
    assert(0 * f.d == 0 && f.n * 1 == f.n && 0 * p.d == 0 && p.n * 1 == p.n && f.n * 1
        == f.n && 1 * f.d == f.d);
    assert(f.n >= 0);
    assert(f.n < f.d);
    assert(p.n > 0);
    assert(0 * (f.d * p.d) <= f.n * p.n * 1 && (f.n * p.n) * p.d < p.n * (f.d * p.d))
        by (nonlinear_arith)
        requires
            f.n >= 0,
            f.n < f.d,
            p.n > 0,
            f.d > 0,
            p.d > 0;
}

} // verus!
