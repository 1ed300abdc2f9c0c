//! Exact angular-momentum coupling coefficients.
//!
//! Every angular momentum `j` and projection `m` is passed doubled (`tj = 2 j`,
//! `tm = 2 m`), so that half-integers are plain integers.
use vstd::prelude::*;
use core::cmp::Ordering;
use rug::{Integer, Rational};
use crate::bignum::{
    int_cmp0, int_from, int_mul, integer_value, proper, qmul, rat_abs, rat_cmp0, rat_from, rat_mul,
    rational_value, same_ratio, sgn,
};

pub mod bignum;
pub mod internal;
pub mod regge;

verus! {

/// The fraction `sign(c) c^2 r`, which `c √r` is stored as.
pub open spec fn signed_sqrt_spec(c: int, r: (int, int)) -> (int, int) {
    (sgn(c) * (c * c) * r.0, r.1)
}

/// `c √r` does not depend on how the fraction `r` is written.
pub proof fn lemma_signed_sqrt_congr(x: (int, int), c: int, r: (int, int), r2: (int, int))
    requires
        proper(r),
        same_ratio(r, r2),
        same_ratio(x, signed_sqrt_spec(c, r)),
    ensures
        same_ratio(x, signed_sqrt_spec(c, r2)),
{
    bignum::lemma_qmul_congr((sgn(c) * (c * c), 1), r, (sgn(c) * (c * c), 1), r2);
    assert(signed_sqrt_spec(c, r) == qmul((sgn(c) * (c * c), 1), r));
    assert(signed_sqrt_spec(c, r2) == qmul((sgn(c) * (c * c), 1), r2));
    bignum::lemma_same_ratio_trans(x, signed_sqrt_spec(c, r), signed_sqrt_spec(c, r2));
}

/// Signed square root of a rational number: `s √(n / d)` with a sign `s`
/// (`-1`, `0` or `+1`), a nonnegative numerator `n` and a positive denominator
/// `d`, stored as the rational number `s n / d`. Defaults to zero.
#[derive(Clone, Debug, PartialEq, Eq, Hash, PartialOrd, Ord)]
pub struct SignedSqrt(pub Rational);

impl View for SignedSqrt {
    type V = (int, int);

    /// The stored rational `s n / d`, as a fraction with a positive denominator.
    open spec fn view(&self) -> (int, int) {
        rational_value(self.0)
    }
}

impl Default for SignedSqrt {
    /// Zero.
    fn default() -> (r: Self)
        ensures
            proper(r@),
            r@.0 == 0,
    {
        SignedSqrt::zero()
    }
}

impl SignedSqrt {
    /// Zero.
    pub fn zero() -> (r: Self)
        ensures
            proper(r@),
            r@.0 == 0,
    {
        let r = rat_from(int_from(0), int_from(1));
        assert(rational_value(r).0 * 1 == 0 * rational_value(r).1);
        SignedSqrt(r)
    }

    /// Constructs the `SignedSqrt` equal to `c √r`; `r` must not be negative.
    pub fn new(c: Integer, r: Rational) -> (res: Self)
        requires
            proper(rational_value(r)),
            rational_value(r).0 >= 0,
        ensures
            proper(res@),
            same_ratio(res@, signed_sqrt_spec(integer_value(c), rational_value(r))),
    {
        let sign = rat_from(int_from(internal::ordering_to_i32(int_cmp0(&c)) as i64), int_from(1));
        let square = rat_from(int_mul(&c, &c), int_from(1));
        let radical = rat_mul(&square, &r);
        let res = rat_mul(&sign, &radical);
        proof {
            let cv = integer_value(c);
            let rv = rational_value(r);
            let sq = rational_value(square);
            let rad = rational_value(radical);
            let sg = rational_value(sign);
            bignum::lemma_qmul_congr(sq, rv, (cv * cv, 1), rv);
            assert(qmul(sq, rv).1 != 0) by (nonlinear_arith)
                requires
                    sq.1 > 0,
                    rv.1 > 0,
            ;
            bignum::lemma_same_ratio_trans(rad, qmul(sq, rv), qmul((cv * cv, 1), rv));
            bignum::lemma_qmul_congr(sg, rad, (sgn(cv), 1), qmul((cv * cv, 1), rv));
            assert(qmul(sg, rad).1 != 0) by (nonlinear_arith)
                requires
                    sg.1 > 0,
                    rad.1 > 0,
            ;
            bignum::lemma_same_ratio_trans(
                rational_value(res),
                qmul(sg, rad),
                qmul((sgn(cv), 1), qmul((cv * cv, 1), rv)),
            );
            assert(qmul((sgn(cv), 1), qmul((cv * cv, 1), rv)) == signed_sqrt_spec(cv, rv))
                by (nonlinear_arith);
        }
        SignedSqrt(res)
    }

    /// The integer `s` as a `SignedSqrt` (`s √1`).
    pub fn from_i32(s: i32) -> (r: Self)
        ensures
            proper(r@),
            same_ratio(r@, signed_sqrt_spec(s as int, (1, 1))),
    {
        SignedSqrt::from_i64(s as i64)
    }

    /// The integer `s` as a `SignedSqrt` (`s √1`).
    pub fn from_i64(s: i64) -> (r: Self)
        ensures
            proper(r@),
            same_ratio(r@, signed_sqrt_spec(s as int, (1, 1))),
    {
        let one = rat_from(int_from(1), int_from(1));
        let r = SignedSqrt::new(int_from(s), one);
        proof {
            let c = s as int;
            let o = rational_value(one);
            assert(o.0 == o.1);
            assert(same_ratio(signed_sqrt_spec(c, o), signed_sqrt_spec(c, (1, 1))))
                by (nonlinear_arith)
                requires
                    o.0 == o.1,
            ;
            bignum::lemma_same_ratio_trans(
                r@,
                signed_sqrt_spec(c, o),
                signed_sqrt_spec(c, (1, 1)),
            );
        }
        r
    }

    /// How the value compares with zero.
    pub fn sign(&self) -> (r: Ordering)
        ensures
            internal::ordering_sign(r) == sgn(self@.0) * sgn(self@.1),
    {
        rat_cmp0(&self.0)
    }

    /// The square of the expression, `n / d`.
    pub fn sq(self) -> (r: Rational)
        ensures
            proper(rational_value(r)),
            same_ratio(rational_value(r), (bignum::abs_of(self@.0), bignum::abs_of(self@.1))),
    {
        rat_abs(self.signed_sq())
    }

    /// The square of the expression with the sign of the expression, `s n / d`.
    pub fn signed_sq(self) -> (r: Rational)
        ensures
            rational_value(r) == self@,
    {
        self.0
    }

    /// The product of two expressions: the stored rationals multiply.
    pub fn times(self, other: SignedSqrt) -> (r: SignedSqrt)
        ensures
            proper(r@),
            same_ratio(r@, qmul(self@, other@)),
    {
        SignedSqrt(rat_mul(&self.0, &other.0))
    }
}

impl From<i32> for SignedSqrt {
    /// The integer `s` as `s √1`.
    fn from(s: i32) -> (r: Self)
        ensures
            proper(r@),
            same_ratio(r@, signed_sqrt_spec(s as int, (1, 1))),
    {
        SignedSqrt::from_i64(s as i64)
    }
}

/// `from` is not promised to meet `from_spec` (`obeys_from_spec` is false): rug picks
/// the fraction, so only its value is known. The `ensures` of `from` states that value.
impl vstd::std_specs::convert::FromSpecImpl<i32> for SignedSqrt {
    open spec fn obeys_from_spec() -> bool {
        false
    }

    open spec fn from_spec(s: i32) -> SignedSqrt {
        SignedSqrt(
            choose|q: Rational|
                proper(rational_value(q)) && same_ratio(
                    rational_value(q),
                    signed_sqrt_spec(s as int, (1, 1)),
                ),
        )
    }
}

impl From<i64> for SignedSqrt {
    /// The integer `s` as `s √1`.
    fn from(s: i64) -> (r: Self)
        ensures
            proper(r@),
            same_ratio(r@, signed_sqrt_spec(s as int, (1, 1))),
    {
        SignedSqrt::from_i64(s)
    }
}

/// `from` is not promised to meet `from_spec` (`obeys_from_spec` is false): rug picks
/// the fraction, so only its value is known. The `ensures` of `from` states that value.
impl vstd::std_specs::convert::FromSpecImpl<i64> for SignedSqrt {
    open spec fn obeys_from_spec() -> bool {
        false
    }

    open spec fn from_spec(s: i64) -> SignedSqrt {
        SignedSqrt(
            choose|q: Rational|
                proper(rational_value(q)) && same_ratio(
                    rational_value(q),
                    signed_sqrt_spec(s as int, (1, 1)),
                ),
        )
    }
}

impl core::ops::Mul<SignedSqrt> for SignedSqrt {
    type Output = SignedSqrt;

    /// The product of two expressions: the stored rationals multiply.
    fn mul(self, other: SignedSqrt) -> (r: SignedSqrt)
        ensures
            proper(r@),
            same_ratio(r@, qmul(self@, other@)),
    {
        self.times(other)
    }
}

/// `*` is not promised to meet `mul_spec` (`obeys_mul_spec` is false): rug picks the
/// fraction, so only its value is known. The `ensures` of `mul` states that value.
impl vstd::std_specs::ops::MulSpecImpl<SignedSqrt> for SignedSqrt {
    open spec fn obeys_mul_spec() -> bool {
        false
    }

    open spec fn mul_req(self, other: SignedSqrt) -> bool {
        true
    }

    open spec fn mul_spec(self, other: SignedSqrt) -> SignedSqrt {
        SignedSqrt(
            choose|q: Rational|
                proper(rational_value(q)) && same_ratio(rational_value(q), qmul(self@, other@)),
        )
    }
}

impl core::ops::Mul<i32> for SignedSqrt {
    type Output = SignedSqrt;

    /// The product of the expression with the integer `other`: the stored rational
    /// is multiplied by what `other` stores, `sign(other) other^2`.
    fn mul(self, other: i32) -> (r: SignedSqrt)
        ensures
            proper(r@),
            proper(self@) ==> same_ratio(r@, qmul(self@, signed_sqrt_spec(other as int, (1, 1)))),
    {
        let f = SignedSqrt::from_i32(other);
        let r = self.times(f);
        proof {
            if proper(self@) {
                lemma_scaled_by(r@, self@, f@, signed_sqrt_spec(other as int, (1, 1)));
            }
        }
        r
    }
}

/// `*` is not promised to meet `mul_spec` (`obeys_mul_spec` is false): rug picks the
/// fraction, so only its value is known. The `ensures` of `mul` states that value.
impl vstd::std_specs::ops::MulSpecImpl<i32> for SignedSqrt {
    open spec fn obeys_mul_spec() -> bool {
        false
    }

    open spec fn mul_req(self, other: i32) -> bool {
        true
    }

    open spec fn mul_spec(self, other: i32) -> SignedSqrt {
        SignedSqrt(
            choose|q: Rational|
                proper(rational_value(q)) && same_ratio(rational_value(q), qmul(self@, signed_sqrt_spec(other as int, (1, 1)))),
        )
    }
}

impl core::ops::Mul<SignedSqrt> for i32 {
    type Output = SignedSqrt;

    /// The product of the integer `self` with the expression: the stored rational is
    /// multiplied by what `self` stores, `sign(self) self^2`.
    fn mul(self, other: SignedSqrt) -> (r: SignedSqrt)
        ensures
            proper(r@),
            proper(other@) ==> same_ratio(r@, qmul(signed_sqrt_spec(self as int, (1, 1)), other@)),
    {
        let f = SignedSqrt::from_i32(self);
        let r = f.times(other);
        proof {
            if proper(other@) {
                lemma_scaled_by_left(r@, f@, other@, signed_sqrt_spec(self as int, (1, 1)));
            }
        }
        r
    }
}

/// `*` is not promised to meet `mul_spec` (`obeys_mul_spec` is false): rug picks the
/// fraction, so only its value is known. The `ensures` of `mul` states that value.
impl vstd::std_specs::ops::MulSpecImpl<SignedSqrt> for i32 {
    open spec fn obeys_mul_spec() -> bool {
        false
    }

    open spec fn mul_req(self, other: SignedSqrt) -> bool {
        true
    }

    open spec fn mul_spec(self, other: SignedSqrt) -> SignedSqrt {
        SignedSqrt(
            choose|q: Rational|
                proper(rational_value(q)) && same_ratio(rational_value(q), qmul(signed_sqrt_spec(self as int, (1, 1)), other@)),
        )
    }
}

/// A product with a factor equal to `f2` equals the product with `f2`.
proof fn lemma_scaled_by(r: (int, int), x: (int, int), f: (int, int), f2: (int, int))
    requires
        proper(x),
        proper(f),
        same_ratio(f, f2),
        same_ratio(r, qmul(x, f)),
    ensures
        same_ratio(r, qmul(x, f2)),
{
    bignum::lemma_qmul_congr(x, f, x, f2);
    assert(qmul(x, f).1 != 0) by (nonlinear_arith)
        requires
            x.1 > 0,
            f.1 > 0,
    ;
    bignum::lemma_same_ratio_trans(r, qmul(x, f), qmul(x, f2));
}

/// A product with a left factor equal to `f2` equals the product with `f2`.
proof fn lemma_scaled_by_left(r: (int, int), f: (int, int), x: (int, int), f2: (int, int))
    requires
        proper(x),
        proper(f),
        same_ratio(f, f2),
        same_ratio(r, qmul(f, x)),
    ensures
        same_ratio(r, qmul(f2, x)),
{
    bignum::lemma_qmul_congr(f, x, f2, x);
    assert(qmul(f, x).1 != 0) by (nonlinear_arith)
        requires
            x.1 > 0,
            f.1 > 0,
    ;
    bignum::lemma_same_ratio_trans(r, qmul(f, x), qmul(f2, x));
}

/// Clebsch-Gordan coefficient `<j1 j2 m1 m2|j1 j2 j12 m12>`.
#[derive(Clone, Copy, Debug, PartialEq, Eq, Structural, Hash, PartialOrd, Ord)]
pub struct ClebschGordan {
    pub tj1: i32,
    pub tm1: i32,
    pub tj2: i32,
    pub tm2: i32,
    pub tj12: i32,
    pub tm12: i32,
}

/// Wigner 3-jm symbol `(j1 j2 j3; m1 m2 m3)`.
#[derive(Clone, Copy, Debug, PartialEq, Eq, Structural, Hash, PartialOrd, Ord)]
pub struct Wigner3jm {
    pub tj1: i32,
    pub tm1: i32,
    pub tj2: i32,
    pub tm2: i32,
    pub tj3: i32,
    pub tm3: i32,
}

/// Wigner 6-j symbol `{j1 j2 j3; j4 j5 j6}`.
#[derive(Clone, Copy, Debug, PartialEq, Eq, Structural, Hash, PartialOrd, Ord)]
pub struct Wigner6j {
    pub tj1: i32,
    pub tj2: i32,
    pub tj3: i32,
    pub tj4: i32,
    pub tj5: i32,
    pub tj6: i32,
}

/// Wigner 9-j symbol `{j1 j2 j3; j4 j5 j6; j7 j8 j9}`.
#[derive(Clone, Copy, Debug, PartialEq, Eq, Structural, Hash, PartialOrd, Ord)]
pub struct Wigner9j {
    pub tj1: i32,
    pub tj2: i32,
    pub tj3: i32,
    pub tj4: i32,
    pub tj5: i32,
    pub tj6: i32,
    pub tj7: i32,
    pub tj8: i32,
    pub tj9: i32,
}

/// Symmetrized Wigner 12-j symbol of the second kind
/// `{j1 j2 j3 j4; j5 j6 j7 j8; j9 j10 j11 j12}`
/// (Yutsis et al. 1962, page 62, equation 19.3).
///
/// Only the arguments are held: this library provides no value for the symbol, as
/// its closed-form sum is not derived here.
#[derive(Clone, Copy, Debug, PartialEq, Eq, Structural, Hash, PartialOrd, Ord)]
pub struct Wigner12jSecond {
    pub tj1: i32,
    pub tj2: i32,
    pub tj3: i32,
    pub tj4: i32,
    pub tj5: i32,
    pub tj6: i32,
    pub tj7: i32,
    pub tj8: i32,
    pub tj9: i32,
    pub tj10: i32,
    pub tj11: i32,
    pub tj12: i32,
}

/// The value of a 6-j symbol: Racah's formula where the selection rules hold, zero elsewhere.
pub open spec fn w6j_spec(w: Wigner6j) -> (int, int) {
    if internal::w6j_admissible(w) {
        internal::w6j_raw_spec(w)
    } else {
        (0, 1)
    }
}

impl Wigner6j {
    /// The exact value of the symbol; zero where the triangle conditions fail.
    pub fn value(self) -> (r: SignedSqrt)
        requires
            internal::w6j_in_range(self),
        ensures
            proper(r@),
            same_ratio(r@, w6j_spec(self)),
    {
        if internal::triangle_condition(self.tj1, self.tj2, self.tj3) && internal::triangle_condition(
            self.tj1,
            self.tj5,
            self.tj6,
        ) && internal::triangle_condition(self.tj4, self.tj2, self.tj6)
            && internal::triangle_condition(self.tj4, self.tj5, self.tj3) {
            internal::wigner_6j_raw(self)
        } else {
            SignedSqrt::zero()
        }
    }
}

/// The Clebsch-Gordan coefficient that a 3-jm symbol corresponds to: `j12 = j3`, `m12 = -m3`.
pub open spec fn cg_of(w: Wigner3jm) -> ClebschGordan {
    ClebschGordan {
        tj1: w.tj1,
        tm1: w.tm1,
        tj2: w.tj2,
        tm2: w.tm2,
        tj12: w.tj3,
        tm12: (-(w.tm3 as int)) as i32,
    }
}

/// The 3-jm symbol that a Clebsch-Gordan coefficient corresponds to: `j3 = j12`, `m3 = -m12`.
pub open spec fn w3jm_of(c: ClebschGordan) -> Wigner3jm {
    Wigner3jm {
        tj1: c.tj1,
        tm1: c.tm1,
        tj2: c.tj2,
        tm2: c.tm2,
        tj3: c.tj12,
        tm3: (-(c.tm12 as int)) as i32,
    }
}

impl From<Wigner3jm> for ClebschGordan {
    fn from(w: Wigner3jm) -> (r: Self)
        ensures
            r == cg_of(w),
    {
        ClebschGordan {
            tj1: w.tj1,
            tm1: w.tm1,
            tj2: w.tj2,
            tm2: w.tm2,
            tj12: w.tj3,
            tm12: (-(w.tm3 as i64)) as i32,
        }
    }
}

impl vstd::std_specs::convert::FromSpecImpl<Wigner3jm> for ClebschGordan {
    open spec fn obeys_from_spec() -> bool {
        true
    }

    open spec fn from_spec(w: Wigner3jm) -> ClebschGordan {
        cg_of(w)
    }
}

impl From<ClebschGordan> for Wigner3jm {
    fn from(c: ClebschGordan) -> (r: Self)
        ensures
            r == w3jm_of(c),
    {
        Wigner3jm {
            tj1: c.tj1,
            tm1: c.tm1,
            tj2: c.tj2,
            tm2: c.tm2,
            tj3: c.tj12,
            tm3: (-(c.tm12 as i64)) as i32,
        }
    }
}

impl vstd::std_specs::convert::FromSpecImpl<ClebschGordan> for Wigner3jm {
    open spec fn obeys_from_spec() -> bool {
        true
    }

    open spec fn from_spec(c: ClebschGordan) -> Wigner3jm {
        w3jm_of(c)
    }
}

/// The phase `(-1)^((j1 - j2 - m3))` that relates a 3-jm symbol to its raw value.
pub open spec fn w3jm_phase(w: Wigner3jm) -> int {
    internal::phase_spec(regge::half_trunc(w.tj1 - w.tj2 - w.tm3))
}

/// The value of a 3-jm symbol: zero where the selection rules fail.
pub open spec fn w3jm_spec(w: Wigner3jm) -> (int, int) {
    let v = internal::w3jm_raw_c_spec(w);
    (w3jm_phase(w) * v.0, v.1)
}

/// The value of a Clebsch-Gordan coefficient: `√(2 j12 + 1)` times the raw 3-jm value.
pub open spec fn cg_spec(c: ClebschGordan) -> (int, int) {
    let v = internal::w3jm_raw_c_spec(w3jm_of(c));
    ((c.tj12 + 1) * v.0, v.1)
}

/// Every argument of the Clebsch-Gordan coefficient is within range.
pub open spec fn cg_in_range(c: ClebschGordan) -> bool {
    internal::w3jm_in_range(w3jm_of(c))
}

/// `x (s √1)` stores `s` times what `x` stores, for `s = ±1`.
proof fn lemma_scaled(r: (int, int), f: (int, int), x: (int, int), xs: (int, int), s: int)
    requires
        proper(f),
        proper(x),
        same_ratio(f, (s, 1)),
        same_ratio(x, xs),
        same_ratio(r, qmul(f, x)),
    ensures
        same_ratio(r, (s * xs.0, xs.1)),
{
    bignum::lemma_qmul_congr(f, x, (s, 1), xs);
    assert(qmul(f, x).1 != 0) by (nonlinear_arith)
        requires
            f.1 > 0,
            x.1 > 0,
    ;
    bignum::lemma_same_ratio_trans(r, qmul(f, x), qmul((s, 1), xs));
    assert(qmul((s, 1), xs) == (s * xs.0, 1 * xs.1));
}

impl Wigner3jm {
    /// The exact value of the symbol; zero where the selection rules fail.
    pub fn value(self) -> (r: SignedSqrt)
        requires
            internal::w3jm_in_range(self),
        ensures
            proper(r@),
            same_ratio(r@, w3jm_spec(self)),
    {
        let p = internal::phase(regge::half(self.tj1 as i64 - self.tj2 as i64 - self.tm3 as i64));
        let f = SignedSqrt::from_i32(p);
        let x = internal::wigner_3jm_raw_c(self);
        let r = f.times(x);
        proof {
            assert(same_ratio(f@, (p as int, 1))) by (nonlinear_arith)
                requires
                    same_ratio(f@, signed_sqrt_spec(p as int, (1, 1))),
                    p == 1 || p == -1,
            ;
            lemma_scaled(r@, f@, x@, internal::w3jm_raw_c_spec(self), p as int);
        }
        r
    }
}

impl ClebschGordan {
    /// The exact value of the coefficient; zero where the selection rules fail.
    pub fn value(self) -> (r: SignedSqrt)
        requires
            cg_in_range(self),
        ensures
            proper(r@),
            same_ratio(r@, cg_spec(self)),
    {
        let f = SignedSqrt(rat_from(int_from(self.tj12 as i64 + 1), int_from(1)));
        let w = Wigner3jm::from(self);
        let x = internal::wigner_3jm_raw_c(w);
        let r = f.times(x);
        proof {
            assert(same_ratio(f@, (self.tj12 + 1, 1)));
            lemma_scaled(r@, f@, x@, internal::w3jm_raw_c_spec(w3jm_of(self)), self.tj12 + 1);
        }
        r
    }
}

/// A Clebsch-Gordan coefficient is its 3-jm symbol, with `m3 = -m12`, rescaled:
/// what `CG` stores is `(2 j12 + 1) (-1)^(j1 - j2 - m3)` times what the 3-jm
/// symbol stores, exactly; so `CG^2 = (2 j12 + 1) (3-jm)^2` on magnitudes.
pub proof fn lemma_clebsch_gordan_from_3jm(w: Wigner3jm)
    requires
        internal::w3jm_in_range(w),
    ensures
        cg_in_range(cg_of(w)),
        cg_spec(cg_of(w)) == ((w.tj3 + 1) * w3jm_phase(w) * w3jm_spec(w).0, w3jm_spec(w).1),
        bignum::abs_of(cg_spec(cg_of(w)).0) == bignum::abs_of(w.tj3 + 1) * bignum::abs_of(
            w3jm_spec(w).0,
        ),
        cg_spec(cg_of(w)).1 == w3jm_spec(w).1,
{
    assert(w3jm_of(cg_of(w)) == w);
    let p = w3jm_phase(w);
    let v = internal::w3jm_raw_c_spec(w);
    assert(p * p == 1);
    assert((w.tj3 + 1) * v.0 == (w.tj3 + 1) * p * (p * v.0)) by (nonlinear_arith)
        requires
            p * p == 1,
    ;
    let t = w.tj3 + 1;
    assert(bignum::abs_of(t * v.0) == bignum::abs_of(t) * bignum::abs_of(p * v.0))
        by (nonlinear_arith)
        requires
            p == 1 || p == -1,
    ;
}

/// The value of a 9-j symbol: the single-sum formula where the selection rules hold, zero elsewhere.
pub open spec fn w9j_spec(w: Wigner9j) -> (int, int) {
    if internal::w9j_admissible(w) {
        internal::w9j_raw_spec(w)
    } else {
        (0, 1)
    }
}

impl Wigner9j {
    /// The exact value of the symbol; zero where the triangle conditions fail.
    pub fn value(self) -> (r: SignedSqrt)
        requires
            internal::w9j_in_range(self),
        ensures
            proper(r@),
            same_ratio(r@, w9j_spec(self)),
    {
        if internal::triangle_condition(self.tj1, self.tj2, self.tj3)
            && internal::triangle_condition(self.tj4, self.tj5, self.tj6)
            && internal::triangle_condition(self.tj7, self.tj8, self.tj9)
            && internal::triangle_condition(self.tj1, self.tj4, self.tj7)
            && internal::triangle_condition(self.tj2, self.tj5, self.tj8)
            && internal::triangle_condition(self.tj3, self.tj6, self.tj9) {
            internal::wigner_9j_raw(self)
        } else {
            let r = SignedSqrt::zero();
            assert(same_ratio(r@, (0, 1))) by (nonlinear_arith)
                requires
                    r@.0 == 0,
            ;
            r
        }
    }
}

} // verus!
