//! Exact integers and rationals, held in rug's GMP-backed types.
//!
//! A `rug::Integer` is known to Verus only through `integer_value`, the integer it
//! holds; a `rug::Rational` only through `rational_value`, a numerator and a
//! positive denominator whose quotient it holds. Every operation below is one call
//! into rug.
use vstd::prelude::*;
use core::cmp::Ordering;
use rug::{Integer, Rational};
use crate::internal::ordering_sign;

verus! {

#[verifier::external_type_specification]
#[verifier::external_body]
pub struct ExInteger(rug::Integer);

#[verifier::external_type_specification]
#[verifier::external_body]
pub struct ExRational(rug::Rational);

/// The integer that a `rug::Integer` holds.
pub uninterp spec fn integer_value(x: rug::Integer) -> int;

/// A fraction `(numerator, denominator)` equal to what a `rug::Rational` holds.
pub uninterp spec fn rational_value(x: rug::Rational) -> (int, int);

/// The sign of an integer: `-1`, `0` or `+1`.
pub open spec fn sgn(x: int) -> int {
    if x < 0 {
        -1
    } else if x == 0 {
        0
    } else {
        1
    }
}

/// The absolute value of an integer.
pub open spec fn abs_of(x: int) -> int {
    if x < 0 {
        -x
    } else {
        x
    }
}

/// Two fractions with nonzero denominators stand for the same rational number.
pub open spec fn same_ratio(a: (int, int), b: (int, int)) -> bool {
    a.0 * b.1 == b.0 * a.1
}

/// The product of two fractions, term by term.
pub open spec fn qmul(a: (int, int), b: (int, int)) -> (int, int) {
    (a.0 * b.0, a.1 * b.1)
}

/// The quotient of two fractions, cross-multiplied.
pub open spec fn qdiv(a: (int, int), b: (int, int)) -> (int, int) {
    (a.0 * b.1, a.1 * b.0)
}

/// A fraction with a positive denominator.
pub open spec fn proper(a: (int, int)) -> bool {
    a.1 > 0
}

/// Integer quotient rounded toward zero.
pub open spec fn quot_trunc(a: int, b: int) -> int {
    if a >= 0 {
        a / b
    } else {
        -((-a) / b)
    }
}

/// The integer `v` as a `rug::Integer`.
pub fn integer(v: i64) -> (r: Integer)
    ensures
        integer_value(r) == v,
{
    int_from(v)
}

/// The fraction `n / d` as a `rug::Rational`, for a nonzero `d`.
pub fn rational(n: i64, d: i64) -> (r: Rational)
    requires
        d != 0,
    ensures
        proper(rational_value(r)),
        same_ratio(rational_value(r), (n as int, d as int)),
{
    rat_from(int_from(n), int_from(d))
}

/// Relies on `From<i64> for rug::Integer`: the same integer.
#[verifier::external_body]
pub(crate) fn int_from(v: i64) -> (r: Integer)
    ensures
        integer_value(r) == v,
{
    Integer::from(v)
}

/// Relies on rug's `&Integer * &Integer`: the exact product.
#[verifier::external_body]
pub(crate) fn int_mul(a: &Integer, b: &Integer) -> (r: Integer)
    ensures
        integer_value(r) == integer_value(*a) * integer_value(*b),
{
    Integer::from(a * b)
}

/// Relies on rug's `&Integer + &Integer`: the exact sum.
#[verifier::external_body]
pub(crate) fn int_add(a: &Integer, b: &Integer) -> (r: Integer)
    ensures
        integer_value(r) == integer_value(*a) + integer_value(*b),
{
    Integer::from(a + b)
}

/// Relies on rug's `-&Integer`: the negation.
#[verifier::external_body]
pub(crate) fn int_neg(a: &Integer) -> (r: Integer)
    ensures
        integer_value(r) == -integer_value(*a),
{
    Integer::from(-a)
}

/// Relies on rug's `&Integer / &Integer`, which rounds the quotient toward zero.
#[verifier::external_body]
pub(crate) fn int_div(a: &Integer, b: &Integer) -> (r: Integer)
    requires
        integer_value(*b) > 0,
    ensures
        integer_value(r) == quot_trunc(integer_value(*a), integer_value(*b)),
{
    Integer::from(a / b)
}

/// Relies on `rug::Integer::binomial_ref`: the binomial coefficient `C(n, k)`.
#[verifier::external_body]
pub(crate) fn int_binomial(n: &Integer, k: u32) -> (r: Integer)
    requires
        integer_value(*n) >= 0,
    ensures
        integer_value(r) == crate::internal::binom(integer_value(*n), k as int),
{
    Integer::from(n.binomial_ref(k))
}

/// Relies on `rug::Integer::factorial`: `n!`.
#[verifier::external_body]
pub(crate) fn int_factorial(n: u32) -> (r: Integer)
    ensures
        integer_value(r) == crate::internal::fact(n as int),
{
    Integer::from(Integer::factorial(n))
}

/// Relies on `rug::Integer::cmp0`: how the integer compares with zero.
#[verifier::external_body]
pub(crate) fn int_cmp0(a: &Integer) -> (r: Ordering)
    ensures
        ordering_sign(r) == sgn(integer_value(*a)),
{
    a.cmp0()
}

/// Relies on `Clone for rug::Integer`: the same integer.
pub assume_specification[ <rug::Integer as core::clone::Clone>::clone ](a: &rug::Integer) -> (r:
    rug::Integer)
    ensures
        integer_value(r) == integer_value(*a),
;

/// Relies on `From<(Integer, Integer)> for rug::Rational`: the fraction `n / d`.
#[verifier::external_body]
pub(crate) fn rat_from(n: Integer, d: Integer) -> (r: Rational)
    requires
        integer_value(d) != 0,
    ensures
        proper(rational_value(r)),
        same_ratio(rational_value(r), (integer_value(n), integer_value(d))),
{
    Rational::from((n, d))
}

/// Relies on rug's `&Rational * &Rational`: the exact product.
#[verifier::external_body]
pub(crate) fn rat_mul(a: &Rational, b: &Rational) -> (r: Rational)
    ensures
        proper(rational_value(r)),
        same_ratio(rational_value(r), qmul(rational_value(*a), rational_value(*b))),
{
    Rational::from(a * b)
}

/// Relies on rug's `&Rational / &Rational`: the exact quotient.
#[verifier::external_body]
pub(crate) fn rat_div(a: &Rational, b: &Rational) -> (r: Rational)
    requires
        proper(rational_value(*b)),
        rational_value(*b).0 != 0,
    ensures
        proper(rational_value(r)),
        same_ratio(rational_value(r), qdiv(rational_value(*a), rational_value(*b))),
{
    Rational::from(a / b)
}

/// Relies on `rug::Rational::cmp0`: how the rational compares with zero.
#[verifier::external_body]
pub(crate) fn rat_cmp0(a: &Rational) -> (r: Ordering)
    ensures
        ordering_sign(r) == sgn(rational_value(*a).0) * sgn(rational_value(*a).1),
{
    a.cmp0()
}

/// Relies on `rug::Rational::abs`: the absolute value.
#[verifier::external_body]
pub(crate) fn rat_abs(a: Rational) -> (r: Rational)
    ensures
        proper(rational_value(r)),
        same_ratio(rational_value(r), (abs_of(rational_value(a).0), abs_of(rational_value(a).1))),
{
    a.abs()
}

/// Relies on `Clone for rug::Rational`: the same rational.
pub assume_specification[ <rug::Rational as core::clone::Clone>::clone ](a: &rug::Rational) -> (r:
    rug::Rational)
    ensures
        rational_value(r) == rational_value(*a),
;

/// `same_ratio` is transitive through a fraction with a nonzero denominator.
pub proof fn lemma_same_ratio_trans(a: (int, int), b: (int, int), c: (int, int))
    requires
        b.1 != 0,
        same_ratio(a, b),
        same_ratio(b, c),
    ensures
        same_ratio(a, c),
{
    assert(a.0 * c.1 * b.1 == c.0 * a.1 * b.1) by (nonlinear_arith)
        requires
            a.0 * b.1 == b.0 * a.1,
            b.0 * c.1 == c.0 * b.1,
    ;
    assert(a.0 * c.1 == c.0 * a.1) by (nonlinear_arith)
        requires
            a.0 * c.1 * b.1 == c.0 * a.1 * b.1,
            b.1 != 0,
    ;
}

/// Multiplying equal ratios gives equal ratios.
pub proof fn lemma_qmul_congr(a: (int, int), b: (int, int), a2: (int, int), b2: (int, int))
    requires
        same_ratio(a, a2),
        same_ratio(b, b2),
    ensures
        same_ratio(qmul(a, b), qmul(a2, b2)),
{
    assert((a.0 * b.0) * (a2.1 * b2.1) == (a2.0 * b2.0) * (a.1 * b.1)) by (nonlinear_arith)
        requires
            a.0 * a2.1 == a2.0 * a.1,
            b.0 * b2.1 == b2.0 * b.1,
    ;
}

/// Dividing equal ratios gives equal ratios.
pub proof fn lemma_qdiv_congr(a: (int, int), b: (int, int), a2: (int, int), b2: (int, int))
    requires
        same_ratio(a, a2),
        same_ratio(b, b2),
    ensures
        same_ratio(qdiv(a, b), qdiv(a2, b2)),
{
    assert((a.0 * b.1) * (a2.1 * b2.0) == (a2.0 * b2.1) * (a.1 * b.0)) by (nonlinear_arith)
        requires
            a.0 * a2.1 == a2.0 * a.1,
            b.0 * b2.1 == b2.0 * b.1,
    ;
}

/// A fraction computed as the product of two fractions equal to `a2` and `b2`
/// equals `a2 b2`.
pub proof fn lemma_mul_step(r: (int, int), a: (int, int), b: (int, int), a2: (int, int), b2: (int, int))
    requires
        proper(a),
        proper(b),
        a2.1 != 0,
        b2.1 != 0,
        same_ratio(a, a2),
        same_ratio(b, b2),
        same_ratio(r, qmul(a, b)),
    ensures
        same_ratio(r, qmul(a2, b2)),
{
    lemma_qmul_congr(a, b, a2, b2);
    assert(qmul(a, b).1 != 0) by (nonlinear_arith)
        requires
            a.1 > 0,
            b.1 > 0,
    ;
    lemma_same_ratio_trans(r, qmul(a, b), qmul(a2, b2));
}

/// A fraction computed as the quotient of two fractions equal to `a2` and `b2`
/// equals `a2 / b2`.
pub proof fn lemma_div_step(r: (int, int), a: (int, int), b: (int, int), a2: (int, int), b2: (int, int))
    requires
        proper(a),
        proper(b),
        b.0 != 0,
        same_ratio(a, a2),
        same_ratio(b, b2),
        same_ratio(r, qdiv(a, b)),
    ensures
        same_ratio(r, qdiv(a2, b2)),
{
    lemma_qdiv_congr(a, b, a2, b2);
    assert(qdiv(a, b).1 != 0) by (nonlinear_arith)
        requires
            a.1 > 0,
            b.0 != 0,
    ;
    lemma_same_ratio_trans(r, qdiv(a, b), qdiv(a2, b2));
}

/// Two fractions with positive denominators that are equal have numerators of one sign.
pub proof fn lemma_same_ratio_sign(a: (int, int), b: (int, int))
    requires
        proper(a),
        proper(b),
        same_ratio(a, b),
    ensures
        b.0 > 0 ==> a.0 > 0,
        b.0 >= 0 ==> a.0 >= 0,
        b.0 != 0 ==> a.0 != 0,
{
    if b.0 > 0 {
        assert(a.0 > 0) by (nonlinear_arith)
            requires
                a.0 * b.1 == b.0 * a.1,
                a.1 > 0,
                b.1 > 0,
                b.0 > 0,
        ;
    }
    if b.0 < 0 {
        assert(a.0 < 0) by (nonlinear_arith)
            requires
                a.0 * b.1 == b.0 * a.1,
                a.1 > 0,
                b.1 > 0,
                b.0 < 0,
        ;
    }
    if b.0 == 0 {
        assert(a.0 == 0) by (nonlinear_arith)
            requires
                a.0 * b.1 == b.0 * a.1,
                b.1 > 0,
                b.0 == 0,
        ;
    }
}

/// Products and quotients of positive fractions are positive.
pub proof fn lemma_q_pos(a: (int, int), b: (int, int))
    requires
        a.0 > 0,
        a.1 > 0,
        b.0 > 0,
        b.1 > 0,
    ensures
        qmul(a, b).0 > 0,
        qmul(a, b).1 > 0,
        qdiv(a, b).0 > 0,
        qdiv(a, b).1 > 0,
{
    assert(a.0 * b.0 > 0 && a.1 * b.1 > 0 && a.0 * b.1 > 0 && a.1 * b.0 > 0) by (nonlinear_arith)
        requires
            a.0 > 0,
            a.1 > 0,
            b.0 > 0,
            b.1 > 0,
    ;
}

/// Dividing an exact multiple of `b` by `b` rounds nothing off.
pub proof fn lemma_quot_exact(q: int, b: int)
    requires
        b > 0,
    ensures
        quot_trunc(q * b, b) == q,
{
    vstd::arithmetic::div_mod::lemma_div_multiples_vanish(q, b);
    vstd::arithmetic::div_mod::lemma_div_multiples_vanish(-q, b);
    assert(q * b == b * q && -(q * b) == b * (-q)) by (nonlinear_arith);
}

} // verus!
