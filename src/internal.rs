//! Arithmetic helpers, raw symbol formulas and argument enumeration.
use vstd::prelude::*;
use core::cmp::Ordering;
use core::ops::Range;
use rug::{Integer, Rational};
use crate::bignum::{
    int_add, int_binomial, int_div, int_factorial, int_from, int_mul, int_neg, integer_value,
    proper, qdiv, qmul,
    rat_div, rat_from, rat_mul, rational_value, same_ratio,
};
use crate::{SignedSqrt, Wigner3jm, Wigner6j, Wigner9j, signed_sqrt_spec, lemma_signed_sqrt_congr};

verus! {

/// How often `v` occurs in `x` (0 or 1).
pub open spec fn occ(v: i32, x: i32) -> int {
    if v == x { 1 } else { 0 }
}

pub open spec fn min_of(a: i32, b: i32) -> i32 {
    if a <= b { a } else { b }
}

pub open spec fn max_of(a: i32, b: i32) -> i32 {
    if a >= b { a } else { b }
}

/// Three values in ascending order: the least, the remaining one, the greatest.
#[verifier::opaque]
pub open spec fn sorted3(a: i32, b: i32, c: i32) -> (i32, i32, i32) {
    let lo = min_of(min_of(a, b), c);
    let hi = max_of(max_of(a, b), c);
    (lo, (a + b + c - lo - hi) as i32, hi)
}

/// Four values in ascending order. The second is the least of the greater
/// members of all pairs; the third is what the others leave.
#[verifier::opaque]
pub open spec fn sorted4(a: i32, b: i32, c: i32, d: i32) -> (i32, i32, i32, i32) {
    let lo = min_of(min_of(a, b), min_of(c, d));
    let hi = max_of(max_of(a, b), max_of(c, d));
    let second = min_of(
        min_of(min_of(max_of(a, b), max_of(a, c)), min_of(max_of(a, d), max_of(b, c))),
        min_of(max_of(b, d), max_of(c, d)),
    );
    (lo, second, (a + b + c + d - lo - hi - second) as i32, hi)
}

/// Sorts two values into ascending order.
pub fn sort2(a: i32, b: i32) -> (r: (i32, i32))
    ensures
        r.0 <= r.1,
        forall|v: i32| occ(v, r.0) + occ(v, r.1) == occ(v, a) + occ(v, b),
        r == (min_of(a, b), max_of(a, b)),
{
    if b < a {
        (b, a)
    } else {
        (a, b)
    }
}

/// Sorts three values into ascending order.
pub fn sort3(a: i32, b: i32, c: i32) -> (r: (i32, i32, i32))
    ensures
        r.0 <= r.1 <= r.2,
        forall|v: i32|
            occ(v, r.0) + occ(v, r.1) + occ(v, r.2) == occ(v, a) + occ(v, b) + occ(v, c),
        r == sorted3(a, b, c),
{
    proof {
        reveal(sorted3);
    }
    let (a, b) = sort2(a, b);
    if c < a {
        (c, a, b)
    } else if c < b {
        (a, c, b)
    } else {
        (a, b, c)
    }
}

/// Sorts four values into ascending order.
pub fn sort4(a: i32, b: i32, c: i32, d: i32) -> (r: (i32, i32, i32, i32))
    ensures
        r.0 <= r.1 <= r.2 <= r.3,
        forall|v: i32|
            occ(v, r.0) + occ(v, r.1) + occ(v, r.2) + occ(v, r.3) == occ(v, a) + occ(v, b) + occ(
                v,
                c,
            ) + occ(v, d),
        r == sorted4(a, b, c, d),
{
    proof {
        reveal(sorted4);
    }
    let (a, b) = sort2(a, b);
    let (c, d) = sort2(c, d);
    if c < a {
        if d < a {
            (c, d, a, b)
        } else if d < b {
            (c, a, d, b)
        } else {
            (c, a, b, d)
        }
    } else if c < b {
        if d < b {
            (a, c, d, b)
        } else {
            (a, c, b, d)
        }
    } else {
        (a, b, c, d)
    }
}

/// The sign that an ordering stands for: `-1`, `0` or `+1`.
pub open spec fn ordering_sign(o: Ordering) -> int {
    match o {
        Ordering::Less => -1,
        Ordering::Equal => 0,
        Ordering::Greater => 1,
    }
}

/// Reinterprets an ordering as a sign: `Less` is `-1`, `Equal` is `0`, `Greater` is `+1`.
pub fn ordering_to_i32(ordering: Ordering) -> (r: i32)
    ensures
        r == ordering_sign(ordering),
{
    match ordering {
        Ordering::Less => -1,
        Ordering::Equal => 0,
        Ordering::Greater => 1,
    }
}

/// `n!`, and 1 for every `n <= 0`.
pub open spec fn fact(n: int) -> int
    decreases n,
{
    if n <= 0 {
        1
    } else {
        n * fact(n - 1)
    }
}

/// The binomial coefficient `C(n, k)` for `n >= 0` (Pascal's rule); 0 when `k < 0`.
pub open spec fn binom(n: int, k: int) -> int
    decreases n,
{
    if k < 0 || n < 0 {
        0
    } else if k == 0 {
        1
    } else if n == 0 {
        0
    } else {
        binom(n - 1, k - 1) + binom(n - 1, k)
    }
}

/// The falling factorial `n (n - 1) ... (n - k + 1)`; 1 when `k <= 0`.
pub open spec fn falling(n: int, k: int) -> int
    decreases k,
{
    if k <= 0 {
        1
    } else {
        n * falling(n - 1, k - 1)
    }
}

/// `(-1)^k`, for any integer `k`.
pub open spec fn phase_spec(k: int) -> int {
    if k % 2 == 0 { 1 } else { -1 }
}

/// Computes `(-1)^phi`.
pub fn phase(phi: i32) -> (r: i32)
    ensures
        r == phase_spec(phi as int),
{
    if phi % 2 == 0 {
        1
    } else {
        -1
    }
}

/// `|j1 - j2| <= j3 <= j1 + j2` and `j1 + j2 + j3` is an integer, on doubled values.
pub open spec fn triangle(tj1: int, tj2: int, tj3: int) -> bool {
    &&& tj1 + tj2 - tj3 >= 0
    &&& (tj1 + tj2 - tj3) % 2 == 0
    &&& tj3 >= tj1 - tj2
    &&& tj3 >= tj2 - tj1
}

/// Checks `|j1 - j2| <= j3 <= j1 + j2` and `j1 + j2 + j3` integral.
pub fn triangle_condition(tj1: i32, tj2: i32, tj3: i32) -> (r: bool)
    ensures
        r == triangle(tj1 as int, tj2 as int, tj3 as int),
{
    let d = tj1 as i64 + tj2 as i64 - tj3 as i64;
    let diff = tj1 as i64 - tj2 as i64;
    let adiff = if diff < 0 { -diff } else { diff };
    d >= 0 && d % 2 == 0 && tj3 as i64 - adiff >= 0
}

/// The triangle condition does not depend on the order of its three arguments.
pub proof fn lemma_triangle_symmetric(tj1: int, tj2: int, tj3: int)
    ensures
        triangle(tj1, tj2, tj3) == triangle(tj2, tj1, tj3),
        triangle(tj1, tj2, tj3) == triangle(tj1, tj3, tj2),
        triangle(tj1, tj2, tj3) == triangle(tj3, tj2, tj1),
        triangle(tj1, tj2, tj3) == triangle(tj2, tj3, tj1),
        triangle(tj1, tj2, tj3) == triangle(tj3, tj1, tj2),
{
    assert((tj1 + tj2 - tj3) % 2 == (tj1 - tj2 + tj3) % 2) by {
        assert(tj1 - tj2 + tj3 == (tj1 + tj2 - tj3) + 2 * (tj3 - tj2));
    }
    assert((tj1 + tj2 - tj3) % 2 == (tj2 + tj3 - tj1) % 2) by {
        assert(tj2 + tj3 - tj1 == (tj1 + tj2 - tj3) + 2 * (tj3 - tj1));
    }
}

/// The intersection of two half-open ranges.
pub fn intersect_ranges(a: Range<i32>, b: Range<i32>) -> (r: Range<i32>)
    ensures
        r.start == if a.start >= b.start { a.start } else { b.start },
        r.end == if a.end <= b.end { a.end } else { b.end },
{
    let start = if a.start >= b.start { a.start } else { b.start };
    let end = if a.end <= b.end { a.end } else { b.end };
    start..end
}

proof fn lemma_binom_zero_above(n: int, k: int)
    requires
        0 <= n < k,
    ensures
        binom(n, k) == 0,
    decreases n,
{
    if n > 0 {
        lemma_binom_zero_above(n - 1, k - 1);
        lemma_binom_zero_above(n - 1, k);
    }
}

proof fn lemma_binom_pos(n: int, k: int)
    requires
        0 <= k <= n,
    ensures
        binom(n, k) > 0,
    decreases n,
{
    if k > 0 {
        lemma_binom_pos(n - 1, k - 1);
        if k <= n - 1 {
            lemma_binom_pos(n - 1, k);
        } else {
            lemma_binom_zero_above(n - 1, k);
        }
    }
}

proof fn lemma_fact_pos(n: int)
    ensures
        fact(n) > 0,
    decreases n,
{
    if n > 0 {
        lemma_fact_pos(n - 1);
        assert(n * fact(n - 1) > 0) by (nonlinear_arith)
            requires
                n > 0,
                fact(n - 1) > 0,
        ;
    }
}

/// `n! = n (n - 1) ... (n - k + 1) (n - k)!`.
proof fn lemma_fact_falling(n: int, k: int)
    requires
        0 <= k <= n,
    ensures
        fact(n) == falling(n, k) * fact(n - k),
    decreases k,
{
    if k > 0 {
        lemma_fact_falling(n - 1, k - 1);
        assert(n * (falling(n - 1, k - 1) * fact(n - k)) == (n * falling(n - 1, k - 1)) * fact(
            n - k,
        )) by (nonlinear_arith);
    }
}

/// Computes the binomial coefficient `C(n, k)`.
pub fn binomial(n: i32, k: i32) -> (r: Integer)
    requires
        n >= 0,
    ensures
        integer_value(r) == binom(n as int, k as int),
{
    let ku = #[verifier::truncate] (k as u32);
    proof {
        if k < 0 {
            assert(ku >= 0x8000_0000u32) by (bit_vector)
                requires
                    ku == (k as u32),
                    k < 0i32,
            ;
            lemma_binom_zero_above(n as int, ku as int);
        }
    }
    int_binomial(&int_from(n as i64), ku)
}

/// Computes the falling factorial, the product of the integers in `(n - k, n]`.
pub fn falling_factorial(n: i32, k: i32) -> (r: Integer)
    ensures
        integer_value(r) == falling(n as int, k as int),
{
    let mut r = int_from(1);
    if k <= 0 {
        return r;
    }
    let start = n as i64 - k as i64;
    let mut i = start;
    while i < n as i64
        invariant
            start <= i <= n,
            start == n - k,
            integer_value(r) == falling(i as int, i - start),
        decreases n - i,
    {
        let ghost prev = falling(i as int, i - start);
        r = int_mul(&r, &int_from(i + 1));
        assert(falling(i + 1, i + 1 - start) == (i + 1) * prev);
        assert(integer_value(r) == prev * (i + 1));
        assert(prev * (i + 1) == (i + 1) * prev) by (nonlinear_arith);
        i += 1;
    }
    r
}

/// Computes the factorial `n!`.
pub fn factorial(n: i32) -> (r: Integer)
    requires
        n >= 0,
    ensures
        integer_value(r) == fact(n as int),
{
    int_factorial(n as u32)
}

/// The triangular factor `ja! jb! jc! / jd!` as a fraction.
pub open spec fn triangular_raw_spec(jd: int, ja: int, jb: int, jc: int) -> (int, int) {
    (fact(ja) * fact(jb) * fact(jc), fact(jd))
}

/// Calculates `ja! jb! jc! / jd!`.
pub fn triangular_factor_raw(jd: i32, ja: i32, jb: i32, jc: i32) -> (r: Rational)
    requires
        0 <= ja <= jd,
        0 <= jb <= jd,
        0 <= jc <= jd,
    ensures
        proper(rational_value(r)),
        same_ratio(rational_value(r), triangular_raw_spec(jd as int, ja as int, jb as int, jc as int)),
{
    proof {
        reveal(sorted3);
    }
    let (ju, jv, jw) = sort3(ja, jb, jc);
    let num = int_mul(&factorial(ju), &factorial(jv));
    let den = falling_factorial(jd, jd - jw);
    let ghost nv = integer_value(num);
    let ghost dv = integer_value(den);
    proof {
        lemma_fact_falling(jd as int, jd - jw);
        lemma_fact_pos(jd as int);
    }
    let r = rat_from(num, den);
    proof {
        let (u, v, w) = (ju as int, jv as int, jw as int);
        lemma_fact_falling(jd as int, jd - jw);
        lemma_fact_pos(jd as int);
        assert(fact(u) * fact(v) * fact(w) == fact(ja as int) * fact(jb as int) * fact(jc as int))
            by (nonlinear_arith)
            requires
                (u, v, w) == (ja as int, jb as int, jc as int) || (u, v, w) == (ja as int,
                    jc as int, jb as int)
                    || (u, v, w) == (jb as int, ja as int, jc as int) || (u, v, w) == (jb as int,
                        jc as int, ja as int)
                    || (u, v, w) == (jc as int, ja as int, jb as int) || (u, v, w) == (jc as int,
                        jb as int, ja as int),
        ;
        let f = falling(jd as int, jd - jw);
        assert(fact(jd as int) == f * fact(w));
        assert(f != 0);
        assert(fact(u) * fact(v) * fact(jd as int) == (fact(u) * fact(v) * fact(w)) * f)
            by (nonlinear_arith)
            requires
                fact(jd as int) == f * fact(w),
        ;
        crate::bignum::lemma_same_ratio_trans(
            rational_value(r),
            (nv, dv),
            triangular_raw_spec(jd as int, ja as int, jb as int, jc as int),
        );
    }
    r
}

/// A doubled quantum number small enough that sums of four of them fit in `i32`.
pub open spec fn tj_in_range(tj: int) -> bool {
    -0x1000_0000 <= tj <= 0x1000_0000
}

proof fn lemma_triangle_facts(tj1: int, tj2: int, tj3: int)
    requires
        triangle(tj1, tj2, tj3),
    ensures
        tj1 >= 0,
        tj2 >= 0,
        tj3 >= 0,
        (tj1 + tj2 + tj3) % 2 == 0,
        (tj3 - tj1 + tj2) % 2 == 0,
        (tj1 - tj2 + tj3) % 2 == 0,
        (tj2 - tj3 + tj1) % 2 == 0,
{
    lemma_triangle_symmetric(tj1, tj2, tj3);
    assert(tj1 + tj2 + tj3 == (tj1 + tj2 - tj3) + 2 * tj3);
}

/// The triangular factor `Δ(j1, j2, j3)` as a fraction.
pub open spec fn triangular_spec(tj1: int, tj2: int, tj3: int) -> (int, int) {
    triangular_raw_spec(
        (tj1 + tj2 + tj3) / 2 + 1,
        (tj3 - tj1 + tj2) / 2,
        (tj1 - tj2 + tj3) / 2,
        (tj2 - tj3 + tj1) / 2,
    )
}

proof fn lemma_triangular_pos(jd: int, ja: int, jb: int, jc: int)
    ensures
        triangular_raw_spec(jd, ja, jb, jc).0 > 0,
        triangular_raw_spec(jd, ja, jb, jc).1 > 0,
{
    lemma_fact_pos(ja);
    lemma_fact_pos(jb);
    lemma_fact_pos(jc);
    lemma_fact_pos(jd);
    assert(fact(ja) * fact(jb) * fact(jc) > 0) by (nonlinear_arith)
        requires
            fact(ja) > 0,
            fact(jb) > 0,
            fact(jc) > 0,
    ;
}

/// Calculates the triangular factor
/// `Δ(j1, j2, j3) = (-j1 + j2 + j3)! (j1 - j2 + j3)! (j1 + j2 - j3)! / (j1 + j2 + j3 + 1)!`.
pub fn triangular_factor(tj1: i32, tj2: i32, tj3: i32) -> (r: Rational)
    requires
        triangle(tj1 as int, tj2 as int, tj3 as int),
        tj_in_range(tj1 as int),
        tj_in_range(tj2 as int),
        tj_in_range(tj3 as int),
    ensures
        proper(rational_value(r)),
        same_ratio(rational_value(r), triangular_spec(tj1 as int, tj2 as int, tj3 as int)),
        rational_value(r).0 > 0,
{
    proof {
        lemma_triangle_facts(tj1 as int, tj2 as int, tj3 as int);
        lemma_triangular_pos(
            (tj1 + tj2 + tj3) / 2 + 1,
            (tj3 - tj1 + tj2) / 2,
            (tj1 - tj2 + tj3) / 2,
            (tj2 - tj3 + tj1) / 2,
        );
    }
    let jjja = (tj3 - tj1 + tj2) / 2;
    let jjjb = (tj1 - tj2 + tj3) / 2;
    let jjjc = (tj2 - tj3 + tj1) / 2;
    let jjj = (tj1 + tj2 + tj3) / 2 + 1;
    let r = triangular_factor_raw(jjj, jjja, jjjb, jjjc);
    proof {
        crate::bignum::lemma_same_ratio_sign(
            rational_value(r),
            triangular_spec(tj1 as int, tj2 as int, tj3 as int),
        );
    }
    r
}

/// One term of the tetrahedral sum.
pub open spec fn tetra_term(a: int, e: int, f: int, d: int, b: int, c: int, k: int) -> int {
    phase_spec(k) * binom(k + 1, k - (a + b + c) / 2) * binom((c - a + b) / 2, k - (a + e + f) / 2)
        * binom((a - b + c) / 2, k - (d + b + f) / 2) * binom((b - c + a) / 2, k - (d + e + c) / 2)
}

/// The terms of the tetrahedral sum from `lo` up to `k`.
pub open spec fn tetra_partial(a: int, e: int, f: int, d: int, b: int, c: int, lo: int, k: int) -> int
    decreases k - lo + 1,
{
    if k < lo {
        0
    } else {
        tetra_partial(a, e, f, d, b, c, lo, k - 1) + tetra_term(a, e, f, d, b, c, k)
    }
}

pub open spec fn max_int(a: int, b: int) -> int {
    if a >= b { a } else { b }
}

pub open spec fn min_int(a: int, b: int) -> int {
    if a <= b { a } else { b }
}

/// The tetrahedral sum over `k` from the largest triad sum up to the smallest
/// sum of two opposite pairs.
#[verifier::opaque]
pub open spec fn tetra_spec(a: int, e: int, f: int, d: int, b: int, c: int) -> int {
    let lo = max_int(max_int((a + b + c) / 2, (d + e + c) / 2), max_int((d + b + f) / 2, (a + e + f) / 2));
    let hi = min_int(min_int((a + d + b + e) / 2, (b + e + c + f) / 2), (a + d + c + f) / 2);
    tetra_partial(a, e, f, d, b, c, lo, hi)
}

/// The four triads of a tetrahedral sum satisfy the triangle condition.
pub open spec fn tetra_admissible(a: int, e: int, f: int, d: int, b: int, c: int) -> bool {
    &&& triangle(a, b, c)
    &&& triangle(a, e, f)
    &&& triangle(d, b, f)
    &&& triangle(d, e, c)
    &&& tj_in_range(a) && tj_in_range(b) && tj_in_range(c)
    &&& tj_in_range(d) && tj_in_range(e) && tj_in_range(f)
}

/// Calculates the symbol in square brackets of L. Wei's paper
/// `[j11 j12 j13; j21 j22 j23]`: a Wigner 6-j symbol without its triangular
/// factors, with the arguments in a different order.
#[verifier::rlimit(50)]
pub fn tetrahedral_sum(tja: i32, tje: i32, tjf: i32, tjd: i32, tjb: i32, tjc: i32) -> (r: Integer)
    requires
        tetra_admissible(tja as int, tje as int, tjf as int, tjd as int, tjb as int, tjc as int),
    ensures
        integer_value(r) == tetra_spec(tja as int, tje as int, tjf as int, tjd as int, tjb as int,
            tjc as int),
{
    proof {
        lemma_triangle_facts(tja as int, tjb as int, tjc as int);
        lemma_triangle_facts(tja as int, tje as int, tjf as int);
        lemma_triangle_facts(tjd as int, tjb as int, tjf as int);
        lemma_triangle_facts(tjd as int, tje as int, tjc as int);
    }
    let jjja = (tjc - tja + tjb) / 2;
    let jjjb = (tja - tjb + tjc) / 2;
    let jjjc = (tjb - tjc + tja) / 2;
    let jabc = (tja + tjb + tjc) / 2;
    let jaef = (tja + tje + tjf) / 2;
    let jdbf = (tjd + tjb + tjf) / 2;
    let jdec = (tjd + tje + tjc) / 2;
    let m1 = if jabc >= jdec { jabc } else { jdec };
    let m2 = if jdbf >= jaef { jdbf } else { jaef };
    let kmin = if m1 >= m2 { m1 } else { m2 };
    let s1 = (tja + tjd + tjb + tje) / 2;
    let s2 = (tjb + tje + tjc + tjf) / 2;
    let s3 = (tja + tjd + tjc + tjf) / 2;
    let n1 = if s1 <= s2 { s1 } else { s2 };
    let kmax = if n1 <= s3 { n1 } else { s3 };
    let ghost (a, e, f, d, b, c) = (tja as int, tje as int, tjf as int, tjd as int, tjb as int, tjc as int);
    let mut sum = int_from(0);
    let mut k = kmin;
    while k <= kmax
        invariant
            kmin <= k,
            k <= kmax + 1 || k == kmin,
            kmax < 0x4000_0000,
            kmin >= 0,
            jjja >= 0 && jjjb >= 0 && jjjc >= 0,
            jabc >= 0 && jaef >= 0 && jdbf >= 0 && jdec >= 0,
            jjja == (c - a + b) / 2,
            jjjb == (a - b + c) / 2,
            jjjc == (b - c + a) / 2,
            jabc == (a + b + c) / 2,
            jaef == (a + e + f) / 2,
            jdbf == (d + b + f) / 2,
            jdec == (d + e + c) / 2,
            kmin >= jabc && kmin >= jaef && kmin >= jdbf && kmin >= jdec,
            integer_value(sum) == tetra_partial(a, e, f, d, b, c, kmin as int, k - 1),
        decreases kmax + 1 - k,
    {
        let term = int_mul(
            &int_mul(
                &int_mul(
                    &int_mul(&int_from(phase(k) as i64), &binomial(k + 1, k - jabc)),
                    &binomial(jjja, k - jaef),
                ),
                &binomial(jjjb, k - jdbf),
            ),
            &binomial(jjjc, k - jdec),
        );
        sum = int_add(&sum, &term);
        k += 1;
    }
    proof {
        reveal(tetra_spec);
    }
    sum
}

/// The selection rules of a 6-j symbol: four triangle conditions.
pub open spec fn w6j_admissible(w: Wigner6j) -> bool {
    &&& triangle(w.tj1 as int, w.tj2 as int, w.tj3 as int)
    &&& triangle(w.tj1 as int, w.tj5 as int, w.tj6 as int)
    &&& triangle(w.tj4 as int, w.tj2 as int, w.tj6 as int)
    &&& triangle(w.tj4 as int, w.tj5 as int, w.tj3 as int)
}

/// Every argument of the 6-j symbol is within range.
pub open spec fn w6j_in_range(w: Wigner6j) -> bool {
    &&& tj_in_range(w.tj1 as int) && tj_in_range(w.tj2 as int) && tj_in_range(w.tj3 as int)
    &&& tj_in_range(w.tj4 as int) && tj_in_range(w.tj5 as int) && tj_in_range(w.tj6 as int)
}

/// The Wigner 6-j symbol by Racah's formula, as the fraction its `SignedSqrt` stores.
pub open spec fn w6j_raw_spec(w: Wigner6j) -> (int, int) {
    let (tj1, tj2, tj3, tj4, tj5, tj6) = (
        w.tj1 as int,
        w.tj2 as int,
        w.tj3 as int,
        w.tj4 as int,
        w.tj5 as int,
        w.tj6 as int,
    );
    signed_sqrt_spec(
        tetra_spec(tj1, tj5, tj6, tj4, tj2, tj3),
        qdiv(
            qmul(
                qmul(triangular_spec(tj1, tj5, tj6), triangular_spec(tj4, tj2, tj6)),
                triangular_spec(tj4, tj5, tj3),
            ),
            triangular_spec(tj1, tj2, tj3),
        ),
    )
}

proof fn lemma_triangular_spec_pos(tj1: int, tj2: int, tj3: int)
    ensures
        triangular_spec(tj1, tj2, tj3).0 > 0,
        triangular_spec(tj1, tj2, tj3).1 > 0,
{
    lemma_triangular_pos(
        (tj1 + tj2 + tj3) / 2 + 1,
        (tj3 - tj1 + tj2) / 2,
        (tj1 - tj2 + tj3) / 2,
        (tj2 - tj3 + tj1) / 2,
    );
}

/// Calculates the Wigner 6-j symbol. The selection rules are not checked.
pub fn wigner_6j_raw(w: Wigner6j) -> (r: SignedSqrt)
    requires
        w6j_admissible(w),
        w6j_in_range(w),
    ensures
        proper(r@),
        same_ratio(r@, w6j_raw_spec(w)),
{
    let Wigner6j { tj1, tj2, tj3, tj4, tj5, tj6 } = w;
    let t1 = triangular_factor(tj1, tj5, tj6);
    let t2 = triangular_factor(tj4, tj2, tj6);
    let t3 = triangular_factor(tj4, tj5, tj3);
    let t4 = triangular_factor(tj1, tj2, tj3);
    let p12 = rat_mul(&t1, &t2);
    let p123 = rat_mul(&p12, &t3);
    let z1 = rat_div(&p123, &t4);
    let ghost (s1, s2, s3, s4) = (
        triangular_spec(tj1 as int, tj5 as int, tj6 as int),
        triangular_spec(tj4 as int, tj2 as int, tj6 as int),
        triangular_spec(tj4 as int, tj5 as int, tj3 as int),
        triangular_spec(tj1 as int, tj2 as int, tj3 as int),
    );
    proof {
        lemma_triangular_spec_pos(tj1 as int, tj5 as int, tj6 as int);
        lemma_triangular_spec_pos(tj4 as int, tj2 as int, tj6 as int);
        lemma_triangular_spec_pos(tj4 as int, tj5 as int, tj3 as int);
        lemma_triangular_spec_pos(tj1 as int, tj2 as int, tj3 as int);
        crate::bignum::lemma_q_pos(s1, s2);
        crate::bignum::lemma_q_pos(qmul(s1, s2), s3);
        crate::bignum::lemma_q_pos(qmul(qmul(s1, s2), s3), s4);
        crate::bignum::lemma_mul_step(rational_value(p12), rational_value(t1), rational_value(t2), s1, s2);
        crate::bignum::lemma_mul_step(
            rational_value(p123),
            rational_value(p12),
            rational_value(t3),
            qmul(s1, s2),
            s3,
        );
        crate::bignum::lemma_div_step(
            rational_value(z1),
            rational_value(p123),
            rational_value(t4),
            qmul(qmul(s1, s2), s3),
            s4,
        );
        crate::bignum::lemma_same_ratio_sign(rational_value(z1), qdiv(qmul(qmul(s1, s2), s3), s4));
    }
    let z2 = tetrahedral_sum(tj1, tj5, tj6, tj4, tj2, tj3);
    let ghost zv = integer_value(z2);
    let r = SignedSqrt::new(z2, z1);
    proof {
        let target = qdiv(qmul(qmul(s1, s2), s3), s4);
        crate::bignum::lemma_qmul_congr(
            (crate::bignum::sgn(zv) * (zv * zv), 1),
            rational_value(z1),
            (crate::bignum::sgn(zv) * (zv * zv), 1),
            target,
        );
        assert(signed_sqrt_spec(zv, rational_value(z1)) == qmul(
            (crate::bignum::sgn(zv) * (zv * zv), 1),
            rational_value(z1),
        ));
        assert(signed_sqrt_spec(zv, target) == qmul((crate::bignum::sgn(zv) * (zv * zv), 1), target));
        crate::bignum::lemma_same_ratio_trans(
            r@,
            signed_sqrt_spec(zv, rational_value(z1)),
            signed_sqrt_spec(zv, target),
        );
    }
    r
}

/// The selection rules of a 9-j symbol: six triangle conditions, one per row and column.
pub open spec fn w9j_admissible(w: Wigner9j) -> bool {
    &&& triangle(w.tj1 as int, w.tj2 as int, w.tj3 as int)
    &&& triangle(w.tj4 as int, w.tj5 as int, w.tj6 as int)
    &&& triangle(w.tj7 as int, w.tj8 as int, w.tj9 as int)
    &&& triangle(w.tj1 as int, w.tj4 as int, w.tj7 as int)
    &&& triangle(w.tj2 as int, w.tj5 as int, w.tj8 as int)
    &&& triangle(w.tj3 as int, w.tj6 as int, w.tj9 as int)
}

/// A doubled quantum number small enough that the sum of two of them is in range.
pub open spec fn tj_in_half_range(tj: int) -> bool {
    -0x0800_0000 <= tj <= 0x0800_0000
}

/// Every argument of the 9-j symbol is within range, and so is every summation index.
pub open spec fn w9j_in_range(w: Wigner9j) -> bool {
    &&& tj_in_half_range(w.tj1 as int) && tj_in_half_range(w.tj2 as int)
    &&& tj_in_half_range(w.tj3 as int) && tj_in_half_range(w.tj4 as int)
    &&& tj_in_half_range(w.tj5 as int) && tj_in_half_range(w.tj6 as int)
    &&& tj_in_half_range(w.tj7 as int) && tj_in_half_range(w.tj8 as int)
    &&& tj_in_half_range(w.tj9 as int)
}

pub open spec fn abs_int(x: int) -> int {
    if x < 0 { -x } else { x }
}

/// Lower bound of the 9-j summation index `2k`.
pub open spec fn w9j_tkmin(w: Wigner9j) -> int {
    max_int(
        max_int(abs_int(w.tj8 - w.tj4), abs_int(w.tj2 - w.tj6)),
        abs_int(w.tj1 - w.tj9),
    )
}

/// Upper bound of the 9-j summation index `2k`.
pub open spec fn w9j_tkmax(w: Wigner9j) -> int {
    min_int(min_int(w.tj8 + w.tj4, w.tj2 + w.tj6), w.tj1 + w.tj9)
}

/// One term of the 9-j sum: `(-1)^(2k) (2k + 1)` times three tetrahedral sums.
#[verifier::opaque]
pub open spec fn w9j_term(w: Wigner9j, tk: int) -> int {
    let (tj1, tj2, tj3, tj4, tj5, tj6, tj7, tj8, tj9) = (
        w.tj1 as int,
        w.tj2 as int,
        w.tj3 as int,
        w.tj4 as int,
        w.tj5 as int,
        w.tj6 as int,
        w.tj7 as int,
        w.tj8 as int,
        w.tj9 as int,
    );
    phase_spec(tk) * (tk + 1) * tetra_spec(tj1, tj2, tj3, tj6, tj9, tk) * tetra_spec(
        tj6,
        tj4,
        tj5,
        tj8,
        tj2,
        tk,
    ) * tetra_spec(tj8, tj9, tj7, tj1, tj4, tk)
}

/// The 9-j terms for `2k = lo, lo + 2, ...` up to `tk`.
pub open spec fn w9j_partial(w: Wigner9j, lo: int, tk: int) -> int
    decreases tk - lo + 2,
{
    if tk < lo {
        0
    } else {
        w9j_partial(w, lo, tk - 2) + w9j_term(w, tk)
    }
}

/// The product of the six triangular factors of a 9-j symbol.
pub open spec fn w9j_triangles(w: Wigner9j) -> (int, int) {
    let (tj1, tj2, tj3, tj4, tj5, tj6, tj7, tj8, tj9) = (
        w.tj1 as int,
        w.tj2 as int,
        w.tj3 as int,
        w.tj4 as int,
        w.tj5 as int,
        w.tj6 as int,
        w.tj7 as int,
        w.tj8 as int,
        w.tj9 as int,
    );
    qmul(
        qmul(
            qmul(
                qmul(
                    qmul(triangular_spec(tj1, tj2, tj3), triangular_spec(tj4, tj5, tj6)),
                    triangular_spec(tj7, tj8, tj9),
                ),
                triangular_spec(tj1, tj4, tj7),
            ),
            triangular_spec(tj2, tj5, tj8),
        ),
        triangular_spec(tj3, tj6, tj9),
    )
}

/// The Wigner 9-j symbol as a single sum over products of three tetrahedral sums,
/// as the fraction its `SignedSqrt` stores.
pub open spec fn w9j_raw_spec(w: Wigner9j) -> (int, int) {
    signed_sqrt_spec(w9j_partial(w, w9j_tkmin(w), w9j_tkmax(w)), w9j_triangles(w))
}

pub(crate) proof fn lemma_even_combine(x: int, y: int, z: int)
    requires
        x % 2 == 0,
        y % 2 == 0,
        z == x - y || z == x + y,
    ensures
        z % 2 == 0,
{
}

proof fn lemma_triangle_even(a: int, b: int, c: int)
    requires
        triangle(a, b, c),
    ensures
        (a + b + c) % 2 == 0,
{
    lemma_even_combine(a + b - c, 2 * c, a + b + c);
}

/// An absolute difference has the parity of the sum.
proof fn lemma_abs_parity(x: int, y: int)
    ensures
        (abs_int(x - y) + x + y) % 2 == 0,
{
    if x >= y {
        assert(abs_int(x - y) + x + y == 2 * x);
    } else {
        assert(abs_int(x - y) + x + y == 2 * y);
    }
}

proof fn lemma_9j_bounds_parity(w: Wigner9j)
    requires
        w9j_admissible(w),
    ensures
        (w9j_tkmin(w) + w.tj8 + w.tj4) % 2 == 0,
        (w.tj8 + w.tj4 - w.tj2 - w.tj6) % 2 == 0,
        (w.tj1 + w.tj9 - w.tj8 - w.tj4) % 2 == 0,
        (w9j_tkmax(w) - w9j_tkmin(w)) % 2 == 0,
{
    let (tj1, tj2, tj3, tj4, tj5, tj6, tj7, tj8, tj9) = (
        w.tj1 as int,
        w.tj2 as int,
        w.tj3 as int,
        w.tj4 as int,
        w.tj5 as int,
        w.tj6 as int,
        w.tj7 as int,
        w.tj8 as int,
        w.tj9 as int,
    );
    lemma_triangle_even(tj4, tj5, tj6);
    lemma_triangle_even(tj7, tj8, tj9);
    lemma_triangle_even(tj1, tj4, tj7);
    lemma_triangle_even(tj2, tj5, tj8);
    lemma_even_combine(tj2 + tj5 + tj8, tj4 + tj5 + tj6, tj2 + tj8 - tj4 - tj6);
    lemma_even_combine(tj2 + tj8 - tj4 - tj6, 2 * tj4 - 2 * tj2, tj8 + tj4 - tj2 - tj6);
    lemma_even_combine(tj1 + tj4 + tj7, tj7 + tj8 + tj9, tj1 + tj4 - tj8 - tj9);
    lemma_even_combine(tj1 + tj4 - tj8 - tj9, 2 * tj9 - 2 * tj4, tj1 + tj9 - tj8 - tj4);
    let p = tj8 + tj4;
    let q = tj2 + tj6;
    let u = tj1 + tj9;
    lemma_abs_parity(tj8, tj4);
    lemma_abs_parity(tj2, tj6);
    lemma_abs_parity(tj1, tj9);
    let lo = w9j_tkmin(w);
    let hi = w9j_tkmax(w);
    assert((lo + p) % 2 == 0) by {
        if lo == abs_int(tj8 - tj4) {
        } else if lo == abs_int(tj2 - tj6) {
            lemma_even_combine(lo + q, p - q, lo + p);
        } else {
            lemma_even_combine(lo + u, u - p, lo + p);
        }
    }
    assert((hi - p) % 2 == 0) by {
        if hi == p {
        } else if hi == q {
            lemma_even_combine(0, p - q, hi - p);
        } else {
            lemma_even_combine(u - p, 0, hi - p);
        }
    }
    lemma_even_combine(lo + p, hi - p, hi + lo);
    lemma_even_combine(hi + lo, 2 * lo, hi - lo);
}

proof fn lemma_9j_term_admissible(w: Wigner9j, tk: int)
    requires
        w9j_admissible(w),
        w9j_in_range(w),
        w9j_tkmin(w) <= tk <= w9j_tkmax(w),
        (tk - w9j_tkmin(w)) % 2 == 0,
    ensures
        tetra_admissible(w.tj1 as int, w.tj2 as int, w.tj3 as int, w.tj6 as int, w.tj9 as int, tk),
        tetra_admissible(w.tj6 as int, w.tj4 as int, w.tj5 as int, w.tj8 as int, w.tj2 as int, tk),
        tetra_admissible(w.tj8 as int, w.tj9 as int, w.tj7 as int, w.tj1 as int, w.tj4 as int, tk),
{
    lemma_9j_bounds_parity(w);
    let (tj1, tj2, tj3, tj4, tj5, tj6, tj7, tj8, tj9) = (
        w.tj1 as int,
        w.tj2 as int,
        w.tj3 as int,
        w.tj4 as int,
        w.tj5 as int,
        w.tj6 as int,
        w.tj7 as int,
        w.tj8 as int,
        w.tj9 as int,
    );
    let lo = w9j_tkmin(w);
    lemma_even_combine(tk - lo, lo + tj8 + tj4, tk + tj8 + tj4);
    lemma_even_combine(tk + tj8 + tj4, tj8 + tj4 - tj2 - tj6, tk + tj2 + tj6);
    lemma_even_combine(tk + tj8 + tj4, tj1 + tj9 - tj8 - tj4, tk + tj1 + tj9);
    lemma_even_combine(tk + tj8 + tj4, 2 * tk, tj8 + tj4 - tk);
    lemma_even_combine(tk + tj2 + tj6, 2 * tk, tj2 + tj6 - tk);
    lemma_even_combine(tk + tj1 + tj9, 2 * tk, tj1 + tj9 - tk);
    lemma_triangle_symmetric(tj3, tj6, tj9);
    lemma_triangle_symmetric(tj4, tj5, tj6);
    lemma_triangle_symmetric(tj2, tj5, tj8);
    lemma_triangle_symmetric(tj7, tj8, tj9);
    lemma_triangle_symmetric(tj1, tj4, tj7);
    lemma_triangle_symmetric(tj1, tj9, tk);
    lemma_triangle_symmetric(tj6, tj2, tk);
    lemma_triangle_symmetric(tj8, tj4, tk);
}

/// One term of the 9-j sum, at the summation index `tk`.
fn wigner_9j_term(w: Wigner9j, tk: i32, tkmin: i32, tkmax: i32) -> (r: Integer)
    requires
        w9j_admissible(w),
        w9j_in_range(w),
        tkmin == w9j_tkmin(w),
        tkmax == w9j_tkmax(w),
        tkmin <= tk <= tkmax,
        (tk - tkmin) % 2 == 0,
    ensures
        integer_value(r) == w9j_term(w, tk as int),
{
    proof {
        lemma_9j_term_admissible(w, tk as int);
    }
    let Wigner9j { tj1, tj2, tj3, tj4, tj5, tj6, tj7, tj8, tj9 } = w;
    let p = phase(tk);
    let scale: i64 = if p == 1 { tk as i64 + 1 } else { -(tk as i64 + 1) };
    let r = int_mul(
        &int_mul(
            &int_mul(
                &int_from(scale),
                &tetrahedral_sum(tj1, tj2, tj3, tj6, tj9, tk),
            ),
            &tetrahedral_sum(tj6, tj4, tj5, tj8, tj2, tk),
        ),
        &tetrahedral_sum(tj8, tj9, tj7, tj1, tj4, tk),
    );
    proof {
        reveal(w9j_term);
    }
    r
}

/// The 9-j sum over `2k` of `(-1)^(2k) (2k + 1)` times three tetrahedral sums.
#[verifier::rlimit(50)]
fn wigner_9j_sum(w: Wigner9j) -> (r: Integer)
    requires
        w9j_admissible(w),
        w9j_in_range(w),
    ensures
        integer_value(r) == w9j_partial(w, w9j_tkmin(w), w9j_tkmax(w)),
{
    let Wigner9j { tj1, tj2, tj3, tj4, tj5, tj6, tj7, tj8, tj9 } = w;
    let d1 = if tj8 >= tj4 { tj8 - tj4 } else { tj4 - tj8 };
    let d2 = if tj2 >= tj6 { tj2 - tj6 } else { tj6 - tj2 };
    let d3 = if tj1 >= tj9 { tj1 - tj9 } else { tj9 - tj1 };
    let e1 = if d1 >= d2 { d1 } else { d2 };
    let tkmin = if e1 >= d3 { e1 } else { d3 };
    let u1 = if tj8 + tj4 <= tj2 + tj6 { tj8 + tj4 } else { tj2 + tj6 };
    let tkmax = if u1 <= tj1 + tj9 { u1 } else { tj1 + tj9 };
    let mut z2 = int_from(0);
    let mut tk = tkmin;
    while tk <= tkmax
        invariant
            w9j_admissible(w),
            w9j_in_range(w),
            tkmin == w9j_tkmin(w),
            tkmax == w9j_tkmax(w),
            tkmax <= 0x2000_0000,
            tkmin <= tk,
            tk <= tkmax + 2 || tk == tkmin,
            (tk - tkmin) % 2 == 0,
            integer_value(z2) == w9j_partial(w, tkmin as int, tk - 2),
        decreases tkmax + 2 - tk,
    {
        let term = wigner_9j_term(w, tk, tkmin, tkmax);
        z2 = int_add(&z2, &term);
        tk += 2;
    }
    proof {
        lemma_9j_bounds_parity(w);
        if tk != tkmin {
            assert(tk == tkmax + 2) by {
                lemma_even_combine(tk - tkmin, tkmax - tkmin, tk - tkmax);
            }
        }
    }
    z2
}

/// The product of the six triangular factors of a 9-j symbol.
fn wigner_9j_triangles(w: Wigner9j) -> (r: Rational)
    requires
        w9j_admissible(w),
        w9j_in_range(w),
    ensures
        proper(rational_value(r)),
        same_ratio(rational_value(r), w9j_triangles(w)),
        rational_value(r).0 > 0,
{
    let Wigner9j { tj1, tj2, tj3, tj4, tj5, tj6, tj7, tj8, tj9 } = w;
    let t1 = triangular_factor(tj1, tj2, tj3);
    let t2 = triangular_factor(tj4, tj5, tj6);
    let t3 = triangular_factor(tj7, tj8, tj9);
    let t4 = triangular_factor(tj1, tj4, tj7);
    let t5 = triangular_factor(tj2, tj5, tj8);
    let t6 = triangular_factor(tj3, tj6, tj9);
    let t12 = rat_mul(&t1, &t2);
    let t123 = rat_mul(&t12, &t3);
    let t1234 = rat_mul(&t123, &t4);
    let t12345 = rat_mul(&t1234, &t5);
    let z1 = rat_mul(&t12345, &t6);
    let ghost (s1, s2, s3, s4, s5, s6) = (
        triangular_spec(tj1 as int, tj2 as int, tj3 as int),
        triangular_spec(tj4 as int, tj5 as int, tj6 as int),
        triangular_spec(tj7 as int, tj8 as int, tj9 as int),
        triangular_spec(tj1 as int, tj4 as int, tj7 as int),
        triangular_spec(tj2 as int, tj5 as int, tj8 as int),
        triangular_spec(tj3 as int, tj6 as int, tj9 as int),
    );
    proof {
        lemma_triangular_spec_pos(tj1 as int, tj2 as int, tj3 as int);
        lemma_triangular_spec_pos(tj4 as int, tj5 as int, tj6 as int);
        lemma_triangular_spec_pos(tj7 as int, tj8 as int, tj9 as int);
        lemma_triangular_spec_pos(tj1 as int, tj4 as int, tj7 as int);
        lemma_triangular_spec_pos(tj2 as int, tj5 as int, tj8 as int);
        lemma_triangular_spec_pos(tj3 as int, tj6 as int, tj9 as int);
        let q2 = qmul(s1, s2);
        let q3 = qmul(q2, s3);
        let q4 = qmul(q3, s4);
        let q5 = qmul(q4, s5);
        let q6 = qmul(q5, s6);
        crate::bignum::lemma_q_pos(s1, s2);
        crate::bignum::lemma_q_pos(q2, s3);
        crate::bignum::lemma_q_pos(q3, s4);
        crate::bignum::lemma_q_pos(q4, s5);
        crate::bignum::lemma_q_pos(q5, s6);
        crate::bignum::lemma_mul_step(rational_value(t12), rational_value(t1), rational_value(t2), s1, s2);
        crate::bignum::lemma_mul_step(rational_value(t123), rational_value(t12), rational_value(t3), q2, s3);
        crate::bignum::lemma_mul_step(rational_value(t1234), rational_value(t123),
            rational_value(t4), q3, s4);
        crate::bignum::lemma_mul_step(rational_value(t12345), rational_value(t1234),
            rational_value(t5), q4, s5);
        crate::bignum::lemma_mul_step(rational_value(z1), rational_value(t12345), rational_value(t6), q5, s6);
        assert(q6 == w9j_triangles(w));
        crate::bignum::lemma_same_ratio_sign(rational_value(z1), q6);
    }
    z1
}

/// Calculates the Wigner 9-j symbol. The selection rules are not checked.
pub fn wigner_9j_raw(w: Wigner9j) -> (r: SignedSqrt)
    requires
        w9j_admissible(w),
        w9j_in_range(w),
    ensures
        proper(r@),
        same_ratio(r@, w9j_raw_spec(w)),
{
    let z2 = wigner_9j_sum(w);
    let z1 = wigner_9j_triangles(w);
    let ghost zv = integer_value(z2);
    let r = SignedSqrt::new(z2, z1);
    proof {
        lemma_signed_sqrt_congr(r@, zv, rational_value(z1), w9j_triangles(w));
    }
    r
}

/// Absorption: `C(n, j) j = C(n, j - 1) (n - j + 1)`.
proof fn lemma_binom_absorb(n: int, j: int)
    requires
        n >= 0,
        j >= 1,
    ensures
        binom(n, j) * j == binom(n, j - 1) * (n - j + 1),
    decreases n,
{
    if n == 0 {
        lemma_binom_zero_above(0, j);
        if j > 1 {
            lemma_binom_zero_above(0, j - 1);
        }
        assert(binom(n, j) == 0);
        assert(binom(n, j) * j == 0);
        assert(binom(n, j - 1) * (n - j + 1) == 0) by (nonlinear_arith)
            requires
                j == 1 || binom(n, j - 1) == 0,
                n == 0,
        ;
    } else {
        // C(n, j) = C(n-1, j-1) + C(n-1, j); C(n, j-1) = C(n-1, j-2) + C(n-1, j-1)
        assert(binom(n, j) == binom(n - 1, j - 1) + binom(n - 1, j));
        if j >= 2 {
            lemma_binom_absorb(n - 1, j - 1);
            lemma_binom_absorb(n - 1, j);
            assert(binom(n, j - 1) == binom(n - 1, j - 2) + binom(n - 1, j - 1));
            assert(binom(n, j) * j == binom(n, j - 1) * (n - j + 1)) by (nonlinear_arith)
                requires
                    binom(n, j) == binom(n - 1, j - 1) + binom(n - 1, j),
                    binom(n, j - 1) == binom(n - 1, j - 2) + binom(n - 1, j - 1),
                    binom(n - 1, j - 1) * (j - 1) == binom(n - 1, j - 2) * (n - j + 1),
                    binom(n - 1, j) * j == binom(n - 1, j - 1) * (n - j),
            ;
        } else {
            lemma_binom_absorb(n - 1, 1);
            assert(binom(n, 0) == 1 && binom(n - 1, 0) == 1);
            assert(binom(n, 1) == binom(n - 1, 0) + binom(n - 1, 1));
            assert(binom(n - 1, 1) == n - 1);
            assert(binom(n, 1) == n);
        }
    }
}

/// The selection rules of a 3-jm symbol: projections sum to zero and lie in
/// their multiplets with matching parity, and the triangle condition holds.
pub open spec fn w3jm_admissible(w: Wigner3jm) -> bool {
    &&& w.tm1 + w.tm2 + w.tm3 == 0
    &&& abs_int(w.tm1 as int) <= w.tj1
    &&& abs_int(w.tm2 as int) <= w.tj2
    &&& abs_int(w.tm3 as int) <= w.tj3
    &&& (w.tj1 + w.tm1) % 2 == 0
    &&& (w.tj2 + w.tm2) % 2 == 0
    &&& triangle(w.tj1 as int, w.tj2 as int, w.tj3 as int)
}

/// Every argument of the 3-jm symbol is within range.
pub open spec fn w3jm_in_range(w: Wigner3jm) -> bool {
    &&& tj_in_range(w.tj1 as int) && tj_in_range(w.tm1 as int) && tj_in_range(w.tj2 as int)
    &&& tj_in_range(w.tm2 as int) && tj_in_range(w.tj3 as int) && tj_in_range(w.tm3 as int)
}

/// One term of the 3-jm sum:
/// `(-1)^k C(j1 + j2 - j3, k) C(j1 - j2 + j3, j1 - m1 - k) C(-j1 + j2 + j3, j2 + m2 - k)`.
pub open spec fn w3jm_term(w: Wigner3jm, k: int) -> int {
    let (tj1, tm1, tj2, tm2, tj3) = (w.tj1 as int, w.tm1 as int, w.tj2 as int, w.tm2 as int, w.tj3 as int);
    phase_spec(k) * binom((tj2 - tj3 + tj1) / 2, k) * binom((tj1 - tj2 + tj3) / 2, (tj1 - tm1) / 2 - k)
        * binom((tj3 - tj1 + tj2) / 2, (tj2 + tm2) / 2 - k)
}

/// The 3-jm terms from `lo` up to `k`.
pub open spec fn w3jm_partial(w: Wigner3jm, lo: int, k: int) -> int
    decreases k - lo + 1,
{
    if k < lo {
        0
    } else {
        w3jm_partial(w, lo, k - 1) + w3jm_term(w, k)
    }
}

/// Lower bound of the 3-jm summation index.
pub open spec fn w3jm_kmin(w: Wigner3jm) -> int {
    max_int(0, max_int(w.tj1 - w.tj3 + w.tm2, w.tj2 - w.tj3 - w.tm1)) / 2
}

/// Upper bound of the 3-jm summation index.
pub open spec fn w3jm_kmax(w: Wigner3jm) -> int {
    min_int(min_int((w.tj2 - w.tj3 + w.tj1) / 2, (w.tj1 - w.tm1) / 2), (w.tj2 + w.tm2) / 2)
}

/// The prefactor of the 3-jm sum, as a fraction.
pub open spec fn w3jm_prefactor(w: Wigner3jm) -> (int, int) {
    let (tj1, tm1, tj2, tm2, tj3, tm3) = (
        w.tj1 as int,
        w.tm1 as int,
        w.tj2 as int,
        w.tm2 as int,
        w.tj3 as int,
        w.tm3 as int,
    );
    let (jjj1, jjj2, jjj3) = ((tj1 - tj2 + tj3) / 2, (tj2 - tj3 + tj1) / 2, (tj3 - tj1 + tj2) / 2);
    qmul(
        (
            binom(tj1, jjj1) * binom(tj2, jjj2) * binom(tj3, jjj3),
            binom(tj1, (tj1 + tm1) / 2) * binom(tj2, (tj2 + tm2) / 2) * binom(tj3, (tj3 + tm3) / 2),
        ),
        triangular_raw_spec((tj1 + tj2 + tj3) / 2 + 1, jjj1, jjj2, jjj3),
    )
}

/// The 3-jm symbol times `(-1)^(j1 - j2 - m3)`, as the fraction its `SignedSqrt` stores.
pub open spec fn w3jm_raw_spec(w: Wigner3jm) -> (int, int) {
    signed_sqrt_spec(w3jm_partial(w, w3jm_kmin(w), w3jm_kmax(w)), w3jm_prefactor(w))
}

/// The next term of the 3-jm sum, from the one before it by ratios of binomials.
#[verifier::rlimit(50)]
fn wigner_3jm_next_term(w: Wigner3jm, c: &Integer, k: i32) -> (r: Integer)
    requires
        w3jm_admissible(w),
        w3jm_in_range(w),
        w3jm_kmin(w) < k <= w3jm_kmax(w),
        integer_value(*c) == w3jm_term(w, k - 1),
    ensures
        integer_value(r) == w3jm_term(w, k as int),
{
    let Wigner3jm { tj1, tm1, tj2, tm2, tj3, tm3 } = w;
    proof {
        lemma_triangle_facts(tj1 as int, tj2 as int, tj3 as int);
    }
    let jjj1 = (tj1 - tj2 + tj3) / 2;
    let jjj2 = (tj2 - tj3 + tj1) / 2;
    let jjj3 = (tj3 - tj1 + tj2) / 2;
    let jm2 = (tj2 + tm2) / 2;
    let jsm1 = (tj1 - tm1) / 2;
    let ghost (n1, n2, n3, a, b) = (jjj1 as int, jjj2 as int, jjj3 as int, jsm1 as int, jm2 as int);
    let ghost kk = k as int;
    let ghost p = phase_spec(kk);
    let ghost (ak, ak1) = (binom(n2, kk), binom(n2, kk - 1));
    let ghost (bk, bk1) = (binom(n1, a - kk), binom(n1, a - kk + 1));
    let ghost (ck, ck1) = (binom(n3, b - kk), binom(n3, b - kk + 1));
    proof {
        assert(phase_spec(kk - 1) == -p);
        lemma_binom_absorb(n2, kk);
        lemma_binom_absorb(n1, a - kk + 1);
        lemma_binom_absorb(n3, b - kk + 1);
        assert(integer_value(*c) == -p * ak1 * bk1 * ck1);
    }
    let d1 = int_from(k as i64);
    let d2 = int_from((jjj1 - (jsm1 - k)) as i64);
    let d3 = int_from((jjj3 - (jm2 - k)) as i64);
    let a2 = int_mul(&int_neg(c), &int_from((jjj2 - k + 1) as i64));
    proof {
        let x = p * bk1 * ck1;
        assert(integer_value(a2) == x * (ak1 * (n2 - kk + 1))) by (nonlinear_arith)
            requires
                integer_value(a2) == -(-p * ak1 * bk1 * ck1) * (n2 - kk + 1),
                x == p * bk1 * ck1,
        ;
        assert(x * (ak * kk) == (p * ak * bk1 * ck1) * kk) by (nonlinear_arith)
            requires
                x == p * bk1 * ck1,
        ;
        crate::bignum::lemma_quot_exact(p * ak * bk1 * ck1, kk);
    }
    let a3 = int_div(&a2, &d1);
    let a4 = int_mul(&a3, &int_from((jsm1 - k + 1) as i64));
    proof {
        let y = p * ak * ck1;
        assert(integer_value(a4) == y * (bk1 * (a - kk + 1))) by (nonlinear_arith)
            requires
                integer_value(a4) == (p * ak * bk1 * ck1) * (a - kk + 1),
                y == p * ak * ck1,
        ;
        assert(y * (bk * (n1 - a + kk)) == (p * ak * bk * ck1) * (n1 - a + kk)) by (nonlinear_arith)
            requires
                y == p * ak * ck1,
        ;
        crate::bignum::lemma_quot_exact(p * ak * bk * ck1, n1 - a + kk);
    }
    let a5 = int_div(&a4, &d2);
    let a6 = int_mul(&a5, &int_from((jm2 - k + 1) as i64));
    proof {
        let z = p * ak * bk;
        assert(integer_value(a6) == z * (ck1 * (b - kk + 1))) by (nonlinear_arith)
            requires
                integer_value(a6) == (p * ak * bk * ck1) * (b - kk + 1),
                z == p * ak * bk,
        ;
        assert(z * (ck * (n3 - b + kk)) == (p * ak * bk * ck) * (n3 - b + kk)) by (nonlinear_arith)
            requires
                z == p * ak * bk,
        ;
        crate::bignum::lemma_quot_exact(p * ak * bk * ck, n3 - b + kk);
    }
    int_div(&a6, &d3)
}

/// What the selection rules of a 3-jm symbol give of its derived quantities.
proof fn lemma_3jm_facts(w: Wigner3jm)
    requires
        w3jm_admissible(w),
    ensures
        w.tj1 >= 0 && w.tj2 >= 0 && w.tj3 >= 0,
        (w.tj3 + w.tm3) % 2 == 0,
        (w.tj1 - w.tm1) % 2 == 0,
        (w.tj2 - w.tm2) % 2 == 0,
        (w.tj1 - w.tj3 + w.tm2) % 2 == 0,
        (w.tj2 - w.tj3 - w.tm1) % 2 == 0,
        (w.tj1 - w.tj2 + w.tj3) % 2 == 0,
        (w.tj2 - w.tj3 + w.tj1) % 2 == 0,
        (w.tj3 - w.tj1 + w.tj2) % 2 == 0,
        (w.tj1 + w.tj2 + w.tj3) % 2 == 0,
{
    let (tj1, tm1, tj2, tm2, tj3, tm3) = (
        w.tj1 as int,
        w.tm1 as int,
        w.tj2 as int,
        w.tm2 as int,
        w.tj3 as int,
        w.tm3 as int,
    );
    lemma_triangle_facts(tj1, tj2, tj3);
    lemma_even_combine(tj1 + tm1, 2 * tm1, tj1 - tm1);
    lemma_even_combine(tj2 + tm2, 2 * tm2, tj2 - tm2);
    lemma_even_combine(tj2 - tj3 + tj1, tj1 - tm1, tj2 - tj3 + tm1);
    lemma_even_combine(tj2 - tj3 + tm1, tj2 - tm2, tm1 + tm2 - tj3);
    lemma_even_combine(0, tm1 + tm2 - tj3, tj3 + tm3);
    lemma_even_combine(tj1 - tj2 + tj3, tj2 - tm2, tj1 - tj3 + tm2 + 2 * tj3 - 2 * tj2);
    lemma_even_combine(tj1 - tj3 + tm2 + 2 * tj3 - 2 * tj2, 2 * tj3 - 2 * tj2, tj1 - tj3 + tm2);
    lemma_even_combine(tj2 - tj3 + tm1, 2 * tm1, tj2 - tj3 - tm1);
}

/// The prefactor of the 3-jm sum: a ratio of binomials times a triangular factor.
fn wigner_3jm_prefactor(w: Wigner3jm) -> (r: Rational)
    requires
        w3jm_admissible(w),
        w3jm_in_range(w),
    ensures
        proper(rational_value(r)),
        same_ratio(rational_value(r), w3jm_prefactor(w)),
        rational_value(r).0 > 0,
{
    let Wigner3jm { tj1, tm1, tj2, tm2, tj3, tm3 } = w;
    proof {
        lemma_3jm_facts(w);
    }
    let jjj1 = (tj1 - tj2 + tj3) / 2;
    let jjj2 = (tj2 - tj3 + tj1) / 2;
    let jjj3 = (tj3 - tj1 + tj2) / 2;
    let jjj = (tj1 + tj2 + tj3) / 2 + 1;
    let jm1 = (tj1 + tm1) / 2;
    let jm2 = (tj2 + tm2) / 2;
    let jm3 = (tj3 + tm3) / 2;
    let num = int_mul(&int_mul(&binomial(tj1, jjj1), &binomial(tj2, jjj2)), &binomial(tj3, jjj3));
    let den = int_mul(&int_mul(&binomial(tj1, jm1), &binomial(tj2, jm2)), &binomial(tj3, jm3));
    let ghost (nv, dv) = (integer_value(num), integer_value(den));
    proof {
        lemma_binom_pos(tj1 as int, jjj1 as int);
        lemma_binom_pos(tj2 as int, jjj2 as int);
        lemma_binom_pos(tj3 as int, jjj3 as int);
        lemma_binom_pos(tj1 as int, jm1 as int);
        lemma_binom_pos(tj2 as int, jm2 as int);
        lemma_binom_pos(tj3 as int, jm3 as int);
        assert(nv > 0 && dv > 0) by (nonlinear_arith)
            requires
                nv == binom(tj1 as int, jjj1 as int) * binom(tj2 as int, jjj2 as int) * binom(
                    tj3 as int,
                    jjj3 as int,
                ),
                dv == binom(tj1 as int, jm1 as int) * binom(tj2 as int, jm2 as int) * binom(
                    tj3 as int,
                    jm3 as int,
                ),
                binom(tj1 as int, jjj1 as int) > 0,
                binom(tj2 as int, jjj2 as int) > 0,
                binom(tj3 as int, jjj3 as int) > 0,
                binom(tj1 as int, jm1 as int) > 0,
                binom(tj2 as int, jm2 as int) > 0,
                binom(tj3 as int, jm3 as int) > 0,
        ;
        lemma_triangular_pos(jjj as int, jjj1 as int, jjj2 as int, jjj3 as int);
    }
    let ratio = rat_from(num, den);
    let tri = triangular_factor_raw(jjj, jjj1, jjj2, jjj3);
    let r = rat_mul(&ratio, &tri);
    proof {
        let t = triangular_raw_spec(jjj as int, jjj1 as int, jjj2 as int, jjj3 as int);
        crate::bignum::lemma_mul_step(
            rational_value(r),
            rational_value(ratio),
            rational_value(tri),
            (nv, dv),
            t,
        );
        crate::bignum::lemma_q_pos((nv, dv), t);
        crate::bignum::lemma_same_ratio_sign(rational_value(r), qmul((nv, dv), t));
    }
    r
}

/// The 3-jm sum, its terms generated one from the next by ratios of binomials.
#[verifier::rlimit(80)]
fn wigner_3jm_sum(w: Wigner3jm) -> (r: Integer)
    requires
        w3jm_admissible(w),
        w3jm_in_range(w),
    ensures
        integer_value(r) == w3jm_partial(w, w3jm_kmin(w), w3jm_kmax(w)),
{
    let Wigner3jm { tj1, tm1, tj2, tm2, tj3, tm3 } = w;
    proof {
        lemma_3jm_facts(w);
    }
    let jjj1 = (tj1 - tj2 + tj3) / 2;
    let jjj2 = (tj2 - tj3 + tj1) / 2;
    let jjj3 = (tj3 - tj1 + tj2) / 2;
    let jm2 = (tj2 + tm2) / 2;
    let jsm1 = (tj1 - tm1) / 2;
    proof {
        reveal(sorted3);
    }
    let kmin = sort3(0, tj1 - tj3 + tm2, tj2 - tj3 - tm1).2 / 2;
    let kmax = sort3(jjj2, jsm1, jm2).0;
    if kmin > kmax {
        return int_from(0);
    }
    let c0 = int_mul(
        &int_mul(
            &int_mul(&int_from(phase(kmin) as i64), &binomial(jjj2, kmin)),
            &binomial(jjj1, jsm1 - kmin),
        ),
        &binomial(jjj3, jm2 - kmin),
    );
    proof {
        assert(w3jm_partial(w, kmin as int, kmin - 1) == 0);
        assert(w3jm_partial(w, kmin as int, kmin as int) == w3jm_term(w, kmin as int));
    }
    let mut s = c0.clone();
    let mut c = c0;
    let mut k = kmin + 1;
    while k <= kmax
        invariant
            w3jm_admissible(w),
            w3jm_in_range(w),
            kmin == w3jm_kmin(w),
            kmax == w3jm_kmax(w),
            kmin < k <= kmax + 1,
            kmax < 0x4000_0000,
            integer_value(c) == w3jm_term(w, k - 1),
            integer_value(s) == w3jm_partial(w, kmin as int, k - 1),
        decreases kmax + 1 - k,
    {
        c = wigner_3jm_next_term(w, &c, k);
        s = int_add(&s, &c);
        k += 1;
    }
    s
}

/// Calculates the Wigner 3-jm symbol times `(-1)^(j1 - j2 - m3)`.
/// The selection rules are not checked.
pub fn wigner_3jm_raw(w: Wigner3jm) -> (r: SignedSqrt)
    requires
        w3jm_admissible(w),
        w3jm_in_range(w),
    ensures
        proper(r@),
        same_ratio(r@, w3jm_raw_spec(w)),
{
    let z1 = wigner_3jm_prefactor(w);
    let z2 = wigner_3jm_sum(w);
    let ghost zv = integer_value(z2);
    let r = SignedSqrt::new(z2, z1);
    proof {
        lemma_signed_sqrt_congr(r@, zv, rational_value(z1), w3jm_prefactor(w));
    }
    r
}

/// The 3-jm symbol times `(-1)^(j1 - j2 - m3)`: zero where the selection rules fail.
pub open spec fn w3jm_raw_c_spec(w: Wigner3jm) -> (int, int) {
    if w3jm_admissible(w) {
        w3jm_raw_spec(w)
    } else {
        (0, 1)
    }
}

/// Calculates the Wigner 3-jm symbol times `(-1)^(j1 - j2 - m3)`, checking the
/// selection rules first.
pub fn wigner_3jm_raw_c(w: Wigner3jm) -> (r: SignedSqrt)
    requires
        w3jm_in_range(w),
    ensures
        proper(r@),
        same_ratio(r@, w3jm_raw_c_spec(w)),
{
    let Wigner3jm { tj1, tm1, tj2, tm2, tj3, tm3 } = w;
    let jmr1 = (tj1 + tm1) % 2;
    let jmr2 = (tj2 + tm2) % 2;
    let a1 = if tm1 < 0 { -tm1 } else { tm1 };
    let a2 = if tm2 < 0 { -tm2 } else { tm2 };
    let a3 = if tm3 < 0 { -tm3 } else { tm3 };
    assert(jmr1 == 0 <==> (tj1 + tm1) % 2 == 0);
    assert(jmr2 == 0 <==> (tj2 + tm2) % 2 == 0);
    let tri = triangle_condition(tj1, tj2, tj3);
    if tm1 as i64 + tm2 as i64 + tm3 as i64 == 0 && a1 <= tj1 && a2 <= tj2 && a3 <= tj3 && jmr1
        == 0 && jmr2 == 0 && tri {
        assert(w3jm_admissible(w));
        wigner_3jm_raw(w)
    } else {
        assert(!w3jm_admissible(w));
        let r = SignedSqrt::zero();
        assert(same_ratio(r@, (0, 1))) by (nonlinear_arith)
            requires
                r@.0 == 0,
        ;
        r
    }
}

/// A range walked with a stride: `iter.start`, `iter.start + step`, ... below
/// `iter.end` (a stride of 0 walks like 1).
pub struct Step {
    pub iter: Range<i32>,
    pub step: usize,
}

/// The stride a `Step` advances by.
pub open spec fn stride(s: &Step) -> int {
    if s.step <= 1 { 1 } else { s.step as int }
}

/// `r` lists what a `Step` yields: the values `start + i * stride` below `end`.
pub open spec fn yields(s: &Step, r: Seq<i32>) -> bool {
    &&& forall|i: int| 0 <= i < r.len() ==> #[trigger] r[i] == s.iter.start + i * stride(s)
    &&& s.iter.start + r.len() * stride(s) >= s.iter.end
    &&& r.len() > 0 ==> s.iter.start + (r.len() - 1) * stride(s) < s.iter.end
}

impl Step {
    /// The values this range yields, in order.
    pub fn to_vec(&self) -> (r: Vec<i32>)
        ensures
            yields(self, r@),
    {
        let mut r: Vec<i32> = Vec::new();
        let su = self.step as u64;
        let st: i64 = if su <= 1 {
            1
        } else if su >= 0x1_0000_0000 {
            0x1_0000_0000
        } else {
            su as i64
        };
        let start = self.iter.start as i64;
        let end = self.iter.end as i64;
        let mut v = start;
        assert(start + 0 * st == start) by (nonlinear_arith);
        while v < end
            invariant
                st >= 1,
                st <= 0x1_0000_0000,
                start == self.iter.start,
                end == self.iter.end,
                v == start + r@.len() * st,
                r@.len() > 0 ==> start + (r@.len() - 1) * st < end,
                forall|i: int| 0 <= i < r@.len() ==> #[trigger] r@[i] == start + i * st,
            decreases end + st - v,
        {
            assert(start + (r@.len() + 1) * st == start + r@.len() * st + st) by (nonlinear_arith);
            r.push(v as i32);
            v += st;
        }
        proof {
            if su >= 0x1_0000_0000 {
                assert(r@.len() <= 1) by (nonlinear_arith)
                    requires
                        r@.len() > 0 ==> start + (r@.len() - 1) * st < end,
                        st == 0x1_0000_0000,
                        -0x8000_0000 <= start,
                        end <= 0x7fff_ffff,
                ;
                assert(start + r@.len() * (self.step as int) >= end) by (nonlinear_arith)
                    requires
                        start + r@.len() * st >= end,
                        r@.len() <= 1,
                        st <= self.step,
                        r@.len() == 0 ==> start >= end,
                ;
            }
        }
        r
    }
}

/// The values `|tj1 - tj2|, |tj1 - tj2| + 2, ..., min(tj_max, tj1 + tj2)`: every
/// `tj3 <= tj_max` that completes a triangle with `tj1` and `tj2`.
pub fn get_triangular_tjs(tj_max: i32, tj1: i32, tj2: i32) -> (r: Step)
    requires
        tj_in_range(tj_max as int),
        tj_in_range(tj1 as int),
        tj_in_range(tj2 as int),
    ensures
        r.iter.start == abs_int(tj1 - tj2),
        r.iter.end == min_int(tj_max as int, tj1 + tj2) + 1,
        r.step == 2,
{
    let d = tj1 - tj2;
    let s = tj1 + tj2;
    Step { iter: (if d < 0 { -d } else { d })..(if tj_max <= s { tj_max } else { s }) + 1, step: 2 }
}

/// The values of `tj` that complete triangles with both `(tj1, tj2)` and
/// `(tj3, tj4)`, up to `tj_max`; none where the parities disagree.
pub fn get_bitriangular_tjs(tj_max: i32, tj1: i32, tj2: i32, tj3: i32, tj4: i32) -> (r: Step)
    requires
        tj_in_range(tj_max as int),
        tj_in_range(tj1 as int),
        tj_in_range(tj2 as int),
        tj_in_range(tj3 as int),
        tj_in_range(tj4 as int),
    ensures
        (tj1 + tj2 + tj3 + tj4) % 2 != 0 ==> r.iter.start == 0 && r.iter.end == 0,
        (tj1 + tj2 + tj3 + tj4) % 2 == 0 ==> r.iter.start == max_int(
            abs_int(tj1 - tj2),
            abs_int(tj3 - tj4),
        ) && r.iter.end == min_int(min_int(tj_max as int, tj1 + tj2), min_int(tj_max as int, tj3 + tj4))
            + 1,
        r.step == 2,
{
    let iter = if (tj1 + tj2 + tj3 + tj4) % 2 != 0 {
        0..0
    } else {
        intersect_ranges(get_triangular_tjs(tj_max, tj1, tj2).iter, get_triangular_tjs(tj_max, tj3, tj4).iter)
    };
    Step { iter, step: 2 }
}

/// Every projection in the multiplet of `j`: `-tj, -tj + 2, ..., tj`.
pub fn get_tms(tj: i32) -> (r: Step)
    requires
        tj_in_range(tj as int),
    ensures
        r.iter.start == -tj,
        r.iter.end == tj + 1,
        r.step == 2,
{
    Step { iter: -tj..tj + 1, step: 2 }
}

/// A cutoff small enough for the enumerations.
pub open spec fn cutoff_in_range(tj_max: int) -> bool {
    0 <= tj_max <= 0x0100_0000
}

/// A 3-jm symbol that the enumeration up to `tj_max` yields: one that satisfies the
/// selection rules, with each `tj` at most `tj_max`.
pub open spec fn w3jm_enumerable(w: Wigner3jm, tj_max: int) -> bool {
    &&& w3jm_admissible(w)
    &&& w.tj1 <= tj_max && w.tj2 <= tj_max && w.tj3 <= tj_max
}

/// `x` comes before `c`, or ties with it and `rest` holds.
pub open spec fn lex_step(x: int, c: int, rest: bool) -> bool {
    x < c || (x == c && rest)
}

/// The loop coordinates `(tj1, tj2, tj3, tm1, tm2)` of a 3-jm symbol.
pub open spec fn w3jm_key(w: Wigner3jm) -> (int, int, int, int, int) {
    (w.tj1 as int, w.tj2 as int, w.tj3 as int, w.tm1 as int, w.tm2 as int)
}

/// Compared on its first `n` loop coordinates, `w` comes before `c`.
pub open spec fn w3jm_before(w: Wigner3jm, n: int, c: (int, int, int, int, int)) -> bool {
    n >= 1 && lex_step(
        w.tj1 as int,
        c.0,
        n >= 2 && lex_step(
            w.tj2 as int,
            c.1,
            n >= 3 && lex_step(w.tj3 as int, c.2, n >= 4 && lex_step(w.tm1 as int, c.3, n >= 5
                && w.tm2 < c.4)),
        ),
    )
}

/// `out` lists, in increasing order of loop coordinates, exactly the enumerable
/// 3-jm symbols that come before `c` on the first `n` coordinates.
pub open spec fn w3jm_listed(out: Seq<Wigner3jm>, tj_max: int, n: int, c: (int, int, int, int, int)) -> bool {
    &&& forall|i: int|
        0 <= i < out.len() ==> w3jm_enumerable(#[trigger] out[i], tj_max) && w3jm_before(out[i], n, c)
    &&& forall|w: Wigner3jm|
        w3jm_enumerable(w, tj_max) && #[trigger] w3jm_before(w, n, c) ==> out.contains(w)
    &&& forall|i: int, j: int|
        0 <= i < j < out.len() ==> w3jm_before(#[trigger] out[i], 5, w3jm_key(#[trigger] out[j]))
}

/// Changing the cursor to one that puts the same enumerable symbols first keeps a listing.
proof fn lemma_w3jm_relisted(
    out: Seq<Wigner3jm>,
    tj_max: int,
    n: int,
    c: (int, int, int, int, int),
    n2: int,
    c2: (int, int, int, int, int),
)
    requires
        w3jm_listed(out, tj_max, n, c),
        forall|w: Wigner3jm|
            w3jm_enumerable(w, tj_max) ==> (w3jm_before(w, n, c) <==> #[trigger] w3jm_before(w, n2, c2)),
    ensures
        w3jm_listed(out, tj_max, n2, c2),
{
    assert forall|i: int| 0 <= i < out.len() implies w3jm_enumerable(#[trigger] out[i], tj_max)
        && w3jm_before(out[i], n2, c2) by {
        assert(w3jm_enumerable(out[i], tj_max) && w3jm_before(out[i], n, c));
    }
    assert forall|w: Wigner3jm| w3jm_enumerable(w, tj_max)
        && #[trigger] w3jm_before(w, n2, c2) implies out.contains(w) by {
        assert(w3jm_before(w, n, c));
    }
}

/// Every 3-jm symbol that satisfies the selection rules with every `tj` at most
/// `tj_max`, each once, in increasing order of `(tj1, tj2, tj3, tm1, tm2)` (the
/// order of nested loops over these).
#[verifier::rlimit(100)]
pub fn get_3tjms(tj_max: i32) -> (r: Vec<Wigner3jm>)
    requires
        cutoff_in_range(tj_max as int),
    ensures
        forall|w: Wigner3jm| r@.contains(w) <==> w3jm_enumerable(w, tj_max as int),
        forall|i: int, j: int|
            0 <= i < j < r@.len() ==> w3jm_before(#[trigger] r@[i], 5, w3jm_key(#[trigger] r@[j])),
{
    let ghost m = tj_max as int;
    let mut out: Vec<Wigner3jm> = Vec::new();
    let mut tj1: i32 = 0;
    while tj1 <= tj_max
        invariant
            cutoff_in_range(m),
            m == tj_max,
            0 <= tj1 <= tj_max + 1,
            w3jm_listed(out@, m, 1, (tj1 as int, 0, 0, 0, 0)),
        decreases tj_max + 1 - tj1,
    {
        proof {
            lemma_w3jm_relisted(out@, m, 1, (tj1 as int, 0, 0, 0, 0), 2, (tj1 as int, 0, 0, 0, 0));
        }
        let mut tj2: i32 = 0;
        while tj2 <= tj_max
            invariant
                cutoff_in_range(m),
                m == tj_max,
                0 <= tj1 <= tj_max,
                0 <= tj2 <= tj_max + 1,
                w3jm_listed(out@, m, 2, (tj1 as int, tj2 as int, 0, 0, 0)),
            decreases tj_max + 1 - tj2,
        {
            let tj3s = get_triangular_tjs(tj_max, tj1, tj2);
            let mut tj3 = tj3s.iter.start;
            proof {
                assert forall|w: Wigner3jm| w3jm_enumerable(w, m) implies (w3jm_before(
                    w,
                    2,
                    (tj1 as int, tj2 as int, 0, 0, 0),
                ) <==> #[trigger] w3jm_before(w, 3, (tj1 as int, tj2 as int, tj3 as int, 0, 0))) by {
                    lemma_triangle_symmetric(w.tj1 as int, w.tj2 as int, w.tj3 as int);
                }
                lemma_w3jm_relisted(
                    out@,
                    m,
                    2,
                    (tj1 as int, tj2 as int, 0, 0, 0),
                    3,
                    (tj1 as int, tj2 as int, tj3 as int, 0, 0),
                );
            }
            while tj3 < tj3s.iter.end
                invariant
                    cutoff_in_range(m),
                    m == tj_max,
                    0 <= tj1 <= tj_max,
                    0 <= tj2 <= tj_max,
                    tj3s.iter.start == abs_int(tj1 - tj2),
                    tj3s.iter.end == min_int(tj_max as int, tj1 + tj2) + 1,
                    tj3s.iter.start <= tj3 <= tj3s.iter.end + 1,
                    (tj3 - tj3s.iter.start) % 2 == 0,
                    w3jm_listed(out@, m, 3, (tj1 as int, tj2 as int, tj3 as int, 0, 0)),
                decreases tj3s.iter.end + 1 - tj3,
            {
                proof {
                    lemma_tri_step(tj1 as int, tj2 as int, tj3 as int);
                    lemma_w3jm_relisted(
                        out@,
                        m,
                        3,
                        (tj1 as int, tj2 as int, tj3 as int, 0, 0),
                        4,
                        (tj1 as int, tj2 as int, tj3 as int, -tj1, 0),
                    );
                }
                let tm1s = get_tms(tj1);
                let mut tm1 = tm1s.iter.start;
                while tm1 < tm1s.iter.end
                    invariant
                        cutoff_in_range(m),
                        m == tj_max,
                        0 <= tj1 <= tj_max,
                        0 <= tj2 <= tj_max,
                        0 <= tj3 <= tj_max,
                        triangle(tj1 as int, tj2 as int, tj3 as int),
                        tm1s.iter.start == -tj1,
                        tm1s.iter.end == tj1 + 1,
                        -tj1 <= tm1 <= tj1 + 2,
                        (tm1 + tj1) % 2 == 0,
                        w3jm_listed(out@, m, 4, (tj1 as int, tj2 as int, tj3 as int, tm1 as int, 0)),
                    decreases tj1 + 2 - tm1,
                {
                    proof {
                        lemma_w3jm_relisted(
                            out@,
                            m,
                            4,
                            (tj1 as int, tj2 as int, tj3 as int, tm1 as int, 0),
                            5,
                            (tj1 as int, tj2 as int, tj3 as int, tm1 as int, -tj2),
                        );
                    }
                    let tm2s = get_tms(tj2);
                    let mut tm2 = tm2s.iter.start;
                    while tm2 < tm2s.iter.end
                        invariant
                            cutoff_in_range(m),
                            m == tj_max,
                            0 <= tj1 <= tj_max,
                            0 <= tj2 <= tj_max,
                            0 <= tj3 <= tj_max,
                            triangle(tj1 as int, tj2 as int, tj3 as int),
                            -tj1 <= tm1 <= tj1,
                            (tm1 + tj1) % 2 == 0,
                            tm2s.iter.start == -tj2,
                            tm2s.iter.end == tj2 + 1,
                            -tj2 <= tm2 <= tj2 + 2,
                            (tm2 + tj2) % 2 == 0,
                            w3jm_listed(
                                out@,
                                m,
                                5,
                                (tj1 as int, tj2 as int, tj3 as int, tm1 as int, tm2 as int),
                            ),
                        decreases tj2 + 2 - tm2,
                    {
                        let tm3 = -(tm1 + tm2);
                        let cand = Wigner3jm { tj1, tm1, tj2, tm2, tj3, tm3 };
                        let ghost c = (tj1 as int, tj2 as int, tj3 as int, tm1 as int, tm2 as int);
                        let ghost c2 = (tj1 as int, tj2 as int, tj3 as int, tm1 as int, tm2 + 2);
                        let ghost old_out = out@;
                        proof {
                            assert forall|w: Wigner3jm| #[trigger] w3jm_enumerable(w, m) implies (
                            w3jm_before(w, 5, c2) <==> (w3jm_before(w, 5, c) || w == cand)) by {
                                if w3jm_key(w) == c {
                                    lemma_even_combine(w.tm2 + w.tj2, 0, w.tm2 + w.tj2);
                                }
                                if w.tj1 == tj1 && w.tj2 == tj2 && w.tj3 == tj3 && w.tm1 == tm1 {
                                    lemma_even_combine(w.tj2 + w.tm2, tm2 + tj2, w.tm2 - tm2);
                                }
                            }
                        }
                        if !(tm3 > tj3 || -tm3 > tj3) {
                            out.push(cand);
                            proof {
                                assert(w3jm_enumerable(cand, m));
                                assert forall|w: Wigner3jm| w3jm_enumerable(w, m)
                                    && #[trigger] w3jm_before(w, 5, c2)
                                    implies out@.contains(w) by {
                                    if w == cand {
                                        assert(out@[out@.len() - 1] == cand);
                                    } else {
                                        assert(old_out.contains(w));
                                        let k = choose|k: int| 0 <= k < old_out.len() && old_out[k] == w;
                                        assert(out@[k] == w);
                                    }
                                }
                                assert forall|i: int| 0 <= i < out@.len() implies w3jm_enumerable(
                                    #[trigger] out@[i],
                                    m,
                                ) && w3jm_before(out@[i], 5, c2) by {
                                    if i < old_out.len() {
                                        assert(out@[i] == old_out[i]);
                                    }
                                }
                                assert forall|i: int, j: int| 0 <= i < j < out@.len() implies w3jm_before(
                                    #[trigger] out@[i],
                                    5,
                                    w3jm_key(#[trigger] out@[j]),
                                ) by {
                                    assert(out@[i] == old_out[i]);
                                    if j < old_out.len() {
                                        assert(out@[j] == old_out[j]);
                                    } else {
                                        assert(w3jm_before(old_out[i], 5, c));
                                    }
                                }
                            }
                        } else {
                            proof {
                                assert(!w3jm_enumerable(cand, m));
                                lemma_w3jm_relisted(out@, m, 5, c, 5, c2);
                            }
                        }
                        tm2 += 2;
                        proof {
                            lemma_even_combine(tm2 - 2 + tj2, 2, tm2 + tj2);
                        }
                    }
                    proof {
                        assert forall|w: Wigner3jm| w3jm_enumerable(w, m) implies (w3jm_before(
                            w,
                            5,
                            (tj1 as int, tj2 as int, tj3 as int, tm1 as int, tm2 as int),
                        ) <==> #[trigger] w3jm_before(w, 4, (tj1 as int, tj2 as int, tj3 as int,
                            tm1 + 2, 0))) by {
                            if w.tj1 == tj1 && w.tj2 == tj2 && w.tj3 == tj3 && w.tm1 == tm1 + 1 {
                                lemma_even_combine(w.tj1 + w.tm1, tm1 + tj1, w.tm1 - tm1);
                            }
                        }
                        lemma_w3jm_relisted(
                            out@,
                            m,
                            5,
                            (tj1 as int, tj2 as int, tj3 as int, tm1 as int, tm2 as int),
                            4,
                            (tj1 as int, tj2 as int, tj3 as int, tm1 + 2, 0),
                        );
                    }
                    tm1 += 2;
                    proof {
                        lemma_even_combine(tm1 - 2 + tj1, 2, tm1 + tj1);
                    }
                }
                proof {
                    assert forall|w: Wigner3jm| w3jm_enumerable(w, m) implies (w3jm_before(
                        w,
                        4,
                        (tj1 as int, tj2 as int, tj3 as int, tm1 as int, 0),
                    ) <==> #[trigger] w3jm_before(w, 3, (tj1 as int, tj2 as int, tj3 + 2, 0, 0))) by {
                        if w.tj1 == tj1 && w.tj2 == tj2 && w.tj3 == tj3 + 1 {
                            lemma_triangle_even(w.tj1 as int, w.tj2 as int, w.tj3 as int);
                            lemma_even_combine(w.tj1 + w.tj2 + w.tj3, tj1 + tj2 - tj3, 2 * tj3 + 1);
                        }
                    }
                    lemma_w3jm_relisted(
                        out@,
                        m,
                        4,
                        (tj1 as int, tj2 as int, tj3 as int, tm1 as int, 0),
                        3,
                        (tj1 as int, tj2 as int, tj3 + 2, 0, 0),
                    );
                }
                tj3 += 2;
                proof {
                    lemma_even_combine(tj3 - 2 - tj3s.iter.start, 2, tj3 - tj3s.iter.start);
                }
            }
            proof {
                assert forall|w: Wigner3jm| w3jm_enumerable(w, m) implies (w3jm_before(
                    w,
                    3,
                    (tj1 as int, tj2 as int, tj3 as int, 0, 0),
                ) <==> #[trigger] w3jm_before(w, 2, (tj1 as int, tj2 + 1, 0, 0, 0))) by {}
                lemma_w3jm_relisted(
                    out@,
                    m,
                    3,
                    (tj1 as int, tj2 as int, tj3 as int, 0, 0),
                    2,
                    (tj1 as int, tj2 + 1, 0, 0, 0),
                );
            }
            tj2 += 1;
        }
        proof {
            lemma_w3jm_relisted(out@, m, 2, (tj1 as int, tj2 as int, 0, 0, 0), 1, (tj1 + 1, 0, 0, 0, 0));
        }
        tj1 += 1;
    }
    proof {
        assert forall|w: Wigner3jm| out@.contains(w) <==> w3jm_enumerable(w, m) by {
            if out@.contains(w) {
                let k = choose|k: int| 0 <= k < out@.len() && out@[k] == w;
                assert(w3jm_enumerable(out@[k], m));
            }
            if w3jm_enumerable(w, m) {
                assert(w3jm_before(w, 1, (tj1 as int, 0, 0, 0, 0)));
            }
        }
    }
    out
}

/// A value that a triangular range from `|a - b|` in steps of 2 reaches up to
/// `a + b` completes a triangle with `a` and `b`.
proof fn lemma_tri_step(a: int, b: int, t: int)
    requires
        a >= 0,
        b >= 0,
        abs_int(a - b) <= t <= a + b,
        (t - abs_int(a - b)) % 2 == 0,
    ensures
        triangle(a, b, t),
{
    lemma_abs_parity(a, b);
    lemma_even_combine(t - abs_int(a - b), abs_int(a - b) + a + b, t + a + b);
    lemma_even_combine(t + a + b, 2 * t, a + b - t);
}

/// A value that a bitriangular range reaches completes both triangles.
proof fn lemma_bitri_step(a: int, b: int, c: int, d: int, t: int)
    requires
        a >= 0,
        b >= 0,
        c >= 0,
        d >= 0,
        (a + b + c + d) % 2 == 0,
        max_int(abs_int(a - b), abs_int(c - d)) <= t <= min_int(a + b, c + d),
        (t - max_int(abs_int(a - b), abs_int(c - d))) % 2 == 0,
    ensures
        triangle(a, b, t),
        triangle(c, d, t),
{
    lemma_abs_parity(a, b);
    lemma_abs_parity(c, d);
    let st = max_int(abs_int(a - b), abs_int(c - d));
    if st == abs_int(a - b) {
        lemma_tri_step(a, b, t);
        lemma_even_combine(st + a + b, a + b + c + d, st - c - d);
        lemma_even_combine(st - c - d, abs_int(c - d) + c + d, st + abs_int(c - d));
        lemma_even_combine(st + abs_int(c - d), 2 * abs_int(c - d), st - abs_int(c - d));
        lemma_even_combine(t - st, st - abs_int(c - d), t - abs_int(c - d));
        lemma_tri_step(c, d, t);
    } else {
        lemma_tri_step(c, d, t);
        lemma_even_combine(st + c + d, a + b + c + d, st - a - b);
        lemma_even_combine(st - a - b, abs_int(a - b) + a + b, st + abs_int(a - b));
        lemma_even_combine(st + abs_int(a - b), 2 * abs_int(a - b), st - abs_int(a - b));
        lemma_even_combine(t - st, st - abs_int(a - b), t - abs_int(a - b));
        lemma_tri_step(a, b, t);
    }
}

/// A 6-j symbol that the enumeration up to `tj_max` yields: one that satisfies the
/// triangle conditions, with each `tj` at most `tj_max`.
pub open spec fn w6j_enumerable(w: Wigner6j, tj_max: int) -> bool {
    &&& w6j_admissible(w)
    &&& w.tj1 <= tj_max && w.tj2 <= tj_max && w.tj3 <= tj_max
    &&& w.tj4 <= tj_max && w.tj5 <= tj_max && w.tj6 <= tj_max
}

/// The loop coordinates `(tj1, tj2, tj3, tj4, tj5, tj6)` of a 6-j symbol.
pub open spec fn w6j_key(w: Wigner6j) -> (int, int, int, int, int, int) {
    (w.tj1 as int, w.tj2 as int, w.tj3 as int, w.tj4 as int, w.tj5 as int, w.tj6 as int)
}

/// Compared on its first `n` loop coordinates, `w` comes before `c`.
pub open spec fn w6j_before(w: Wigner6j, n: int, c: (int, int, int, int, int, int)) -> bool {
    n >= 1 && lex_step(w.tj1 as int, c.0, n >= 2 && lex_step(w.tj2 as int, c.1, n >= 3
        && lex_step(w.tj3 as int, c.2, n >= 4 && lex_step(w.tj4 as int, c.3, n >= 5
            && lex_step(w.tj5 as int, c.4, n >= 6 && w.tj6 < c.5)))))
}

/// `out` lists, in increasing order of loop coordinates, exactly the enumerable
/// 6-j symbols that come before `c` on the first `n` coordinates.
pub open spec fn w6j_listed(out: Seq<Wigner6j>, tj_max: int, n: int, c: (int, int, int, int, int,
    int)) -> bool {
    &&& forall|i: int|
        0 <= i < out.len() ==> w6j_enumerable(#[trigger] out[i], tj_max) && w6j_before(out[i], n, c)
    &&& forall|w: Wigner6j|
        w6j_enumerable(w, tj_max) && #[trigger] w6j_before(w, n, c) ==> out.contains(w)
    &&& forall|i: int, j: int|
        0 <= i < j < out.len() ==> w6j_before(#[trigger] out[i], 6, w6j_key(#[trigger] out[j]))
}

/// Changing the cursor to one that puts the same enumerable symbols first keeps a listing.
proof fn lemma_w6j_relisted(out: Seq<Wigner6j>, tj_max: int, n: int, c: (int, int, int, int, int,
    int), n2: int, c2: (int, int, int, int, int, int))
    requires
        w6j_listed(out, tj_max, n, c),
        forall|w: Wigner6j|
            w6j_enumerable(w, tj_max) ==> (w6j_before(w, n, c) <==> #[trigger] w6j_before(w, n2, c2)),
    ensures
        w6j_listed(out, tj_max, n2, c2),
{
    assert forall|i: int| 0 <= i < out.len() implies w6j_enumerable(#[trigger] out[i], tj_max)
        && w6j_before(out[i], n2, c2) by {
        assert(w6j_enumerable(out[i], tj_max) && w6j_before(out[i], n, c));
    }
    assert forall|w: Wigner6j| w6j_enumerable(w, tj_max) && #[trigger] w6j_before(w, n2, c2)
        implies out.contains(w) by {
        assert(w6j_before(w, n, c));
    }
}

/// What the triangle conditions give of each loop coordinate of an enumerable
/// symbol, in the form each loop level reads them.
proof fn lemma_w6j_enum_facts(w: Wigner6j, tj_max: int)
    requires
        w6j_enumerable(w, tj_max),
    ensures
        0 <= w.tj1 <= tj_max,
        0 <= w.tj2 <= tj_max,
        triangle(w.tj1 as int, w.tj2 as int, w.tj3 as int),
        (w.tj1 + w.tj2 + w.tj3) % 2 == 0,
        w.tj3 <= tj_max,
        0 <= w.tj4 <= tj_max,
        triangle(w.tj4 as int, w.tj3 as int, w.tj5 as int),
        (w.tj4 + w.tj3 + w.tj5) % 2 == 0,
        w.tj5 <= tj_max,
        triangle(w.tj1 as int, w.tj5 as int, w.tj6 as int),
        triangle(w.tj4 as int, w.tj2 as int, w.tj6 as int),
        (w.tj1 + w.tj5 + w.tj6) % 2 == 0,
        (w.tj4 + w.tj2 + w.tj6) % 2 == 0,
        w.tj6 <= tj_max,
{
    lemma_triangle_facts(w.tj1 as int, w.tj2 as int, w.tj3 as int);
    lemma_triangle_symmetric(w.tj1 as int, w.tj2 as int, w.tj3 as int);
    lemma_triangle_facts(w.tj1 as int, w.tj5 as int, w.tj6 as int);
    lemma_triangle_symmetric(w.tj1 as int, w.tj5 as int, w.tj6 as int);
    lemma_triangle_facts(w.tj4 as int, w.tj2 as int, w.tj6 as int);
    lemma_triangle_symmetric(w.tj4 as int, w.tj2 as int, w.tj6 as int);
    lemma_triangle_facts(w.tj4 as int, w.tj5 as int, w.tj3 as int);
    lemma_triangle_symmetric(w.tj4 as int, w.tj5 as int, w.tj3 as int);
    lemma_triangle_symmetric(w.tj1 as int, w.tj2 as int, w.tj3 as int);
    lemma_triangle_even(w.tj1 as int, w.tj2 as int, w.tj3 as int);
    lemma_triangle_symmetric(w.tj4 as int, w.tj3 as int, w.tj5 as int);
    lemma_triangle_even(w.tj4 as int, w.tj3 as int, w.tj5 as int);
    lemma_triangle_symmetric(w.tj1 as int, w.tj5 as int, w.tj6 as int);
    lemma_triangle_even(w.tj1 as int, w.tj5 as int, w.tj6 as int);
    lemma_triangle_symmetric(w.tj4 as int, w.tj2 as int, w.tj6 as int);
    lemma_triangle_even(w.tj4 as int, w.tj2 as int, w.tj6 as int);
}

/// The loop coordinates just after `w`'s in the innermost loop, which steps by 2.
pub open spec fn w6j_next_key(w: Wigner6j) -> (int, int, int, int, int, int) {
    (w.tj1 as int, w.tj2 as int, w.tj3 as int, w.tj4 as int, w.tj5 as int, w.tj6 + 2)
}

/// Among enumerable symbols, those before the next cursor are those before `cand`, and `cand`.
proof fn lemma_w6j_next(cand: Wigner6j, tj_max: int)
    requires
        w6j_enumerable(cand, tj_max),
    ensures
        forall|w: Wigner6j| #[trigger] w6j_enumerable(w, tj_max)
            ==> (w6j_before(w, 6, w6j_next_key(cand)) <==> (w6j_before(w, 6, w6j_key(cand)) || w == cand)),
{
    lemma_triangle_even(cand.tj1 as int, cand.tj5 as int, cand.tj6 as int);
    assert forall|w: Wigner6j| #[trigger] w6j_enumerable(w, tj_max)
        implies (w6j_before(w, 6, w6j_next_key(cand))
            <==> (w6j_before(w, 6, w6j_key(cand)) || w == cand)) by {
        lemma_triangle_even(w.tj1 as int, w.tj5 as int, w.tj6 as int);
        lemma_even_combine(w.tj1 + w.tj5 + w.tj6, cand.tj1 + cand.tj5 + cand.tj6,
            w.tj1 + w.tj5 + w.tj6 - (cand.tj1 + cand.tj5 + cand.tj6));
    }
}

/// Appends `cand`, the enumerable symbol at the cursor, to a listing.
fn w6j_append(out: &mut Vec<Wigner6j>, cand: Wigner6j, tj_max: Ghost<int>)
    requires
        w6j_enumerable(cand, tj_max@),
        w6j_listed(old(out)@, tj_max@, 6, w6j_key(cand)),
        forall|w: Wigner6j| #[trigger] w6j_enumerable(w, tj_max@)
            ==> (w6j_before(w, 6, w6j_next_key(cand)) <==> (w6j_before(w, 6, w6j_key(cand)) || w == cand)),
    ensures
        w6j_listed(final(out)@, tj_max@, 6, w6j_next_key(cand)),
{
    let ghost m = tj_max@;
    let ghost c = w6j_key(cand);
    let ghost c2 = w6j_next_key(cand);
    let ghost old_out = out@;
    out.push(cand);
    proof {
        assert forall|w: Wigner6j| w6j_enumerable(w, m) && #[trigger] w6j_before(w, 6, c2)
            implies out@.contains(w) by {
            if w == cand {
                assert(out@[out@.len() - 1] == cand);
            } else {
                assert(old_out.contains(w));
                let k = choose|k: int| 0 <= k < old_out.len() && old_out[k] == w;
                assert(out@[k] == w);
            }
        }
        assert forall|i: int| 0 <= i < out@.len()
            implies w6j_enumerable(#[trigger] out@[i], m) && w6j_before(out@[i], 6, c2) by {
            if i < old_out.len() {
                assert(out@[i] == old_out[i]);
            }
        }
        assert forall|i: int, j: int| 0 <= i < j < out@.len()
            implies w6j_before(#[trigger] out@[i], 6, w6j_key(#[trigger] out@[j])) by {
            assert(out@[i] == old_out[i]);
            if j < old_out.len() {
                assert(out@[j] == old_out[j]);
            } else {
                assert(w6j_before(old_out[i], 6, c));
            }
        }
    }
}

/// Every 6-j symbol that satisfies the triangle conditions with every `tj`
/// at most `tj_max`, each once, in increasing order of `(tj1, tj2, tj3, tj4, tj5, tj6)` (the
/// order of nested loops over these).
#[verifier::rlimit(100)]
pub fn get_6tjs(tj_max: i32) -> (r: Vec<Wigner6j>)
    requires
        cutoff_in_range(tj_max as int),
    ensures
        forall|w: Wigner6j| r@.contains(w) <==> w6j_enumerable(w, tj_max as int),
        forall|i: int, j: int|
            0 <= i < j < r@.len() ==> w6j_before(#[trigger] r@[i], 6, w6j_key(#[trigger] r@[j])),
{
    let ghost m = tj_max as int;
    let mut out: Vec<Wigner6j> = Vec::new();
    proof {
        assert forall|w: Wigner6j| w6j_enumerable(w, m)
            implies !#[trigger] w6j_before(w, 1, (0, 0, 0, 0, 0, 0)) by {
            lemma_w6j_enum_facts(w, m);
        }
    }
    let mut tj1: i32 = 0;
    while tj1 <= tj_max
        invariant
            cutoff_in_range(m),
            m == tj_max,
            0 <= tj1 <= tj_max + 1,
            w6j_listed(out@, m, 1, (tj1 as int, 0, 0, 0, 0, 0)),
        decreases tj_max + 1 - tj1,
    {
        let mut tj2: i32 = 0;
        proof {
            assert forall|w: Wigner6j| w6j_enumerable(w, m)
                implies (w6j_before(w, 1, (tj1 as int, 0, 0, 0, 0, 0))
                    <==> #[trigger] w6j_before(w, 2, (tj1 as int, tj2 as int, 0, 0, 0, 0))) by {
                lemma_w6j_enum_facts(w, m);
            }
            lemma_w6j_relisted(out@, m, 1, (tj1 as int, 0, 0, 0, 0, 0), 2, (tj1 as int, tj2 as int,
                0, 0, 0, 0));
        }
        while tj2 <= tj_max
            invariant
                cutoff_in_range(m),
                m == tj_max,
                0 <= tj1 <= tj_max,
                0 <= tj2 <= tj_max + 1,
                w6j_listed(out@, m, 2, (tj1 as int, tj2 as int, 0, 0, 0, 0)),
            decreases tj_max + 1 - tj2,
        {
            let tj3s = get_triangular_tjs(tj_max, tj1, tj2);
            let mut tj3 = tj3s.iter.start;
            proof {
                assert forall|w: Wigner6j| w6j_enumerable(w, m)
                    implies (w6j_before(w, 2, (tj1 as int, tj2 as int, 0, 0, 0, 0))
                        <==> #[trigger] w6j_before(w, 3, (tj1 as int, tj2 as int, tj3 as int, 0, 0, 0))) by {
                    lemma_w6j_enum_facts(w, m);
                }
                lemma_w6j_relisted(out@, m, 2, (tj1 as int, tj2 as int, 0, 0, 0, 0), 3, (tj1 as int,
                    tj2 as int, tj3 as int, 0, 0, 0));
            }
            while tj3 < tj3s.iter.end
                invariant
                    cutoff_in_range(m),
                    m == tj_max,
                    0 <= tj1 <= tj_max,
                    0 <= tj2 <= tj_max,
                    tj3s.iter.start == abs_int(tj1 - tj2),
                    tj3s.iter.end == min_int(tj_max as int, tj1 + tj2) + 1,
                    tj3s.iter.start <= tj3,
                    tj3 <= tj3s.iter.end + 1 || tj3 == tj3s.iter.start,
                    (tj3 - tj3s.iter.start) % 2 == 0,
                    w6j_listed(out@, m, 3, (tj1 as int, tj2 as int, tj3 as int, 0, 0, 0)),
                decreases tj3s.iter.end + 1 - tj3,
            {
                proof {
                    lemma_tri_step(tj1 as int, tj2 as int, tj3 as int);
                }
                let mut tj4: i32 = 0;
                proof {
                    assert forall|w: Wigner6j| w6j_enumerable(w, m)
                        implies (w6j_before(w, 3, (tj1 as int, tj2 as int, tj3 as int, 0, 0,
                            0)) <==> #[trigger] w6j_before(w, 4, (tj1 as int, tj2 as int,
                                tj3 as int, tj4 as int, 0, 0))) by {
                        lemma_w6j_enum_facts(w, m);
                    }
                    lemma_w6j_relisted(out@, m, 3, (tj1 as int, tj2 as int, tj3 as int, 0, 0, 0), 4,
                        (tj1 as int, tj2 as int, tj3 as int, tj4 as int, 0, 0));
                }
                while tj4 <= tj_max
                    invariant
                        cutoff_in_range(m),
                        m == tj_max,
                        0 <= tj1 <= tj_max,
                        0 <= tj2 <= tj_max,
                        0 <= tj3 <= tj_max,
                        triangle(tj1 as int, tj2 as int, tj3 as int),
                        0 <= tj4 <= tj_max + 1,
                        w6j_listed(out@, m, 4, (tj1 as int, tj2 as int, tj3 as int, tj4 as int, 0, 0)),
                    decreases tj_max + 1 - tj4,
                {
                    let tj5s = get_triangular_tjs(tj_max, tj4, tj3);
                    let mut tj5 = tj5s.iter.start;
                    proof {
                        assert forall|w: Wigner6j| w6j_enumerable(w, m)
                            implies (w6j_before(w, 4, (tj1 as int, tj2 as int, tj3 as int,
                                tj4 as int, 0, 0))
                                    <==> #[trigger] w6j_before(w, 5, (tj1 as int, tj2 as int,
                                        tj3 as int, tj4 as int, tj5 as int, 0))) by {
                            lemma_w6j_enum_facts(w, m);
                        }
                        lemma_w6j_relisted(out@, m, 4, (tj1 as int, tj2 as int, tj3 as int,
                            tj4 as int, 0, 0), 5, (tj1 as int, tj2 as int, tj3 as int, tj4 as int,
                                tj5 as int, 0));
                    }
                    while tj5 < tj5s.iter.end
                        invariant
                            cutoff_in_range(m),
                            m == tj_max,
                            0 <= tj1 <= tj_max,
                            0 <= tj2 <= tj_max,
                            0 <= tj3 <= tj_max,
                            0 <= tj4 <= tj_max,
                            triangle(tj1 as int, tj2 as int, tj3 as int),
                            tj5s.iter.start == abs_int(tj4 - tj3),
                            tj5s.iter.end == min_int(tj_max as int, tj4 + tj3) + 1,
                            tj5s.iter.start <= tj5,
                            tj5 <= tj5s.iter.end + 1 || tj5 == tj5s.iter.start,
                            (tj5 - tj5s.iter.start) % 2 == 0,
                            w6j_listed(out@, m, 5, (tj1 as int, tj2 as int, tj3 as int, tj4 as int,
                                tj5 as int, 0)),
                        decreases tj5s.iter.end + 1 - tj5,
                    {
                        proof {
                            lemma_tri_step(tj4 as int, tj3 as int, tj5 as int);
                        }
                        let tj6s = get_bitriangular_tjs(tj_max, tj1, tj5, tj4, tj2);
                        let mut tj6 = tj6s.iter.start;
                        proof {
                            assert forall|w: Wigner6j| w6j_enumerable(w, m)
                                implies (w6j_before(w, 5, (tj1 as int, tj2 as int, tj3 as int,
                                    tj4 as int, tj5 as int, 0))
                                        <==> #[trigger] w6j_before(w, 6, (tj1 as int, tj2 as int,
                                            tj3 as int, tj4 as int, tj5 as int, tj6 as int))) by {
                                lemma_w6j_enum_facts(w, m);
                                lemma_abs_parity(tj1 as int, tj5 as int);
                                lemma_abs_parity(tj4 as int, tj2 as int);
                            }
                            lemma_w6j_relisted(out@, m, 5, (tj1 as int, tj2 as int, tj3 as int,
                                tj4 as int, tj5 as int, 0), 6, (tj1 as int, tj2 as int, tj3 as int,
                                    tj4 as int, tj5 as int, tj6 as int));
                        }
                        while tj6 < tj6s.iter.end
                            invariant
                                cutoff_in_range(m),
                                m == tj_max,
                                0 <= tj1 <= tj_max,
                                0 <= tj2 <= tj_max,
                                0 <= tj3 <= tj_max,
                                0 <= tj4 <= tj_max,
                                0 <= tj5 <= tj_max,
                                triangle(tj1 as int, tj2 as int, tj3 as int),
                                triangle(tj4 as int, tj3 as int, tj5 as int),
                                (tj1 + tj5 + tj4 + tj2) % 2 != 0
                                    ==> tj6s.iter.start == 0 && tj6s.iter.end == 0,
                                (tj1 + tj5 + tj4 + tj2) % 2 == 0
                                    ==> tj6s.iter.start == max_int(abs_int(tj1 - tj5),
                                        abs_int(tj4 - tj2))
                                            && tj6s.iter.end == min_int(min_int(tj_max as int,
                                                tj1 + tj5), min_int(tj_max as int, tj4 + tj2)) + 1,
                                tj6s.iter.start <= tj6,
                                tj6 <= tj6s.iter.end + 1 || tj6 == tj6s.iter.start,
                                (tj6 - tj6s.iter.start) % 2 == 0,
                                w6j_listed(out@, m, 6, (tj1 as int, tj2 as int, tj3 as int,
                                    tj4 as int, tj5 as int, tj6 as int)),
                            decreases tj6s.iter.end + 1 - tj6,
                        {
                            proof {
                                lemma_bitri_step(tj1 as int, tj5 as int, tj4 as int, tj2 as int, tj6 as int);
                            }
                            let cand = Wigner6j { tj1, tj2, tj3, tj4, tj5, tj6 };
                            proof {
                                lemma_w6j_next(cand, m);
                            }
                            w6j_append(&mut out, cand, Ghost(m));
                            tj6 += 2;
                            proof {
                                lemma_even_combine(tj6 - 2 - tj6s.iter.start, 2, tj6 - tj6s.iter.start);
                            }
                        }
                        proof {
                            assert forall|w: Wigner6j| w6j_enumerable(w, m)
                                implies (w6j_before(w, 6, (tj1 as int, tj2 as int, tj3 as int,
                                    tj4 as int, tj5 as int, tj6 as int))
                                        <==> #[trigger] w6j_before(w, 5, (tj1 as int, tj2 as int,
                                            tj3 as int, tj4 as int, tj5 + 2, 0))) by {
                                lemma_w6j_enum_facts(w, m);
                                lemma_abs_parity(tj4 as int, tj3 as int);
                                lemma_abs_parity(tj1 as int, tj5 as int);
                                lemma_abs_parity(tj4 as int, tj2 as int);
                            }
                            lemma_w6j_relisted(out@, m, 6, (tj1 as int, tj2 as int, tj3 as int,
                                tj4 as int, tj5 as int, tj6 as int), 5, (tj1 as int, tj2 as int,
                                    tj3 as int, tj4 as int, tj5 + 2, 0));
                        }
                        tj5 += 2;
                        proof {
                            lemma_even_combine(tj5 - 2 - tj5s.iter.start, 2, tj5 - tj5s.iter.start);
                        }
                    }
                    proof {
                        assert forall|w: Wigner6j| w6j_enumerable(w, m)
                            implies (w6j_before(w, 5, (tj1 as int, tj2 as int, tj3 as int,
                                tj4 as int, tj5 as int, 0))
                                    <==> #[trigger] w6j_before(w, 4, (tj1 as int, tj2 as int,
                                        tj3 as int, tj4 + 1, 0, 0))) by {
                            lemma_w6j_enum_facts(w, m);
                        }
                        lemma_w6j_relisted(out@, m, 5, (tj1 as int, tj2 as int, tj3 as int,
                            tj4 as int, tj5 as int, 0), 4, (tj1 as int, tj2 as int, tj3 as int,
                                tj4 + 1, 0, 0));
                    }
                    tj4 += 1;
                }
                proof {
                    assert forall|w: Wigner6j| w6j_enumerable(w, m)
                        implies (w6j_before(w, 4, (tj1 as int, tj2 as int, tj3 as int, tj4 as int,
                            0, 0)) <==> #[trigger] w6j_before(w, 3, (tj1 as int, tj2 as int,
                                tj3 + 2, 0, 0, 0))) by {
                        lemma_w6j_enum_facts(w, m);
                        lemma_abs_parity(tj1 as int, tj2 as int);
                    }
                    lemma_w6j_relisted(out@, m, 4, (tj1 as int, tj2 as int, tj3 as int, tj4 as int,
                        0, 0), 3, (tj1 as int, tj2 as int, tj3 + 2, 0, 0, 0));
                }
                tj3 += 2;
                proof {
                    lemma_even_combine(tj3 - 2 - tj3s.iter.start, 2, tj3 - tj3s.iter.start);
                }
            }
            proof {
                assert forall|w: Wigner6j| w6j_enumerable(w, m)
                    implies (w6j_before(w, 3, (tj1 as int, tj2 as int, tj3 as int, 0, 0, 0))
                        <==> #[trigger] w6j_before(w, 2, (tj1 as int, tj2 + 1, 0, 0, 0, 0))) by {
                    lemma_w6j_enum_facts(w, m);
                }
                lemma_w6j_relisted(out@, m, 3, (tj1 as int, tj2 as int, tj3 as int, 0, 0, 0), 2,
                    (tj1 as int, tj2 + 1, 0, 0, 0, 0));
            }
            tj2 += 1;
        }
        proof {
            assert forall|w: Wigner6j| w6j_enumerable(w, m)
                implies (w6j_before(w, 2, (tj1 as int, tj2 as int, 0, 0, 0, 0))
                    <==> #[trigger] w6j_before(w, 1, (tj1 + 1, 0, 0, 0, 0, 0))) by {
                lemma_w6j_enum_facts(w, m);
            }
            lemma_w6j_relisted(out@, m, 2, (tj1 as int, tj2 as int, 0, 0, 0, 0), 1, (tj1 + 1, 0, 0, 0, 0, 0));
        }
        tj1 += 1;
    }
    proof {
        assert forall|w: Wigner6j| out@.contains(w) <==> w6j_enumerable(w, m) by {
            if out@.contains(w) {
                let k = choose|k: int| 0 <= k < out@.len() && out@[k] == w;
                assert(w6j_enumerable(out@[k], m));
            }
            if w6j_enumerable(w, m) {
                lemma_w6j_enum_facts(w, m);
                assert(w6j_before(w, 1, (tj1 as int, 0, 0, 0, 0, 0)));
            }
        }
    }
    out
}


/// A 9-j symbol that the enumeration up to `tj_max` yields: one that satisfies the
/// triangle conditions, with each `tj` at most `tj_max`.
pub open spec fn w9j_enumerable(w: Wigner9j, tj_max: int) -> bool {
    &&& w9j_admissible(w)
    &&& w.tj1 <= tj_max && w.tj2 <= tj_max && w.tj3 <= tj_max
    &&& w.tj4 <= tj_max && w.tj5 <= tj_max && w.tj6 <= tj_max
    &&& w.tj7 <= tj_max && w.tj8 <= tj_max && w.tj9 <= tj_max
}

/// The loop coordinates `(tj1, tj2, tj3, tj4, tj5, tj6, tj7, tj8, tj9)` of a 9-j symbol.
pub open spec fn w9j_key(w: Wigner9j) -> (int, int, int, int, int, int, int, int, int) {
    (w.tj1 as int, w.tj2 as int, w.tj3 as int, w.tj4 as int, w.tj5 as int, w.tj6 as int,
        w.tj7 as int, w.tj8 as int, w.tj9 as int)
}

/// Compared on its first `n` loop coordinates, `w` comes before `c`.
pub open spec fn w9j_before(w: Wigner9j, n: int, c: (int, int, int, int, int, int, int, int, int)) -> bool {
    n >= 1 && lex_step(w.tj1 as int, c.0, n >= 2 && lex_step(w.tj2 as int, c.1, n >= 3
        && lex_step(w.tj3 as int, c.2, n >= 4 && lex_step(w.tj4 as int, c.3, n >= 5
            && lex_step(w.tj5 as int, c.4, n >= 6 && lex_step(w.tj6 as int, c.5, n >= 7
                && lex_step(w.tj7 as int, c.6, n >= 8 && lex_step(w.tj8 as int, c.7, n >= 9
                    && w.tj9 < c.8))))))))
}

/// `out` lists, in increasing order of loop coordinates, exactly the enumerable
/// 9-j symbols that come before `c` on the first `n` coordinates.
pub open spec fn w9j_listed(out: Seq<Wigner9j>, tj_max: int, n: int, c: (int, int, int, int, int,
    int, int, int, int)) -> bool {
    &&& forall|i: int|
        0 <= i < out.len() ==> w9j_enumerable(#[trigger] out[i], tj_max) && w9j_before(out[i], n, c)
    &&& forall|w: Wigner9j|
        w9j_enumerable(w, tj_max) && #[trigger] w9j_before(w, n, c) ==> out.contains(w)
    &&& forall|i: int, j: int|
        0 <= i < j < out.len() ==> w9j_before(#[trigger] out[i], 9, w9j_key(#[trigger] out[j]))
}

/// Changing the cursor to one that puts the same enumerable symbols first keeps a listing.
proof fn lemma_w9j_relisted(out: Seq<Wigner9j>, tj_max: int, n: int, c: (int, int, int, int, int,
    int, int, int, int), n2: int, c2: (int, int, int, int, int, int, int, int, int))
    requires
        w9j_listed(out, tj_max, n, c),
        forall|w: Wigner9j|
            w9j_enumerable(w, tj_max) ==> (w9j_before(w, n, c) <==> #[trigger] w9j_before(w, n2, c2)),
    ensures
        w9j_listed(out, tj_max, n2, c2),
{
    assert forall|i: int| 0 <= i < out.len() implies w9j_enumerable(#[trigger] out[i], tj_max)
        && w9j_before(out[i], n2, c2) by {
        assert(w9j_enumerable(out[i], tj_max) && w9j_before(out[i], n, c));
    }
    assert forall|w: Wigner9j| w9j_enumerable(w, tj_max) && #[trigger] w9j_before(w, n2, c2)
        implies out.contains(w) by {
        assert(w9j_before(w, n, c));
    }
}

/// What the triangle conditions give of each loop coordinate of an enumerable
/// symbol, in the form each loop level reads them.
proof fn lemma_w9j_enum_facts(w: Wigner9j, tj_max: int)
    requires
        w9j_enumerable(w, tj_max),
    ensures
        0 <= w.tj1 <= tj_max,
        0 <= w.tj2 <= tj_max,
        triangle(w.tj1 as int, w.tj2 as int, w.tj3 as int),
        (w.tj1 + w.tj2 + w.tj3) % 2 == 0,
        w.tj3 <= tj_max,
        0 <= w.tj4 <= tj_max,
        0 <= w.tj5 <= tj_max,
        triangle(w.tj4 as int, w.tj5 as int, w.tj6 as int),
        (w.tj4 + w.tj5 + w.tj6) % 2 == 0,
        w.tj6 <= tj_max,
        triangle(w.tj1 as int, w.tj4 as int, w.tj7 as int),
        (w.tj1 + w.tj4 + w.tj7) % 2 == 0,
        w.tj7 <= tj_max,
        triangle(w.tj2 as int, w.tj5 as int, w.tj8 as int),
        (w.tj2 + w.tj5 + w.tj8) % 2 == 0,
        w.tj8 <= tj_max,
        triangle(w.tj7 as int, w.tj8 as int, w.tj9 as int),
        triangle(w.tj3 as int, w.tj6 as int, w.tj9 as int),
        (w.tj7 + w.tj8 + w.tj9) % 2 == 0,
        (w.tj3 + w.tj6 + w.tj9) % 2 == 0,
        w.tj9 <= tj_max,
{
    lemma_triangle_facts(w.tj1 as int, w.tj2 as int, w.tj3 as int);
    lemma_triangle_symmetric(w.tj1 as int, w.tj2 as int, w.tj3 as int);
    lemma_triangle_facts(w.tj4 as int, w.tj5 as int, w.tj6 as int);
    lemma_triangle_symmetric(w.tj4 as int, w.tj5 as int, w.tj6 as int);
    lemma_triangle_facts(w.tj7 as int, w.tj8 as int, w.tj9 as int);
    lemma_triangle_symmetric(w.tj7 as int, w.tj8 as int, w.tj9 as int);
    lemma_triangle_facts(w.tj1 as int, w.tj4 as int, w.tj7 as int);
    lemma_triangle_symmetric(w.tj1 as int, w.tj4 as int, w.tj7 as int);
    lemma_triangle_facts(w.tj2 as int, w.tj5 as int, w.tj8 as int);
    lemma_triangle_symmetric(w.tj2 as int, w.tj5 as int, w.tj8 as int);
    lemma_triangle_facts(w.tj3 as int, w.tj6 as int, w.tj9 as int);
    lemma_triangle_symmetric(w.tj3 as int, w.tj6 as int, w.tj9 as int);
    lemma_triangle_symmetric(w.tj1 as int, w.tj2 as int, w.tj3 as int);
    lemma_triangle_even(w.tj1 as int, w.tj2 as int, w.tj3 as int);
    lemma_triangle_symmetric(w.tj4 as int, w.tj5 as int, w.tj6 as int);
    lemma_triangle_even(w.tj4 as int, w.tj5 as int, w.tj6 as int);
    lemma_triangle_symmetric(w.tj1 as int, w.tj4 as int, w.tj7 as int);
    lemma_triangle_even(w.tj1 as int, w.tj4 as int, w.tj7 as int);
    lemma_triangle_symmetric(w.tj2 as int, w.tj5 as int, w.tj8 as int);
    lemma_triangle_even(w.tj2 as int, w.tj5 as int, w.tj8 as int);
    lemma_triangle_symmetric(w.tj7 as int, w.tj8 as int, w.tj9 as int);
    lemma_triangle_even(w.tj7 as int, w.tj8 as int, w.tj9 as int);
    lemma_triangle_symmetric(w.tj3 as int, w.tj6 as int, w.tj9 as int);
    lemma_triangle_even(w.tj3 as int, w.tj6 as int, w.tj9 as int);
}

/// The loop coordinates just after `w`'s in the innermost loop, which steps by 2.
pub open spec fn w9j_next_key(w: Wigner9j) -> (int, int, int, int, int, int, int, int, int) {
    (w.tj1 as int, w.tj2 as int, w.tj3 as int, w.tj4 as int, w.tj5 as int, w.tj6 as int,
        w.tj7 as int, w.tj8 as int, w.tj9 + 2)
}

/// Among enumerable symbols, those before the next cursor are those before `cand`, and `cand`.
proof fn lemma_w9j_next(cand: Wigner9j, tj_max: int)
    requires
        w9j_enumerable(cand, tj_max),
    ensures
        forall|w: Wigner9j| #[trigger] w9j_enumerable(w, tj_max)
            ==> (w9j_before(w, 9, w9j_next_key(cand)) <==> (w9j_before(w, 9, w9j_key(cand)) || w == cand)),
{
    lemma_triangle_even(cand.tj7 as int, cand.tj8 as int, cand.tj9 as int);
    assert forall|w: Wigner9j| #[trigger] w9j_enumerable(w, tj_max)
        implies (w9j_before(w, 9, w9j_next_key(cand))
            <==> (w9j_before(w, 9, w9j_key(cand)) || w == cand)) by {
        lemma_triangle_even(w.tj7 as int, w.tj8 as int, w.tj9 as int);
        lemma_even_combine(w.tj7 + w.tj8 + w.tj9, cand.tj7 + cand.tj8 + cand.tj9,
            w.tj7 + w.tj8 + w.tj9 - (cand.tj7 + cand.tj8 + cand.tj9));
    }
}

/// Appends `cand`, the enumerable symbol at the cursor, to a listing.
fn w9j_append(out: &mut Vec<Wigner9j>, cand: Wigner9j, tj_max: Ghost<int>)
    requires
        w9j_enumerable(cand, tj_max@),
        w9j_listed(old(out)@, tj_max@, 9, w9j_key(cand)),
        forall|w: Wigner9j| #[trigger] w9j_enumerable(w, tj_max@)
            ==> (w9j_before(w, 9, w9j_next_key(cand)) <==> (w9j_before(w, 9, w9j_key(cand)) || w == cand)),
    ensures
        w9j_listed(final(out)@, tj_max@, 9, w9j_next_key(cand)),
{
    let ghost m = tj_max@;
    let ghost c = w9j_key(cand);
    let ghost c2 = w9j_next_key(cand);
    let ghost old_out = out@;
    out.push(cand);
    proof {
        assert forall|w: Wigner9j| w9j_enumerable(w, m) && #[trigger] w9j_before(w, 9, c2)
            implies out@.contains(w) by {
            if w == cand {
                assert(out@[out@.len() - 1] == cand);
            } else {
                assert(old_out.contains(w));
                let k = choose|k: int| 0 <= k < old_out.len() && old_out[k] == w;
                assert(out@[k] == w);
            }
        }
        assert forall|i: int| 0 <= i < out@.len()
            implies w9j_enumerable(#[trigger] out@[i], m) && w9j_before(out@[i], 9, c2) by {
            if i < old_out.len() {
                assert(out@[i] == old_out[i]);
            }
        }
        assert forall|i: int, j: int| 0 <= i < j < out@.len()
            implies w9j_before(#[trigger] out@[i], 9, w9j_key(#[trigger] out@[j])) by {
            assert(out@[i] == old_out[i]);
            if j < old_out.len() {
                assert(out@[j] == old_out[j]);
            } else {
                assert(w9j_before(old_out[i], 9, c));
            }
        }
    }
}

/// Every 9-j symbol that satisfies the triangle conditions with every `tj`
/// at most `tj_max`, each once, in increasing order of `(tj1, tj2, tj3, tj4, tj5, tj6, tj7, tj8, tj9)` (the
/// order of nested loops over these).
#[verifier::rlimit(100)]
pub fn get_9tjs(tj_max: i32) -> (r: Vec<Wigner9j>)
    requires
        cutoff_in_range(tj_max as int),
    ensures
        forall|w: Wigner9j| r@.contains(w) <==> w9j_enumerable(w, tj_max as int),
        forall|i: int, j: int|
            0 <= i < j < r@.len() ==> w9j_before(#[trigger] r@[i], 9, w9j_key(#[trigger] r@[j])),
{
    let ghost m = tj_max as int;
    let mut out: Vec<Wigner9j> = Vec::new();
    proof {
        assert forall|w: Wigner9j| w9j_enumerable(w, m)
            implies !#[trigger] w9j_before(w, 1, (0, 0, 0, 0, 0, 0, 0, 0, 0)) by {
            lemma_w9j_enum_facts(w, m);
        }
    }
    let mut tj1: i32 = 0;
    while tj1 <= tj_max
        invariant
            cutoff_in_range(m),
            m == tj_max,
            0 <= tj1 <= tj_max + 1,
            w9j_listed(out@, m, 1, (tj1 as int, 0, 0, 0, 0, 0, 0, 0, 0)),
        decreases tj_max + 1 - tj1,
    {
        let mut tj2: i32 = 0;
        proof {
            assert forall|w: Wigner9j| w9j_enumerable(w, m)
                implies (w9j_before(w, 1, (tj1 as int, 0, 0, 0, 0, 0, 0, 0, 0))
                    <==> #[trigger] w9j_before(w, 2, (tj1 as int, tj2 as int, 0, 0, 0, 0, 0, 0, 0))) by {
                lemma_w9j_enum_facts(w, m);
            }
            lemma_w9j_relisted(out@, m, 1, (tj1 as int, 0, 0, 0, 0, 0, 0, 0, 0), 2, (tj1 as int,
                tj2 as int, 0, 0, 0, 0, 0, 0, 0));
        }
        while tj2 <= tj_max
            invariant
                cutoff_in_range(m),
                m == tj_max,
                0 <= tj1 <= tj_max,
                0 <= tj2 <= tj_max + 1,
                w9j_listed(out@, m, 2, (tj1 as int, tj2 as int, 0, 0, 0, 0, 0, 0, 0)),
            decreases tj_max + 1 - tj2,
        {
            let tj3s = get_triangular_tjs(tj_max, tj1, tj2);
            let mut tj3 = tj3s.iter.start;
            proof {
                assert forall|w: Wigner9j| w9j_enumerable(w, m)
                    implies (w9j_before(w, 2, (tj1 as int, tj2 as int, 0, 0, 0, 0, 0, 0, 0))
                        <==> #[trigger] w9j_before(w, 3, (tj1 as int, tj2 as int, tj3 as int, 0, 0,
                            0, 0, 0, 0))) by {
                    lemma_w9j_enum_facts(w, m);
                }
                lemma_w9j_relisted(out@, m, 2, (tj1 as int, tj2 as int, 0, 0, 0, 0, 0, 0, 0), 3,
                    (tj1 as int, tj2 as int, tj3 as int, 0, 0, 0, 0, 0, 0));
            }
            while tj3 < tj3s.iter.end
                invariant
                    cutoff_in_range(m),
                    m == tj_max,
                    0 <= tj1 <= tj_max,
                    0 <= tj2 <= tj_max,
                    tj3s.iter.start == abs_int(tj1 - tj2),
                    tj3s.iter.end == min_int(tj_max as int, tj1 + tj2) + 1,
                    tj3s.iter.start <= tj3,
                    tj3 <= tj3s.iter.end + 1 || tj3 == tj3s.iter.start,
                    (tj3 - tj3s.iter.start) % 2 == 0,
                    w9j_listed(out@, m, 3, (tj1 as int, tj2 as int, tj3 as int, 0, 0, 0, 0, 0, 0)),
                decreases tj3s.iter.end + 1 - tj3,
            {
                proof {
                    lemma_tri_step(tj1 as int, tj2 as int, tj3 as int);
                }
                let mut tj4: i32 = 0;
                proof {
                    assert forall|w: Wigner9j| w9j_enumerable(w, m)
                        implies (w9j_before(w, 3, (tj1 as int, tj2 as int, tj3 as int, 0, 0, 0, 0,
                            0, 0)) <==> #[trigger] w9j_before(w, 4, (tj1 as int, tj2 as int,
                                tj3 as int, tj4 as int, 0, 0, 0, 0, 0))) by {
                        lemma_w9j_enum_facts(w, m);
                    }
                    lemma_w9j_relisted(out@, m, 3, (tj1 as int, tj2 as int, tj3 as int, 0, 0, 0, 0,
                        0, 0), 4, (tj1 as int, tj2 as int, tj3 as int, tj4 as int, 0, 0, 0, 0, 0));
                }
                while tj4 <= tj_max
                    invariant
                        cutoff_in_range(m),
                        m == tj_max,
                        0 <= tj1 <= tj_max,
                        0 <= tj2 <= tj_max,
                        0 <= tj3 <= tj_max,
                        triangle(tj1 as int, tj2 as int, tj3 as int),
                        0 <= tj4 <= tj_max + 1,
                        w9j_listed(out@, m, 4, (tj1 as int, tj2 as int, tj3 as int, tj4 as int, 0,
                            0, 0, 0, 0)),
                    decreases tj_max + 1 - tj4,
                {
                    let mut tj5: i32 = 0;
                    proof {
                        assert forall|w: Wigner9j| w9j_enumerable(w, m)
                            implies (w9j_before(w, 4, (tj1 as int, tj2 as int, tj3 as int,
                                tj4 as int, 0, 0, 0, 0, 0))
                                    <==> #[trigger] w9j_before(w, 5, (tj1 as int, tj2 as int,
                                        tj3 as int, tj4 as int, tj5 as int, 0, 0, 0, 0))) by {
                            lemma_w9j_enum_facts(w, m);
                        }
                        lemma_w9j_relisted(out@, m, 4, (tj1 as int, tj2 as int, tj3 as int,
                            tj4 as int, 0, 0, 0, 0, 0), 5, (tj1 as int, tj2 as int, tj3 as int,
                                tj4 as int, tj5 as int, 0, 0, 0, 0));
                    }
                    while tj5 <= tj_max
                        invariant
                            cutoff_in_range(m),
                            m == tj_max,
                            0 <= tj1 <= tj_max,
                            0 <= tj2 <= tj_max,
                            0 <= tj3 <= tj_max,
                            0 <= tj4 <= tj_max,
                            triangle(tj1 as int, tj2 as int, tj3 as int),
                            0 <= tj5 <= tj_max + 1,
                            w9j_listed(out@, m, 5, (tj1 as int, tj2 as int, tj3 as int, tj4 as int,
                                tj5 as int, 0, 0, 0, 0)),
                        decreases tj_max + 1 - tj5,
                    {
                        let tj6s = get_triangular_tjs(tj_max, tj4, tj5);
                        let mut tj6 = tj6s.iter.start;
                        proof {
                            assert forall|w: Wigner9j| w9j_enumerable(w, m)
                                implies (w9j_before(w, 5, (tj1 as int, tj2 as int, tj3 as int,
                                    tj4 as int, tj5 as int, 0, 0, 0, 0))
                                        <==> #[trigger] w9j_before(w, 6, (tj1 as int, tj2 as int,
                                            tj3 as int, tj4 as int, tj5 as int, tj6 as int, 0, 0, 0))) by {
                                lemma_w9j_enum_facts(w, m);
                            }
                            lemma_w9j_relisted(out@, m, 5, (tj1 as int, tj2 as int, tj3 as int,
                                tj4 as int, tj5 as int, 0, 0, 0, 0), 6, (tj1 as int, tj2 as int,
                                    tj3 as int, tj4 as int, tj5 as int, tj6 as int, 0, 0, 0));
                        }
                        while tj6 < tj6s.iter.end
                            invariant
                                cutoff_in_range(m),
                                m == tj_max,
                                0 <= tj1 <= tj_max,
                                0 <= tj2 <= tj_max,
                                0 <= tj3 <= tj_max,
                                0 <= tj4 <= tj_max,
                                0 <= tj5 <= tj_max,
                                triangle(tj1 as int, tj2 as int, tj3 as int),
                                tj6s.iter.start == abs_int(tj4 - tj5),
                                tj6s.iter.end == min_int(tj_max as int, tj4 + tj5) + 1,
                                tj6s.iter.start <= tj6,
                                tj6 <= tj6s.iter.end + 1 || tj6 == tj6s.iter.start,
                                (tj6 - tj6s.iter.start) % 2 == 0,
                                w9j_listed(out@, m, 6, (tj1 as int, tj2 as int, tj3 as int,
                                    tj4 as int, tj5 as int, tj6 as int, 0, 0, 0)),
                            decreases tj6s.iter.end + 1 - tj6,
                        {
                            proof {
                                lemma_tri_step(tj4 as int, tj5 as int, tj6 as int);
                            }
                            let tj7s = get_triangular_tjs(tj_max, tj1, tj4);
                            let mut tj7 = tj7s.iter.start;
                            proof {
                                assert forall|w: Wigner9j| w9j_enumerable(w, m)
                                    implies (w9j_before(w, 6, (tj1 as int, tj2 as int, tj3 as int,
                                        tj4 as int, tj5 as int, tj6 as int, 0, 0, 0))
                                            <==> #[trigger] w9j_before(w, 7, (tj1 as int,
                                                tj2 as int, tj3 as int, tj4 as int, tj5 as int,
                                                    tj6 as int, tj7 as int, 0, 0))) by {
                                    lemma_w9j_enum_facts(w, m);
                                }
                                lemma_w9j_relisted(out@, m, 6, (tj1 as int, tj2 as int, tj3 as int,
                                    tj4 as int, tj5 as int, tj6 as int, 0, 0, 0), 7, (tj1 as int,
                                        tj2 as int, tj3 as int, tj4 as int, tj5 as int, tj6 as int,
                                            tj7 as int, 0, 0));
                            }
                            while tj7 < tj7s.iter.end
                                invariant
                                    cutoff_in_range(m),
                                    m == tj_max,
                                    0 <= tj1 <= tj_max,
                                    0 <= tj2 <= tj_max,
                                    0 <= tj3 <= tj_max,
                                    0 <= tj4 <= tj_max,
                                    0 <= tj5 <= tj_max,
                                    0 <= tj6 <= tj_max,
                                    triangle(tj1 as int, tj2 as int, tj3 as int),
                                    triangle(tj4 as int, tj5 as int, tj6 as int),
                                    tj7s.iter.start == abs_int(tj1 - tj4),
                                    tj7s.iter.end == min_int(tj_max as int, tj1 + tj4) + 1,
                                    tj7s.iter.start <= tj7,
                                    tj7 <= tj7s.iter.end + 1 || tj7 == tj7s.iter.start,
                                    (tj7 - tj7s.iter.start) % 2 == 0,
                                    w9j_listed(out@, m, 7, (tj1 as int, tj2 as int, tj3 as int,
                                        tj4 as int, tj5 as int, tj6 as int, tj7 as int, 0, 0)),
                                decreases tj7s.iter.end + 1 - tj7,
                            {
                                proof {
                                    lemma_tri_step(tj1 as int, tj4 as int, tj7 as int);
                                }
                                let tj8s = get_triangular_tjs(tj_max, tj2, tj5);
                                let mut tj8 = tj8s.iter.start;
                                proof {
                                    assert forall|w: Wigner9j| w9j_enumerable(w, m)
                                        implies (w9j_before(w, 7, (tj1 as int, tj2 as int,
                                            tj3 as int, tj4 as int, tj5 as int, tj6 as int,
                                                tj7 as int, 0, 0))
                                                    <==> #[trigger] w9j_before(w, 8, (tj1 as int,
                                                        tj2 as int, tj3 as int, tj4 as int,
                                                            tj5 as int, tj6 as int, tj7 as int,
                                                                tj8 as int, 0))) by {
                                        lemma_w9j_enum_facts(w, m);
                                    }
                                    lemma_w9j_relisted(out@, m, 7, (tj1 as int, tj2 as int,
                                        tj3 as int, tj4 as int, tj5 as int, tj6 as int, tj7 as int,
                                            0, 0), 8, (tj1 as int, tj2 as int, tj3 as int,
                                                tj4 as int, tj5 as int, tj6 as int, tj7 as int,
                                                    tj8 as int, 0));
                                }
                                while tj8 < tj8s.iter.end
                                    invariant
                                        cutoff_in_range(m),
                                        m == tj_max,
                                        0 <= tj1 <= tj_max,
                                        0 <= tj2 <= tj_max,
                                        0 <= tj3 <= tj_max,
                                        0 <= tj4 <= tj_max,
                                        0 <= tj5 <= tj_max,
                                        0 <= tj6 <= tj_max,
                                        0 <= tj7 <= tj_max,
                                        triangle(tj1 as int, tj2 as int, tj3 as int),
                                        triangle(tj4 as int, tj5 as int, tj6 as int),
                                        triangle(tj1 as int, tj4 as int, tj7 as int),
                                        tj8s.iter.start == abs_int(tj2 - tj5),
                                        tj8s.iter.end == min_int(tj_max as int, tj2 + tj5) + 1,
                                        tj8s.iter.start <= tj8,
                                        tj8 <= tj8s.iter.end + 1 || tj8 == tj8s.iter.start,
                                        (tj8 - tj8s.iter.start) % 2 == 0,
                                        w9j_listed(out@, m, 8, (tj1 as int, tj2 as int, tj3 as int,
                                            tj4 as int, tj5 as int, tj6 as int, tj7 as int, tj8 as int, 0)),
                                    decreases tj8s.iter.end + 1 - tj8,
                                {
                                    proof {
                                        lemma_tri_step(tj2 as int, tj5 as int, tj8 as int);
                                    }
                                    let tj9s = get_bitriangular_tjs(tj_max, tj7, tj8, tj3, tj6);
                                    let mut tj9 = tj9s.iter.start;
                                    proof {
                                        assert forall|w: Wigner9j| w9j_enumerable(w, m)
                                            implies (w9j_before(w, 8, (tj1 as int, tj2 as int,
                                                tj3 as int, tj4 as int, tj5 as int, tj6 as int,
                                                    tj7 as int, tj8 as int, 0))
                                                        <==> #[trigger] w9j_before(w, 9,
                                                            (tj1 as int, tj2 as int, tj3 as int,
                                                                tj4 as int, tj5 as int, tj6 as int,
                                                                    tj7 as int, tj8 as int, tj9 as int))) by {
                                            lemma_w9j_enum_facts(w, m);
                                            lemma_abs_parity(tj7 as int, tj8 as int);
                                            lemma_abs_parity(tj3 as int, tj6 as int);
                                        }
                                        lemma_w9j_relisted(out@, m, 8, (tj1 as int, tj2 as int,
                                            tj3 as int, tj4 as int, tj5 as int, tj6 as int,
                                                tj7 as int, tj8 as int, 0), 9, (tj1 as int,
                                                    tj2 as int, tj3 as int, tj4 as int, tj5 as int,
                                                        tj6 as int, tj7 as int, tj8 as int, tj9 as int));
                                    }
                                    while tj9 < tj9s.iter.end
                                        invariant
                                            cutoff_in_range(m),
                                            m == tj_max,
                                            0 <= tj1 <= tj_max,
                                            0 <= tj2 <= tj_max,
                                            0 <= tj3 <= tj_max,
                                            0 <= tj4 <= tj_max,
                                            0 <= tj5 <= tj_max,
                                            0 <= tj6 <= tj_max,
                                            0 <= tj7 <= tj_max,
                                            0 <= tj8 <= tj_max,
                                            triangle(tj1 as int, tj2 as int, tj3 as int),
                                            triangle(tj4 as int, tj5 as int, tj6 as int),
                                            triangle(tj1 as int, tj4 as int, tj7 as int),
                                            triangle(tj2 as int, tj5 as int, tj8 as int),
                                            (tj7 + tj8 + tj3 + tj6) % 2 != 0
                                                ==> tj9s.iter.start == 0 && tj9s.iter.end == 0,
                                            (tj7 + tj8 + tj3 + tj6) % 2 == 0
                                                ==> tj9s.iter.start == max_int(abs_int(tj7 - tj8),
                                                    abs_int(tj3 - tj6))
                                                        && tj9s.iter.end == min_int(min_int(tj_max as int, tj7 + tj8), min_int(tj_max as int, tj3 + tj6)) + 1,
                                            tj9s.iter.start <= tj9,
                                            tj9 <= tj9s.iter.end + 1 || tj9 == tj9s.iter.start,
                                            (tj9 - tj9s.iter.start) % 2 == 0,
                                            w9j_listed(out@, m, 9, (tj1 as int, tj2 as int,
                                                tj3 as int, tj4 as int, tj5 as int, tj6 as int,
                                                    tj7 as int, tj8 as int, tj9 as int)),
                                        decreases tj9s.iter.end + 1 - tj9,
                                    {
                                        proof {
                                            lemma_bitri_step(tj7 as int, tj8 as int, tj3 as int,
                                                tj6 as int, tj9 as int);
                                        }
                                        let cand = Wigner9j { tj1, tj2, tj3, tj4, tj5, tj6, tj7, tj8, tj9 };
                                        proof {
                                            lemma_w9j_next(cand, m);
                                        }
                                        w9j_append(&mut out, cand, Ghost(m));
                                        tj9 += 2;
                                        proof {
                                            lemma_even_combine(tj9 - 2 - tj9s.iter.start, 2,
                                                tj9 - tj9s.iter.start);
                                        }
                                    }
                                    proof {
                                        assert forall|w: Wigner9j| w9j_enumerable(w, m)
                                            implies (w9j_before(w, 9, (tj1 as int, tj2 as int,
                                                tj3 as int, tj4 as int, tj5 as int, tj6 as int,
                                                    tj7 as int, tj8 as int, tj9 as int))
                                                        <==> #[trigger] w9j_before(w, 8,
                                                            (tj1 as int, tj2 as int, tj3 as int,
                                                                tj4 as int, tj5 as int, tj6 as int,
                                                                    tj7 as int, tj8 + 2, 0))) by {
                                            lemma_w9j_enum_facts(w, m);
                                            lemma_abs_parity(tj2 as int, tj5 as int);
                                            lemma_abs_parity(tj7 as int, tj8 as int);
                                            lemma_abs_parity(tj3 as int, tj6 as int);
                                        }
                                        lemma_w9j_relisted(out@, m, 9, (tj1 as int, tj2 as int,
                                            tj3 as int, tj4 as int, tj5 as int, tj6 as int,
                                                tj7 as int, tj8 as int, tj9 as int), 8, (tj1 as int,
                                                    tj2 as int, tj3 as int, tj4 as int, tj5 as int,
                                                        tj6 as int, tj7 as int, tj8 + 2, 0));
                                    }
                                    tj8 += 2;
                                    proof {
                                        lemma_even_combine(tj8 - 2 - tj8s.iter.start, 2,
                                            tj8 - tj8s.iter.start);
                                    }
                                }
                                proof {
                                    assert forall|w: Wigner9j| w9j_enumerable(w, m)
                                        implies (w9j_before(w, 8, (tj1 as int, tj2 as int,
                                            tj3 as int, tj4 as int, tj5 as int, tj6 as int,
                                                tj7 as int, tj8 as int, 0))
                                                    <==> #[trigger] w9j_before(w, 7, (tj1 as int,
                                                        tj2 as int, tj3 as int, tj4 as int,
                                                            tj5 as int, tj6 as int, tj7 + 2, 0, 0))) by {
                                        lemma_w9j_enum_facts(w, m);
                                        lemma_abs_parity(tj1 as int, tj4 as int);
                                    }
                                    lemma_w9j_relisted(out@, m, 8, (tj1 as int, tj2 as int,
                                        tj3 as int, tj4 as int, tj5 as int, tj6 as int, tj7 as int,
                                            tj8 as int, 0), 7, (tj1 as int, tj2 as int, tj3 as int,
                                                tj4 as int, tj5 as int, tj6 as int, tj7 + 2, 0, 0));
                                }
                                tj7 += 2;
                                proof {
                                    lemma_even_combine(tj7 - 2 - tj7s.iter.start, 2, tj7 - tj7s.iter.start);
                                }
                            }
                            proof {
                                assert forall|w: Wigner9j| w9j_enumerable(w, m)
                                    implies (w9j_before(w, 7, (tj1 as int, tj2 as int, tj3 as int,
                                        tj4 as int, tj5 as int, tj6 as int, tj7 as int, 0, 0))
                                            <==> #[trigger] w9j_before(w, 6, (tj1 as int,
                                                tj2 as int, tj3 as int, tj4 as int, tj5 as int,
                                                    tj6 + 2, 0, 0, 0))) by {
                                    lemma_w9j_enum_facts(w, m);
                                    lemma_abs_parity(tj4 as int, tj5 as int);
                                }
                                lemma_w9j_relisted(out@, m, 7, (tj1 as int, tj2 as int, tj3 as int,
                                    tj4 as int, tj5 as int, tj6 as int, tj7 as int, 0, 0), 6,
                                        (tj1 as int, tj2 as int, tj3 as int, tj4 as int, tj5 as int,
                                            tj6 + 2, 0, 0, 0));
                            }
                            tj6 += 2;
                            proof {
                                lemma_even_combine(tj6 - 2 - tj6s.iter.start, 2, tj6 - tj6s.iter.start);
                            }
                        }
                        proof {
                            assert forall|w: Wigner9j| w9j_enumerable(w, m)
                                implies (w9j_before(w, 6, (tj1 as int, tj2 as int, tj3 as int,
                                    tj4 as int, tj5 as int, tj6 as int, 0, 0, 0))
                                        <==> #[trigger] w9j_before(w, 5, (tj1 as int, tj2 as int,
                                            tj3 as int, tj4 as int, tj5 + 1, 0, 0, 0, 0))) by {
                                lemma_w9j_enum_facts(w, m);
                            }
                            lemma_w9j_relisted(out@, m, 6, (tj1 as int, tj2 as int, tj3 as int,
                                tj4 as int, tj5 as int, tj6 as int, 0, 0, 0), 5, (tj1 as int,
                                    tj2 as int, tj3 as int, tj4 as int, tj5 + 1, 0, 0, 0, 0));
                        }
                        tj5 += 1;
                    }
                    proof {
                        assert forall|w: Wigner9j| w9j_enumerable(w, m)
                            implies (w9j_before(w, 5, (tj1 as int, tj2 as int, tj3 as int,
                                tj4 as int, tj5 as int, 0, 0, 0, 0))
                                    <==> #[trigger] w9j_before(w, 4, (tj1 as int, tj2 as int,
                                        tj3 as int, tj4 + 1, 0, 0, 0, 0, 0))) by {
                            lemma_w9j_enum_facts(w, m);
                        }
                        lemma_w9j_relisted(out@, m, 5, (tj1 as int, tj2 as int, tj3 as int,
                            tj4 as int, tj5 as int, 0, 0, 0, 0), 4, (tj1 as int, tj2 as int,
                                tj3 as int, tj4 + 1, 0, 0, 0, 0, 0));
                    }
                    tj4 += 1;
                }
                proof {
                    assert forall|w: Wigner9j| w9j_enumerable(w, m)
                        implies (w9j_before(w, 4, (tj1 as int, tj2 as int, tj3 as int, tj4 as int,
                            0, 0, 0, 0, 0))
                                <==> #[trigger] w9j_before(w, 3, (tj1 as int, tj2 as int, tj3 + 2,
                                    0, 0, 0, 0, 0, 0))) by {
                        lemma_w9j_enum_facts(w, m);
                        lemma_abs_parity(tj1 as int, tj2 as int);
                    }
                    lemma_w9j_relisted(out@, m, 4, (tj1 as int, tj2 as int, tj3 as int, tj4 as int,
                        0, 0, 0, 0, 0), 3, (tj1 as int, tj2 as int, tj3 + 2, 0, 0, 0, 0, 0, 0));
                }
                tj3 += 2;
                proof {
                    lemma_even_combine(tj3 - 2 - tj3s.iter.start, 2, tj3 - tj3s.iter.start);
                }
            }
            proof {
                assert forall|w: Wigner9j| w9j_enumerable(w, m)
                    implies (w9j_before(w, 3, (tj1 as int, tj2 as int, tj3 as int, 0, 0, 0, 0, 0,
                        0)) <==> #[trigger] w9j_before(w, 2, (tj1 as int, tj2 + 1, 0, 0, 0, 0, 0, 0, 0))) by {
                    lemma_w9j_enum_facts(w, m);
                }
                lemma_w9j_relisted(out@, m, 3, (tj1 as int, tj2 as int, tj3 as int, 0, 0, 0, 0, 0,
                    0), 2, (tj1 as int, tj2 + 1, 0, 0, 0, 0, 0, 0, 0));
            }
            tj2 += 1;
        }
        proof {
            assert forall|w: Wigner9j| w9j_enumerable(w, m)
                implies (w9j_before(w, 2, (tj1 as int, tj2 as int, 0, 0, 0, 0, 0, 0, 0))
                    <==> #[trigger] w9j_before(w, 1, (tj1 + 1, 0, 0, 0, 0, 0, 0, 0, 0))) by {
                lemma_w9j_enum_facts(w, m);
            }
            lemma_w9j_relisted(out@, m, 2, (tj1 as int, tj2 as int, 0, 0, 0, 0, 0, 0, 0), 1,
                (tj1 + 1, 0, 0, 0, 0, 0, 0, 0, 0));
        }
        tj1 += 1;
    }
    proof {
        assert forall|w: Wigner9j| out@.contains(w) <==> w9j_enumerable(w, m) by {
            if out@.contains(w) {
                let k = choose|k: int| 0 <= k < out@.len() && out@[k] == w;
                assert(w9j_enumerable(out@[k], m));
            }
            if w9j_enumerable(w, m) {
                lemma_w9j_enum_facts(w, m);
                assert(w9j_before(w, 1, (tj1 as int, 0, 0, 0, 0, 0, 0, 0, 0)));
            }
        }
    }
    out
}


} // verus!
