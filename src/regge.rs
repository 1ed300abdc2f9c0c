//! Regge symmetry: canonical forms of 3-jm and 6-j symbols and their dense indices.
use vstd::prelude::*;
use crate::{Wigner3jm, Wigner6j};
use crate::internal::{phase, phase_spec, sort3, sort4, occ};

verus! {

/// Regge square for Wigner 3-jm symbols, arranged in row-major order.
#[derive(Clone, Copy, Debug, PartialEq, Eq, Hash, PartialOrd, Ord)]
pub struct Regge3jm(pub [i32; 9]);

/// The entry of a row-major 3x3 square at row `i`, column `j`.
pub open spec fn at(s: Seq<i32>, i: int, j: int) -> int {
    s[3 * i + j] as int
}

/// The index that swapping `a` and `b` sends `i` to.
pub open spec fn swapped(i: int, a: int, b: int) -> int {
    if i == a {
        b
    } else if i == b {
        a
    } else {
        i
    }
}

/// The square with rows `i1` and `i2` exchanged.
pub open spec fn rows_swapped(s: Seq<i32>, i1: int, i2: int) -> Seq<i32> {
    Seq::new(9, |k: int| s[3 * swapped(k / 3, i1, i2) + k % 3])
}

/// The square with columns `j1` and `j2` exchanged.
pub open spec fn cols_swapped(s: Seq<i32>, j1: int, j2: int) -> Seq<i32> {
    Seq::new(9, |k: int| s[3 * (k / 3) + swapped(k % 3, j1, j2)])
}

/// The transposed square.
pub open spec fn transposed(s: Seq<i32>) -> Seq<i32> {
    Seq::new(9, |k: int| s[3 * (k % 3) + k / 3])
}

pub open spec fn row_sum(s: Seq<i32>, i: int) -> int {
    at(s, i, 0) + at(s, i, 1) + at(s, i, 2)
}

pub open spec fn col_sum(s: Seq<i32>, j: int) -> int {
    at(s, 0, j) + at(s, 1, j) + at(s, 2, j)
}

/// Every row and every column sums to the magic sum `m`.
pub open spec fn is_magic(s: Seq<i32>, m: int) -> bool {
    &&& s.len() == 9
    &&& forall|i: int| 0 <= i < 3 ==> #[trigger] row_sum(s, i) == m
    &&& forall|j: int| 0 <= j < 3 ==> #[trigger] col_sum(s, j) == m
}

/// Each entry fits in `0 ..= 255`.
pub open spec fn entries_small(s: Seq<i32>) -> bool {
    &&& s.len() == 9
    &&& forall|k: int| 0 <= k < 9 ==> 0 <= #[trigger] s[k] <= 255
}

/// `x / 2` rounded toward zero, as Rust's integer division does.
pub open spec fn half_trunc(x: int) -> int {
    if x >= 0 { x / 2 } else { -((-x) / 2) }
}

/// The Regge square of a 3-jm symbol: deficiencies, lowered and raised projections.
pub open spec fn regge_square(w: Wigner3jm) -> [i32; 9] {
    let (tj1, tm1, tj2, tm2, tj3, tm3) = (
        w.tj1 as int,
        w.tm1 as int,
        w.tj2 as int,
        w.tm2 as int,
        w.tj3 as int,
        w.tm3 as int,
    );
    [
        half_trunc(-tj1 + tj2 + tj3) as i32,
        half_trunc(tj1 - tj2 + tj3) as i32,
        half_trunc(tj1 + tj2 - tj3) as i32,
        half_trunc(tj1 - tm1) as i32,
        half_trunc(tj2 - tm2) as i32,
        half_trunc(tj3 - tm3) as i32,
        half_trunc(tj1 + tm1) as i32,
        half_trunc(tj2 + tm2) as i32,
        half_trunc(tj3 + tm3) as i32,
    ]
}

pub(crate) fn half(x: i64) -> (r: i32)
    requires
        -0x2_0000_0000 <= x <= 0x2_0000_0000,
    ensures
        r == half_trunc(x as int) as i32,
{
    (x / 2) as i32
}

impl From<Wigner3jm> for Regge3jm {
    fn from(w: Wigner3jm) -> (r: Self)
        ensures
            r.0 == regge_square(w),
    {
        let (tj1, tm1, tj2, tm2, tj3, tm3) = (
            w.tj1 as i64,
            w.tm1 as i64,
            w.tj2 as i64,
            w.tm2 as i64,
            w.tj3 as i64,
            w.tm3 as i64,
        );
        let r = Regge3jm(
            [
                half(-tj1 + tj2 + tj3),
                half(tj1 - tj2 + tj3),
                half(tj1 + tj2 - tj3),
                half(tj1 - tm1),
                half(tj2 - tm2),
                half(tj3 - tm3),
                half(tj1 + tm1),
                half(tj2 + tm2),
                half(tj3 + tm3),
            ],
        );
        r
    }
}

impl vstd::std_specs::convert::FromSpecImpl<Wigner3jm> for Regge3jm {
    open spec fn obeys_from_spec() -> bool {
        true
    }

    open spec fn from_spec(w: Wigner3jm) -> Regge3jm {
        Regge3jm(regge_square(w))
    }
}

impl Regge3jm {
    /// The entry at row `i`, column `j`.
    pub fn get(&self, i: usize, j: usize) -> (r: i32)
        requires
            i < 3,
            j < 3,
        ensures
            r == at(self.0@, i as int, j as int),
    {
        self.0[i * 3 + j]
    }

    /// The sum of the first row, which every row and column shares in a valid square.
    pub fn magic_sum(&self) -> (r: i32)
        requires
            i32::MIN <= row_sum(self.0@, 0) <= i32::MAX,
        ensures
            r == row_sum(self.0@, 0),
    {
        (self.0[0] as i64 + self.0[1] as i64 + self.0[2] as i64) as i32
    }

    /// Exchanges the entries at `(i1, j1)` and `(i2, j2)`.
    pub fn swap(&mut self, first: (usize, usize), second: (usize, usize))
        requires
            first.0 < 3,
            first.1 < 3,
            second.0 < 3,
            second.1 < 3,
        ensures
            final(self).0@ == old(self).0@.update(3 * first.0 + first.1,
                old(self).0@[3 * second.0 + second.1]).update(
                3 * second.0 + second.1,
                old(self).0@[3 * first.0 + first.1],
            ),
    {
        let (i1, j1) = first;
        let (i2, j2) = second;
        let x = self.0[i1 * 3 + j1];
        self.0[i1 * 3 + j1] = self.0[i2 * 3 + j2];
        self.0[i2 * 3 + j2] = x;
    }

    /// Exchanges rows `i1` and `i2`; flips `parity` when they differ.
    pub fn swap_rows(&mut self, i1: usize, i2: usize, parity: &mut bool)
        requires
            i1 < 3,
            i2 < 3,
        ensures
            final(self).0@ == rows_swapped(old(self).0@, i1 as int, i2 as int),
            *final(parity) == (*old(parity) != (i1 != i2)),
    {
        let ghost s = self.0@;
        self.swap((i1, 0), (i2, 0));
        self.swap((i1, 1), (i2, 1));
        self.swap((i1, 2), (i2, 2));
        assert(self.0@ =~= rows_swapped(s, i1 as int, i2 as int));
        *parity = *parity != (i1 != i2);
    }

    /// Exchanges columns `j1` and `j2`; flips `parity` when they differ.
    pub fn swap_cols(&mut self, j1: usize, j2: usize, parity: &mut bool)
        requires
            j1 < 3,
            j2 < 3,
        ensures
            final(self).0@ == cols_swapped(old(self).0@, j1 as int, j2 as int),
            *final(parity) == (*old(parity) != (j1 != j2)),
    {
        let ghost s = self.0@;
        self.swap((0, j1), (0, j2));
        self.swap((1, j1), (1, j2));
        self.swap((2, j1), (2, j2));
        assert(self.0@ =~= cols_swapped(s, j1 as int, j2 as int));
        *parity = *parity != (j1 != j2);
    }

    /// Transposes the square.
    pub fn transpose(&mut self)
        ensures
            final(self).0@ == transposed(old(self).0@),
    {
        let ghost s = self.0@;
        self.swap((0, 1), (1, 0));
        self.swap((0, 2), (2, 0));
        self.swap((1, 2), (2, 1));
        assert(self.0@ =~= transposed(s));
    }
}

/// Row-major position of the first smallest entry among the first `n`.
pub open spec fn argmin_upto(s: Seq<i32>, n: int) -> int
    decreases n,
{
    if n <= 1 {
        0
    } else {
        let p = argmin_upto(s, n - 1);
        if s[n - 1] < s[p] {
            n - 1
        } else {
            p
        }
    }
}

/// The largest entry among the first `n` (at least one).
pub open spec fn max_upto(s: Seq<i32>, n: int) -> i32
    decreases n,
{
    if n <= 1 {
        s[0]
    } else {
        let m = max_upto(s, n - 1);
        if s[n - 1] > m {
            s[n - 1]
        } else {
            m
        }
    }
}

/// First step: the smallest entry is brought to `(0, 0)` by one row and one column swap.
pub open spec fn min_to_corner(s: Seq<i32>) -> (Seq<i32>, bool) {
    let k = argmin_upto(s, 9);
    let mi = k / 3;
    let mj = k % 3;
    (cols_swapped(rows_swapped(s, 0, mi), 0, mj), (mi != 0) != (mj != 0))
}

/// Second step: the largest entry `l` is brought to `(0, 1)`.
pub open spec fn max_to_top(s: Seq<i32>, l: int, p: bool) -> (Seq<i32>, bool) {
    if at(s, 0, 2) == l {
        (cols_swapped(s, 1, 2), !p)
    } else if at(s, 1, 0) == l {
        (transposed(s), p)
    } else if at(s, 2, 0) == l {
        (cols_swapped(transposed(s), 1, 2), !p)
    } else {
        (s, p)
    }
}

/// Row 1 comes after row 2 in the order on their last two entries.
pub open spec fn last_rows_out_of_order(s: Seq<i32>) -> bool {
    at(s, 1, 1) > at(s, 2, 1) || (at(s, 1, 1) == at(s, 2, 1) && at(s, 1, 2) > at(s, 2, 2))
}

/// Third step: the last two rows are put in order.
pub open spec fn order_last_rows(s: Seq<i32>, p: bool) -> (Seq<i32>, bool) {
    if last_rows_out_of_order(s) {
        (rows_swapped(s, 1, 2), !p)
    } else {
        (s, p)
    }
}

/// The canonical square of `s`, and whether an odd number of row and column
/// exchanges led to it.
pub open spec fn canonical_square(s: Seq<i32>) -> (Seq<i32>, bool) {
    let (s1, odd1) = min_to_corner(s);
    let (s2, odd2) = max_to_top(s1, max_upto(s, 9) as int, odd1);
    order_last_rows(s2, odd2)
}

/// The five entries `(l, x, t, b, s)` of a canonical square.
pub open spec fn key_of(s: Seq<i32>) -> CanonicalRegge3jm {
    CanonicalRegge3jm {
        l: at(s, 0, 1) as u8,
        x: at(s, 1, 0) as u8,
        t: at(s, 2, 2) as u8,
        b: at(s, 1, 1) as u8,
        s: at(s, 0, 0) as u8,
    }
}

/// A valid Regge square: every row and column sums to the same value, and
/// every entry lies in `0 ..= 255`.
pub open spec fn valid_square(s: Seq<i32>) -> bool {
    is_magic(s, row_sum(s, 0)) && entries_small(s)
}

/// The key is non-increasing: `l >= x >= t >= b >= s`.
pub open spec fn key_ordered(k: CanonicalRegge3jm) -> bool {
    k.l >= k.x && k.x >= k.t && k.t >= k.b && k.b >= k.s
}


/// Every entry lies between `lo` and `hi`.
pub open spec fn bounded_by(s: Seq<i32>, lo: int, hi: int) -> bool {
    forall|i: int, j: int| 0 <= i < 3 && 0 <= j < 3 ==> lo <= #[trigger] at(s, i, j) <= hi
}

proof fn lemma_rows_swapped(s: Seq<i32>, i1: int, i2: int)
    requires
        s.len() == 9,
        0 <= i1 < 3,
        0 <= i2 < 3,
    ensures
        rows_swapped(s, i1, i2).len() == 9,
        forall|i: int, j: int|
            0 <= i < 3 && 0 <= j < 3 ==> #[trigger] at(rows_swapped(s, i1, i2), i, j) == at(
                s,
                swapped(i, i1, i2),
                j,
            ),
{
    assert forall|i: int, j: int| 0 <= i < 3 && 0 <= j < 3 implies #[trigger] at(
        rows_swapped(s, i1, i2),
        i,
        j,
    ) == at(s, swapped(i, i1, i2), j) by {
        assert((3 * i + j) / 3 == i && (3 * i + j) % 3 == j);
    }
}

proof fn lemma_cols_swapped(s: Seq<i32>, j1: int, j2: int)
    requires
        s.len() == 9,
        0 <= j1 < 3,
        0 <= j2 < 3,
    ensures
        cols_swapped(s, j1, j2).len() == 9,
        forall|i: int, j: int|
            0 <= i < 3 && 0 <= j < 3 ==> #[trigger] at(cols_swapped(s, j1, j2), i, j) == at(
                s,
                i,
                swapped(j, j1, j2),
            ),
{
    assert forall|i: int, j: int| 0 <= i < 3 && 0 <= j < 3 implies #[trigger] at(
        cols_swapped(s, j1, j2),
        i,
        j,
    ) == at(s, i, swapped(j, j1, j2)) by {
        assert((3 * i + j) / 3 == i && (3 * i + j) % 3 == j);
    }
}

proof fn lemma_transposed(s: Seq<i32>)
    requires
        s.len() == 9,
    ensures
        transposed(s).len() == 9,
        forall|i: int, j: int|
            0 <= i < 3 && 0 <= j < 3 ==> #[trigger] at(transposed(s), i, j) == at(s, j, i),
{
    assert forall|i: int, j: int| 0 <= i < 3 && 0 <= j < 3 implies #[trigger] at(
        transposed(s),
        i,
        j,
    ) == at(s, j, i) by {
        assert((3 * i + j) / 3 == i && (3 * i + j) % 3 == j);
    }
}

proof fn lemma_argmin(s: Seq<i32>, n: int)
    requires
        s.len() == 9,
        1 <= n <= 9,
    ensures
        0 <= argmin_upto(s, n) < n,
        forall|k: int| 0 <= k < n ==> s[argmin_upto(s, n)] <= #[trigger] s[k],
    decreases n,
{
    if n > 1 {
        lemma_argmin(s, n - 1);
    }
}

proof fn lemma_max(s: Seq<i32>, n: int) -> (q: int)
    requires
        s.len() == 9,
        1 <= n <= 9,
    ensures
        0 <= q < n,
        s[q] == max_upto(s, n),
        forall|k: int| 0 <= k < n ==> #[trigger] s[k] <= max_upto(s, n),
    decreases n,
{
    if n > 1 {
        let q0 = lemma_max(s, n - 1);
        if s[n - 1] > max_upto(s, n - 1) {
            n - 1
        } else {
            q0
        }
    } else {
        0
    }
}

proof fn lemma_rows_keep(s: Seq<i32>, i1: int, i2: int, m: int, lo: int, hi: int)
    requires
        s.len() == 9,
        0 <= i1 < 3,
        0 <= i2 < 3,
        is_magic(s, m),
        bounded_by(s, lo, hi),
    ensures
        is_magic(rows_swapped(s, i1, i2), m),
        bounded_by(rows_swapped(s, i1, i2), lo, hi),
{
    let t = rows_swapped(s, i1, i2);
    lemma_rows_swapped(s, i1, i2);
    assert(row_sum(t, 0) == row_sum(s, swapped(0, i1, i2)));
    assert(row_sum(t, 1) == row_sum(s, swapped(1, i1, i2)));
    assert(row_sum(t, 2) == row_sum(s, swapped(2, i1, i2)));
    assert(col_sum(t, 0) == col_sum(s, 0));
    assert(col_sum(t, 1) == col_sum(s, 1));
    assert(col_sum(t, 2) == col_sum(s, 2));
    assert forall|i: int, j: int| 0 <= i < 3 && 0 <= j < 3 implies lo <= #[trigger] at(
        t,
        i,
        j,
    ) <= hi by {
        assert(at(t, i, j) == at(s, swapped(i, i1, i2), j));
    }
}

proof fn lemma_cols_keep(s: Seq<i32>, j1: int, j2: int, m: int, lo: int, hi: int)
    requires
        s.len() == 9,
        0 <= j1 < 3,
        0 <= j2 < 3,
        is_magic(s, m),
        bounded_by(s, lo, hi),
    ensures
        is_magic(cols_swapped(s, j1, j2), m),
        bounded_by(cols_swapped(s, j1, j2), lo, hi),
{
    let t = cols_swapped(s, j1, j2);
    lemma_cols_swapped(s, j1, j2);
    assert(row_sum(t, 0) == row_sum(s, 0));
    assert(row_sum(t, 1) == row_sum(s, 1));
    assert(row_sum(t, 2) == row_sum(s, 2));
    assert(col_sum(t, 0) == col_sum(s, swapped(0, j1, j2)));
    assert(col_sum(t, 1) == col_sum(s, swapped(1, j1, j2)));
    assert(col_sum(t, 2) == col_sum(s, swapped(2, j1, j2)));
    assert forall|i: int, j: int| 0 <= i < 3 && 0 <= j < 3 implies lo <= #[trigger] at(
        t,
        i,
        j,
    ) <= hi by {
        assert(at(t, i, j) == at(s, i, swapped(j, j1, j2)));
    }
}

proof fn lemma_transposed_keeps(s: Seq<i32>, m: int, lo: int, hi: int)
    requires
        s.len() == 9,
        is_magic(s, m),
        bounded_by(s, lo, hi),
    ensures
        is_magic(transposed(s), m),
        bounded_by(transposed(s), lo, hi),
{
    let t = transposed(s);
    lemma_transposed(s);
    assert(row_sum(t, 0) == col_sum(s, 0));
    assert(row_sum(t, 1) == col_sum(s, 1));
    assert(row_sum(t, 2) == col_sum(s, 2));
    assert(col_sum(t, 0) == row_sum(s, 0));
    assert(col_sum(t, 1) == row_sum(s, 1));
    assert(col_sum(t, 2) == row_sum(s, 2));
    assert forall|i: int, j: int| 0 <= i < 3 && 0 <= j < 3 implies lo <= #[trigger] at(
        t,
        i,
        j,
    ) <= hi by {
        assert(at(t, i, j) == at(s, j, i));
    }
}

/// In a magic square whose corner `(0, 0)` holds its smallest entry, the largest
/// entry also stands in row 0 or column 0.
proof fn lemma_max_on_border(s: Seq<i32>, m: int, hi: int, a: int, b: int)
    requires
        s.len() == 9,
        is_magic(s, m),
        bounded_by(s, at(s, 0, 0), hi),
        0 <= a < 3,
        0 <= b < 3,
        at(s, a, b) == hi,
    ensures
        at(s, 0, 1) == hi || at(s, 0, 2) == hi || at(s, 1, 0) == hi || at(s, 2, 0) == hi,
{
    assert(row_sum(s, 0) == m && col_sum(s, 1) == m && col_sum(s, 2) == m);
    assert(lo_le(s));
}

spec fn lo_le(s: Seq<i32>) -> bool {
    &&& at(s, 0, 0) <= at(s, 1, 1)
    &&& at(s, 0, 0) <= at(s, 1, 2)
    &&& at(s, 0, 0) <= at(s, 2, 1)
    &&& at(s, 0, 0) <= at(s, 2, 2)
}

/// In a magic square with its smallest entry at `(0, 0)` and its largest at
/// `(0, 1)`: `(1, 0) >= (2, 2) >= (1, 1)`.
proof fn lemma_key_order(s: Seq<i32>, m: int)
    requires
        s.len() == 9,
        is_magic(s, m),
        bounded_by(s, at(s, 0, 0), at(s, 0, 1)),
    ensures
        at(s, 1, 0) >= at(s, 2, 2) >= at(s, 1, 1),
{
    assert(row_sum(s, 0) == m && row_sum(s, 1) == m && row_sum(s, 2) == m);
    assert(col_sum(s, 0) == m && col_sum(s, 1) == m && col_sum(s, 2) == m);
    assert(at(s, 2, 1) >= at(s, 0, 0));
    assert(at(s, 2, 0) <= at(s, 0, 1));
}

/// What canonicalization establishes of a valid square: the square stays valid
/// with the same magic sum, its smallest entry lands at `(0, 0)`, its largest at
/// `(0, 1)`, and the key read from it is non-increasing.
pub proof fn lemma_canonical_square(s: Seq<i32>)
    requires
        valid_square(s),
    ensures
        valid_square(canonical_square(s).0),
        row_sum(canonical_square(s).0, 0) == row_sum(s, 0),
        bounded_by(
            canonical_square(s).0,
            at(canonical_square(s).0, 0, 0),
            at(canonical_square(s).0, 0, 1),
        ),
        at(canonical_square(s).0, 1, 0) >= at(canonical_square(s).0, 2, 2),
        at(canonical_square(s).0, 2, 2) >= at(canonical_square(s).0, 1, 1),
{
    let m = row_sum(s, 0);
    let k = argmin_upto(s, 9);
    lemma_argmin(s, 9);
    let q = lemma_max(s, 9);
    let lo = s[k] as int;
    let hi = max_upto(s, 9) as int;
    let mi = k / 3;
    let mj = k % 3;
    let qi = q / 3;
    let qj = q % 3;
    assert(bounded_by(s, lo, hi)) by {
        assert forall|i: int, j: int| 0 <= i < 3 && 0 <= j < 3 implies lo <= #[trigger] at(
            s,
            i,
            j,
        ) <= hi by {
            assert(0 <= 3 * i + j < 9);
        }
    }
    let r1 = rows_swapped(s, 0, mi);
    let s1 = cols_swapped(r1, 0, mj);
    lemma_rows_keep(s, 0, mi, m, lo, hi);
    lemma_cols_keep(r1, 0, mj, m, lo, hi);
    lemma_rows_swapped(s, 0, mi);
    lemma_cols_swapped(r1, 0, mj);
    assert(at(s1, 0, 0) == at(s, mi, mj));
    assert(at(s, mi, mj) == lo) by {
        assert(k == 3 * mi + mj);
    }
    let pi = swapped(qi, 0, mi);
    let pj = swapped(qj, 0, mj);
    assert(at(s1, pi, pj) == at(s, qi, qj));
    assert(at(s, qi, qj) == hi) by {
        assert(q == 3 * qi + qj);
    }
    lemma_max_on_border(s1, m, hi, pi, pj);
    let s2 = max_to_top(s1, hi, min_to_corner(s).1).0;
    lemma_cols_keep(s1, 1, 2, m, lo, hi);
    lemma_transposed_keeps(s1, m, lo, hi);
    lemma_cols_keep(transposed(s1), 1, 2, m, lo, hi);
    lemma_cols_swapped(s1, 1, 2);
    lemma_transposed(s1);
    lemma_cols_swapped(transposed(s1), 1, 2);
    assert(at(s2, 0, 0) == lo);
    assert(at(s2, 0, 1) == hi);
    let s3 = canonical_square(s).0;
    lemma_rows_keep(s2, 1, 2, m, lo, hi);
    lemma_rows_swapped(s2, 1, 2);
    assert(at(s3, 0, 0) == lo);
    assert(at(s3, 0, 1) == hi);
    assert(row_sum(s3, 0) == m);
    lemma_key_order(s3, m);
    assert(lo >= 0 && hi <= 255) by {
        assert(0 <= k < 9 && 0 <= q < 9);
    }
    assert(entries_small(s3)) by {
        assert forall|k: int| 0 <= k < 9 implies 0 <= #[trigger] s3[k] <= 255 by {
            assert(k == 3 * (k / 3) + k % 3);
            assert(at(s3, k / 3, k % 3) == s3[k]);
        }
    }
}

impl Regge3jm {
    /// The row and column of the first smallest entry in row-major order, and the
    /// largest entry.
    fn find_extremes(&self) -> (r: (usize, usize, i32))
        ensures
            r.0 < 3,
            r.1 < 3,
            3 * r.0 + r.1 == argmin_upto(self.0@, 9),
            r.2 == max_upto(self.0@, 9),
    {
        let ghost s0 = self.0@;
        let mut min_i: usize = 0;
        let mut min_j: usize = 0;
        let mut s = self.get(0, 0);
        let mut l = self.get(0, 0);
        let mut i: usize = 0;
        while i < 3
            invariant
                0 <= i <= 3,
                self.0@ == s0,
                min_i < 3,
                min_j < 3,
                3 * min_i + min_j == argmin_upto(s0, 3 * i as int),
                s == s0[3 * min_i + min_j],
                l == max_upto(s0, 3 * i as int),
            decreases 3 - i,
        {
            let mut j: usize = 0;
            while j < 3
                invariant
                    0 <= i < 3,
                    0 <= j <= 3,
                    self.0@ == s0,
                    min_i < 3,
                    min_j < 3,
                    3 * min_i + min_j == argmin_upto(s0, 3 * i + j),
                    s == s0[3 * min_i + min_j],
                    l == max_upto(s0, 3 * i + j),
                decreases 3 - j,
            {
                let v = self.get(i, j);
                if v < s {
                    s = v;
                    min_i = i;
                    min_j = j;
                }
                if v > l {
                    l = v;
                }
                j += 1;
            }
            i += 1;
        }

        (min_i, min_j, l)
    }

    /// Canonicalizes the square (Tuzun et al. 1998) and returns the canonical key
    /// with the sign that relates the canonical symbol to the original one.
    pub fn canonicalize(&mut self) -> (r: (CanonicalRegge3jm, i32))
        requires
            valid_square(old(self).0@),
        ensures
            final(self).0@ == canonical_square(old(self).0@).0,
            r.0 == key_of(final(self).0@),
            r.1 == if canonical_square(old(self).0@).1 {
                phase_spec(row_sum(old(self).0@, 0))
            } else {
                1
            },
            valid_square(final(self).0@),
            row_sum(final(self).0@, 0) == row_sum(old(self).0@, 0),
            bounded_by(final(self).0@, at(final(self).0@, 0, 0), at(final(self).0@, 0, 1)),
            r.0.l as int == at(final(self).0@, 0, 1),
            r.0.x as int == at(final(self).0@, 1, 0),
            r.0.t as int == at(final(self).0@, 2, 2),
            r.0.b as int == at(final(self).0@, 1, 1),
            r.0.s as int == at(final(self).0@, 0, 0),
            key_ordered(r.0),
    {
        let ghost s0 = self.0@;
        proof {
            lemma_canonical_square(s0);
        }
        let magic_sum = self.magic_sum();
        let mut parity = false;

        let (min_i, min_j, l) = self.find_extremes();

        // move the smallest entry to (0, 0)
        self.swap_rows(0, min_i, &mut parity);
        self.swap_cols(0, min_j, &mut parity);

        // move the largest entry to (0, 1)
        if self.get(0, 2) == l {
            self.swap_cols(1, 2, &mut parity);
        } else if self.get(1, 0) == l {
            self.transpose();
        } else if self.get(2, 0) == l {
            self.transpose();
            self.swap_cols(1, 2, &mut parity);
        }

        // put the last two rows in order
        let (b1, c1, b2, c2) = (self.get(1, 1), self.get(1, 2), self.get(2, 1), self.get(2, 2));
        if b1 > b2 || (b1 == b2 && c1 > c2) {
            self.swap_rows(1, 2, &mut parity);
        }

        let key = CanonicalRegge3jm {
            l: self.get(0, 1) as u8,
            x: self.get(1, 0) as u8,
            t: self.get(2, 2) as u8,
            b: self.get(1, 1) as u8,
            s: self.get(0, 0) as u8,
        };
        (key, if parity {
            phase(magic_sum)
        } else {
            1
        })
    }
}

/// Canonical key of a Wigner 3-jm symbol under Regge symmetry: `l >= x >= t >= b >= s`.
#[derive(Clone, Copy, Debug, Default, PartialEq, Eq, Structural, Hash, PartialOrd, Ord)]
pub struct CanonicalRegge3jm {
    pub l: u8,
    pub x: u8,
    pub t: u8,
    pub b: u8,
    pub s: u8,
}

} // verus!

verus! {

/// `C(n + k - 1, k)`: how many non-increasing `k`-tuples of naturals lie below `n`.
pub open spec fn simplex(k: nat, n: int) -> int
    decreases k, n,
{
    if k == 0 {
        1
    } else if n <= 0 {
        0
    } else {
        simplex(k, n - 1) + simplex((k - 1) as nat, n)
    }
}

/// The dense index of a canonical 3-jm key (Rasch and Yu 2003).
pub open spec fn index3(l: int, x: int, t: int, b: int, s: int) -> int {
    simplex(5, l) + simplex(4, x) + simplex(3, t) + simplex(2, b) + simplex(1, s)
}

proof fn lemma_simplex_closed(n: int)
    requires
        n >= 0,
    ensures
        simplex(1, n) == n,
        2 * simplex(2, n) == n * (n + 1),
        6 * simplex(3, n) == n * (n + 1) * (n + 2),
        24 * simplex(4, n) == n * (n + 1) * (n + 2) * (n + 3),
        120 * simplex(5, n) == n * (n + 1) * (n + 2) * (n + 3) * (n + 4),
        720 * simplex(6, n) == n * (n + 1) * (n + 2) * (n + 3) * (n + 4) * (n + 5),
    decreases n,
{
    if n > 0 {
        let m = n - 1;
        lemma_simplex_closed(m);
        assert(simplex(1, n) == simplex(1, m) + simplex(0, n));
        assert(simplex(2, n) == simplex(2, m) + simplex(1, n));
        assert(simplex(3, n) == simplex(3, m) + simplex(2, n));
        assert(simplex(4, n) == simplex(4, m) + simplex(3, n));
        assert(simplex(5, n) == simplex(5, m) + simplex(4, n));
        assert(simplex(6, n) == simplex(6, m) + simplex(5, n));
        assert(m * (m + 1) + 2 * n == n * (n + 1)) by (nonlinear_arith)
            requires
                m == n - 1,
        ;
        assert(m * (m + 1) * (m + 2) + 3 * (n * (n + 1)) == n * (n + 1) * (n + 2))
            by (nonlinear_arith)
            requires
                m == n - 1,
        ;
        assert(m * (m + 1) * (m + 2) * (m + 3) + 4 * (n * (n + 1) * (n + 2)) == n * (n + 1) * (n
            + 2) * (n + 3)) by (nonlinear_arith)
            requires
                m == n - 1,
        ;
        assert(m * (m + 1) * (m + 2) * (m + 3) * (m + 4) + 5 * (n * (n + 1) * (n + 2) * (n + 3))
            == n * (n + 1) * (n + 2) * (n + 3) * (n + 4)) by (nonlinear_arith)
            requires
                m == n - 1,
        ;
        assert(m * (m + 1) * (m + 2) * (m + 3) * (m + 4) * (m + 5) + 6 * (n * (n + 1) * (n + 2)
            * (n + 3) * (n + 4)) == n * (n + 1) * (n + 2) * (n + 3) * (n + 4) * (n + 5))
            by (nonlinear_arith)
            requires
                m == n - 1,
        ;
    }
}

proof fn lemma_simplex_nonneg(k: nat, n: int)
    ensures
        simplex(k, n) >= 0,
    decreases k, n,
{
    if k > 0 && n > 0 {
        lemma_simplex_nonneg(k, n - 1);
        lemma_simplex_nonneg((k - 1) as nat, n);
    }
}

proof fn lemma_simplex_mono(k: nat, a: int, b: int)
    requires
        a <= b,
    ensures
        simplex(k, a) <= simplex(k, b),
    decreases b - a,
{
    if a < b {
        lemma_simplex_mono(k, a, b - 1);
        if k > 0 && b > 0 {
            lemma_simplex_nonneg((k - 1) as nat, b);
        }
    }
}

/// `simplex(k, a) + p < simplex(k, a + 1)` whenever `p < simplex(k - 1, a + 1)`.
proof fn lemma_simplex_step(k: nat, a: int, c: int, p: int)
    requires
        k >= 1,
        0 <= c <= a,
        p < simplex((k - 1) as nat, c + 1),
    ensures
        simplex(k, a) + p < simplex(k, a + 1),
{
    lemma_simplex_mono((k - 1) as nat, c + 1, a + 1);
}

/// The index of an ordered key stays below `simplex(5, l + 1)`.
proof fn lemma_index3_below(l: int, x: int, t: int, b: int, s: int)
    requires
        l >= x >= t >= b >= s >= 0,
    ensures
        simplex(2, b) + simplex(1, s) < simplex(2, b + 1),
        simplex(3, t) + simplex(2, b) + simplex(1, s) < simplex(3, t + 1),
        simplex(4, x) + simplex(3, t) + simplex(2, b) + simplex(1, s) < simplex(4, x + 1),
        index3(l, x, t, b, s) < simplex(5, l + 1),
{
    lemma_simplex_closed(s);
    lemma_simplex_closed(s + 1);
    lemma_simplex_step(2, b, s, simplex(1, s));
    lemma_simplex_step(3, t, b, simplex(2, b) + simplex(1, s));
    lemma_simplex_step(4, x, t, simplex(3, t) + simplex(2, b) + simplex(1, s));
    lemma_simplex_step(5, l, x, simplex(4, x) + simplex(3, t) + simplex(2, b) + simplex(1, s));
}

/// Distinct non-increasing 5-tuples of naturals have distinct indices.
pub proof fn lemma_index3_injective(a: CanonicalRegge3jm, b: CanonicalRegge3jm)
    requires
        key_ordered(a),
        key_ordered(b),
        a.index_spec() == b.index_spec(),
    ensures
        a == b,
{
    let (l1, x1, t1, b1, s1) = (a.l as int, a.x as int, a.t as int, a.b as int, a.s as int);
    let (l2, x2, t2, b2, s2) = (b.l as int, b.x as int, b.t as int, b.b as int, b.s as int);
    lemma_index3_below(l1, x1, t1, b1, s1);
    lemma_index3_below(l2, x2, t2, b2, s2);
    lemma_simplex_nonneg(4, x1);
    lemma_simplex_nonneg(4, x2);
    lemma_simplex_nonneg(3, t1);
    lemma_simplex_nonneg(3, t2);
    lemma_simplex_nonneg(2, b1);
    lemma_simplex_nonneg(2, b2);
    lemma_simplex_nonneg(1, s1);
    lemma_simplex_nonneg(1, s2);
    if l1 < l2 {
        lemma_simplex_mono(5, l1 + 1, l2);
    } else if l2 < l1 {
        lemma_simplex_mono(5, l2 + 1, l1);
    }
    if x1 < x2 {
        lemma_simplex_mono(4, x1 + 1, x2);
    } else if x2 < x1 {
        lemma_simplex_mono(4, x2 + 1, x1);
    }
    if t1 < t2 {
        lemma_simplex_mono(3, t1 + 1, t2);
    } else if t2 < t1 {
        lemma_simplex_mono(3, t2 + 1, t1);
    }
    if b1 < b2 {
        lemma_simplex_mono(2, b1 + 1, b2);
    } else if b2 < b1 {
        lemma_simplex_mono(2, b2 + 1, b1);
    }
    lemma_simplex_closed(s1);
    lemma_simplex_closed(s2);
}

/// Every ordered key with entries at most `n` has an index at most
/// `simplex(5, n + 1) - 1`, and the key with every entry `n` reaches it.
pub proof fn lemma_index3_range(k: CanonicalRegge3jm, n: int)
    requires
        key_ordered(k),
        k.l <= n,
    ensures
        k.index_spec() <= simplex(5, n + 1) - 1,
        index3(n, n, n, n, n) == simplex(5, n + 1) - 1,
{
    lemma_index3_below(k.l as int, k.x as int, k.t as int, k.b as int, k.s as int);
    lemma_simplex_mono(5, k.l + 1, n + 1);
    lemma_simplex_closed(n);
    lemma_simplex_closed(n + 1);
}

impl CanonicalRegge3jm {
    pub open spec fn index_spec(self) -> int {
        index3(self.l as int, self.x as int, self.t as int, self.b as int, self.s as int)
    }

    /// Index into a table ordered according to Rasch and Yu (2003).
    pub fn index(self) -> (r: usize)
        requires
            key_ordered(self),
            self.index_spec() <= usize::MAX,
        ensures
            r == self.index_spec(),
    {
        let l = self.l as u64;
        let x = self.x as u64;
        let t = self.t as u64;
        let b = self.b as u64;
        let s = self.s as u64;
        proof {
            lemma_simplex_closed(l as int);
            lemma_simplex_closed(x as int);
            lemma_simplex_closed(t as int);
            lemma_simplex_closed(b as int);
            lemma_simplex_closed(s as int);
            lemma_index3_below(l as int, x as int, t as int, b as int, s as int);
            lemma_simplex_nonneg(5, l as int);
            lemma_simplex_nonneg(4, x as int);
            lemma_simplex_nonneg(3, t as int);
            lemma_simplex_nonneg(2, b as int);
        }
        let r5 = quintic(l);
        let r4 = quartic(x);
        let r3 = cubic(t);
        assert(b * (b + 1) <= 255 * 256) by (nonlinear_arith)
            requires
                b <= 255,
        ;
        let r2 = b * (b + 1) / 2;
        (r5 + r4 + r3 + r2 + s) as usize
    }

    /// The table size that holds every key up to the cutoff `tj_max`.
    pub fn len(tj_max: i32) -> (r: usize)
        requires
            0 <= tj_max < 255,
            simplex(5, tj_max + 1) <= usize::MAX,
        ensures
            r == simplex(5, tj_max + 1),
    {
        let k = CanonicalRegge3jm { l: tj_max as u8 + 1, x: 0, t: 0, b: 0, s: 0 };
        proof {
            lemma_simplex_closed(0);
        }
        k.index()
    }
}

/// `l (l + 1) (l + 2) (l + 3) (l + 4) / 120` for `l <= 255`.
fn quintic(l: u64) -> (r: u64)
    requires
        l <= 255,
    ensures
        r == simplex(5, l as int),
        r <= 1_000_000_000_000,
{
    proof {
        lemma_simplex_closed(l as int);
    }
    let a = 10 + l;
    assert(l * a <= 255 * 265) by (nonlinear_arith)
        requires
            l <= 255,
            a <= 265,
    ;
    let b = 35 + l * a;
    assert(l * b <= 255 * 67610) by (nonlinear_arith)
        requires
            l <= 255,
            b <= 67610,
    ;
    let c = 50 + l * b;
    assert(l * c <= 255 * 17240600) by (nonlinear_arith)
        requires
            l <= 255,
            c <= 17240600,
    ;
    let d = 24 + l * c;
    assert(l * d <= 255 * 4396353024) by (nonlinear_arith)
        requires
            l <= 255,
            d <= 4396353024,
    ;
    let e = l * d;
    assert(e == l * (l + 1) * (l + 2) * (l + 3) * (l + 4)) by (nonlinear_arith)
        requires
            e == l * d,
            d == 24 + l * c,
            c == 50 + l * b,
            b == 35 + l * a,
            a == 10 + l,
    ;
    e / 120
}

/// `t (t + 1) (t + 2) / 6` for `t <= 255`.
fn cubic(t: u64) -> (r: u64)
    requires
        t <= 255,
    ensures
        r == simplex(3, t as int),
        r <= 3_000_000,
{
    proof {
        lemma_simplex_closed(t as int);
    }
    let a = 3 + t;
    assert(t * a <= 255 * 258) by (nonlinear_arith)
        requires
            t <= 255,
            a <= 258,
    ;
    let b = 2 + t * a;
    assert(t * b <= 255 * 65792) by (nonlinear_arith)
        requires
            t <= 255,
            b <= 65792,
    ;
    let e = t * b;
    assert(e == t * (t + 1) * (t + 2)) by (nonlinear_arith)
        requires
            e == t * b,
            b == 2 + t * a,
            a == 3 + t,
    ;
    e / 6
}

/// `x (x + 1) (x + 2) (x + 3) / 24` for `x <= 255`.
fn quartic(x: u64) -> (r: u64)
    requires
        x <= 255,
    ensures
        r == simplex(4, x as int),
        r <= 200_000_000,
{
    proof {
        lemma_simplex_closed(x as int);
    }
    let a = 6 + x;
    assert(x * a <= 255 * 261) by (nonlinear_arith)
        requires
            x <= 255,
            a <= 261,
    ;
    let b = 11 + x * a;
    assert(x * b <= 255 * 66566) by (nonlinear_arith)
        requires
            x <= 255,
            b <= 66566,
    ;
    let c = 6 + x * b;
    assert(x * c <= 255 * 16974336) by (nonlinear_arith)
        requires
            x <= 255,
            c <= 16974336,
    ;
    let e = x * c;
    assert(e == x * (x + 1) * (x + 2) * (x + 3)) by (nonlinear_arith)
        requires
            e == x * c,
            c == 6 + x * b,
            b == 11 + x * a,
            a == 6 + x,
    ;
    e / 24
}

} // verus!

verus! {

/// Canonical key of a Wigner 6-j symbol under Regge symmetry:
/// `e >= l >= x >= t >= b >= s`.
#[derive(Clone, Copy, Debug, Default, PartialEq, Eq, Structural, Hash, PartialOrd, Ord)]
pub struct CanonicalRegge6j {
    pub e: u8,
    pub l: u8,
    pub x: u8,
    pub t: u8,
    pub b: u8,
    pub s: u8,
}

/// The three sums `α` of a 6-j symbol in ascending order.
pub open spec fn alphas(w: Wigner6j) -> (i32, i32, i32) {
    let (tj1, tj2, tj3, tj4, tj5, tj6) = (
        w.tj1 as int,
        w.tj2 as int,
        w.tj3 as int,
        w.tj4 as int,
        w.tj5 as int,
        w.tj6 as int,
    );
    crate::internal::sorted3(
        half_trunc(tj1 + tj2 + tj4 + tj5) as i32,
        half_trunc(tj1 + tj3 + tj4 + tj6) as i32,
        half_trunc(tj2 + tj3 + tj5 + tj6) as i32,
    )
}

/// The four triad sums `β` of a 6-j symbol in ascending order.
pub open spec fn betas(w: Wigner6j) -> (i32, i32, i32, i32) {
    let (tj1, tj2, tj3, tj4, tj5, tj6) = (
        w.tj1 as int,
        w.tj2 as int,
        w.tj3 as int,
        w.tj4 as int,
        w.tj5 as int,
        w.tj6 as int,
    );
    crate::internal::sorted4(
        half_trunc(tj1 + tj2 + tj3) as i32,
        half_trunc(tj1 + tj5 + tj6) as i32,
        half_trunc(tj2 + tj4 + tj6) as i32,
        half_trunc(tj3 + tj4 + tj5) as i32,
    )
}

/// The canonical key of a 6-j symbol: differences of its sorted `α` and `β` sums
/// (Rasch and Yu 2003, with `α3 >= α2 >= α1`).
pub open spec fn regge6j_key(w: Wigner6j) -> CanonicalRegge6j {
    let (alpha1, alpha2, alpha3) = alphas(w);
    let (beta4, beta3, beta2, beta1) = betas(w);
    CanonicalRegge6j {
        s: (alpha1 - beta1) as u8,
        b: (alpha1 - beta2) as u8,
        t: (alpha1 - beta3) as u8,
        x: (alpha1 - beta4) as u8,
        l: (alpha2 - beta4) as u8,
        e: (alpha3 - beta4) as u8,
    }
}

impl From<Wigner6j> for CanonicalRegge6j {
    fn from(w: Wigner6j) -> (r: Self)
        ensures
            r == regge6j_key(w),
    {
        let (tj1, tj2, tj3, tj4, tj5, tj6) = (
            w.tj1 as i64,
            w.tj2 as i64,
            w.tj3 as i64,
            w.tj4 as i64,
            w.tj5 as i64,
            w.tj6 as i64,
        );
        let (alpha1, alpha2, alpha3) = sort3(
            half(tj1 + tj2 + tj4 + tj5),
            half(tj1 + tj3 + tj4 + tj6),
            half(tj2 + tj3 + tj5 + tj6),
        );
        let (beta4, beta3, beta2, beta1) = sort4(
            half(tj1 + tj2 + tj3),
            half(tj1 + tj5 + tj6),
            half(tj2 + tj4 + tj6),
            half(tj3 + tj4 + tj5),
        );
        let (alpha1, alpha2, alpha3) = (alpha1 as i64, alpha2 as i64, alpha3 as i64);
        let (beta4, beta3, beta2, beta1) = (beta4 as i64, beta3 as i64, beta2 as i64, beta1 as i64);
        CanonicalRegge6j {
            s: (alpha1 - beta1) as u8,
            b: (alpha1 - beta2) as u8,
            t: (alpha1 - beta3) as u8,
            x: (alpha1 - beta4) as u8,
            l: (alpha2 - beta4) as u8,
            e: (alpha3 - beta4) as u8,
        }
    }
}

impl vstd::std_specs::convert::FromSpecImpl<Wigner6j> for CanonicalRegge6j {
    open spec fn obeys_from_spec() -> bool {
        true
    }

    open spec fn from_spec(w: Wigner6j) -> CanonicalRegge6j {
        regge6j_key(w)
    }
}

proof fn lemma_sorted3_ordered(a: i32, b: i32, c: i32)
    ensures
        crate::internal::sorted3(a, b, c).0 <= crate::internal::sorted3(a, b,
            c).1 <= crate::internal::sorted3(a, b, c).2,
        crate::internal::sorted3(a, b, c).0 == a || crate::internal::sorted3(a, b,
            c).0 == b || crate::internal::sorted3(a, b, c).0 == c,
        crate::internal::sorted3(a, b, c).2 == a || crate::internal::sorted3(a, b,
            c).2 == b || crate::internal::sorted3(a, b, c).2 == c,
{
    reveal(crate::internal::sorted3);
}

proof fn lemma_sorted4_ordered(a: i32, b: i32, c: i32, d: i32)
    ensures
        crate::internal::sorted4(a, b, c, d).0 <= crate::internal::sorted4(a, b, c, d).1,
        crate::internal::sorted4(a, b, c, d).1 <= crate::internal::sorted4(a, b, c, d).2,
        crate::internal::sorted4(a, b, c, d).2 <= crate::internal::sorted4(a, b, c, d).3,
        crate::internal::sorted4(a, b, c, d).3 == a || crate::internal::sorted4(a, b, c, d).3 == b
            || crate::internal::sorted4(a, b, c, d).3 == c || crate::internal::sorted4(a, b, c, d).3 == d,
        crate::internal::sorted4(a, b, c, d).0 == a || crate::internal::sorted4(a, b, c, d).0 == b
            || crate::internal::sorted4(a, b, c, d).0 == c || crate::internal::sorted4(a, b, c, d).0 == d,
{
    reveal(crate::internal::sorted4);
}

/// `a + b + c` is even when `a` and `b` are and `c` is twice an integer.
proof fn even_combine(a: int, b: int, c: int, total: int)
    requires
        a % 2 == 0,
        b % 2 == 0,
        c % 2 == 0,
        total == a + b + c,
    ensures
        total % 2 == 0,
{
    crate::internal::lemma_even_combine(a, b, a + b);
    crate::internal::lemma_even_combine(a + b, c, total);
}

proof fn lemma_half_even(x: int)
    requires
        x % 2 == 0,
        0 <= x <= 4000,
    ensures
        2 * (half_trunc(x) as i32) == x,
{
}

/// When every `α` sum exceeds every `β` sum by at most 255, the differences of the
/// sorted sums are non-increasing and fit in a byte.
proof fn lemma_key6_from_sums(x1: i32, x2: i32, x3: i32, y1: i32, y2: i32, y3: i32, y4: i32)
    requires
        x1 >= y1 && x1 >= y2 && x1 >= y3 && x1 >= y4,
        x2 >= y1 && x2 >= y2 && x2 >= y3 && x2 >= y4,
        x3 >= y1 && x3 >= y2 && x3 >= y3 && x3 >= y4,
        x1 - y1 <= 255 && x1 - y2 <= 255 && x1 - y3 <= 255 && x1 - y4 <= 255,
        x2 - y1 <= 255 && x2 - y2 <= 255 && x2 - y3 <= 255 && x2 - y4 <= 255,
        x3 - y1 <= 255 && x3 - y2 <= 255 && x3 - y3 <= 255 && x3 - y4 <= 255,
    ensures
        ({
            let (a1, a2, a3) = crate::internal::sorted3(x1, x2, x3);
            let (b4, b3, b2, b1) = crate::internal::sorted4(y1, y2, y3, y4);
            &&& 0 <= a1 - b1 <= a1 - b2 <= a1 - b3 <= a1 - b4 <= a2 - b4 <= a3 - b4 <= 255
        }),
{
    lemma_sorted3_ordered(x1, x2, x3);
    lemma_sorted4_ordered(y1, y2, y3, y4);
}

/// For a 6-j symbol that satisfies the triangle conditions, with every `tj` at
/// most 255, the canonical key is non-increasing and each entry is exactly its
/// difference of sums, so the key can be indexed.
pub proof fn lemma_regge6j_key_ordered(w: Wigner6j)
    requires
        crate::internal::w6j_admissible(w),
        w.tj1 <= 255 && w.tj2 <= 255 && w.tj3 <= 255,
        w.tj4 <= 255 && w.tj5 <= 255 && w.tj6 <= 255,
    ensures
        key6_ordered(regge6j_key(w)),
        regge6j_key(w).s as int == alphas(w).0 - betas(w).3,
        regge6j_key(w).e as int == alphas(w).2 - betas(w).0,
{
    let (tj1, tj2, tj3, tj4, tj5, tj6) = (
        w.tj1 as int,
        w.tj2 as int,
        w.tj3 as int,
        w.tj4 as int,
        w.tj5 as int,
        w.tj6 as int,
    );
    assert(tj1 >= 0 && tj2 >= 0 && tj3 >= 0 && tj4 >= 0 && tj5 >= 0 && tj6 >= 0);
    let (d3, d6, d6b, d3b) = (tj1 + tj2 - tj3, tj1 + tj5 - tj6, tj4 + tj2 - tj6, tj4 + tj5 - tj3);
    assert(d3 % 2 == 0 && d6 % 2 == 0 && d6b % 2 == 0 && d3b % 2 == 0);
    let x1 = half_trunc(tj1 + tj2 + tj4 + tj5) as i32;
    let x2 = half_trunc(tj1 + tj3 + tj4 + tj6) as i32;
    let x3 = half_trunc(tj2 + tj3 + tj5 + tj6) as i32;
    let y1 = half_trunc(tj1 + tj2 + tj3) as i32;
    let y2 = half_trunc(tj1 + tj5 + tj6) as i32;
    let y3 = half_trunc(tj2 + tj4 + tj6) as i32;
    let y4 = half_trunc(tj3 + tj4 + tj5) as i32;
    even_combine(d3, d3b, 2 * tj3, tj1 + tj2 + tj4 + tj5);
    even_combine(d6, d3b, 2 * tj6 + 2 * tj3 - 2 * tj5, tj1 + tj3 + tj4 + tj6);
    even_combine(d3, d6, 2 * tj3 + 2 * tj6 - 2 * tj1, tj2 + tj3 + tj5 + tj6);
    even_combine(d3, 0, 2 * tj3, tj1 + tj2 + tj3);
    even_combine(d6, 0, 2 * tj6, tj1 + tj5 + tj6);
    even_combine(d6b, 0, 2 * tj6, tj2 + tj4 + tj6);
    even_combine(d3b, 0, 2 * tj3, tj3 + tj4 + tj5);
    lemma_half_even(tj1 + tj2 + tj4 + tj5);
    lemma_half_even(tj1 + tj3 + tj4 + tj6);
    lemma_half_even(tj2 + tj3 + tj5 + tj6);
    lemma_half_even(tj1 + tj2 + tj3);
    lemma_half_even(tj1 + tj5 + tj6);
    lemma_half_even(tj2 + tj4 + tj6);
    lemma_half_even(tj3 + tj4 + tj5);
    assert(x1 >= y1 && x1 >= y2 && x1 >= y3 && x1 >= y4);
    assert(x2 >= y1 && x2 >= y2 && x2 >= y3 && x2 >= y4);
    assert(x3 >= y1 && x3 >= y2 && x3 >= y3 && x3 >= y4);
    assert(x1 - y1 <= 255 && x1 - y2 <= 255 && x1 - y3 <= 255 && x1 - y4 <= 255);
    assert(x2 - y1 <= 255 && x2 - y2 <= 255 && x2 - y3 <= 255 && x2 - y4 <= 255);
    assert(x3 - y1 <= 255 && x3 - y2 <= 255 && x3 - y3 <= 255 && x3 - y4 <= 255);
    lemma_key6_from_sums(x1, x2, x3, y1, y2, y3, y4);
    assert(alphas(w) == crate::internal::sorted3(x1, x2, x3));
    assert(betas(w) == crate::internal::sorted4(y1, y2, y3, y4));
}

/// The key is non-increasing: `e >= l >= x >= t >= b >= s`.
pub open spec fn key6_ordered(k: CanonicalRegge6j) -> bool {
    k.e >= k.l && key_ordered(k.inner())
}

impl CanonicalRegge6j {
    /// The five trailing entries, as a 3-jm key.
    pub open spec fn inner(self) -> CanonicalRegge3jm {
        CanonicalRegge3jm { l: self.l, x: self.x, t: self.t, b: self.b, s: self.s }
    }

    pub open spec fn index_spec(self) -> int {
        simplex(6, self.e as int) + self.inner().index_spec()
    }

    /// Index into a table ordered according to Rasch and Yu (2003).
    pub fn index(self) -> (r: usize)
        requires
            key6_ordered(self),
            self.index_spec() <= usize::MAX,
        ensures
            r == self.index_spec(),
    {
        let e = self.e as u64;
        proof {
            lemma_simplex_nonneg(6, e as int);
            lemma_simplex_nonneg(5, self.l as int);
            lemma_simplex_nonneg(4, self.x as int);
            lemma_simplex_nonneg(3, self.t as int);
            lemma_simplex_nonneg(2, self.b as int);
            lemma_simplex_nonneg(1, self.s as int);
        }
        let r6 = sextic(e);
        let inner = CanonicalRegge3jm { l: self.l, x: self.x, b: self.b, t: self.t, s: self.s };
        r6 as usize + inner.index()
    }

    /// The table size that holds every key up to the cutoff `tj_max`.
    pub fn len(tj_max: i32) -> (r: usize)
        requires
            0 <= tj_max < 255,
            simplex(6, tj_max + 1) <= usize::MAX,
        ensures
            r == simplex(6, tj_max + 1),
    {
        let k = CanonicalRegge6j { e: tj_max as u8 + 1, l: 0, x: 0, t: 0, b: 0, s: 0 };
        proof {
            lemma_simplex_closed(0);
        }
        k.index()
    }
}

/// `e (e + 1) (e + 2) (e + 3) (e + 4) (e + 5) / 720` for `e <= 255`.
fn sextic(e: u64) -> (r: u64)
    requires
        e <= 255,
    ensures
        r == simplex(6, e as int),
{
    proof {
        lemma_simplex_closed(e as int);
    }
    let a = 15 + e;
    assert(e * a <= 255 * 270) by (nonlinear_arith)
        requires
            e <= 255,
            a <= 270,
    ;
    let b = 85 + e * a;
    assert(e * b <= 255 * 68935) by (nonlinear_arith)
        requires
            e <= 255,
            b <= 68935,
    ;
    let c = 225 + e * b;
    assert(e * c <= 255 * 17578650) by (nonlinear_arith)
        requires
            e <= 255,
            c <= 17578650,
    ;
    let d = 274 + e * c;
    assert(e * d <= 255 * 4482556024) by (nonlinear_arith)
        requires
            e <= 255,
            d <= 4482556024,
    ;
    let f = 120 + e * d;
    assert(e * f <= 255 * 1143051786240) by (nonlinear_arith)
        requires
            e <= 255,
            f <= 1143051786240,
    ;
    let g = e * f;
    assert(g == e * (e + 1) * (e + 2) * (e + 3) * (e + 4) * (e + 5)) by (nonlinear_arith)
        requires
            g == e * f,
            f == 120 + e * d,
            d == 274 + e * c,
            c == 225 + e * b,
            b == 85 + e * a,
            a == 15 + e,
    ;
    g / 720
}

} // verus!
