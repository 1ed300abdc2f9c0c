use std::cmp::Ordering;
use std::collections::HashSet;

use rug::{Integer, Rational};
use wigner_symbols::bignum::{integer, rational};
use wigner_symbols::internal::{
    binomial, factorial, falling_factorial, get_3tjms, get_6tjs, get_bitriangular_tjs,
    get_tms, get_triangular_tjs, intersect_ranges, ordering_to_i32, phase, tetrahedral_sum,
    triangle_condition, triangular_factor, triangular_factor_raw, Step,
};
use wigner_symbols::regge::{CanonicalRegge3jm, CanonicalRegge6j, Regge3jm};
use wigner_symbols::{ClebschGordan, SignedSqrt, Wigner3jm, Wigner6j, Wigner9j};

#[test]
fn triangle_condition_is_symmetric() {
    for a in 0..7 {
        for b in 0..7 {
            for c in 0..7 {
                let t = triangle_condition(a, b, c);
                assert_eq!(t, triangle_condition(b, a, c));
                assert_eq!(t, triangle_condition(a, c, b));
                assert_eq!(t, triangle_condition(c, b, a));
                assert_eq!(t, triangle_condition(b, c, a));
                assert_eq!(t, triangle_condition(c, a, b));
            }
        }
    }
    assert!(triangle_condition(2, 2, 4));
    assert!(!triangle_condition(2, 2, 5));
    assert!(!triangle_condition(1, 1, 4));
}

#[test]
fn canonical_index_is_injective_and_dense() {
    let tj_max = 6u8;
    let mut seen = HashSet::new();
    let mut largest = 0;
    for l in 0..=tj_max {
        for x in 0..=l {
            for t in 0..=x {
                for b in 0..=t {
                    for s in 0..=b {
                        let i = CanonicalRegge3jm { l, x, t, b, s }.index();
                        assert!(seen.insert(i));
                        largest = largest.max(i);
                    }
                }
            }
        }
    }
    assert_eq!(largest, CanonicalRegge3jm::len(tj_max as i32) - 1);
    assert_eq!(seen.len(), CanonicalRegge3jm::len(tj_max as i32));
}

#[test]
fn canonical_lengths() {
    assert_eq!(CanonicalRegge3jm::len(0), 1);
    assert_eq!(CanonicalRegge3jm::len(1), 6);
    assert_eq!(CanonicalRegge6j::len(0), 1);
    assert_eq!(CanonicalRegge6j::len(1), 7);
    let k = CanonicalRegge6j { e: 2, l: 1, x: 1, t: 0, b: 0, s: 0 };
    assert_eq!(k.index(), 7 + 1 + 1);
}

#[test]
fn regge_square_canonical_form() {
    let w = Wigner3jm { tj1: 2, tm1: 0, tj2: 2, tm2: 0, tj3: 0, tm3: 0 };
    let mut sq = Regge3jm::from(w);
    assert_eq!(sq.0, [0, 0, 2, 1, 1, 0, 1, 1, 0]);
    assert_eq!(sq.magic_sum(), 2);
    let (key, sign) = sq.canonicalize();
    assert_eq!(key, CanonicalRegge3jm { l: 2, x: 1, t: 1, b: 0, s: 0 });
    assert_eq!(sign, 1);
    assert_eq!(key.index(), 8);
    assert_eq!(sq.0, [0, 2, 0, 1, 0, 1, 1, 0, 1]);
}

#[test]
fn regge_square_moves() {
    let mut sq = Regge3jm([1, 2, 3, 4, 5, 6, 7, 8, 9]);
    let mut parity = false;
    sq.swap_rows(0, 2, &mut parity);
    assert_eq!(sq.0, [7, 8, 9, 4, 5, 6, 1, 2, 3]);
    assert!(parity);
    sq.swap_cols(1, 1, &mut parity);
    assert!(parity);
    sq.swap_cols(0, 1, &mut parity);
    assert_eq!(sq.0, [8, 7, 9, 5, 4, 6, 2, 1, 3]);
    assert!(!parity);
    sq.transpose();
    assert_eq!(sq.0, [8, 5, 2, 7, 4, 1, 9, 6, 3]);
    sq.swap((0, 0), (2, 2));
    assert_eq!(sq.0, [3, 5, 2, 7, 4, 1, 9, 6, 8]);
    assert_eq!(sq.get(1, 2), 1);
}

#[test]
fn regge6j_key_of_a_symbol() {
    let w = Wigner6j { tj1: 2, tj2: 2, tj3: 2, tj4: 2, tj5: 2, tj6: 2 };
    let k = CanonicalRegge6j::from(w);
    assert_eq!(k, CanonicalRegge6j { e: 1, l: 1, x: 1, t: 1, b: 1, s: 1 });
}

#[test]
fn combinatorial_primitives() {
    assert_eq!(binomial(7, 2), Integer::from(21));
    assert_eq!(binomial(3, 5), Integer::from(0));
    assert_eq!(factorial(10), Integer::from(3628800));
    assert_eq!(factorial(0), Integer::from(1));
    assert_eq!(falling_factorial(5, 2), Integer::from(20));
    assert_eq!(falling_factorial(5, 0), Integer::from(1));
    assert_eq!(triangular_factor_raw(4, 1, 1, 1), Rational::from((1, 24)));
    assert_eq!(triangular_factor(2, 2, 2), Rational::from((1, 24)));
    assert_eq!(triangular_factor(2, 2, 0), Rational::from((2, 6)));
    assert_eq!(phase(-3), -1);
    assert_eq!(phase(4), 1);
    assert_eq!(ordering_to_i32(Ordering::Less), -1);
    assert_eq!(ordering_to_i32(Ordering::Equal), 0);
    assert_eq!(ordering_to_i32(Ordering::Greater), 1);
}

#[test]
fn tetrahedral_sum_of_unit_arguments() {
    // {1 1 1; 1 1 1} = 1/6 and its four triangular factors give 1/24 each.
    let t = tetrahedral_sum(2, 2, 2, 2, 2, 2);
    let z1 = Rational::from((1, 24)) * Rational::from((1, 24)) * Rational::from((1, 24))
        / Rational::from((1, 24));
    let value = Rational::from(t.clone() * t.clone()) * z1;
    assert_eq!(value, Rational::from((1, 36)));
}

#[test]
fn known_symbol_values() {
    let w6 = Wigner6j { tj1: 2, tj2: 2, tj3: 2, tj4: 2, tj5: 2, tj6: 2 };
    assert_eq!(w6.value().signed_sq(), Rational::from((1, 36)));
    let w3 = Wigner3jm { tj1: 2, tm1: 0, tj2: 2, tm2: 0, tj3: 0, tm3: 0 };
    assert_eq!(w3.value().signed_sq(), Rational::from((-1, 3)));
    let cg = ClebschGordan { tj1: 2, tm1: 0, tj2: 2, tm2: 0, tj12: 0, tm12: 0 };
    assert_eq!(cg.value().signed_sq(), Rational::from((-1, 3)));
    let w3 = Wigner3jm { tj1: 1, tm1: 1, tj2: 1, tm2: -1, tj3: 0, tm3: 0 };
    assert_eq!(w3.value().signed_sq(), Rational::from((1, 2)));
}

#[test]
fn symbols_violating_selection_rules_are_zero() {
    let w3 = Wigner3jm { tj1: 2, tm1: 2, tj2: 2, tm2: 0, tj3: 2, tm3: 0 };
    assert_eq!(w3.value().signed_sq(), Rational::from(0));
    let w3 = Wigner3jm { tj1: 2, tm1: 4, tj2: 2, tm2: -4, tj3: 0, tm3: 0 };
    assert_eq!(w3.value().signed_sq(), Rational::from(0));
    let w6 = Wigner6j { tj1: 2, tj2: 2, tj3: 6, tj4: 2, tj5: 2, tj6: 2 };
    assert_eq!(w6.value().signed_sq(), Rational::from(0));
    let w9 = Wigner9j { tj1: 1, tj2: 1, tj3: 1, tj4: 0, tj5: 0, tj6: 0, tj7: 0, tj8: 0, tj9: 0 };
    assert_eq!(w9.value().signed_sq(), Rational::from(0));
}

#[test]
fn nine_j_with_all_zero_arguments_is_one() {
    let w9 = Wigner9j { tj1: 0, tj2: 0, tj3: 0, tj4: 0, tj5: 0, tj6: 0, tj7: 0, tj8: 0, tj9: 0 };
    assert_eq!(w9.value().signed_sq(), Rational::from(1));
}

#[test]
fn clebsch_gordan_conversions_flip_the_projection() {
    let w = Wigner3jm { tj1: 1, tm1: 1, tj2: 3, tm2: -3, tj3: 2, tm3: 2 };
    let cg = ClebschGordan::from(w);
    assert_eq!(cg, ClebschGordan { tj1: 1, tm1: 1, tj2: 3, tm2: -3, tj12: 2, tm12: -2 });
    assert_eq!(Wigner3jm::from(cg), w);
}

#[test]
fn signed_sqrt_arithmetic() {
    let a = SignedSqrt::new(Integer::from(-2), Rational::from(3));
    assert_eq!(a.clone().signed_sq(), Rational::from(-12));
    assert_eq!(a.sign(), Ordering::Less);
    assert_eq!(a.clone().sq(), Rational::from(12));
    let b = SignedSqrt::from_i32(3);
    assert_eq!(b.clone().signed_sq(), Rational::from(9));
    assert_eq!((a.clone() * b.clone()).signed_sq(), Rational::from(-108));
    assert_eq!((-1 * a.clone()).signed_sq(), Rational::from(12));
    assert_eq!((a * 1).signed_sq(), Rational::from(-12));
    assert_eq!(SignedSqrt::default().sign(), Ordering::Equal);
}

#[test]
fn ranges_and_steps() {
    assert_eq!(intersect_ranges(0..5, 2..9), 2..5);
    let t = get_triangular_tjs(10, 3, 5);
    assert_eq!((t.iter.clone(), t.step), (2..9, 2));
    assert_eq!(t.to_vec(), vec![2, 4, 6, 8]);
    let t = get_triangular_tjs(4, 3, 5);
    assert_eq!(t.to_vec(), vec![2, 4]);
    assert_eq!(get_bitriangular_tjs(10, 1, 1, 2, 3).to_vec(), Vec::<i32>::new());
    assert_eq!(get_bitriangular_tjs(10, 1, 1, 2, 4).to_vec(), vec![2]);
    assert_eq!(get_tms(3).to_vec(), vec![-3, -1, 1, 3]);
    assert_eq!(Step { iter: 1..6, step: 0 }.to_vec(), vec![1, 2, 3, 4, 5]);
    assert_eq!(Step { iter: 1..6, step: 3 }.to_vec(), vec![1, 4]);
}

#[test]
fn enumerations_at_small_cutoffs() {
    let w3 = get_3tjms(1);
    assert_eq!(w3.len(), 7);
    assert_eq!(w3[0], Wigner3jm { tj1: 0, tm1: 0, tj2: 0, tm2: 0, tj3: 0, tm3: 0 });
    assert_eq!(w3[1], Wigner3jm { tj1: 0, tm1: 0, tj2: 1, tm2: -1, tj3: 1, tm3: 1 });
    let w6 = get_6tjs(1);
    assert_eq!(w6[0], Wigner6j { tj1: 0, tj2: 0, tj3: 0, tj4: 0, tj5: 0, tj6: 0 });
}

#[test]
fn canonical_key_is_shared_by_the_symmetry_class() {
    let perms = [[0, 1, 2], [0, 2, 1], [1, 0, 2], [1, 2, 0], [2, 0, 1], [2, 1, 0]];
    for w in get_3tjms(8) {
        let sq = Regge3jm::from(w);
        let key = sq.clone().canonicalize().0;
        for rp in &perms {
            for cp in &perms {
                for transpose in [false, true] {
                    let mut a = [0i32; 9];
                    for i in 0..3 {
                        for j in 0..3 {
                            let (r, c) = if transpose { (cp[j], rp[i]) } else { (rp[i], cp[j]) };
                            a[i * 3 + j] = sq.0[r * 3 + c];
                        }
                    }
                    assert_eq!(Regge3jm(a).canonicalize().0, key);
                }
            }
        }
    }
}

#[test]
fn integer_conversions_and_constructors() {
    assert_eq!(SignedSqrt::from(3i32).signed_sq(), Rational::from(9));
    assert_eq!(SignedSqrt::from(-2i64).signed_sq(), Rational::from(-4));
    assert_eq!((SignedSqrt::from(1i32) * 3).signed_sq(), Rational::from(9));
    assert_eq!((-3 * SignedSqrt::from(2i32)).signed_sq(), Rational::from(-36));
    assert_eq!(integer(-7), Integer::from(-7));
    assert_eq!(rational(2, -6), Rational::from((-1, 3)));
    let s = SignedSqrt::new(integer(10), rational(1, 4));
    assert_eq!(s.signed_sq(), Rational::from(25));
    assert_eq!(binomial(5, -1), Integer::from(0));
}
