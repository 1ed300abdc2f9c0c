use std::collections::HashMap;

use permutohedron::LexicalPermutation;
use rug::Rational;
use wigner_symbols::internal::{get_3tjms, get_6tjs, get_9tjs, ordering_to_i32, phase, sort2, sort3, sort4};
use wigner_symbols::regge::{CanonicalRegge3jm, CanonicalRegge6j, Regge3jm};
use wigner_symbols::{ClebschGordan, SignedSqrt, Wigner3jm};

const CG_HASHES: &[(i32, &str)] = &[
    (5, "e74c501299b456a6cb29e4f5714e9061"),
    (10, "b6d0770101f4ebdaa9a55d94f07b001f"),
    (15, "9192023f26dae0eebcce11afa7372eb6"),
    (20, "75ef56391b61e1bb2336e36ac7834216"),
    (25, "5901128892a264b73b5479b70b331fd0"),
    (30, "75ef56391b61e1bb2336e36ac7834216"),
    (40, "2f9b936ea977249c1fea8a22d190a4cf"),
];

const W6J_HASHES: &[(i32, &str)] = &[
    (5, "26c24e568fc96f1732ebb3130a46f22a"),
    (10, "f892f4b466e0558179ca870941d0a456"),
    (15, "f50b0163194cef1699727b7064760ec0"),
    (20, "e1b5dad0f1469cc54b6139533f982815"),
    (25, "f326bf6e12a94120d2f46582e95e92f8"),
];

const W9J_HASHES: &[(i32, &str)] = &[
    (3, "4005ef20e2ed8c789917dce99d027bc4"),
    (4, "92cfc13320e7fd6a34b3970ebef58e06"),
    (5, "d596fa3960aafae148754b6f3274507d"),
    (7, "7b338708ef3aa4ba0a4f5bd8c8b4e6aa"),
    (10, "479c0a020eaceff5539e2dda2200c1ab"),
];

fn lookup<'a, K: Eq, V>(table: &'a [(K, V)], key: &K) -> Option<&'a V> {
    table.iter().find(|&&(ref k, _)| k == key).map(|x| &x.1)
}

/// Renders the stored rational as "numerator/denominator".
fn render(s: &SignedSqrt) -> String {
    let r = s.clone().signed_sq();
    format!("{}/{}", r.numer(), r.denom())
}

/// `sign · sqrt(|value|)`, as floating point.
fn to_f64(s: SignedSqrt) -> f64 {
    let sign = f64::from(ordering_to_i32(s.sign()));
    let radical = s.sq().to_f64().sqrt();
    sign * radical
}

/// Every permutation of `start`, beginning with `start` itself (sorted input).
fn permutations(start: &[i32]) -> Vec<Vec<i32>> {
    let mut xs = start.to_vec();
    let mut all = vec![xs.clone()];
    while xs.next_permutation() {
        all.push(xs.clone());
    }
    all
}

#[test]
fn test_sort2() {
    for start in &[[1, 2], [1, 1]] {
        for mut xs in permutations(start) {
            let (x0, x1) = sort2(xs[0], xs[1]);
            xs.sort();
            assert_eq!(&xs, &[x0, x1]);
        }
    }
}

#[test]
fn test_sort3() {
    for start in &[[1, 2, 3], [1, 1, 2], [1, 1, 1]] {
        for mut xs in permutations(start) {
            let (x0, x1, x2) = sort3(xs[0], xs[1], xs[2]);
            xs.sort();
            assert_eq!(&xs, &[x0, x1, x2]);
        }
    }
}

#[test]
fn test_sort4() {
    for start in &[[1, 2, 3, 4], [1, 1, 2, 3], [1, 1, 2, 2], [1, 1, 1, 2], [1, 1, 1, 1]] {
        for mut xs in permutations(start) {
            let (x0, x1, x2, x3) = sort4(xs[0], xs[1], xs[2], xs[3]);
            xs.sort();
            assert_eq!(&xs, &[x0, x1, x2, x3]);
        }
    }
}

#[test]
fn test_clebsch_gordan_and_wigner_3jm() {
    let tj_max = 25;
    let mut f = md5::Context::new();
    for w3jm in get_3tjms(tj_max) {
        let cg = ClebschGordan::from(w3jm);
        let c = cg.value();
        assert_eq!(
            c.clone().signed_sq(),
            Rational::from((w3jm.tj3 + 1) * phase((w3jm.tj1 - w3jm.tj2 - w3jm.tm3) / 2))
                * w3jm.value().signed_sq()
        );
        let line = format!(
            "{}\t{}\t{}\t{}\t{}\t{}\t{}\n",
            cg.tj1,
            cg.tm1,
            cg.tj2,
            cg.tm2,
            cg.tj12,
            cg.tm12,
            render(&c),
        );
        f.consume(line.as_bytes());
    }
    assert_eq!(
        &format!("{:x}", f.compute()),
        *lookup(CG_HASHES, &tj_max).expect("hash not available")
    );
}

#[test]
fn test_wigner_6j() {
    let tj_max = 15;
    let mut f = md5::Context::new();
    for w6j in get_6tjs(tj_max) {
        let w = w6j.value();
        let line = format!(
            "{}\t{}\t{}\t{}\t{}\t{}\t{}\n",
            w6j.tj1,
            w6j.tj2,
            w6j.tj3,
            w6j.tj4,
            w6j.tj5,
            w6j.tj6,
            render(&w),
        );
        f.consume(line.as_bytes());
    }
    assert_eq!(
        &format!("{:x}", f.compute()),
        *lookup(W6J_HASHES, &tj_max).expect("hash not available")
    );
}

#[test]
fn test_wigner_9j() {
    let tj_max = 7;
    let mut f = md5::Context::new();
    for w9j in get_9tjs(tj_max) {
        let w = w9j.value();
        let line = format!(
            "{}\t{}\t{}\t{}\t{}\t{}\t{}\t{}\t{}\t{}\n",
            w9j.tj1,
            w9j.tj2,
            w9j.tj3,
            w9j.tj4,
            w9j.tj5,
            w9j.tj6,
            w9j.tj7,
            w9j.tj8,
            w9j.tj9,
            render(&w),
        );
        f.consume(line.as_bytes());
    }
    assert_eq!(
        &format!("{:x}", f.compute()),
        *lookup(W9J_HASHES, &tj_max).expect("hash not available")
    );
}

#[test]
fn test_signed_sqrt_rational() {
    assert_eq!(to_f64(SignedSqrt::default()), 0.0);
    assert_eq!(to_f64(SignedSqrt::new(10.into(), (1, 4).into())), 5.0);
}

#[test]
fn test_regge3jm() {
    let tj_max = 25;
    let mut map = HashMap::new();
    let n = CanonicalRegge3jm::len(tj_max);
    let mut vec: Vec<(CanonicalRegge3jm, SignedSqrt)> = vec![Default::default(); n];
    for w3jm in get_3tjms(tj_max) {
        let value = w3jm.value();
        let (regge, phase) = Regge3jm::from(w3jm).canonicalize();
        let canon_value = phase * value;
        assert_eq!(*map.entry(regge).or_insert(canon_value.clone()), canon_value.clone());
        vec[regge.index()] = (regge, canon_value);
    }
    for (regge, value) in map {
        assert_eq!(vec[regge.index()], (regge, value));
    }
}

#[test]
fn test_regge6j() {
    let tj_max = 15;
    let mut map = HashMap::new();
    let n = CanonicalRegge6j::len(tj_max);
    let mut vec: Vec<(CanonicalRegge6j, SignedSqrt)> = vec![Default::default(); n];
    for w6j in get_6tjs(tj_max) {
        let value = w6j.value();
        let regge = CanonicalRegge6j::from(w6j);
        assert_eq!(*map.entry(regge).or_insert(value.clone()), value.clone());
        vec[regge.index()] = (regge, value);
    }
    for (regge, value) in &map {
        assert_eq!(vec[regge.index()], (*regge, value.clone()));
    }
}

#[test]
fn wigner_3jm_all_zero_is_one() {
    let w = Wigner3jm { tj1: 0, tm1: 0, tj2: 0, tm2: 0, tj3: 0, tm3: 0 };
    assert_eq!(w.value().signed_sq(), Rational::from(1));
}
