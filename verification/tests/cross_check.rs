use module_lwe::polynomial::Polynomial;
use module_lwe::ring_mod::{gen_uniform_poly, polyadd, polyinv, polymul, polysub};
use module_lwe::rounding::nearest_int;
use module_lwe::sampling::draws;
use module_lwe::utils::Parameters;

fn outside(coeffs: &[i64]) -> polynomial_ring::Polynomial<i64> {
    polynomial_ring::Polynomial::new(coeffs.to_vec())
}

/// The coefficients of an outside polynomial in `[0, q)`, without trailing
/// zeros.
fn canonical(p: &polynomial_ring::Polynomial<i64>, q: i64) -> Vec<i64> {
    let reduced: Vec<i64> = p.coeffs().iter().map(|c| c.rem_euclid(q)).collect();
    Polynomial::new(reduced).coeffs().clone()
}

fn sample(seed: u64, low: i64, high: i64, count: usize) -> Vec<i64> {
    draws(Some(seed), low, high, count)
}

#[test]
fn ring_operations_agree_with_ring_lwe() {
    let params = Parameters::new(8, 97, 1).unwrap();
    let q = params.q();
    let f = params.f();
    let f_outside = outside(f.coeffs());
    for seed in 0..50u64 {
        let x = sample(seed, -96, 97, 8);
        let y = sample(seed + 1000, -96, 97, 8);
        let (px, py) = (Polynomial::new(x.clone()), Polynomial::new(y.clone()));
        let (ox, oy) = (outside(&x), outside(&y));
        assert_eq!(
            polymul(&px, &py, q, f).coeffs(),
            &canonical(&ring_lwe::utils::polymul(&ox, &oy, q, &f_outside), q)
        );
        assert_eq!(
            polyadd(&px, &py, q, f).coeffs(),
            &canonical(&ring_lwe::utils::polyadd(&ox, &oy, q, &f_outside), q)
        );
        assert_eq!(
            polysub(&px, &py, q, f).coeffs(),
            &canonical(&ring_lwe::utils::polysub(&ox, &oy, q, &f_outside), q)
        );
        assert_eq!(
            polyinv(&px, q).coeffs(),
            &canonical(&ring_lwe::utils::polyinv(&ox, q), q)
        );
    }
}

#[test]
fn schoolbook_product_agrees_with_the_number_theoretic_transform() {
    // 12289 = 1 mod 1024, so a 1024-th root of unity exists
    let params = Parameters::default();
    let q = params.q();
    let n = params.n();
    let f = params.f();
    let f_outside = outside(f.coeffs());
    let omega = ntt::omega(q, 2 * n);
    for seed in 0..3u64 {
        let mut x = sample(seed, 0, q, n);
        let mut y = sample(seed + 7, -1, 2, n);
        // full length, so that the transform has the size the root was made for
        x[n - 1] = 1;
        y[n - 1] = 1;
        let fast = ring_lwe::utils::polymul_fast(&outside(&x), &outside(&y), q, &f_outside, omega);
        let slow = polymul(&Polynomial::new(x), &Polynomial::new(y), q, f);
        assert_eq!(slow.coeffs(), &canonical(&fast, q));
    }
}

#[test]
fn nearest_int_agrees_with_ring_lwe() {
    for b in 1..25i64 {
        for a in -300..300i64 {
            assert_eq!(nearest_int(a, b), ring_lwe::utils::nearest_int(a, b));
        }
    }
}

#[test]
fn seeded_uniform_polynomial_agrees_with_ring_lwe() {
    for seed in 0..20u64 {
        let mine = gen_uniform_poly(64, 12289, Some(seed));
        let theirs = ring_lwe::utils::gen_uniform_poly(64, 12289, Some(seed));
        assert_eq!(mine.coeffs(), &canonical(&theirs, 12289));
    }
}

/// The product in `Z_q[x] / (x^n + 1)`, term by term.
fn direct_product(x: &[i64], y: &[i64], q: i64, n: usize) -> Vec<i64> {
    let mut out = vec![0i64; n];
    for (i, a) in x.iter().enumerate() {
        for (j, b) in y.iter().enumerate() {
            let term = a * b;
            if i + j < n {
                out[i + j] += term;
            } else {
                out[i + j - n] -= term;
            }
        }
    }
    let reduced: Vec<i64> = out.iter().map(|c| c.rem_euclid(q)).collect();
    Polynomial::new(reduced).coeffs().clone()
}

#[test]
fn ring_operations_agree_with_direct_computation() {
    let params = Parameters::new(8, 97, 1).unwrap();
    let q = params.q();
    let f = params.f();
    for seed in 0..200u64 {
        // operands of every length up to n, some with zeros on top
        let len_x = (seed % 9) as usize;
        let len_y = ((seed / 9) % 9) as usize;
        let mut x = sample(seed, -96, 97, len_x);
        let mut y = sample(seed + 5000, -96, 97, len_y);
        if seed % 7 == 0 && len_x > 0 {
            x[len_x - 1] = 0;
        }
        if seed % 11 == 0 && len_y > 0 {
            y[len_y - 1] = 0;
        }
        let (px, py) = (Polynomial::new(x.clone()), Polynomial::new(y.clone()));
        assert_eq!(polymul(&px, &py, q, f).coeffs(), &direct_product(&x, &y, q, 8));
        let mut sum = vec![0i64; 8];
        let mut difference = vec![0i64; 8];
        for (i, a) in x.iter().enumerate() {
            sum[i] += a;
            difference[i] += a;
        }
        for (i, b) in y.iter().enumerate() {
            sum[i] += b;
            difference[i] -= b;
        }
        let canonical_of = |v: &Vec<i64>| {
            Polynomial::new(v.iter().map(|c| c.rem_euclid(q)).collect()).coeffs().clone()
        };
        assert_eq!(polyadd(&px, &py, q, f).coeffs(), &canonical_of(&sum));
        assert_eq!(polysub(&px, &py, q, f).coeffs(), &canonical_of(&difference));
        let negated: Vec<i64> = x.iter().map(|a| -a).collect();
        assert_eq!(polyinv(&px, q).coeffs(), &canonical_of(&negated));
    }
}
