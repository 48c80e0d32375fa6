use module_lwe::polynomial::Polynomial;
use module_lwe::ring_mod::{
    gen_uniform_poly, mod_coeffs, polyadd, polyinv, polymul, polyreduce, polysub,
};
use module_lwe::rounding::nearest_int;

fn poly(coeffs: &[i64]) -> Polynomial {
    Polynomial::new(coeffs.to_vec())
}

fn x4_plus_1() -> Polynomial {
    poly(&[1, 0, 0, 0, 1])
}

#[test]
fn polynomial_new_drops_trailing_zeros() {
    assert_eq!(poly(&[3, 0, 1, 0, 0]).coeffs(), &vec![3, 0, 1]);
    assert_eq!(poly(&[0, 0, 0]).coeffs(), &Vec::<i64>::new());
    assert_eq!(poly(&[]).len(), 0);
    assert_eq!(poly(&[0, 7]).len(), 2);
    assert_eq!(Polynomial::zero().coeffs(), &Vec::<i64>::new());
}

#[test]
fn polynomial_clone_keeps_coefficients() {
    let p = poly(&[5, -1, 2]);
    let q = p.clone();
    assert_eq!(p.coeffs(), q.coeffs());
}

#[test]
fn mod_coeffs_uses_true_modulo() {
    assert_eq!(mod_coeffs(poly(&[-1, 17, 18, -18]), 17).coeffs(), &vec![16, 0, 1, 16]);
    assert_eq!(mod_coeffs(poly(&[34, 17]), 17).coeffs(), &Vec::<i64>::new());
    assert_eq!(mod_coeffs(poly(&[]), 17).coeffs(), &Vec::<i64>::new());
}

#[test]
fn mod_coeffs_is_idempotent() {
    let once = mod_coeffs(poly(&[-5, 40, 3, 100]), 17);
    let twice = mod_coeffs(once.clone(), 17);
    assert_eq!(once.coeffs(), twice.coeffs());
    assert_eq!(once.coeffs(), &vec![12, 6, 3, 15]);
}

#[test]
fn polymul_reduces_modulo_x4_plus_1() {
    let f = x4_plus_1();
    let r = polymul(&poly(&[1, 2, 3, 4]), &poly(&[5, 6, 7, 8]), 17, &f);
    assert_eq!(r.coeffs(), &vec![12, 15, 2, 9]);
}

#[test]
fn polymul_without_wrap_is_plain_product() {
    let f = poly(&[1, 0, 0, 0, 0, 0, 0, 0, 1]);
    let r = polymul(&poly(&[1, 2, 3, 4]), &poly(&[5, 6, 7, 8]), 17, &f);
    assert_eq!(r.coeffs(), &vec![5, 16, 0, 9, 10, 1, 15]);
}

#[test]
fn polymul_x_to_the_n_is_minus_one() {
    let f = x4_plus_1();
    let r = polymul(&poly(&[0, 0, 0, 1]), &poly(&[0, 1]), 17, &f);
    assert_eq!(r.coeffs(), &vec![16]);
}

#[test]
fn polymul_by_zero_is_zero() {
    let f = x4_plus_1();
    let r = polymul(&poly(&[1, 2, 3, 4]), &Polynomial::zero(), 17, &f);
    assert_eq!(r.len(), 0);
}

#[test]
fn polymul_commutes_on_an_example() {
    let f = x4_plus_1();
    let a = poly(&[3, -1, 0, 16]);
    let b = poly(&[1, 1, -1, 2]);
    assert_eq!(polymul(&a, &b, 17, &f).coeffs(), polymul(&b, &a, 17, &f).coeffs());
}

#[test]
fn polyadd_adds_and_reduces() {
    let f = x4_plus_1();
    let r = polyadd(&poly(&[1, 2, 3]), &poly(&[16, 16, 0, -1]), 17, &f);
    assert_eq!(r.coeffs(), &vec![0, 1, 3, 16]);
}

#[test]
fn polyadd_to_zero_gives_empty_polynomial() {
    let f = x4_plus_1();
    let r = polyadd(&poly(&[16, 3, 0, 5]), &poly(&[1, 14, 0, 12]), 17, &f);
    assert_eq!(r.coeffs(), &Vec::<i64>::new());
}

#[test]
fn polyadd_of_reduced_element_and_zero_is_identity() {
    let f = x4_plus_1();
    let x = poly(&[4, 0, 16, 9]);
    let r = polyadd(&x, &Polynomial::zero(), 17, &f);
    assert_eq!(r.coeffs(), x.coeffs());
    let again = polyadd(&r, &Polynomial::zero(), 17, &f);
    assert_eq!(again.coeffs(), x.coeffs());
}

#[test]
fn polyinv_negates_modulo_q() {
    assert_eq!(polyinv(&poly(&[1, 0, 16, -2]), 17).coeffs(), &vec![16, 0, 1, 2]);
    assert_eq!(polyinv(&Polynomial::zero(), 17).len(), 0);
}

#[test]
fn polysub_subtracts_modulo_q() {
    let f = x4_plus_1();
    let r = polysub(&poly(&[1, 2, 3]), &poly(&[2, 2, 0, 1]), 17, &f);
    assert_eq!(r.coeffs(), &vec![16, 0, 3, 16]);
    let zero = polysub(&poly(&[5, 6]), &poly(&[5, 6]), 17, &f);
    assert_eq!(zero.len(), 0);
}

#[test]
fn nearest_int_rounds_half_away_from_zero() {
    assert_eq!(nearest_int(67, 2), 34);
    assert_eq!(nearest_int(12289, 2), 6145);
    assert_eq!(nearest_int(5, 3), 2);
    assert_eq!(nearest_int(4, 3), 1);
    assert_eq!(nearest_int(3, 2), 2);
    assert_eq!(nearest_int(1, 2), 1);
    assert_eq!(nearest_int(0, 5), 0);
    assert_eq!(nearest_int(-1, 2), -1);
    assert_eq!(nearest_int(-3, 2), -2);
    assert_eq!(nearest_int(-5, 3), -2);
}

#[test]
fn gen_uniform_poly_is_in_range_and_reproducible() {
    let a = gen_uniform_poly(64, 67, Some(7));
    let b = gen_uniform_poly(64, 67, Some(7));
    let c = gen_uniform_poly(64, 67, Some(8));
    assert_eq!(a.coeffs(), b.coeffs());
    assert_ne!(a.coeffs(), c.coeffs());
    assert!(a.len() <= 64);
    assert!(a.len() > 32);
    assert!(a.coeffs().iter().all(|&x| 0 <= x && x < 67));
    let unseeded = gen_uniform_poly(64, 67, None);
    assert!(unseeded.coeffs().iter().all(|&x| 0 <= x && x < 67));
    assert!(unseeded.coeffs().iter().any(|&x| x != 0));
}

#[test]
fn polyreduce_gives_the_canonical_representative() {
    let f = x4_plus_1();
    // 1 + 20x - x^2 + 3x^4 + x^6 = (1 - 3) + 20x + (-1 - 1)x^2 modulo x^4 + 1
    let r = polyreduce(poly(&[1, 20, -1, 0, 3, 0, 1]), 17, &f);
    assert_eq!(r.coeffs(), &vec![15, 3, 15]);
    assert_eq!(polyreduce(poly(&[17, 0, 0, 0, 17]), 17, &f).len(), 0);
    assert_eq!(polyreduce(poly(&[1, 0, 0, 0, 1]), 17, &f).len(), 0);
}

#[test]
fn polyreduce_of_a_reduced_element_is_a_no_op() {
    let f = x4_plus_1();
    for coeffs in [vec![], vec![16], vec![0, 1], vec![4, 0, 16, 9], vec![0, 0, 0, 1]] {
        let once = polyreduce(poly(&coeffs), 17, &f);
        assert_eq!(once.coeffs(), &coeffs);
        let twice = polyreduce(once.clone(), 17, &f);
        assert_eq!(twice.coeffs(), once.coeffs());
    }
    let unreduced = polyreduce(poly(&[-1, 40, 0, 5, 9, 9, 9, 1]), 17, &f);
    let again = polyreduce(unreduced.clone(), 17, &f);
    assert_eq!(again.coeffs(), unreduced.coeffs());
}
