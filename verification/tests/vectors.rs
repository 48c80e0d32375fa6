use module_lwe::error::LweError;
use module_lwe::polynomial::Polynomial;
use module_lwe::sampling::{draws, nth_seed};
use module_lwe::utils::{
    add_vec, gen_small_vector, gen_uniform_matrix, mul_mat_vec_simple, mul_vec_simple,
    small_vector_from_draws, transpose, uniform_matrix_from_draws, Parameters,
};

fn poly(coeffs: &[i64]) -> Polynomial {
    Polynomial::new(coeffs.to_vec())
}

fn coeffs_of(v: &Vec<Polynomial>) -> Vec<Vec<i64>> {
    v.iter().map(|p| p.coeffs().clone()).collect()
}

#[test]
fn default_parameters() {
    let params = Parameters::default();
    assert_eq!(params.n(), 512);
    assert_eq!(params.q(), 12289);
    assert_eq!(params.k(), 8);
    let f = params.f().coeffs();
    assert_eq!(f.len(), 513);
    assert_eq!(f[0], 1);
    assert_eq!(f[512], 1);
    assert!(f[1..512].iter().all(|&c| c == 0));
}

#[test]
fn new_parameters_derive_the_modulus_polynomial() {
    let params = Parameters::new(4, 17, 2).unwrap();
    assert_eq!(params.n(), 4);
    assert_eq!(params.q(), 17);
    assert_eq!(params.k(), 2);
    assert_eq!(params.f().coeffs(), &vec![1, 0, 0, 0, 1]);
    let one = Parameters::new(1, 2, 1).unwrap();
    assert_eq!(one.f().coeffs(), &vec![1, 1]);
}

#[test]
fn invalid_parameters_are_rejected() {
    assert_eq!(Parameters::new(0, 17, 2).err(), Some(LweError::ParameterInvalid));
    assert_eq!(Parameters::new(4, 1, 2).err(), Some(LweError::ParameterInvalid));
    assert_eq!(Parameters::new(4, 0, 2).err(), Some(LweError::ParameterInvalid));
    assert_eq!(Parameters::new(4, -17, 2).err(), Some(LweError::ParameterInvalid));
    assert_eq!(Parameters::new(4, 17, 0).err(), Some(LweError::ParameterInvalid));
    // q * q * n must fit in i64
    assert_eq!(Parameters::new(4, 3_037_000_500, 1).err(), Some(LweError::ParameterInvalid));
    assert_eq!(Parameters::new(4, i64::MAX, 1).err(), Some(LweError::ParameterInvalid));
    assert!(Parameters::new(2, 2_000_000_000, 1).is_ok());
    assert_eq!(Parameters::new(3, 2_000_000_000, 1).err(), Some(LweError::ParameterInvalid));
    // the key length must fit in usize
    assert_eq!(Parameters::new(usize::MAX, 2, 1).err(), Some(LweError::ParameterInvalid));
    assert_eq!(Parameters::new(4, 17, usize::MAX).err(), Some(LweError::ParameterInvalid));
}

#[test]
fn add_vec_adds_componentwise() {
    let f = poly(&[1, 0, 0, 0, 1]);
    let v0 = vec![poly(&[1, 2]), poly(&[16, 0, 0, 5])];
    let v1 = vec![poly(&[3]), poly(&[1, 0, 0, 12])];
    let r = add_vec(&v0, &v1, 17, &f);
    assert_eq!(coeffs_of(&r), vec![vec![4, 2], vec![]]);
    assert_eq!(add_vec(&vec![], &vec![], 17, &f).len(), 0);
}

#[test]
fn mul_vec_simple_is_the_dot_product() {
    let f = poly(&[1, 0, 0, 0, 1]);
    let v0 = vec![poly(&[1, 2, 3, 4]), poly(&[0, 0, 0, 1])];
    let v1 = vec![poly(&[5, 6, 7, 8]), poly(&[0, 1])];
    // [12, 15, 2, 9] + [16] mod 17
    let r = mul_vec_simple(&v0, &v1, 17, &f);
    assert_eq!(r.coeffs(), &vec![11, 15, 2, 9]);
    assert_eq!(mul_vec_simple(&vec![], &vec![], 17, &f).len(), 0);
}

#[test]
fn mul_mat_vec_simple_multiplies_rows() {
    let f = poly(&[1, 0, 0, 0, 1]);
    let m = vec![
        vec![poly(&[1]), poly(&[0, 1])],
        vec![poly(&[2]), poly(&[0, 0, 0, 1])],
    ];
    let v = vec![poly(&[3, 1]), poly(&[0, 1])];
    let r = mul_mat_vec_simple(&m, &v, 17, &f);
    // row 0: (3 + x) + x * x = 3 + x + x^2
    // row 1: 2 (3 + x) + x^3 * x = 6 + 2x - 1 = 5 + 2x
    assert_eq!(coeffs_of(&r), vec![vec![3, 1, 1], vec![5, 2]]);
}

#[test]
fn transpose_swaps_rows_and_columns() {
    let m = vec![
        vec![poly(&[1]), poly(&[2]), poly(&[3])],
        vec![poly(&[4]), poly(&[5]), poly(&[6])],
    ];
    let t = transpose(&m);
    assert_eq!(t.len(), 3);
    assert_eq!(coeffs_of(&t[0]), vec![vec![1], vec![4]]);
    assert_eq!(coeffs_of(&t[1]), vec![vec![2], vec![5]]);
    assert_eq!(coeffs_of(&t[2]), vec![vec![3], vec![6]]);
    let back = transpose(&t);
    assert_eq!(coeffs_of(&back[0]), coeffs_of(&m[0]));
    assert_eq!(coeffs_of(&back[1]), coeffs_of(&m[1]));
}

#[test]
fn draws_are_in_range_and_reproducible() {
    let a = draws(Some(42), 0, 3, 1000);
    let b = draws(Some(42), 0, 3, 1000);
    let c = draws(Some(43), 0, 3, 1000);
    assert_eq!(a.len(), 1000);
    assert_eq!(a, b);
    assert_ne!(a, c);
    assert!(a.iter().all(|&x| 0 <= x && x < 3));
    for value in 0..3 {
        assert!(a.iter().any(|&x| x == value));
    }
    let shifted = draws(Some(42), -5, 7, 200);
    assert!(shifted.iter().all(|&x| -5 <= x && x < 7));
    assert_eq!(draws(Some(1), 0, 3, 0).len(), 0);
}

#[test]
fn a_shorter_seeded_draw_is_a_prefix_of_a_longer_one() {
    let long = draws(Some(9), 0, 67, 50);
    let short = draws(Some(9), 0, 67, 20);
    assert_eq!(&long[..20], &short[..]);
}

#[test]
fn entropy_draws_are_in_range_and_differ() {
    let a = draws(None, 0, 1_000_000, 64);
    let b = draws(None, 0, 1_000_000, 64);
    assert_eq!(a.len(), 64);
    assert!(a.iter().all(|&x| 0 <= x && x < 1_000_000));
    assert_ne!(a, b);
}

#[test]
fn nth_seed_advances_and_wraps() {
    assert_eq!(nth_seed(Some(42), 0), Some(42));
    assert_eq!(nth_seed(Some(42), 2), Some(44));
    assert_eq!(nth_seed(Some(u64::MAX), 1), Some(0));
    assert_eq!(nth_seed(Some(u64::MAX - 1), 5), Some(3));
    assert_eq!(nth_seed(None, 7), None);
}

#[test]
fn small_vector_from_draws_shifts_and_cuts() {
    let values = vec![0, 1, 2, 2, 1, 1, 0, 0, 1];
    let v = small_vector_from_draws(&values, 3, 3);
    assert_eq!(coeffs_of(&v), vec![vec![-1, 0, 1], vec![1], vec![-1, -1]]);
}

#[test]
fn uniform_matrix_from_draws_cuts_row_by_row() {
    let values = vec![1, 2, 3, 4, 5, 6, 7, 0];
    let m = uniform_matrix_from_draws(&values, 2, 2, 17);
    assert_eq!(coeffs_of(&m[0]), vec![vec![1, 2], vec![3, 4]]);
    assert_eq!(coeffs_of(&m[1]), vec![vec![5, 6], vec![7]]);
}

#[test]
fn gen_small_vector_is_ternary_and_reproducible() {
    let a = gen_small_vector(32, 4, Some(5));
    let b = gen_small_vector(32, 4, Some(5));
    let c = gen_small_vector(32, 4, Some(6));
    assert_eq!(a.len(), 4);
    assert_eq!(coeffs_of(&a), coeffs_of(&b));
    assert_ne!(coeffs_of(&a), coeffs_of(&c));
    for p in a.iter() {
        assert!(p.len() <= 32);
        assert!(p.coeffs().iter().all(|&x| x == -1 || x == 0 || x == 1));
    }
    assert!(a.iter().any(|p| p.coeffs().iter().any(|&x| x == -1)));
    let expected: Vec<i64> = draws(Some(5), 0, 3, 128).iter().map(|x| x - 1).collect();
    let first = Polynomial::new(expected[..32].to_vec());
    assert_eq!(a[0].coeffs(), first.coeffs());
    let unseeded = gen_small_vector(32, 4, None);
    assert_eq!(unseeded.len(), 4);
    assert!(unseeded.iter().all(|p| p.coeffs().iter().all(|&x| -1 <= x && x <= 1)));
}

#[test]
fn gen_uniform_matrix_is_square_uniform_and_reproducible() {
    let a = gen_uniform_matrix(16, 3, 67, Some(11));
    let b = gen_uniform_matrix(16, 3, 67, Some(11));
    assert_eq!(a.len(), 3);
    for (row_a, row_b) in a.iter().zip(b.iter()) {
        assert_eq!(row_a.len(), 3);
        assert_eq!(coeffs_of(row_a), coeffs_of(row_b));
        for p in row_a.iter() {
            assert!(p.len() <= 16);
            assert!(p.coeffs().iter().all(|&x| 0 <= x && x < 67));
        }
    }
    // the entries come from one stream, so they are not copies of each other
    assert_ne!(a[0][0].coeffs(), a[0][1].coeffs());
    assert_ne!(a[0][0].coeffs(), a[1][0].coeffs());
}
