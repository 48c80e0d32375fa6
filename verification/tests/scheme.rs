use module_lwe::decrypt::{decrypt, decrypt_blocks, decrypt_string};
use module_lwe::encrypt::{
    encode_block, encrypt, encrypt_blocks, encrypt_from_samples, encrypt_string, message_fits,
};
use module_lwe::error::LweError;
use module_lwe::keygen::{keygen, keygen_from_samples, keygen_string};
use module_lwe::polynomial::Polynomial;
use module_lwe::ring_mod::polyadd;
use module_lwe::encoding::decompress;
use module_lwe::utils::{add_vec, gen_small_vector, store_small_vector, Parameters};
use module_lwe::wire::{parse_ciphertext, parse_public_key, parse_secret_key};

fn poly(coeffs: &[i64]) -> Polynomial {
    Polynomial::new(coeffs.to_vec())
}

fn coeffs_of(v: &Vec<Polynomial>) -> Vec<Vec<i64>> {
    v.iter().map(|p| p.coeffs().clone()).collect()
}

// Test for basic keygen/encrypt/decrypt of a message
#[test]
fn test_basic() {
    let seed = None; //set random seed
    let message = String::from("hello");
    let params = Parameters::default(); // Adjust this if needed
    let keypair = keygen_string(&params, seed);
    let pk_string = &keypair.0;
    let sk_string = &keypair.1;
    let ciphertext_string =
        encrypt_string(pk_string, &message.clone().into_bytes(), &params, seed).unwrap();
    let decrypted_message =
        String::from_utf8(decrypt_string(sk_string, &ciphertext_string, &params).unwrap()).unwrap();
    assert_eq!(message, decrypted_message, "test failed: {} != {}", message, decrypted_message);
}

// Test homomorphic addition property: ensure sum of encrypted plaintexts decrypts to plaintext sum
#[test]
fn test_hom_add() {
    let seed = None; //set the random seed
    let params = Parameters::default();
    let (n, q, f) = (params.n(), params.q(), params.f());

    let mut m0 = vec![1, 0, 1, 0];
    m0.resize(n, 0);
    let mut m1 = vec![0, 0, 1, 1];
    m1.resize(n, 0);
    // bit by bit: decryption recovers every coefficient modulo 2
    let mut plaintext_sum = vec![1, 0, 0, 1];
    plaintext_sum.resize(n, 0);
    let (pk, sk) = keygen(&params, seed);

    // Encrypt plaintext messages
    let u = encrypt(&pk.0, &pk.1, &m0, &params, seed);
    let v = encrypt(&pk.0, &pk.1, &m1, &params, seed);

    // Compute sum of encrypted data
    let ciphertext_sum = (add_vec(&u.0, &v.0, q, f), polyadd(&u.1, &v.1, q, f));

    // Decrypt ciphertext sum u+v
    let decrypted_sum = decrypt(&sk, &ciphertext_sum.0, &ciphertext_sum.1, &params);

    assert_eq!(decrypted_sum, plaintext_sum, "test failed: {:?} != {:?}", decrypted_sum, plaintext_sum);
}

#[test]
fn hom_add_of_disjoint_messages_under_one_seed() {
    let params = Parameters::default();
    let n = params.n();
    let mut m0 = vec![1, 0, 1, 0, 0, 0];
    m0.resize(n, 0);
    let mut m1 = vec![0, 1, 0, 0, 0, 1];
    m1.resize(n, 0);
    let mut sum = vec![1, 1, 1, 0, 0, 1];
    sum.resize(n, 0);
    let (pk, sk) = keygen(&params, Some(1));
    let c0 = encrypt(&pk.0, &pk.1, &m0, &params, Some(2));
    let c1 = encrypt(&pk.0, &pk.1, &m1, &params, Some(2));
    let added = (
        add_vec(&c0.0, &c1.0, params.q(), params.f()),
        polyadd(&c0.1, &c1.1, params.q(), params.f()),
    );
    assert_eq!(decrypt(&sk, &added.0, &added.1, &params), sum);
}

#[test]
fn concrete_scenario_n16_q67_k2() {
    let params = Parameters::new(16, 67, 2).unwrap();
    let (pk, sk) = keygen_string(&params, Some(42));
    let ciphertext = encrypt_string(&pk, &b"hi".to_vec(), &params, Some(42)).unwrap();
    assert_eq!(decrypt_string(&sk, &ciphertext, &params), Ok(b"hi".to_vec()));
    // every step is reproducible
    assert_eq!(keygen_string(&params, Some(42)), (pk.clone(), sk.clone()));
    assert_eq!(encrypt_string(&pk, &b"hi".to_vec(), &params, Some(42)), Ok(ciphertext));
}

#[test]
fn keygen_is_deterministic_under_a_seed() {
    let params = Parameters::new(16, 67, 2).unwrap();
    let first = keygen_string(&params, Some(7));
    let second = keygen_string(&params, Some(7));
    let other = keygen_string(&params, Some(8));
    assert_eq!(first, second);
    assert_ne!(first.0, other.0);
    assert_ne!(first.1, other.1);
    let unseeded_a = keygen_string(&params, None);
    let unseeded_b = keygen_string(&params, None);
    assert_ne!(unseeded_a.0, unseeded_b.0);
}

#[test]
fn keygen_has_the_right_shape() {
    let params = Parameters::new(16, 67, 3).unwrap();
    let ((a, t), s) = keygen(&params, Some(3));
    assert_eq!(a.len(), 3);
    assert!(a.iter().all(|row| row.len() == 3));
    assert_eq!(t.len(), 3);
    assert_eq!(s.len(), 3);
    for p in a.iter().flatten().chain(t.iter()) {
        assert!(p.len() <= 16);
        assert!(p.coeffs().iter().all(|&c| 0 <= c && c < 67));
    }
    // the secret is stored in canonical form: -1 as q - 1
    for p in s.iter() {
        assert!(p.len() <= 16);
        assert!(p.coeffs().iter().all(|&c| c == 0 || c == 1 || c == 66));
    }
    assert!(s.iter().any(|p| p.coeffs().iter().any(|&c| c == 66)));
    // it is the second draw, the noise of the public vector the third
    let drawn = gen_small_vector(16, 3, Some(4));
    assert!(drawn.iter().any(|p| p.coeffs().iter().any(|&c| c == -1)));
    assert_eq!(coeffs_of(&s), coeffs_of(&store_small_vector(&drawn, 16, 67)));
    let e = gen_small_vector(16, 3, Some(5));
    assert_ne!(coeffs_of(&s), coeffs_of(&store_small_vector(&e, 16, 67)));
}

#[test]
fn keygen_from_samples_computes_t() {
    let params = Parameters::new(2, 17, 2).unwrap();
    let a = vec![vec![poly(&[1]), poly(&[0, 1])], vec![poly(&[2]), poly(&[3])]];
    let s = vec![poly(&[1, 1]), poly(&[0, -1])];
    let e = vec![poly(&[1]), poly(&[0, 1])];
    let ((a_out, t), s_out) = keygen_from_samples(&params, a, s, &e);
    // row 0: (1 + x) + x * (-x) + 1 = 1 + x + 1 + 1 = 3 + x
    // row 1: 2 (1 + x) + 3 (-x) + x = 2
    assert_eq!(coeffs_of(&t), vec![vec![3, 1], vec![2]]);
    assert_eq!(coeffs_of(&s_out), vec![vec![1, 1], vec![0, -1]]);
    assert_eq!(coeffs_of(&a_out[1]), vec![vec![2], vec![3]]);
}

#[test]
fn encode_block_weights_the_bits() {
    let params = Parameters::new(4, 67, 1).unwrap();
    assert_eq!(encode_block(&vec![1, 0, 1, 1], &params).coeffs(), &vec![34, 0, 34, 34]);
    assert_eq!(encode_block(&vec![1, 0, 0, 0], &params).coeffs(), &vec![34]);
    assert_eq!(encode_block(&vec![0, 0], &params).len(), 0);
    assert_eq!(encode_block(&vec![], &params).len(), 0);
    let even = Parameters::new(4, 64, 1).unwrap();
    assert_eq!(encode_block(&vec![0, 1], &even).coeffs(), &vec![0, 32]);
}

#[test]
fn encrypt_from_samples_computes_u_and_v() {
    let params = Parameters::new(2, 17, 2).unwrap();
    let a = vec![vec![poly(&[1]), poly(&[0, 1])], vec![poly(&[2]), poly(&[3])]];
    let t = vec![poly(&[3, 1]), poly(&[2])];
    let r = vec![poly(&[1]), poly(&[0, 1])];
    let e1 = vec![poly(&[0, 1]), poly(&[-1])];
    let e2 = poly(&[1]);
    let (u, v) = encrypt_from_samples(&a, &t, &vec![1, 0], &params, &r, &e1, &e2);
    // A^T r + e1: row 0 = 1 * 1 + 2 * x + x = 1 + 3x; row 1 = x * 1 + 3 * x - 1 = 16 + 4x
    assert_eq!(coeffs_of(&u), vec![vec![1, 3], vec![16, 4]]);
    // t . r + e2 - 9: (3 + x) + 2x + 1 - 9 = -5 + 3x
    assert_eq!(v.coeffs(), &vec![12, 3]);
}

#[test]
fn decrypt_rounds_every_coefficient() {
    let params = Parameters::new(4, 67, 1).unwrap();
    let sk = vec![poly(&[])];
    let u = vec![poly(&[])];
    // with a zero secret the scaled plaintext is v itself
    // 0..16 -> 0, 17..50 -> 1, 51..66 -> 2 -> 0
    assert_eq!(decrypt(&sk, &u, &poly(&[0, 16, 17, 50]), &params), vec![0, 0, 1, 1]);
    assert_eq!(decrypt(&sk, &u, &poly(&[51, 66, 33, 34]), &params), vec![0, 0, 1, 1]);
    assert_eq!(decrypt(&sk, &u, &poly(&[33]), &params), vec![1, 0, 0, 0]);
    assert_eq!(decrypt(&sk, &u, &poly(&[]), &params), vec![0, 0, 0, 0]);
}

#[test]
fn decrypt_subtracts_the_secret_times_u() {
    let params = Parameters::new(2, 17, 1).unwrap();
    let sk = vec![poly(&[1, 1])];
    let u = vec![poly(&[0, 1])];
    // s u = x + x^2 = -1 + x; v - s u = (8 + x) - (-1 + x) = 9
    assert_eq!(decrypt(&sk, &u, &poly(&[8, 1]), &params), vec![1, 0]);
}

#[test]
fn block_round_trip_over_many_seeds() {
    let params = Parameters::default();
    let n = params.n();
    let block: Vec<i64> = (0..n).map(|i| ((i * 7 + i / 3) % 2) as i64).collect();
    for seed in 0..3u64 {
        let (pk, sk) = keygen(&params, Some(seed));
        let (u, v) = encrypt(&pk.0, &pk.1, &block, &params, Some(seed + 100));
        assert_eq!(decrypt(&sk, &u, &v, &params), block);
    }
}

#[test]
fn short_block_decrypts_to_padded_block() {
    let params = Parameters::default();
    let (pk, sk) = keygen(&params, None);
    let m_b = vec![0, 1, 0, 1, 0, 0, 1, 1, 1, 0, 1];
    let (u, v) = encrypt(&pk.0, &pk.1, &m_b, &params, None);
    let mut expected = m_b.clone();
    expected.resize(params.n(), 0);
    assert_eq!(decrypt(&sk, &u, &v, &params), expected);
}

#[test]
fn string_round_trip_with_several_blocks() {
    let params = Parameters::new(64, 12289, 2).unwrap();
    let (pk, sk) = keygen_string(&params, Some(1));
    let message = b"The quick brown fox jumps over the lazy dog \x00 and on.".to_vec();
    let ciphertext = encrypt_string(&pk, &message, &params, Some(2)).unwrap();
    // 53 bytes are 424 bits, 7 blocks of 64
    assert_eq!(parse_ciphertext(&ciphertext, &params).unwrap().len(), 7);
    assert_eq!(decrypt_string(&sk, &ciphertext, &params), Ok(message));
}

#[test]
fn string_round_trip_when_the_block_size_is_no_multiple_of_eight() {
    let params = Parameters::new(20, 12289, 2).unwrap();
    let (pk, sk) = keygen_string(&params, Some(3));
    let message = vec![0xff, 0x00, 0x80, 0x01, 0x7f];
    let ciphertext = encrypt_string(&pk, &message, &params, None).unwrap();
    assert_eq!(decrypt_string(&sk, &ciphertext, &params), Ok(message));
}

#[test]
fn trailing_zero_bytes_are_lost() {
    let params = Parameters::new(64, 12289, 2).unwrap();
    let (pk, sk) = keygen_string(&params, Some(1));
    let ciphertext = encrypt_string(&pk, &vec![b'a', 0, 0], &params, Some(2)).unwrap();
    assert_eq!(decrypt_string(&sk, &ciphertext, &params), Ok(vec![b'a']));
}

#[test]
fn empty_message_round_trip() {
    let params = Parameters::new(16, 67, 2).unwrap();
    let (pk, sk) = keygen_string(&params, Some(42));
    let ciphertext = encrypt_string(&pk, &vec![], &params, Some(42)).unwrap();
    assert_eq!(parse_ciphertext(&ciphertext, &params).unwrap().len(), 0);
    assert_eq!(ciphertext, "AAAAAAAAAAA=");
    assert_eq!(decrypt_string(&sk, &ciphertext, &params), Ok(vec![]));
}

#[test]
fn blocks_of_one_message_use_different_noise() {
    let params = Parameters::new(16, 12289, 2).unwrap();
    let (pk_text, sk_text) = keygen_string(&params, Some(5));
    let (a, t) = parse_public_key(&pk_text, &params).unwrap();
    let sk = parse_secret_key(&sk_text, &params).unwrap();
    // two equal blocks
    let bits = vec![1, 0, 1, 1, 0, 0, 1, 0, 1, 1, 1, 0, 0, 1, 0, 1];
    let mut twice = bits.clone();
    twice.extend(bits.iter());
    let blocks = encrypt_blocks(&a, &t, &twice, &params, Some(9));
    assert_eq!(blocks.len(), 2);
    assert_ne!(coeffs_of(&blocks[0].0), coeffs_of(&blocks[1].0));
    assert_ne!(blocks[0].1.coeffs(), blocks[1].1.coeffs());
    assert_eq!(decrypt_blocks(&sk, &blocks, &params), twice);
    // block 0 is the encryption under the seed itself, block 1 under the seed plus three
    let single = encrypt(&a, &t, &bits, &params, Some(9));
    assert_eq!(coeffs_of(&single.0), coeffs_of(&blocks[0].0));
    let second = encrypt(&a, &t, &bits, &params, Some(12));
    assert_eq!(second.1.coeffs(), blocks[1].1.coeffs());
}

#[test]
fn encrypt_string_rejects_a_malformed_public_key() {
    let params = Parameters::new(16, 67, 2).unwrap();
    let (_, sk) = keygen_string(&params, Some(42));
    assert_eq!(
        encrypt_string("no key", &b"hi".to_vec(), &params, None),
        Err(LweError::MalformedEncoding)
    );
    // a secret key has the wrong number of integers for a public key
    assert_eq!(
        encrypt_string(&sk, &b"hi".to_vec(), &params, None),
        Err(LweError::MalformedEncoding)
    );
}

#[test]
fn decrypt_string_rejects_malformed_texts() {
    let params = Parameters::new(16, 67, 2).unwrap();
    let (pk, sk) = keygen_string(&params, Some(42));
    let ciphertext = encrypt_string(&pk, &b"hi".to_vec(), &params, Some(42)).unwrap();
    assert_eq!(decrypt_string("no key", &ciphertext, &params), Err(LweError::MalformedEncoding));
    assert_eq!(decrypt_string(&pk, &ciphertext, &params), Err(LweError::MalformedEncoding));
    assert_eq!(decrypt_string(&sk, "no ciphertext", &params), Err(LweError::MalformedEncoding));
    assert_eq!(decrypt_string(&sk, &sk, &params), Err(LweError::MalformedEncoding));
    let other = Parameters::new(16, 67, 3).unwrap();
    assert_eq!(decrypt_string(&sk, &ciphertext, &other), Err(LweError::MalformedEncoding));
}

#[test]
fn key_texts_hold_the_generated_key_pair() {
    let params = Parameters::new(16, 67, 2).unwrap();
    let ((a, t), s) = keygen(&params, Some(42));
    let (pk_text, sk_text) = keygen_string(&params, Some(42));
    let (a_read, t_read) = parse_public_key(&pk_text, &params).unwrap();
    let s_read = parse_secret_key(&sk_text, &params).unwrap();
    assert_eq!(coeffs_of(&a_read[0]), coeffs_of(&a[0]));
    assert_eq!(coeffs_of(&a_read[1]), coeffs_of(&a[1]));
    assert_eq!(coeffs_of(&t_read), coeffs_of(&t));
    assert_eq!(coeffs_of(&s_read), coeffs_of(&s));
}

#[test]
fn noise_beyond_the_margin_flips_a_bit() {
    // n = 1, q = 3, k = 1: the margin admits no noise but zero
    let params = Parameters::new(1, 3, 1).unwrap();
    let a = vec![vec![poly(&[])]];
    let s = vec![poly(&[1])];
    let e = vec![poly(&[1])];
    let ((a, t), s) = keygen_from_samples(&params, a, s, &e);
    assert_eq!(coeffs_of(&t), vec![vec![1]]);
    let r = vec![poly(&[1])];
    let e1 = vec![poly(&[])];
    let e2 = poly(&[]);
    // the noise e r + e2 - s e1 is 1
    let (u, v) = encrypt_from_samples(&a, &t, &vec![0], &params, &r, &e1, &e2);
    assert_eq!(decrypt(&s, &u, &v, &params), vec![1]);
    // without noise the bit comes back
    let (_, quiet_t) = keygen_from_samples(&params, vec![vec![poly(&[])]], vec![poly(&[1])], &vec![poly(&[])]).0;
    let (u, v) = encrypt_from_samples(&a, &quiet_t, &vec![0], &params, &r, &e1, &e2);
    assert_eq!(decrypt(&s, &u, &v, &params), vec![0]);
    let (u, v) = encrypt_from_samples(&a, &quiet_t, &vec![1], &params, &r, &e1, &e2);
    assert_eq!(decrypt(&s, &u, &v, &params), vec![1]);
}

#[test]
fn parameters_with_a_wide_margin_always_round_trip() {
    // 2 k n + 1 = 17 fits the margin of q = 71
    let params = Parameters::new(8, 71, 1).unwrap();
    for seed in 0..200u64 {
        let (pk, sk) = keygen(&params, Some(seed));
        let block: Vec<i64> = (0..8).map(|i| ((seed >> i) & 1) as i64).collect();
        let (u, v) = encrypt(&pk.0, &pk.1, &block, &params, Some(seed.wrapping_mul(31) + 7));
        assert_eq!(decrypt(&sk, &u, &v, &params), block);
    }
}

#[test]
fn errors_describe_themselves() {
    assert_eq!(LweError::MalformedEncoding.describe(), "malformed encoding");
    assert_eq!(LweError::ParameterInvalid.describe(), "invalid parameters");
}

#[test]
fn message_fits_bounds_the_ciphertext_length() {
    let params = Parameters::new(16, 67, 2).unwrap();
    assert!(message_fits(0, &params));
    assert!(message_fits(1_000_000, &params));
    // eight bits a byte, three polynomials of sixteen places a block, sixteen bytes a place
    assert!(message_fits((usize::MAX - 64) / (8 * 3 * 16) - 16, &params));
    assert!(!message_fits(usize::MAX / (8 * 3 * 16) + 16, &params));
    assert!(!message_fits(usize::MAX / 8, &params));
    assert!(!message_fits(usize::MAX, &params));
}

#[test]
fn store_small_vector_takes_coefficients_modulo_q() {
    let v = vec![poly(&[-1, 0, 1]), poly(&[0, -1]), poly(&[]), poly(&[1])];
    let stored = store_small_vector(&v, 3, 17);
    assert_eq!(coeffs_of(&stored), vec![vec![16, 0, 1], vec![0, 16], vec![], vec![1]]);
    let binary = store_small_vector(&v, 3, 2);
    assert_eq!(coeffs_of(&binary), vec![vec![1, 0, 1], vec![0, 1], vec![], vec![1]]);
}

#[test]
fn key_texts_hold_canonical_integers() {
    let params = Parameters::new(16, 67, 2).unwrap();
    for seed in [None, Some(1), Some(42)] {
        let (pk, sk) = keygen_string(&params, seed);
        let public = decompress(&pk).unwrap();
        let secret = decompress(&sk).unwrap();
        assert_eq!(public.len(), (2 * 2 + 2) * 16);
        assert_eq!(secret.len(), 2 * 16);
        assert!(public.iter().all(|&x| 0 <= x && x < 67));
        assert!(secret.iter().all(|&x| x == 0 || x == 1 || x == 66));
        assert!(secret.iter().any(|&x| x == 66));
    }
}

#[test]
fn a_secret_with_large_unreduced_noise_still_decrypts() {
    // the stored secret holds q - 1 where -1 was drawn: the product s e1 is
    // large before reduction, its residue is as small as with -1
    let params = Parameters::new(8, 71, 1).unwrap();
    let a = vec![vec![poly(&[3, 70, 5, 0, 0, 9, 1, 2])]];
    let drawn = vec![poly(&[-1, -1, -1, -1, -1, -1, -1, -1])];
    let e = vec![poly(&[1, -1, 1, -1, 0, 0, 1, 1])];
    let stored = store_small_vector(&drawn, 8, 71);
    assert_eq!(coeffs_of(&stored), vec![vec![70; 8]]);
    let ((a, t), s) = keygen_from_samples(&params, a, stored, &e);
    let r = vec![poly(&[1, 1, -1, 0, 1, -1, 1, 1])];
    let e1 = vec![poly(&[-1, 1, 1, 1, -1, 1, 0, 1])];
    let e2 = poly(&[1, 0, -1, 1, 1, 0, 0, -1]);
    for block in [vec![0, 1, 1, 0, 1, 0, 0, 1], vec![1; 8], vec![0; 8]] {
        let (u, v) = encrypt_from_samples(&a, &t, &block, &params, &r, &e1, &e2);
        assert_eq!(decrypt(&s, &u, &v, &params), block);
    }
}
