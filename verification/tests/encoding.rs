use base64::Engine;
use module_lwe::codec::{bits_to_bytes, block_at, bytes_to_bits, strip_trailing_zeros};
use module_lwe::encoding::{compress, decompress};
use module_lwe::error::LweError;
use module_lwe::layout::{append_padded, append_vector, polynomial_at, polynomials_from_values};
use module_lwe::polynomial::Polynomial;
use module_lwe::utils::Parameters;
use module_lwe::wire::{
    parse_ciphertext, parse_public_key, parse_secret_key, serialize_ciphertext,
    serialize_public_key, serialize_secret_key, values_in_range,
};

fn poly(coeffs: &[i64]) -> Polynomial {
    Polynomial::new(coeffs.to_vec())
}

fn coeffs_of(v: &Vec<Polynomial>) -> Vec<Vec<i64>> {
    v.iter().map(|p| p.coeffs().clone()).collect()
}

#[test]
fn compress_is_base64_of_length_prefixed_little_endian() {
    assert_eq!(compress(&vec![1]), "AQAAAAAAAAABAAAAAAAAAA==");
    assert_eq!(compress(&vec![]), "AAAAAAAAAAA=");
    assert_eq!(compress(&vec![-1, 2]), "AgAAAAAAAAD//////////wIAAAAAAAAA");
}

#[test]
fn decompress_inverts_compress() {
    let data = vec![0, 1, -1, 12288, i64::MAX, i64::MIN];
    assert_eq!(decompress(&compress(&data)), Ok(data));
    assert_eq!(decompress("AAAAAAAAAAA="), Ok(vec![]));
    assert_eq!(decompress("AgAAAAAAAAD//////////wIAAAAAAAAA"), Ok(vec![-1, 2]));
}

#[test]
fn decompress_rejects_malformed_text() {
    // not base64
    assert_eq!(decompress("not base64!"), Err(LweError::MalformedEncoding));
    // base64, but missing padding
    assert_eq!(decompress("AAAAAAAAAAA"), Err(LweError::MalformedEncoding));
    // announces one integer and holds none
    assert_eq!(decompress("AQAAAAAAAAA="), Err(LweError::MalformedEncoding));
    // too short for a length
    assert_eq!(decompress("AQID"), Err(LweError::MalformedEncoding));
    assert_eq!(decompress(""), Err(LweError::MalformedEncoding));
}

#[test]
fn bytes_to_bits_is_most_significant_first() {
    assert_eq!(bytes_to_bits(&vec![0x68]), vec![0, 1, 1, 0, 1, 0, 0, 0]);
    assert_eq!(
        bytes_to_bits(&vec![0x80, 0x01]),
        vec![1, 0, 0, 0, 0, 0, 0, 0, 0, 0, 0, 0, 0, 0, 0, 1]
    );
    assert_eq!(bytes_to_bits(&vec![0xff]), vec![1; 8]);
    assert_eq!(bytes_to_bits(&vec![]), Vec::<i64>::new());
}

#[test]
fn block_at_cuts_and_pads() {
    let bits = vec![1, 0, 1, 1, 0, 1, 1];
    assert_eq!(block_at(&bits, 3, 0), vec![1, 0, 1]);
    assert_eq!(block_at(&bits, 3, 1), vec![1, 0, 1]);
    assert_eq!(block_at(&bits, 3, 2), vec![1, 0, 0]);
    assert_eq!(block_at(&bits, 3, 3), vec![0, 0, 0]);
    assert_eq!(block_at(&bits, 0, 0), Vec::<i64>::new());
}

#[test]
fn bits_to_bytes_regroups() {
    assert_eq!(bits_to_bytes(&vec![0, 1, 1, 0, 1, 0, 0, 0]), vec![0x68]);
    assert_eq!(bits_to_bytes(&vec![1; 16]), vec![0xff, 0xff]);
    assert_eq!(bits_to_bytes(&vec![]), Vec::<u8>::new());
    // a short last group is the number it spells
    assert_eq!(bits_to_bytes(&vec![0, 0, 0, 0, 0, 0, 0, 1, 1, 0, 1]), vec![1, 5]);
    assert_eq!(bits_to_bytes(&vec![0, 1, 1, 0, 1, 0, 0, 0, 0, 0, 0, 0]), vec![0x68, 0]);
}

#[test]
fn bits_and_bytes_round_trip() {
    let bytes: Vec<u8> = (0..=255u8).collect();
    assert_eq!(bits_to_bytes(&bytes_to_bits(&bytes)), bytes);
}

#[test]
fn strip_trailing_zeros_keeps_inner_zeros() {
    assert_eq!(strip_trailing_zeros(vec![1, 0, 2, 0, 0]), vec![1, 0, 2]);
    assert_eq!(strip_trailing_zeros(vec![0, 0]), Vec::<u8>::new());
    assert_eq!(strip_trailing_zeros(vec![]), Vec::<u8>::new());
    assert_eq!(strip_trailing_zeros(vec![0, 7]), vec![0, 7]);
}

#[test]
fn polynomials_are_cut_from_flat_values() {
    let values = vec![1, 2, 0, 0, 0, 0, 5, 6, 7];
    assert_eq!(polynomial_at(&values, 3, 0, 0).coeffs(), &vec![1, 2]);
    assert_eq!(polynomial_at(&values, 3, 1, 0).len(), 0);
    assert_eq!(polynomial_at(&values, 3, 2, 0).coeffs(), &vec![5, 6, 7]);
    assert_eq!(polynomial_at(&values, 3, 0, -1).coeffs(), &vec![0, 1, -1]);
    let v = polynomials_from_values(&values, 3, 1, 2, 0);
    assert_eq!(coeffs_of(&v), vec![vec![], vec![5, 6, 7]]);
}

#[test]
fn polynomials_are_flattened_with_padding() {
    let mut out = vec![9];
    append_padded(&mut out, &poly(&[1, 2]), 4);
    assert_eq!(out, vec![9, 1, 2, 0, 0]);
    append_padded(&mut out, &poly(&[1, 2, 3]), 2);
    assert_eq!(out, vec![9, 1, 2, 0, 0, 1, 2]);
    let mut flat = Vec::new();
    append_vector(&mut flat, &vec![poly(&[1]), poly(&[]), poly(&[0, 0, 3])], 3);
    assert_eq!(flat, vec![1, 0, 0, 0, 0, 0, 0, 0, 3]);
}

#[test]
fn keys_and_ciphertexts_serialize_in_order() {
    let a = vec![vec![poly(&[1]), poly(&[2, 2])], vec![poly(&[3]), poly(&[0, 4])]];
    let t = vec![poly(&[5]), poly(&[6, 6])];
    assert_eq!(serialize_public_key(&a, &t, 2), vec![1, 0, 2, 2, 3, 0, 0, 4, 5, 0, 6, 6]);
    assert_eq!(serialize_secret_key(&t, 2), vec![5, 0, 6, 6]);
    let blocks = vec![
        (vec![poly(&[1]), poly(&[0, 2])], poly(&[3])),
        (vec![poly(&[4, 4]), poly(&[])], poly(&[0, 5])),
    ];
    assert_eq!(
        serialize_ciphertext(&blocks, 2),
        vec![1, 0, 0, 2, 3, 0, 4, 4, 0, 0, 0, 5]
    );
    assert_eq!(serialize_ciphertext(&vec![], 2), Vec::<i64>::new());
}

#[test]
fn values_in_range_checks_the_magnitude() {
    assert!(values_in_range(&vec![0, 16, -16, 1], 17));
    assert!(!values_in_range(&vec![0, 17], 17));
    assert!(!values_in_range(&vec![-17, 0], 17));
    assert!(values_in_range(&vec![], 17));
}

#[test]
fn public_key_text_is_read_back() {
    let params = Parameters::new(2, 17, 2).unwrap();
    let text = compress(&vec![1, 0, 2, 2, 3, 0, 0, 4, 5, 0, 6, 6]);
    let (a, t) = parse_public_key(&text, &params).unwrap();
    assert_eq!(coeffs_of(&a[0]), vec![vec![1], vec![2, 2]]);
    assert_eq!(coeffs_of(&a[1]), vec![vec![3], vec![0, 4]]);
    assert_eq!(coeffs_of(&t), vec![vec![5], vec![6, 6]]);
}

#[test]
fn malformed_public_key_text_is_rejected() {
    let params = Parameters::new(2, 17, 2).unwrap();
    assert_eq!(parse_public_key("###", &params).err(), Some(LweError::MalformedEncoding));
    let short = compress(&vec![1, 0, 2, 2, 3, 0, 0, 4, 5, 0, 6]);
    assert_eq!(parse_public_key(&short, &params).err(), Some(LweError::MalformedEncoding));
    let long = compress(&vec![1, 0, 2, 2, 3, 0, 0, 4, 5, 0, 6, 6, 0]);
    assert_eq!(parse_public_key(&long, &params).err(), Some(LweError::MalformedEncoding));
    let large = compress(&vec![1, 0, 2, 2, 3, 0, 0, 4, 5, 0, 6, 17]);
    assert_eq!(parse_public_key(&large, &params).err(), Some(LweError::MalformedEncoding));
}

#[test]
fn secret_key_text_is_read_back_or_rejected() {
    let params = Parameters::new(2, 17, 2).unwrap();
    let sk = parse_secret_key(&compress(&vec![-1, 0, 1, 1]), &params).unwrap();
    assert_eq!(coeffs_of(&sk), vec![vec![-1], vec![1, 1]]);
    assert_eq!(
        parse_secret_key(&compress(&vec![-1, 0, 1]), &params).err(),
        Some(LweError::MalformedEncoding)
    );
    assert_eq!(
        parse_secret_key(&compress(&vec![-1, 0, 1, -17]), &params).err(),
        Some(LweError::MalformedEncoding)
    );
    assert_eq!(parse_secret_key("", &params).err(), Some(LweError::MalformedEncoding));
}

#[test]
fn ciphertext_text_is_read_back_or_rejected() {
    let params = Parameters::new(2, 17, 2).unwrap();
    let text = compress(&vec![1, 0, 0, 2, 3, 0, 4, 4, 0, 0, 0, 5]);
    let blocks = parse_ciphertext(&text, &params).unwrap();
    assert_eq!(blocks.len(), 2);
    assert_eq!(coeffs_of(&blocks[0].0), vec![vec![1], vec![0, 2]]);
    assert_eq!(blocks[0].1.coeffs(), &vec![3]);
    assert_eq!(coeffs_of(&blocks[1].0), vec![vec![4, 4], vec![]]);
    assert_eq!(blocks[1].1.coeffs(), &vec![0, 5]);
    assert_eq!(parse_ciphertext(&compress(&vec![]), &params).unwrap().len(), 0);
    assert_eq!(
        parse_ciphertext(&compress(&vec![1, 0, 0, 2, 3]), &params).err(),
        Some(LweError::MalformedEncoding)
    );
    assert_eq!(
        parse_ciphertext(&compress(&vec![1, 0, 0, 2, 3, 99]), &params).err(),
        Some(LweError::MalformedEncoding)
    );
    assert_eq!(parse_ciphertext("?", &params).err(), Some(LweError::MalformedEncoding));
}

#[test]
fn compressed_bytes_are_the_length_then_every_element_little_endian() {
    let data = vec![0, 1, -1, 255, 256, -256, 12288, i64::MAX, i64::MIN, 0x0102_0304_0506_0708];
    let bytes = base64::engine::general_purpose::STANDARD.decode(compress(&data)).unwrap();
    let mut expected: Vec<u8> = (data.len() as u64).to_le_bytes().to_vec();
    for x in data.iter() {
        expected.extend_from_slice(&x.to_le_bytes());
    }
    assert_eq!(bytes, expected);
    assert_eq!(bytes.len(), 8 + 8 * data.len());
    assert_eq!(&bytes[..8], &[10, 0, 0, 0, 0, 0, 0, 0]);
    assert_eq!(&bytes[24..32], &[255; 8]);
    assert_eq!(&bytes[80..88], &[8, 7, 6, 5, 4, 3, 2, 1]);
}
