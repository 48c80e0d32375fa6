//! Decryption of one ciphertext block, and of a whole ciphertext.
//!
//! `v - s u` is the message polynomial plus noise; rounding every
//! coefficient to the nearest multiple of `half_q` and taking the parity
//! recovers the bits.

use vstd::prelude::*;
use crate::poly_spec::{coeff, is_small, is_reduced, ring_sub};
use crate::polynomial::{Polynomial, ints, vector_view};
use crate::ring_mod::{polysub, euclid_rem};
use crate::rounding::{round_half_away, half_modulus, nearest_int};
use crate::layout::padded;
use crate::utils::{Parameters, ParametersView, all_small, dot, mul_vec_simple, lemma_small_vectors_fit, lemma_valid_modulus};
use crate::codec::{all_bits, bytes_of, strip_zeros, bits_to_bytes, strip_trailing_zeros};
use crate::error::LweError;
use crate::wire::{blocks_view, parse_secret_key, parse_secret_key_spec, parse_ciphertext, parse_ciphertext_spec};

verus! {

/// The bit that a coefficient `c` of `v - s u` stands for.
pub open spec fn decode_bit(c: int, q: int) -> int {
    round_half_away(c, half_modulus(q)) % 2
}

/// The bits that the coefficients `c` stand for.
pub open spec fn decode_bits(c: Seq<int>, q: int) -> Seq<int> {
    Seq::new(c.len(), |i: int| decode_bit(c[i], q))
}

/// The noisy message polynomial `v - s u` of a ciphertext.
pub open spec fn scaled_plaintext(
    s: Seq<Seq<int>>,
    u: Seq<Seq<int>>,
    v: Seq<int>,
    q: int,
    n: nat,
) -> Seq<int> {
    ring_sub(v, dot(s, u, q, n), q, n)
}

/// The block of `n` bits that the ciphertext `(u, v)` decrypts to under the
/// secret key `s`.
pub open spec fn decrypt_spec(s: Seq<Seq<int>>, u: Seq<Seq<int>>, v: Seq<int>, q: int, n: nat) -> Seq<
    int,
> {
    decode_bits(padded(scaled_plaintext(s, u, v, q, n), n), q)
}

/// Decrypts one ciphertext block `(u, v)` with the secret key `sk` to `n`
/// bits.
pub fn decrypt(sk: &Vec<Polynomial>, u: &Vec<Polynomial>, v: &Polynomial, params: &Parameters) -> (r:
    Vec<i64>)
    requires
        sk.len() == u.len(),
        all_small(vector_view(sk@), params@.q, params@.n),
        all_small(vector_view(u@), params@.q, params@.n),
        is_small(v@, params@.q, params@.n),
    ensures
        r.len() == params@.n,
        ints(r@) == decrypt_spec(vector_view(sk@), vector_view(u@), v@, params@.q, params@.n),
        forall|i: int| 0 <= i < r.len() ==> #[trigger] r[i] == 0 || r[i] == 1,
{
    let n = params.n();
    let q = params.q();
    let f = params.f();
    proof {
        lemma_valid_modulus(n as int, q as int, params@.k as int);
        lemma_small_vectors_fit(vector_view(sk@), vector_view(u@), q as int, n as nat);
    }
    let su = mul_vec_simple(sk, u, q, f);
    let scaled_pt = polysub(v, &su, q, f);
    let half_q = nearest_int(q, 2);
    let coeffs = scaled_pt.coeffs();
    let ghost scaled = scaled_pt@;
    let mut decrypted_coeffs: Vec<i64> = Vec::new();
    let mut j: usize = 0;
    while j < n
        invariant
            j <= n,
            q >= 2,
            2 * (q - 1) <= i64::MAX,
            q == params@.q,
            half_q == half_modulus(q as int),
            half_q == (q + 1) / 2,
            ints(coeffs@) == scaled,
            is_reduced(scaled, q as int, n as nat),
            decrypted_coeffs.len() == j,
            forall|t: int|
                0 <= t < j ==> #[trigger] decrypted_coeffs[t] as int == decode_bit(
                    coeff(scaled, t),
                    q as int,
                ),
            forall|t: int| 0 <= t < j ==> #[trigger] decrypted_coeffs[t] == 0 || decrypted_coeffs[t] == 1,
        decreases n - j,
    {
        let c: i64 = if j < coeffs.len() {
            coeffs[j]
        } else {
            0
        };
        proof {
            assert(c == coeff(scaled, j as int));
        }
        let rounded: i64 = nearest_int(c, half_q);
        let bit: i64 = euclid_rem(rounded, 2);
        decrypted_coeffs.push(bit);
        j += 1;
    }
    proof {
        assert(ints(decrypted_coeffs@) =~= decrypt_spec(
            vector_view(sk@),
            vector_view(u@),
            v@,
            params@.q,
            params@.n,
        ));
    }
    decrypted_coeffs
}

/// The bits that the first `upto` ciphertext blocks decrypt to, block after
/// block.
pub open spec fn decrypted_bits(
    s: Seq<Seq<int>>,
    blocks: Seq<(Seq<Seq<int>>, Seq<int>)>,
    q: int,
    n: nat,
    upto: nat,
) -> Seq<int>
    decreases upto,
{
    if upto == 0 {
        Seq::empty()
    } else {
        decrypted_bits(s, blocks, q, n, (upto - 1) as nat) + decrypt_spec(
            s,
            blocks[upto - 1].0,
            blocks[upto - 1].1,
            q,
            n,
        )
    }
}

/// The bytes that a ciphertext decrypts to: the bits of all blocks regrouped
/// into bytes, without the zero bytes at the end.
pub open spec fn plaintext_of(
    s: Seq<Seq<int>>,
    blocks: Seq<(Seq<Seq<int>>, Seq<int>)>,
    q: int,
    n: nat,
) -> Seq<u8> {
    strip_zeros(bytes_of(decrypted_bits(s, blocks, q, n, blocks.len())))
}

/// The bytes that the ciphertext text decrypts to under the secret key text,
/// if both texts are well formed for the parameters `p`.
pub open spec fn decrypt_string_spec(sk_text: Seq<char>, ct_text: Seq<char>, p: ParametersView) -> Option<
    Seq<u8>,
> {
    match (parse_secret_key_spec(sk_text, p), parse_ciphertext_spec(ct_text, p)) {
        (Some(s), Some(blocks)) => Some(plaintext_of(s, blocks, p.q, p.n)),
        _ => None,
    }
}

/// Decrypts every block with the secret key `sk` and joins the bits.
pub fn decrypt_blocks(
    sk: &Vec<Polynomial>,
    blocks: &Vec<(Vec<Polynomial>, Polynomial)>,
    params: &Parameters,
) -> (r: Vec<i64>)
    requires
        sk.len() == params@.k,
        all_small(vector_view(sk@), params@.q, params@.n),
        forall|b: int|
            0 <= b < blocks.len() ==> (#[trigger] blocks[b]).0.len() == params@.k && all_small(
                vector_view(blocks[b].0@),
                params@.q,
                params@.n,
            ) && is_small(blocks[b].1@, params@.q, params@.n),
    ensures
        ints(r@) == decrypted_bits(
            vector_view(sk@),
            blocks_view(blocks@),
            params@.q,
            params@.n,
            blocks.len() as nat,
        ),
        all_bits(ints(r@)),
{
    let ghost s = vector_view(sk@);
    let ghost view = blocks_view(blocks@);
    let mut message_binary: Vec<i64> = Vec::new();
    let mut b: usize = 0;
    while b < blocks.len()
        invariant
            b <= blocks.len(),
            s == vector_view(sk@),
            view == blocks_view(blocks@),
            sk.len() == params@.k,
            all_small(s, params@.q, params@.n),
            forall|i: int|
                0 <= i < blocks.len() ==> (#[trigger] blocks[i]).0.len() == params@.k && all_small(
                    vector_view(blocks[i].0@),
                    params@.q,
                    params@.n,
                ) && is_small(blocks[i].1@, params@.q, params@.n),
            ints(message_binary@) == decrypted_bits(s, view, params@.q, params@.n, b as nat),
            all_bits(ints(message_binary@)),
        decreases blocks.len() - b,
    {
        let ghost before = ints(message_binary@);
        let mut m_b = decrypt(sk, &blocks[b].0, &blocks[b].1, params);
        let ghost piece = ints(m_b@);
        message_binary.append(&mut m_b);
        proof {
            assert(ints(message_binary@) =~= before + piece);
        }
        b += 1;
    }
    message_binary
}

/// Decrypts the ciphertext held in `ciphertext_base64` with the secret key
/// held in `sk_string`, and returns the plaintext bytes.
///
/// Fails with `MalformedEncoding` exactly when one of the two texts is not
/// well formed for the parameters.
pub fn decrypt_string(sk_string: &str, ciphertext_base64: &str, params: &Parameters) -> (r: Result<
    Vec<u8>,
    LweError,
>)
    ensures
        match r {
            Ok(bytes) => decrypt_string_spec(sk_string@, ciphertext_base64@, params@) == Some(bytes@),
            Err(e) => e == LweError::MalformedEncoding && decrypt_string_spec(
                sk_string@,
                ciphertext_base64@,
                params@,
            ) is None,
        },
{
    let sk = match parse_secret_key(sk_string, params) {
        Ok(sk) => sk,
        Err(e) => {
            return Err(e);
        },
    };
    let blocks = match parse_ciphertext(ciphertext_base64, params) {
        Ok(blocks) => blocks,
        Err(e) => {
            return Err(e);
        },
    };
    let message_binary = decrypt_blocks(&sk, &blocks, params);
    let bytes = bits_to_bytes(&message_binary);
    Ok(strip_trailing_zeros(bytes))
}

} // verus!
