//! Key generation.
//!
//! The public key is a uniform matrix `A` and the vector `t = A s + e`; the
//! secret key is the noise vector `s`, kept in canonical form: a drawn `-1`
//! is stored as `q - 1`. The noise `e` is used once and dropped.

use vstd::prelude::*;
use crate::encoding::{compress, compress_spec, decompress_spec};
use crate::layout::{flat_vector, flat_matrix, lemma_flat_len, lemma_flat_rows_len};
use crate::wire::{machine, public_key_ints, secret_key_ints, parse_public_key_spec, parse_secret_key_spec, serialize_public_key, serialize_secret_key};
use crate::wire_laws::{all_coefficients, lemma_flat_values, lemma_flat_rows_values, lemma_public_key_round_trip, lemma_secret_key_round_trip};
use crate::polynomial::{Polynomial, ints, vector_view, matrix_view};
use crate::sampling::{all_within, seeded_stream, nth_seed, nth_seed_spec};
use crate::poly_spec::{is_small, is_reduced};
use crate::utils::{Parameters, ParametersView, has_shape, all_small, all_reduced, all_ternary, all_uniform, matrix_small, vec_add, mat_vec, small_vector_of, uniform_matrix_of, canonical_vector, all_stored_noise, is_stored_noise, matrix_reduced, store_small_vector, add_vec, mul_mat_vec_simple, gen_small_vector, gen_uniform_matrix, lemma_small_vectors_fit, lemma_valid_modulus};

verus! {

/// The public vector `t = A s + e`.
pub open spec fn public_vector(
    a: Seq<Seq<Seq<int>>>,
    s: Seq<Seq<int>>,
    e: Seq<Seq<int>>,
    q: int,
    n: nat,
) -> Seq<Seq<int>> {
    vec_add(mat_vec(a, s, q, n), e, q, n)
}

/// The uniform matrix that a seed stands for under parameters `p`.
pub open spec fn seeded_matrix(seed: u64, p: ParametersView) -> Seq<Seq<Seq<int>>> {
    uniform_matrix_of(seeded_stream(seed, 0, p.q, p.k * p.k * p.n), p.n, p.k)
}

/// The noise vector of `rank` polynomials that a seed stands for under
/// parameters `p`.
pub open spec fn seeded_noise(seed: u64, p: ParametersView, rank: nat) -> Seq<Seq<int>> {
    small_vector_of(seeded_stream(seed, 0, 3, p.n * rank), p.n, rank)
}

/// `(a, t)` and `s` have the shape of a key pair under `p`: a square matrix
/// and two vectors of rank `k`, all of canonical ring elements, those of the
/// secret with coefficients `0`, `1` and `q - 1` only.
pub open spec fn is_key_shape(
    a: Seq<Seq<Seq<int>>>,
    t: Seq<Seq<int>>,
    s: Seq<Seq<int>>,
    p: ParametersView,
) -> bool {
    &&& has_shape(a, p.k, p.k)
    &&& matrix_reduced(a, p.q, p.n)
    &&& t.len() == p.k
    &&& all_reduced(t, p.q, p.n)
    &&& s.len() == p.k
    &&& all_reduced(s, p.q, p.n)
    &&& all_stored_noise(s, p.q, p.n)
}

/// `(a, t)` and `s` are a key pair under `p`: of the right shape, with
/// `t = a s + e` for some noise vector `e`.
pub open spec fn is_key_pair(
    a: Seq<Seq<Seq<int>>>,
    t: Seq<Seq<int>>,
    s: Seq<Seq<int>>,
    p: ParametersView,
) -> bool {
    &&& is_key_shape(a, t, s, p)
    &&& exists|e: Seq<Seq<int>>|
        e.len() == p.k && all_ternary(e, p.n) && t == #[trigger] public_vector(a, s, e, p.q, p.n)
}

/// The secret key that a seed stands for: the second draw of key generation,
/// every coefficient taken modulo `q`.
pub open spec fn seeded_secret(seed: u64, p: ParametersView) -> Seq<Seq<int>> {
    canonical_vector(seeded_noise(nth_seed_spec(Some(seed), 1).unwrap(), p, p.k), p.q)
}

/// The public vector that a seed stands for; its noise is the third draw of
/// key generation.
pub open spec fn seeded_public_vector(seed: u64, p: ParametersView) -> Seq<Seq<int>> {
    public_vector(
        seeded_matrix(seed, p),
        seeded_secret(seed, p),
        seeded_noise(nth_seed_spec(Some(seed), 2).unwrap(), p, p.k),
        p.q,
        p.n,
    )
}

/// The texts of the public key `(a, t)` and of the secret key `s`.
pub open spec fn key_texts(
    a: Seq<Seq<Seq<int>>>,
    t: Seq<Seq<int>>,
    s: Seq<Seq<int>>,
    n: nat,
) -> (Seq<char>, Seq<char>) {
    (compress_spec(machine(public_key_ints(a, t, n))), compress_spec(machine(secret_key_ints(s, n))))
}

/// The texts of the key pair that a seed stands for.
pub open spec fn seeded_key_texts(seed: u64, p: ParametersView) -> (Seq<char>, Seq<char>) {
    key_texts(seeded_matrix(seed, p), seeded_public_vector(seed, p), seeded_secret(seed, p), p.n)
}

/// Determinism under a fixed seed: two key generations with the same seed
/// and parameters give the same two texts.
pub proof fn lemma_keygen_deterministic(
    seed: u64,
    p: ParametersView,
    first: (Seq<char>, Seq<char>),
    second: (Seq<char>, Seq<char>),
)
    requires
        first == seeded_key_texts(seed, p),
        second == seeded_key_texts(seed, p),
    ensures
        first == second,
{
}

/// The key pair built from a sampled matrix `a`, secret `sk` and noise `e`.
pub fn keygen_from_samples(
    params: &Parameters,
    a: Vec<Vec<Polynomial>>,
    sk: Vec<Polynomial>,
    e: &Vec<Polynomial>,
) -> (r: ((Vec<Vec<Polynomial>>, Vec<Polynomial>), Vec<Polynomial>))
    requires
        has_shape(matrix_view(a@), params@.k, params@.k),
        matrix_small(matrix_view(a@), params@.q, params@.n),
        sk.len() == params@.k,
        all_small(vector_view(sk@), params@.q, params@.n),
        e.len() == params@.k,
        all_small(vector_view(e@), params@.q, params@.n),
    ensures
        matrix_view(r.0.0@) == matrix_view(a@),
        vector_view(r.1@) == vector_view(sk@),
        vector_view(r.0.1@) == public_vector(
            matrix_view(a@),
            vector_view(sk@),
            vector_view(e@),
            params@.q,
            params@.n,
        ),
        r.0.1.len() == params@.k,
        all_reduced(vector_view(r.0.1@), params@.q, params@.n),
{
    let q = params.q();
    let f = params.f();
    let ghost n = params@.n;
    proof {
        lemma_valid_modulus(n as int, q as int, params@.k as int);
        assert forall|i: int| 0 <= i < a.len() implies crate::utils::vec_product_fits(
            #[trigger] matrix_view(a@)[i],
            vector_view(sk@),
            n,
        ) by {
            lemma_small_vectors_fit(matrix_view(a@)[i], vector_view(sk@), q as int, n);
        }
    }
    let product = mul_mat_vec_simple(&a, &sk, q, f);
    let t = add_vec(&product, e, q, f);
    ((a, t), sk)
}

/// Generates a key pair: `((A, t), s)`.
///
/// Under a seed the three draws use the seed and its two successors, and the
/// result is a function of the seed; without one each draw takes fresh
/// entropy, and the result is some key pair of the right shape. Every
/// polynomial of the key pair has its coefficients in `[0, q)`.
pub fn keygen(params: &Parameters, seed: Option<u64>) -> (r: (
    (Vec<Vec<Polynomial>>, Vec<Polynomial>),
    Vec<Polynomial>,
))
    ensures
        is_key_shape(matrix_view(r.0.0@), vector_view(r.0.1@), vector_view(r.1@), params@),
        all_uniform(matrix_view(r.0.0@), params@.n, params@.q),
        all_reduced(vector_view(r.0.1@), params@.q, params@.n),
        all_reduced(vector_view(r.1@), params@.q, params@.n),
        all_stored_noise(vector_view(r.1@), params@.q, params@.n),
        exists|e: Seq<Seq<int>>|
            e.len() == params@.k && all_ternary(e, params@.n) && vector_view(r.0.1@)
                == #[trigger] public_vector(
                matrix_view(r.0.0@),
                vector_view(r.1@),
                e,
                params@.q,
                params@.n,
            ),
        seed matches Some(s) ==> {
            &&& matrix_view(r.0.0@) == seeded_matrix(s, params@)
            &&& vector_view(r.1@) == seeded_secret(s, params@)
            &&& vector_view(r.0.1@) == seeded_public_vector(s, params@)
        },
{
    let n = params.n();
    let q = params.q();
    let k = params.k();
    proof {
        lemma_valid_modulus(n as int, q as int, k as int);
        assert(n * k == k * n) by (nonlinear_arith);
    }
    let a = gen_uniform_matrix(n, k, q, seed);
    let drawn = gen_small_vector(n, k, nth_seed(seed, 1));
    let sk = store_small_vector(&drawn, n, q);
    let e = gen_small_vector(n, k, nth_seed(seed, 2));
    proof {
        let am = matrix_view(a@);
        assert forall|i: int| 0 <= i < am.len() implies all_reduced(
            #[trigger] am[i],
            q as int,
            n as nat,
        ) && all_small(am[i], q as int, n as nat) by {
            assert forall|j: int| 0 <= j < am[i].len() implies is_reduced(
                #[trigger] am[i][j],
                q as int,
                n as nat,
            ) by {
                assert(all_within(am[i][j], 0, q as int));
            }
        }
        let ev = vector_view(e@);
        assert forall|i: int| 0 <= i < ev.len() implies is_small(#[trigger] ev[i], q as int, n as nat) by {
            assert(all_within(ev[i], -1, 2));
        }
        let sv = vector_view(sk@);
        assert forall|i: int| 0 <= i < sv.len() implies is_small(#[trigger] sv[i], q as int, n as nat) by {
            assert(is_reduced(sv[i], q as int, n as nat));
        }
    }
    let r = keygen_from_samples(params, a, sk, &e);
    proof {
        assert(vector_view(r.0.1@) == public_vector(
            matrix_view(r.0.0@),
            vector_view(r.1@),
            vector_view(e@),
            params@.q,
            params@.n,
        ));
    }
    r
}

/// Generates a key pair and returns the texts of the public and of the
/// secret key, in this order.
///
/// Under a seed both texts are a function of the seed and the parameters.
/// Every integer of the public text lies in `[0, q)`; every integer of the
/// secret text is `0`, `1` or `q - 1`.
pub fn keygen_string(params: &Parameters, seed: Option<u64>) -> (r: (String, String))
    ensures
        exists|a: Seq<Seq<Seq<int>>>, t: Seq<Seq<int>>, s: Seq<Seq<int>>|
            {
                &&& is_key_pair(a, t, s, params@)
                &&& (r.0@, r.1@) == #[trigger] key_texts(a, t, s, params@.n)
                &&& parse_public_key_spec(r.0@, params@) == Some((a, t))
                &&& parse_secret_key_spec(r.1@, params@) == Some(s)
            },
        decompress_spec(r.0@) matches Some(d) && all_within(ints(d), 0, params@.q),
        decompress_spec(r.1@) matches Some(d) && forall|i: int|
            0 <= i < d.len() ==> #[trigger] d[i] == 0 || d[i] == 1 || d[i] == params@.q - 1,
        seed matches Some(s) ==> (r.0@, r.1@) == seeded_key_texts(s, params@),
{
    let n = params.n();
    let k = params.k();
    let key = keygen(params, seed);
    let pk = key.0;
    let sk = key.1;
    let pk_coeffs = serialize_public_key(&pk.0, &pk.1, n);
    let sk_coeffs = serialize_secret_key(&sk, n);
    proof {
        let a = matrix_view(pk.0@);
        let t = vector_view(pk.1@);
        let s = vector_view(sk@);
        lemma_flat_rows_len(a, n as nat, k as nat, k as nat);
        lemma_flat_len(t, n as nat, k as nat);
        lemma_flat_len(s, n as nat, k as nat);
        assert(k * k * n + k * n == (k * k + k) * n) by (nonlinear_arith);
        assert(k * n <= (k * k + k) * n) by (nonlinear_arith)
            requires
                k >= 1,
                n >= 1,
        ;
    }
    let public = compress(&pk_coeffs);
    let secret = compress(&sk_coeffs);
    proof {
        let a = matrix_view(pk.0@);
        let t = vector_view(pk.1@);
        let s = vector_view(sk@);
        assert((public@, secret@) == key_texts(a, t, s, params@.n));
        lemma_public_key_round_trip(a, t, params@, public@);
        lemma_secret_key_round_trip(s, params@, secret@);
        // what the texts hold
        let q = params@.q;
        let canonical = |x: int| 0 <= x < q;
        let stored = |x: int| x == 0 || x == 1 || x == q - 1;
        assert forall|i: int| 0 <= i < a.len() implies all_coefficients(#[trigger] a[i], canonical) by {
            assert forall|j: int, c: int| 0 <= j < a[i].len() && 0 <= c < a[i][j].len() implies canonical(
                #[trigger] a[i][j][c],
            ) by {
                assert(is_reduced(a[i][j], q, n as nat));
            }
        }
        assert forall|j: int, c: int| 0 <= j < t.len() && 0 <= c < t[j].len() implies canonical(
            #[trigger] t[j][c],
        ) by {
            assert(is_reduced(t[j], q, n as nat));
        }
        assert forall|j: int, c: int| 0 <= j < s.len() && 0 <= c < s[j].len() implies stored(
            #[trigger] s[j][c],
        ) by {
            assert(is_stored_noise(s[j], q, n as nat));
        }
        lemma_flat_rows_values(a, n as nat, k as nat, canonical);
        lemma_flat_values(t, n as nat, k as nat, canonical);
        lemma_flat_values(s, n as nat, k as nat, stored);
        let pk_ints = ints(pk_coeffs@);
        assert forall|i: int| 0 <= i < pk_ints.len() implies 0 <= #[trigger] pk_ints[i] < q by {
            let rows = flat_matrix(a, n as nat);
            if i < rows.len() {
                assert(canonical(rows[i]));
            } else {
                assert(canonical(flat_vector(t, n as nat)[i - rows.len()]));
            }
        }
        assert forall|i: int| 0 <= i < sk_coeffs@.len() implies #[trigger] sk_coeffs@[i] == 0
            || sk_coeffs@[i] == 1 || sk_coeffs@[i] == q - 1 by {
            assert(stored(flat_vector(s, n as nat)[i]));
            assert(ints(sk_coeffs@)[i] == sk_coeffs@[i]);
        }
    }
    (public, secret)
}

} // verus!
