//! Keys and ciphertexts as text.
//!
//! A public key travels as the rows of `A` followed by `t`, a secret key as
//! `s`, a ciphertext as its blocks in order, each `u` followed by `v`; every
//! polynomial takes `n` places. The integer sequence is then serialized and
//! wrapped by [`crate::encoding`]. Reading a text back checks that it holds
//! the number of integers the parameters call for, each of magnitude below
//! `q`.

use vstd::prelude::*;
use crate::encoding::{decompress, decompress_spec};
use crate::error::LweError;
use crate::layout::{chunk, chunks, chunk_matrix, padded, flat_vector, flat_matrix, polynomial_at, polynomials_from_values, matrix_from_values, append_padded, append_vector, append_matrix, lemma_chunk_within, lemma_flat_len};
use crate::poly_spec::is_small;
use crate::polynomial::{Polynomial, ints, vector_view, matrix_view};
use crate::sampling::all_within;
use crate::utils::{Parameters, ParametersView, has_shape, all_small, matrix_small, lemma_valid_modulus};

verus! {

/// A sequence of integers as machine integers.
pub open spec fn machine(s: Seq<int>) -> Seq<i64> {
    Seq::new(s.len(), |i: int| s[i] as i64)
}

/// `data` holds `count` integers, each of magnitude below `q`.
pub open spec fn ints_ok(data: Seq<int>, count: nat, q: int) -> bool {
    data.len() == count && all_within(data, -q + 1, q)
}

/// The integer sequence of the public key `(a, t)`.
pub open spec fn public_key_ints(a: Seq<Seq<Seq<int>>>, t: Seq<Seq<int>>, n: nat) -> Seq<int> {
    flat_matrix(a, n) + flat_vector(t, n)
}

/// The integer sequence of the secret key `s`.
pub open spec fn secret_key_ints(s: Seq<Seq<int>>, n: nat) -> Seq<int> {
    flat_vector(s, n)
}

/// The integer sequence of the first `upto` ciphertext blocks.
pub open spec fn ciphertext_ints(blocks: Seq<(Seq<Seq<int>>, Seq<int>)>, n: nat, upto: nat) -> Seq<
    int,
>
    decreases upto,
{
    if upto == 0 {
        Seq::empty()
    } else {
        ciphertext_ints(blocks, n, (upto - 1) as nat) + flat_vector(blocks[upto - 1].0, n) + padded(
            blocks[upto - 1].1,
            n,
        )
    }
}

/// Number of integers in a public key.
pub open spec fn public_key_len(p: ParametersView) -> nat {
    (p.k * p.k + p.k) * p.n
}

/// Number of integers in a secret key.
pub open spec fn secret_key_len(p: ParametersView) -> nat {
    p.k * p.n
}

/// Number of integers in one ciphertext block.
pub open spec fn block_len(p: ParametersView) -> nat {
    (p.k + 1) * p.n
}

/// The public key that `text` holds, if it holds one for the parameters `p`.
pub open spec fn parse_public_key_spec(text: Seq<char>, p: ParametersView) -> Option<
    (Seq<Seq<Seq<int>>>, Seq<Seq<int>>),
> {
    match decompress_spec(text) {
        Some(data) => if ints_ok(ints(data), public_key_len(p), p.q) {
            Some(
                (
                    chunk_matrix(ints(data), p.n, p.k, p.k),
                    chunks(ints(data), p.n, p.k * p.k, p.k, 0),
                ),
            )
        } else {
            None
        },
        None => None,
    }
}

/// The secret key that `text` holds, if it holds one for the parameters `p`.
pub open spec fn parse_secret_key_spec(text: Seq<char>, p: ParametersView) -> Option<Seq<Seq<int>>> {
    match decompress_spec(text) {
        Some(data) => if ints_ok(ints(data), secret_key_len(p), p.q) {
            Some(chunks(ints(data), p.n, 0, p.k, 0))
        } else {
            None
        },
        None => None,
    }
}

/// Block `b` of the ciphertext laid out in `data`.
pub open spec fn block_of(data: Seq<int>, p: ParametersView, b: nat) -> (Seq<Seq<int>>, Seq<int>) {
    (chunks(data, p.n, b * (p.k + 1), p.k, 0), chunk(data, p.n, b * (p.k + 1) + p.k, 0))
}

/// The ciphertext blocks that `text` holds, if it holds a whole number of
/// blocks for the parameters `p`.
pub open spec fn parse_ciphertext_spec(text: Seq<char>, p: ParametersView) -> Option<
    Seq<(Seq<Seq<int>>, Seq<int>)>,
> {
    match decompress_spec(text) {
        Some(data) => if data.len() % block_len(p) == 0 && all_within(ints(data), -p.q + 1, p.q) {
            Some(Seq::new(data.len() / block_len(p), |b: int| block_of(ints(data), p, b as nat)))
        } else {
            None
        },
        None => None,
    }
}

/// Polynomials cut from integers of magnitude below `q` are small.
pub proof fn lemma_chunks_small(values: Seq<int>, size: nat, first: nat, rank: nat, q: int)
    requires
        (first + rank) * size <= values.len(),
        all_within(values, -q + 1, q),
    ensures
        all_small(chunks(values, size, first, rank, 0), q, size),
{
    let v = chunks(values, size, first, rank, 0);
    assert forall|i: int| 0 <= i < v.len() implies is_small(#[trigger] v[i], q, size) by {
        assert((first + i + 1) * size <= (first + rank) * size) by (nonlinear_arith)
            requires
                first + i + 1 <= first + rank,
                size >= 0,
        ;
        lemma_chunk_within(values, size, (first + i) as nat, 0, -q + 1, q);
    }
}

/// Whether every value has magnitude below `q`.
pub fn values_in_range(values: &Vec<i64>, q: i64) -> (r: bool)
    requires
        q >= 1,
    ensures
        r == all_within(ints(values@), -q + 1, q as int),
{
    let mut i: usize = 0;
    while i < values.len()
        invariant
            q >= 1,
            i <= values.len(),
            forall|t: int| 0 <= t < i ==> -q < #[trigger] ints(values@)[t] < q,
        decreases values.len() - i,
    {
        let x: i64 = values[i];
        if x <= -q || x >= q {
            assert(!(-q + 1 <= ints(values@)[i as int] < q));
            return false;
        }
        i += 1;
    }
    true
}

/// Reads a public key from its text.
///
/// Fails with `MalformedEncoding` exactly when the text does not decode, or
/// decodes to other than `(k * k + k) * n` integers of magnitude below `q`.
pub fn parse_public_key(text: &str, params: &Parameters) -> (r: Result<
    (Vec<Vec<Polynomial>>, Vec<Polynomial>),
    LweError,
>)
    ensures
        match r {
            Ok(key) => {
                &&& parse_public_key_spec(text@, params@) == Some(
                    (matrix_view(key.0@), vector_view(key.1@)),
                )
                &&& has_shape(matrix_view(key.0@), params@.k, params@.k)
                &&& matrix_small(matrix_view(key.0@), params@.q, params@.n)
                &&& key.1.len() == params@.k
                &&& all_small(vector_view(key.1@), params@.q, params@.n)
            },
            Err(e) => e == LweError::MalformedEncoding && parse_public_key_spec(text@, params@)
                is None,
        },
{
    let data = match decompress(text) {
        Ok(d) => d,
        Err(e) => {
            return Err(e);
        },
    };
    let n = params.n();
    let k = params.k();
    let q = params.q();
    proof {
        lemma_valid_modulus(n as int, q as int, k as int);
    }
    let count: usize = (k * k + k) * n;
    if data.len() != count || !values_in_range(&data, q) {
        return Err(LweError::MalformedEncoding);
    }
    proof {
        assert((k * k + k) * n == k * k * n + k * n) by (nonlinear_arith);
        assert(0 <= k * n) by (nonlinear_arith)
            requires
                k >= 0,
                n >= 0,
        ;
    }
    let a = matrix_from_values(&data, n, k, k);
    let t = polynomials_from_values(&data, n, k * k, k, 0);
    proof {
        let d = ints(data@);
        let m = matrix_view(a@);
        assert forall|i: int| 0 <= i < m.len() implies all_small(#[trigger] m[i], q as int, n as nat) by {
            assert((i * k + k) * n <= (k * k + k) * n) by (nonlinear_arith)
                requires
                    0 <= i < k,
                    n >= 0,
            ;
            assert(0 <= i * k) by (nonlinear_arith)
                requires
                    0 <= i,
                    0 <= k,
            ;
            lemma_chunks_small(d, n as nat, (i * k) as nat, k as nat, q as int);
        }
        lemma_chunks_small(d, n as nat, (k * k) as nat, k as nat, q as int);
    }
    Ok((a, t))
}

/// Reads a secret key from its text.
///
/// Fails with `MalformedEncoding` exactly when the text does not decode, or
/// decodes to other than `k * n` integers of magnitude below `q`.
pub fn parse_secret_key(text: &str, params: &Parameters) -> (r: Result<Vec<Polynomial>, LweError>)
    ensures
        match r {
            Ok(sk) => {
                &&& parse_secret_key_spec(text@, params@) == Some(vector_view(sk@))
                &&& sk.len() == params@.k
                &&& all_small(vector_view(sk@), params@.q, params@.n)
            },
            Err(e) => e == LweError::MalformedEncoding && parse_secret_key_spec(text@, params@)
                is None,
        },
{
    let data = match decompress(text) {
        Ok(d) => d,
        Err(e) => {
            return Err(e);
        },
    };
    let n = params.n();
    let k = params.k();
    let q = params.q();
    proof {
        lemma_valid_modulus(n as int, q as int, k as int);
    }
    let count: usize = k * n;
    if data.len() != count || !values_in_range(&data, q) {
        return Err(LweError::MalformedEncoding);
    }
    let sk = polynomials_from_values(&data, n, 0, k, 0);
    proof {
        lemma_chunks_small(ints(data@), n as nat, 0, k as nat, q as int);
    }
    Ok(sk)
}

/// Reads the blocks of a ciphertext from its text.
///
/// Fails with `MalformedEncoding` exactly when the text does not decode, or
/// decodes to integers that are not a whole number of blocks of
/// `(k + 1) * n`, or not all of magnitude below `q`.
pub fn parse_ciphertext(text: &str, params: &Parameters) -> (r: Result<
    Vec<(Vec<Polynomial>, Polynomial)>,
    LweError,
>)
    ensures
        match r {
            Ok(blocks) => {
                &&& parse_ciphertext_spec(text@, params@) == Some(blocks_view(blocks@))
                &&& forall|b: int|
                    0 <= b < blocks.len() ==> (#[trigger] blocks[b]).0.len() == params@.k
                        && all_small(vector_view(blocks[b].0@), params@.q, params@.n) && is_small(
                        blocks[b].1@,
                        params@.q,
                        params@.n,
                    )
            },
            Err(e) => e == LweError::MalformedEncoding && parse_ciphertext_spec(text@, params@)
                is None,
        },
{
    let data = match decompress(text) {
        Ok(d) => d,
        Err(e) => {
            return Err(e);
        },
    };
    let n = params.n();
    let k = params.k();
    let q = params.q();
    proof {
        lemma_valid_modulus(n as int, q as int, k as int);
        assert((k + 1) * n >= 1) by (nonlinear_arith)
            requires
                k >= 1,
                n >= 1,
        ;
    }
    let block_size: usize = (k + 1) * n;
    if data.len() % block_size != 0 || !values_in_range(&data, q) {
        return Err(LweError::MalformedEncoding);
    }
    let num_blocks: usize = data.len() / block_size;
    let ghost d = ints(data@);
    let mut blocks: Vec<(Vec<Polynomial>, Polynomial)> = Vec::new();
    let mut b: usize = 0;
    while b < num_blocks
        invariant
            b <= num_blocks,
            n == params@.n,
            k == params@.k,
            q == params@.q,
            k >= 1,
            n >= 1,
            block_size == (k + 1) * n,
            block_size >= 1,
            num_blocks == data.len() / block_size,
            data.len() % block_size == 0,
            d == ints(data@),
            all_within(d, -q + 1, q as int),
            blocks.len() == b,
            forall|t: int|
                0 <= t < b ==> (vector_view((#[trigger] blocks[t]).0@), blocks[t].1@) == block_of(
                    d,
                    params@,
                    t as nat,
                ),
            forall|t: int|
                0 <= t < b ==> (#[trigger] blocks[t]).0.len() == k && all_small(
                    vector_view(blocks[t].0@),
                    q as int,
                    n as nat,
                ) && is_small(blocks[t].1@, q as int, n as nat),
        decreases num_blocks - b,
    {
        proof {
            vstd::arithmetic::div_mod::lemma_fundamental_div_mod(
                data.len() as int,
                block_size as int,
            );
            assert((b + 1) * block_size <= num_blocks * block_size) by (nonlinear_arith)
                requires
                    b + 1 <= num_blocks,
                    block_size >= 0,
            ;
            assert(block_size * num_blocks == num_blocks * block_size) by (nonlinear_arith);
            assert((b + 1) * ((k + 1) * n) == (b * (k + 1) + k + 1) * n) by (nonlinear_arith);
            assert(0 <= b * (k + 1)) by (nonlinear_arith)
                requires
                    b >= 0,
                    k >= 0,
            ;
            assert(b * (k + 1) + k + 1 <= (b * (k + 1) + k + 1) * n) by (nonlinear_arith)
                requires
                    n >= 1,
                    b * (k + 1) + k + 1 >= 0,
            ;
            assert((b * (k + 1) + k) * n <= (b * (k + 1) + k + 1) * n) by (nonlinear_arith)
                requires
                    n >= 0,
            ;
        }
        let first: usize = b * (k + 1);
        let u = polynomials_from_values(&data, n, first, k, 0);
        let v = polynomial_at(&data, n, first + k, 0);
        proof {
            lemma_chunks_small(d, n as nat, first as nat, k as nat, q as int);
            lemma_chunk_within(d, n as nat, (first + k) as nat, 0, -q + 1, q as int);
        }
        blocks.push((u, v));
        b += 1;
    }
    proof {
        assert(blocks_view(blocks@) =~= Seq::new(
            data@.len() / block_len(params@),
            |b: int| block_of(ints(data@), params@, b as nat),
        ));
    }
    Ok(blocks)
}

/// The first `upto` ciphertext blocks take `upto * (k + 1) * n` places.
pub proof fn lemma_ciphertext_len(
    blocks: Seq<(Seq<Seq<int>>, Seq<int>)>,
    n: nat,
    k: nat,
    upto: nat,
)
    requires
        upto <= blocks.len(),
        forall|b: int| 0 <= b < blocks.len() ==> (#[trigger] blocks[b]).0.len() == k,
    ensures
        ciphertext_ints(blocks, n, upto).len() == upto * ((k + 1) * n),
    decreases upto,
{
    if upto > 0 {
        lemma_ciphertext_len(blocks, n, k, (upto - 1) as nat);
        lemma_flat_len(blocks[upto - 1].0, n, k);
        assert((upto - 1) * ((k + 1) * n) + k * n + n == upto * ((k + 1) * n)) by (nonlinear_arith);
    } else {
        assert(0 * ((k + 1) * n) == 0) by (nonlinear_arith);
    }
}

/// The integer sequence of the public key `(a, t)`, every polynomial in
/// `size` places.
pub fn serialize_public_key(a: &Vec<Vec<Polynomial>>, t: &Vec<Polynomial>, size: usize) -> (r: Vec<
    i64,
>)
    ensures
        ints(r@) == public_key_ints(matrix_view(a@), vector_view(t@), size as nat),
        r@ == machine(public_key_ints(matrix_view(a@), vector_view(t@), size as nat)),
{
    let mut out: Vec<i64> = Vec::new();
    append_matrix(&mut out, a, size);
    append_vector(&mut out, t, size);
    out
}

/// The integer sequence of the secret key `s`, every polynomial in `size`
/// places.
pub fn serialize_secret_key(s: &Vec<Polynomial>, size: usize) -> (r: Vec<i64>)
    ensures
        ints(r@) == secret_key_ints(vector_view(s@), size as nat),
        r@ == machine(secret_key_ints(vector_view(s@), size as nat)),
{
    let mut out: Vec<i64> = Vec::new();
    append_vector(&mut out, s, size);
    out
}

/// The integer sequence of a ciphertext, block by block, every polynomial in
/// `size` places.
pub fn serialize_ciphertext(blocks: &Vec<(Vec<Polynomial>, Polynomial)>, size: usize) -> (r: Vec<
    i64,
>)
    ensures
        ints(r@) == ciphertext_ints(blocks_view(blocks@), size as nat, blocks.len() as nat),
        r@ == machine(ciphertext_ints(blocks_view(blocks@), size as nat, blocks.len() as nat)),
{
    let ghost view = blocks_view(blocks@);
    let mut out: Vec<i64> = Vec::new();
    let mut b: usize = 0;
    while b < blocks.len()
        invariant
            b <= blocks.len(),
            view == blocks_view(blocks@),
            ints(out@) == ciphertext_ints(view, size as nat, b as nat),
        decreases blocks.len() - b,
    {
        append_vector(&mut out, &blocks[b].0, size);
        append_padded(&mut out, &blocks[b].1, size);
        b += 1;
    }
    out
}

/// The views of a sequence of ciphertext blocks.
pub open spec fn blocks_view(blocks: Seq<(Vec<Polynomial>, Polynomial)>) -> Seq<
    (Seq<Seq<int>>, Seq<int>),
> {
    Seq::new(blocks.len(), |b: int| (vector_view(blocks[b].0@), blocks[b].1@))
}

} // verus!
