//! Encryption of one message block, and of a byte string block by block.
//!
//! A block of bits `m` is encrypted under the public key `(A, t)` with fresh
//! noise `r`, `e1`, `e2` as `u = A^T r + e1` and `v = t r + e2 - m * half_q`.

use vstd::prelude::*;
use crate::poly_spec::{coeff, trim, is_small, is_reduced, max_abs, convolution, conv_sum, pointwise_sum, ring_add, ring_sub, ring_neg, lemma_trim, lemma_max_abs, lemma_trim_equal, lemma_reduce};
use crate::layout::{is_wire_poly, is_wire_vector};
use crate::wire_laws::{lemma_ciphertext_round_trip};
use crate::polynomial::{Polynomial, ints, vector_view, matrix_view, raw_product};
use crate::ring_mod::{polyadd, polysub};
use crate::rounding::{half_modulus, nearest_int, lemma_half_modulus};
use crate::sampling::{all_within, nth_seed, nth_seed_spec};
use crate::keygen::seeded_noise;
use crate::codec::{lemma_block_count, all_bits, bits_of, block_count, message_block, bytes_to_bits, block_at};
use crate::encoding::{compress, compress_spec, encodable_len};
use crate::error::LweError;
use crate::wire::{machine, ciphertext_ints, blocks_view, block_len, parse_public_key, parse_public_key_spec, parse_ciphertext_spec, serialize_ciphertext, lemma_ciphertext_len};
use crate::utils::{Parameters, ParametersView, has_shape, all_small, all_reduced, all_ternary, matrix_small, vec_add, mat_vec, dot, transposed, add_vec, mul_vec_simple, mul_mat_vec_simple, transpose, gen_small_vector, lemma_small_vectors_fit, lemma_valid_modulus, vec_product_fits};

verus! {

/// The message polynomial: every bit weighted by the integer nearest `q / 2`.
pub open spec fn message_poly(m: Seq<int>, q: int) -> Seq<int> {
    trim(Seq::new(m.len(), |i: int| half_modulus(q) * m[i]))
}

/// The ciphertext `(u, v)` of the block `m` under the public key `(a, t)` with
/// the noise `r`, `e1`, `e2`.
pub open spec fn encrypt_spec(
    a: Seq<Seq<Seq<int>>>,
    t: Seq<Seq<int>>,
    m: Seq<int>,
    r: Seq<Seq<int>>,
    e1: Seq<Seq<int>>,
    e2: Seq<int>,
    q: int,
    n: nat,
) -> (Seq<Seq<int>>, Seq<int>) {
    (
        vec_add(mat_vec(transposed(a, t.len()), r, q, n), e1, q, n),
        ring_sub(ring_add(dot(t, r, q, n), e2, q, n), message_poly(m, q), q, n),
    )
}

/// `(u, v)` is a ciphertext of the block `m` under `(a, t)` for some noise of
/// the right shape.
pub open spec fn is_encryption(
    u: Seq<Seq<int>>,
    v: Seq<int>,
    a: Seq<Seq<Seq<int>>>,
    t: Seq<Seq<int>>,
    m: Seq<int>,
    p: ParametersView,
) -> bool {
    exists|r: Seq<Seq<int>>, e1: Seq<Seq<int>>, e2: Seq<int>|
        {
            &&& r.len() == p.k
            &&& all_ternary(r, p.n)
            &&& e1.len() == p.k
            &&& all_ternary(e1, p.n)
            &&& e2.len() <= p.n
            &&& all_within(e2, -1, 2)
            &&& (u, v) == #[trigger] encrypt_spec(a, t, m, r, e1, e2, p.q, p.n)
        }
}

/// The ciphertext of the block `m` under a seed: the three noise draws use
/// the seed and its two successors.
pub open spec fn seeded_encryption(
    a: Seq<Seq<Seq<int>>>,
    t: Seq<Seq<int>>,
    m: Seq<int>,
    seed: u64,
    p: ParametersView,
) -> (Seq<Seq<int>>, Seq<int>) {
    encrypt_spec(
        a,
        t,
        m,
        seeded_noise(seed, p, p.k),
        seeded_noise(nth_seed_spec(Some(seed), 1).unwrap(), p, p.k),
        seeded_noise(nth_seed_spec(Some(seed), 2).unwrap(), p, 1)[0],
        p.q,
        p.n,
    )
}

/// `blocks` is a ciphertext of the bit string `bits` under `(a, t)`: one
/// encryption per block of `n` bits.
pub open spec fn is_ciphertext_of(
    blocks: Seq<(Seq<Seq<int>>, Seq<int>)>,
    a: Seq<Seq<Seq<int>>>,
    t: Seq<Seq<int>>,
    bits: Seq<int>,
    p: ParametersView,
) -> bool {
    &&& blocks.len() == block_count(bits.len(), p.n)
    &&& forall|b: int|
        0 <= b < blocks.len() ==> (#[trigger] blocks[b]).0.len() == p.k && is_encryption(
            blocks[b].0,
            blocks[b].1,
            a,
            t,
            message_block(bits, p.n, b as nat),
            p,
        )
}

/// The ciphertext of the bit string `bits` under a seed: block `b` uses the
/// seed advanced by `3 b`, so no two blocks share their noise.
pub open spec fn seeded_blocks(
    a: Seq<Seq<Seq<int>>>,
    t: Seq<Seq<int>>,
    bits: Seq<int>,
    seed: u64,
    p: ParametersView,
) -> Seq<(Seq<Seq<int>>, Seq<int>)> {
    Seq::new(
        block_count(bits.len(), p.n),
        |b: int|
            seeded_encryption(
                a,
                t,
                message_block(bits, p.n, b as nat),
                nth_seed_spec(Some(seed), (3 * b) as u64).unwrap(),
                p,
            ),
    )
}

/// The seed of draw `i` (of three) of block `b` under the seed `seed`.
pub open spec fn draw_seed(seed: u64, b: int, i: int) -> u64 {
    nth_seed_spec(nth_seed_spec(Some(seed), (3 * b) as u64), i as u64).unwrap()
}

/// Fresh noise for every block: no two draws of one message share a seed,
/// whichever blocks and whichever of their three draws they are.
pub proof fn lemma_draw_seeds_distinct(seed: u64, b0: int, i0: int, b1: int, i1: int)
    requires
        0 <= b0,
        0 <= b1,
        3 * b0 + 2 <= u64::MAX,
        3 * b1 + 2 <= u64::MAX,
        0 <= i0 < 3,
        0 <= i1 < 3,
        b0 != b1 || i0 != i1,
    ensures
        draw_seed(seed, b0, i0) != draw_seed(seed, b1, i1),
{
    let m = 0x1_0000_0000_0000_0000int;
    let x0 = seed + 3 * b0 + i0;
    let x1 = seed + 3 * b1 + i1;
    assert(draw_seed(seed, b0, i0) == x0 % m) by {
        vstd::arithmetic::div_mod::lemma_add_mod_noop(seed + 3 * b0, i0, m);
        vstd::arithmetic::div_mod::lemma_small_mod(i0 as nat, m as nat);
        vstd::arithmetic::div_mod::lemma_mod_twice(seed + 3 * b0, m);
        vstd::arithmetic::div_mod::lemma_add_mod_noop((seed + 3 * b0) % m, i0, m);
    }
    assert(draw_seed(seed, b1, i1) == x1 % m) by {
        vstd::arithmetic::div_mod::lemma_add_mod_noop(seed + 3 * b1, i1, m);
        vstd::arithmetic::div_mod::lemma_small_mod(i1 as nat, m as nat);
        vstd::arithmetic::div_mod::lemma_mod_twice(seed + 3 * b1, m);
        vstd::arithmetic::div_mod::lemma_add_mod_noop((seed + 3 * b1) % m, i1, m);
    }
    // two numbers less than one modulus apart have different remainders
    if x0 % m == x1 % m {
        vstd::arithmetic::div_mod::lemma_fundamental_div_mod(x0, m);
        vstd::arithmetic::div_mod::lemma_fundamental_div_mod(x1, m);
        let d0 = x0 / m;
        let d1 = x1 / m;
        assert(x0 - x1 == m * (d0 - d1)) by (nonlinear_arith)
            requires
                x0 == m * d0 + x0 % m,
                x1 == m * d1 + x1 % m,
                x0 % m == x1 % m,
        ;
        assert(-m < x0 - x1 < m);
        assert(d0 - d1 == 0) by (nonlinear_arith)
            requires
                x0 - x1 == m * (d0 - d1),
                -m < x0 - x1 < m,
                m > 0,
        ;
    }
}

/// The text of a ciphertext.
pub open spec fn ciphertext_text(blocks: Seq<(Seq<Seq<int>>, Seq<int>)>, n: nat) -> Seq<char> {
    compress_spec(machine(ciphertext_ints(blocks, n, blocks.len())))
}

/// A ciphertext has a vector of the rank of the public vector, and canonical
/// ring elements throughout.
pub proof fn lemma_encrypt_spec_reduced(
    a: Seq<Seq<Seq<int>>>,
    t: Seq<Seq<int>>,
    m: Seq<int>,
    r: Seq<Seq<int>>,
    e1: Seq<Seq<int>>,
    e2: Seq<int>,
    q: int,
    n: nat,
)
    requires
        q > 0,
    ensures
        encrypt_spec(a, t, m, r, e1, e2, q, n).0.len() == t.len(),
        all_reduced(encrypt_spec(a, t, m, r, e1, e2, q, n).0, q, n),
        is_reduced(encrypt_spec(a, t, m, r, e1, e2, q, n).1, q, n),
{
    let c = encrypt_spec(a, t, m, r, e1, e2, q, n);
    let product = mat_vec(transposed(a, t.len()), r, q, n);
    assert forall|i: int| 0 <= i < c.0.len() implies is_reduced(#[trigger] c.0[i], q, n) by {
        lemma_reduce(pointwise_sum(product[i], e1[i]), q, n);
    }
    lemma_reduce(
        pointwise_sum(
            ring_add(dot(t, r, q, n), e2, q, n),
            ring_neg(message_poly(m, q), q),
        ),
        q,
        n,
    );
}

/// A ciphertext is made of polynomials as they are stored and written.
pub proof fn lemma_encryption_is_wire(
    u: Seq<Seq<int>>,
    v: Seq<int>,
    a: Seq<Seq<Seq<int>>>,
    t: Seq<Seq<int>>,
    m: Seq<int>,
    p: ParametersView,
)
    requires
        p.q > 0,
        is_encryption(u, v, a, t, m, p),
    ensures
        u.len() == t.len(),
        is_wire_vector(u, p.q, p.n),
        is_wire_poly(v, p.q, p.n),
{
    let (r, e1, e2): (Seq<Seq<int>>, Seq<Seq<int>>, Seq<int>) = choose|
        r: Seq<Seq<int>>,
        e1: Seq<Seq<int>>,
        e2: Seq<int>,
    |
        {
            &&& r.len() == p.k
            &&& all_ternary(r, p.n)
            &&& e1.len() == p.k
            &&& all_ternary(e1, p.n)
            &&& e2.len() <= p.n
            &&& all_within(e2, -1, 2)
            &&& (u, v) == #[trigger] encrypt_spec(a, t, m, r, e1, e2, p.q, p.n)
        };
    lemma_encrypt_spec_reduced(a, t, m, r, e1, e2, p.q, p.n);
}

/// A one-term polynomial times `b` scales every coefficient of `b`.
pub proof fn lemma_scale_is_product(c: int, b: Seq<int>)
    ensures
        trim(convolution(seq![c], b)) == trim(Seq::new(b.len(), |i: int| c * b[i])),
{
    let one = seq![c];
    let conv = convolution(one, b);
    let scaled = Seq::new(b.len(), |i: int| c * b[i]);
    assert forall|k: int| coeff(conv, k) == coeff(scaled, k) by {
        if 0 <= k < b.len() {
            assert(conv_sum(one, b, k, 1) == conv_sum(one, b, k, 0) + coeff(one, 0) * coeff(b, k - 0));
        }
    }
    lemma_trim_equal(conv, scaled);
}

/// The message polynomial of a block of bits.
pub fn encode_block(m_b: &Vec<i64>, params: &Parameters) -> (r: Polynomial)
    requires
        m_b.len() <= params@.n,
        all_bits(ints(m_b@)),
    ensures
        r@ == message_poly(ints(m_b@), params@.q),
        is_small(r@, params@.q, params@.n),
{
    let q = params.q();
    proof {
        lemma_valid_modulus(params@.n as int, q as int, params@.k as int);
        lemma_half_modulus(q as int);
    }
    let half_q = nearest_int(q, 2);
    let mut weight: Vec<i64> = Vec::new();
    weight.push(half_q);
    proof {
        let h = half_q as int;
        assert(ints(weight@) =~= seq![h]);
        lemma_max_abs(ints(weight@), h);
        lemma_max_abs(ints(m_b@), 1);
        let x = max_abs(ints(weight@));
        let y = max_abs(ints(m_b@));
        let len = if weight.len() <= m_b.len() { weight.len() } else { m_b.len() };
        assert(x * y * len <= h) by (nonlinear_arith)
            requires
                0 <= x <= h,
                0 <= y <= 1,
                0 <= len <= 1,
        ;
        lemma_scale_is_product(h, ints(m_b@));
    }
    let raw = raw_product(&weight, m_b);
    let r = Polynomial::new(raw);
    proof {
        let full = Seq::new(m_b.len() as nat, |i: int| half_modulus(q as int) * ints(m_b@)[i]);
        lemma_trim(full);
    }
    r
}

/// The ciphertext of the block `m_b` under `(a, t)` with the given noise.
pub fn encrypt_from_samples(
    a: &Vec<Vec<Polynomial>>,
    t: &Vec<Polynomial>,
    m_b: &Vec<i64>,
    params: &Parameters,
    r: &Vec<Polynomial>,
    e1: &Vec<Polynomial>,
    e2: &Polynomial,
) -> (c: (Vec<Polynomial>, Polynomial))
    requires
        has_shape(matrix_view(a@), params@.k, params@.k),
        matrix_small(matrix_view(a@), params@.q, params@.n),
        t.len() == params@.k,
        all_small(vector_view(t@), params@.q, params@.n),
        m_b.len() <= params@.n,
        all_bits(ints(m_b@)),
        r.len() == params@.k,
        all_small(vector_view(r@), params@.q, params@.n),
        e1.len() == params@.k,
        all_small(vector_view(e1@), params@.q, params@.n),
        is_small(e2@, params@.q, params@.n),
    ensures
        (vector_view(c.0@), c.1@) == encrypt_spec(
            matrix_view(a@),
            vector_view(t@),
            ints(m_b@),
            vector_view(r@),
            vector_view(e1@),
            e2@,
            params@.q,
            params@.n,
        ),
        c.0.len() == params@.k,
        all_reduced(vector_view(c.0@), params@.q, params@.n),
        is_reduced(c.1@, params@.q, params@.n),
{
    let q = params.q();
    let f = params.f();
    let ghost n = params@.n;
    let ghost k = params@.k;
    proof {
        lemma_valid_modulus(n as int, q as int, k as int);
    }
    let m = encode_block(m_b, params);

    assert(matrix_view(a@)[0] == vector_view(a[0]@));
    let a_t = transpose(a);
    proof {
        let at = matrix_view(a_t@);
        assert forall|j: int| 0 <= j < a_t.len() implies vec_product_fits(
            #[trigger] at[j],
            vector_view(r@),
            n,
        ) by {
            lemma_small_vectors_fit(at[j], vector_view(r@), q as int, n);
        }
    }
    let product = mul_mat_vec_simple(&a_t, r, q, f);
    let u = add_vec(&product, e1, q, f);

    proof {
        lemma_small_vectors_fit(vector_view(t@), vector_view(r@), q as int, n);
    }
    let tr = mul_vec_simple(t, r, q, f);
    let masked = polyadd(&tr, e2, q, f);
    let v = polysub(&masked, &m, q, f);
    (u, v)
}

/// Encrypts one block of bits under the public key `(a, t)`.
///
/// Under a seed the three noise draws use the seed and its two successors,
/// and the ciphertext is a function of the seed; without one each draw takes
/// fresh entropy.
pub fn encrypt(
    a: &Vec<Vec<Polynomial>>,
    t: &Vec<Polynomial>,
    m_b: &Vec<i64>,
    params: &Parameters,
    seed: Option<u64>,
) -> (c: (Vec<Polynomial>, Polynomial))
    requires
        has_shape(matrix_view(a@), params@.k, params@.k),
        matrix_small(matrix_view(a@), params@.q, params@.n),
        t.len() == params@.k,
        all_small(vector_view(t@), params@.q, params@.n),
        m_b.len() <= params@.n,
        all_bits(ints(m_b@)),
    ensures
        c.0.len() == params@.k,
        all_reduced(vector_view(c.0@), params@.q, params@.n),
        is_reduced(c.1@, params@.q, params@.n),
        is_encryption(
            vector_view(c.0@),
            c.1@,
            matrix_view(a@),
            vector_view(t@),
            ints(m_b@),
            params@,
        ),
        seed matches Some(s) ==> (vector_view(c.0@), c.1@) == seeded_encryption(
            matrix_view(a@),
            vector_view(t@),
            ints(m_b@),
            s,
            params@,
        ),
{
    let n = params.n();
    let q = params.q();
    let k = params.k();
    proof {
        lemma_valid_modulus(n as int, q as int, k as int);
        assert(n * k == k * n) by (nonlinear_arith);
        assert(n * 1 == n) by (nonlinear_arith);
    }
    let r = gen_small_vector(n, k, seed);
    let e1 = gen_small_vector(n, k, nth_seed(seed, 1));
    let e2_vector = gen_small_vector(n, 1, nth_seed(seed, 2));
    let e2 = e2_vector[0].clone();
    proof {
        assert(is_small(vector_view(e2_vector@)[0], q as int, n as nat));
    }
    let c = encrypt_from_samples(a, t, m_b, params, &r, &e1, &e2);
    proof {
        assert((vector_view(c.0@), c.1@) == encrypt_spec(
            matrix_view(a@),
            vector_view(t@),
            ints(m_b@),
            vector_view(r@),
            vector_view(e1@),
            e2@,
            params@.q,
            params@.n,
        ));
    }
    c
}

/// Encrypts a bit string block by block under the public key `(a, t)`.
///
/// Block `b` is encrypted under the seed advanced by `3 b`, so every block
/// has noise of its own.
pub fn encrypt_blocks(
    a: &Vec<Vec<Polynomial>>,
    t: &Vec<Polynomial>,
    bits: &Vec<i64>,
    params: &Parameters,
    seed: Option<u64>,
) -> (r: Vec<(Vec<Polynomial>, Polynomial)>)
    requires
        has_shape(matrix_view(a@), params@.k, params@.k),
        matrix_small(matrix_view(a@), params@.q, params@.n),
        t.len() == params@.k,
        all_small(vector_view(t@), params@.q, params@.n),
        all_bits(ints(bits@)),
        block_count(bits.len() as nat, params@.n) * params@.n <= usize::MAX,
        3 * block_count(bits.len() as nat, params@.n) <= u64::MAX,
    ensures
        is_ciphertext_of(
            blocks_view(r@),
            matrix_view(a@),
            vector_view(t@),
            ints(bits@),
            params@,
        ),
        seed matches Some(s) ==> blocks_view(r@) == seeded_blocks(
            matrix_view(a@),
            vector_view(t@),
            ints(bits@),
            s,
            params@,
        ),
{
    let n = params.n();
    let ghost all = ints(bits@);
    let ghost av = matrix_view(a@);
    let ghost tv = vector_view(t@);
    proof {
        let count = block_count(bits.len() as nat, n as nat);
        assert(count <= count * n) by (nonlinear_arith)
            requires
                count >= 0,
                n >= 1,
        ;
    }
    let whole: usize = bits.len() / n;
    let num_blocks: usize = if bits.len() % n == 0 {
        whole
    } else {
        whole + 1
    };
    let mut blocks: Vec<(Vec<Polynomial>, Polynomial)> = Vec::new();
    let mut b: usize = 0;
    while b < num_blocks
        invariant
            b <= num_blocks,
            n == params@.n,
            n >= 1,
            num_blocks == block_count(bits.len() as nat, n as nat),
            num_blocks * n <= usize::MAX,
            3 * num_blocks <= u64::MAX,
            all == ints(bits@),
            all_bits(all),
            av == matrix_view(a@),
            tv == vector_view(t@),
            has_shape(av, params@.k, params@.k),
            matrix_small(av, params@.q, params@.n),
            t.len() == params@.k,
            all_small(tv, params@.q, params@.n),
            blocks.len() == b,
            forall|i: int|
                0 <= i < b ==> (#[trigger] blocks[i]).0.len() == params@.k && is_encryption(
                    vector_view(blocks[i].0@),
                    blocks[i].1@,
                    av,
                    tv,
                    message_block(all, n as nat, i as nat),
                    params@,
                ),
            seed matches Some(s) ==> forall|i: int|
                0 <= i < b ==> (vector_view((#[trigger] blocks[i]).0@), blocks[i].1@)
                    == seeded_encryption(
                    av,
                    tv,
                    message_block(all, n as nat, i as nat),
                    nth_seed_spec(Some(s), (3 * i) as u64).unwrap(),
                    params@,
                ),
        decreases num_blocks - b,
    {
        proof {
            assert(b * n + n <= num_blocks * n) by (nonlinear_arith)
                requires
                    b + 1 <= num_blocks,
                    n >= 0,
            ;
        }
        let block = block_at(bits, n, b);
        let offset: u64 = 3 * (b as u64);
        let block_seed = nth_seed(seed, offset);
        let c = encrypt(a, t, &block, params, block_seed);
        blocks.push(c);
        b += 1;
    }
    proof {
        let view = blocks_view(blocks@);
        if let Some(s) = seed {
            assert(view =~= seeded_blocks(av, tv, all, s, params@));
        }
    }
    blocks
}

/// The ciphertext of a message of `len` bytes has a length that can be
/// encoded: what [`encrypt_string`] asks of its caller.
pub open spec fn message_fits_spec(len: nat, p: ParametersView) -> bool {
    encodable_len(block_count(8 * len, p.n) * block_len(p))
}

/// Whether a message of `len` bytes can be handed to [`encrypt_string`].
pub fn message_fits(len: usize, params: &Parameters) -> (r: bool)
    ensures
        r == message_fits_spec(len as nat, params@),
{
    let n = params.n();
    let k = params.k();
    proof {
        lemma_valid_modulus(n as int, params@.q, k as int);
    }
    let block: usize = (k + 1) * n;
    let ghost count = block_count(8 * len as nat, n as nat);
    proof {
        // the blocks cover the bits, so a bit count that overflows cannot fit
        lemma_block_count(8 * len as nat, n as nat);
        assert(count * n <= count * block) by (nonlinear_arith)
            requires
                block == (k + 1) * n,
                count >= 0,
                k >= 1,
                n >= 1,
        ;
    }
    let bits: usize = match len.checked_mul(8) {
        Some(bits) => bits,
        None => {
            return false;
        },
    };
    let whole: usize = bits / n;
    let blocks: usize = if bits % n == 0 {
        whole
    } else {
        match whole.checked_add(1) {
            Some(blocks) => blocks,
            None => {
                return false;
            },
        }
    };
    let ints: usize = match blocks.checked_mul(block) {
        Some(ints) => ints,
        None => {
            return false;
        },
    };
    let scaled: usize = match ints.checked_mul(16) {
        Some(scaled) => scaled,
        None => {
            return false;
        },
    };
    match scaled.checked_add(64) {
        Some(_) => true,
        None => false,
    }
}

/// Encrypts a byte string under the public key held in `pk_string`, and
/// returns the ciphertext as text.
///
/// Fails with `MalformedEncoding` exactly when `pk_string` does not hold a
/// public key for the parameters. The precondition bounds the length of the
/// ciphertext by what the machine can address.
pub fn encrypt_string(
    pk_string: &str,
    message: &Vec<u8>,
    params: &Parameters,
    seed: Option<u64>,
) -> (r: Result<String, LweError>)
    requires
        message_fits_spec(message.len() as nat, params@),
    ensures
        match r {
            Ok(text) => {
                &&& parse_public_key_spec(pk_string@, params@) matches Some(key)
                &&& exists|blocks: Seq<(Seq<Seq<int>>, Seq<int>)>|
                    {
                        &&& is_ciphertext_of(blocks, key.0, key.1, bits_of(message@), params@)
                        &&& text@ == #[trigger] ciphertext_text(blocks, params@.n)
                        &&& parse_ciphertext_spec(text@, params@) == Some(blocks)
                    }
                &&& seed matches Some(s) ==> text@ == ciphertext_text(
                    seeded_blocks(key.0, key.1, bits_of(message@), s, params@),
                    params@.n,
                )
            },
            Err(e) => e == LweError::MalformedEncoding && parse_public_key_spec(
                pk_string@,
                params@,
            ) is None,
        },
{
    let key = match parse_public_key(pk_string, params) {
        Ok(key) => key,
        Err(e) => {
            return Err(e);
        },
    };
    let n = params.n();
    let k = params.k();
    let bits = bytes_to_bits(message);
    let ghost count = block_count(bits.len() as nat, n as nat);
    proof {
        assert(count * n <= count * ((k + 1) * n) && 3 * count <= 16 * (count * ((k + 1) * n)))
            by (nonlinear_arith)
            requires
                count >= 0,
                k >= 1,
                n >= 1,
        ;
    }
    let blocks = encrypt_blocks(&key.0, &key.1, &bits, params, seed);
    let list = serialize_ciphertext(&blocks, n);
    proof {
        let view = blocks_view(blocks@);
        lemma_ciphertext_len(view, n as nat, k as nat, view.len());
    }
    let text = compress(&list);
    proof {
        let view = blocks_view(blocks@);
        assert(text@ == ciphertext_text(view, params@.n));
        assert forall|b: int| 0 <= b < view.len() implies (#[trigger] view[b]).0.len() == params@.k
            && is_wire_vector(view[b].0, params@.q, params@.n) && is_wire_poly(
            view[b].1,
            params@.q,
            params@.n,
        ) by {
            lemma_encryption_is_wire(
                view[b].0,
                view[b].1,
                matrix_view(key.0@),
                vector_view(key.1@),
                message_block(ints(bits@), params@.n, b as nat),
                params@,
            );
        }
        lemma_ciphertext_round_trip(view, params@, text@);
    }
    Ok(text)
}

} // verus!
