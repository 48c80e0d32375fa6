//! What holds of the library as a whole.
//!
//! Each proof function here states a law over the spec functions that the
//! contracts of the executable functions use, and proves it.

use vstd::prelude::*;
use crate::codec::{lemma_block_count, all_bits, bits_of, bits_value, block_count, byte_count, bytes_of, group_len, message_block, place, strip_zeros, lemma_byte_prefix};
use crate::decrypt::{decode_bit, decrypt_spec, decrypted_bits, plaintext_of, scaled_plaintext};
use crate::layout::padded;
use crate::poly_spec::coeff;
use crate::rounding::{half_modulus};
use crate::algebra::{sum, anti, mulf, lemma_sum_ext, lemma_sum_add, lemma_sum_bound, lemma_mulf_add_right};
use crate::sampling::all_within;
use crate::encrypt::{encrypt_spec, message_poly, is_encryption, is_ciphertext_of, lemma_encrypt_spec_reduced};
use crate::keygen::{public_vector, is_key_pair};
use crate::poly_spec::{is_reduced, residues, trim, ring_add, ring_sub, pointwise_sum, lemma_reduce, lemma_trim, lemma_residues_coeff};
use crate::ring_laws::{ext, vext, dotf, anti_all, represents, represents_all, lemma_vext, lemma_ext_window, lemma_represents_self, lemma_represents_dot, lemma_represents_add, lemma_represents_sub, lemma_represents_reduced, lemma_add_anti, lemma_dotf_congruent};
use crate::scheme_laws::{all_short, matrix_short, matrix_ext, key_family, mask_family, lemma_matrix_ext, lemma_public_vector_represents, lemma_mask_represents, lemma_key_mask};
use crate::utils::{ParametersView, has_shape, all_ternary, vec_add, dot, canonical_vector};
use crate::encoding::decompress_spec;
use crate::decrypt::decrypt_string_spec;
use crate::layout::{is_wire_poly, is_wire_vector};
use crate::wire::{machine, secret_key_ints, ciphertext_ints, parse_secret_key_spec, parse_ciphertext_spec};
use crate::wire_laws::{lemma_secret_key_round_trip, lemma_ciphertext_round_trip};

verus! {

// ---------------------------------------------------------------------------
// Rounding
// ---------------------------------------------------------------------------

/// The noise `e` on one coefficient is small enough to be rounded away: it
/// lies within a quarter of the modulus of zero. For an odd `q` this is
/// `-(q - 3) / 4 <= e <= q / 4`.
pub open spec fn within_margin(e: int, q: int) -> bool {
    3 * half_modulus(q) - 2 * q <= 2 * e < half_modulus(q)
}

/// A coefficient that carries the bit `b` under noise within the margin
/// decodes to `b`. (Encryption subtracts the weighted bit, so the coefficient
/// is `e - half_q * b` modulo `q`.)
pub proof fn lemma_decode_bit(e: int, b: int, q: int)
    requires
        q >= 2,
        b == 0 || b == 1,
        within_margin(e, q),
    ensures
        decode_bit((e - half_modulus(q) * b) % q, q) == b,
{
    let h = half_modulus(q);
    let raw = e - h * b;
    assert(h * b == if b == 0 { 0 } else { h }) by (nonlinear_arith)
        requires
            b == 0 || b == 1,
    ;
    let c = raw % q;
    // the representative in [0, q)
    if raw >= 0 {
        vstd::arithmetic::div_mod::lemma_small_mod(raw as nat, q as nat);
    } else {
        vstd::arithmetic::div_mod::lemma_mod_add_multiples_vanish(raw, q);
        vstd::arithmetic::div_mod::lemma_small_mod((raw + q) as nat, q as nat);
    }
    // the rounded quotient of c by h
    if 2 * c < h {
        vstd::arithmetic::div_mod::lemma_fundamental_div_mod_converse(2 * c + h, 2 * h, 0, 2 * c + h);
    } else if 2 * c < 3 * h {
        vstd::arithmetic::div_mod::lemma_fundamental_div_mod_converse(2 * c + h, 2 * h, 1, 2 * c - h);
    } else {
        vstd::arithmetic::div_mod::lemma_fundamental_div_mod_converse(
            2 * c + h,
            2 * h,
            2,
            2 * c - 3 * h,
        );
    }
}

/// The residue of `x` modulo `q` that lies nearest to zero, in
/// `(-q / 2, q / 2]`.
pub open spec fn centred(x: int, q: int) -> int {
    if 2 * (x % q) <= q {
        x % q
    } else {
        x % q - q
    }
}

/// The centred residue is congruent to the number and at most half the
/// modulus away from zero.
pub proof fn lemma_centred(x: int, q: int)
    requires
        q > 0,
    ensures
        (x - centred(x, q)) % q == 0,
        -q < 2 * centred(x, q) <= q,
{
    vstd::arithmetic::div_mod::lemma_mod_bound(x, q);
    crate::algebra::lemma_congruent_mod(x, q);
    if 2 * (x % q) > q {
        vstd::arithmetic::div_mod::lemma_mod_add_multiples_vanish(x - x % q, q);
    }
}

/// A number congruent to `x` and at most half the modulus away from zero is
/// the centred residue of `x`.
pub proof fn lemma_centred_unique(x: int, d: int, q: int)
    requires
        q > 0,
        (x - d) % q == 0,
        -q < 2 * d <= q,
    ensures
        centred(x, q) == d,
{
    let c = centred(x, q);
    lemma_centred(x, q);
    crate::algebra::lemma_congruent_sym(x, c, q);
    crate::algebra::lemma_congruent_trans(c, x, d, q);
    // two numbers in one window of length q that are congruent are equal
    let diff = c - d;
    assert(-q < diff < q);
    if diff > 0 {
        vstd::arithmetic::div_mod::lemma_small_mod(diff as nat, q as nat);
    } else if diff < 0 {
        vstd::arithmetic::div_mod::lemma_mod_add_multiples_vanish(diff, q);
        vstd::arithmetic::div_mod::lemma_small_mod((diff + q) as nat, q as nat);
    }
}

/// Noise of magnitude below `q / 4 - 1` is within the margin.
pub proof fn lemma_quarter_within_margin(d: int, q: int)
    requires
        q >= 2,
        -(q - 4) < 4 * d < q - 4,
    ensures
        within_margin(d, q),
{
    crate::rounding::lemma_half_modulus(q);
}

/// A coefficient that carries the bit `b` decodes to `b` whenever the centred
/// residue of its noise is within the margin: only the residue of the noise
/// modulo `q` matters.
pub proof fn lemma_decode_bit_centred(e: int, b: int, q: int)
    requires
        q >= 2,
        b == 0 || b == 1,
        within_margin(centred(e, q), q),
    ensures
        decode_bit((e - half_modulus(q) * b) % q, q) == b,
{
    let d = centred(e, q);
    let h = half_modulus(q);
    lemma_centred(e, q);
    assert((e - h * b) - (d - h * b) == e - d);
    vstd::arithmetic::div_mod::lemma_mod_equivalence(e - h * b, d - h * b, q);
    lemma_decode_bit(d, b, q);
}

// ---------------------------------------------------------------------------
// The block codec
// ---------------------------------------------------------------------------

/// `bytes` is empty or ends in a byte other than zero.
pub open spec fn no_trailing_zero(bytes: Seq<u8>) -> bool {
    bytes.len() > 0 ==> bytes.last() != 0
}

/// The joined blocks of a bit string: the bits, zero-padded to a whole number
/// of blocks.
pub open spec fn joined_blocks(bits: Seq<int>, n: nat) -> Seq<int> {
    padded(bits, block_count(bits.len(), n) * n)
}

/// Eight zero-or-absent bits spell zero.
proof fn lemma_zero_bits_value(bits: Seq<int>, start: int, count: nat)
    requires
        0 <= start,
        start + count <= bits.len(),
        forall|t: int| start <= t < start + count ==> bits[t] == 0,
    ensures
        bits_value(bits, start, count) == 0,
    decreases count,
{
    if count > 0 {
        lemma_zero_bits_value(bits, start, (count - 1) as nat);
    }
}

/// The number that a group of bits spells depends on those bits alone.
proof fn lemma_bits_value_local(x: Seq<int>, y: Seq<int>, start: int, count: nat)
    requires
        forall|t: int| start <= t < start + count ==> x[t] == y[t],
    ensures
        bits_value(x, start, count) == bits_value(y, start, count),
    decreases count,
{
    if count > 0 {
        lemma_bits_value_local(x, y, start, (count - 1) as nat);
    }
}

/// Stripping ignores zero bytes added at the end.
proof fn lemma_strip_padding(bytes: Seq<u8>, longer: Seq<u8>)
    requires
        bytes.len() <= longer.len(),
        forall|i: int| 0 <= i < bytes.len() ==> longer[i] == bytes[i],
        forall|i: int| bytes.len() <= i < longer.len() ==> longer[i] == 0,
    ensures
        strip_zeros(longer) == strip_zeros(bytes),
    decreases longer.len(),
{
    if longer.len() > bytes.len() {
        let shorter = longer.drop_last();
        lemma_strip_padding(bytes, shorter);
    } else {
        assert(longer =~= bytes);
    }
}

/// Round trip of the block codec: cutting the bits of `bytes` into blocks of
/// `n`, joining the blocks again, regrouping into bytes and stripping the
/// zero bytes at the end gives `bytes` back, up to zero bytes at the end of
/// `bytes` itself.
pub proof fn lemma_codec_round_trip(bytes: Seq<u8>, n: nat)
    requires
        n >= 1,
    ensures
        strip_zeros(bytes_of(joined_blocks(bits_of(bytes), n))) == strip_zeros(bytes),
        no_trailing_zero(bytes) ==> strip_zeros(bytes_of(joined_blocks(bits_of(bytes), n)))
            == bytes,
{
    let bits = bits_of(bytes);
    let joined = joined_blocks(bits, n);
    let out = bytes_of(joined);
    lemma_block_count(bits.len(), n);
    assert(out.len() == byte_count(joined.len()));
    assert forall|i: int| 0 <= i < bytes.len() implies out[i] == bytes[i] by {
        lemma_bits_value_local(joined, bits, 8 * i, 8);
        lemma_byte_prefix(bytes, i, 8);
        assert(bits_value(bits, 8 * i, 8) == bytes[i] as int / 1);
    }
    assert forall|i: int| bytes.len() <= i < out.len() implies out[i] == 0 by {
        let count = group_len(joined.len(), i);
        lemma_zero_bits_value(joined, 8 * i, count);
    }
    lemma_strip_padding(bytes, out);
}

/// Joining blocks that each decrypt to the matching block of `bits` gives
/// the joined blocks of `bits`.
pub proof fn lemma_decrypted_bits_join(
    s: Seq<Seq<int>>,
    blocks: Seq<(Seq<Seq<int>>, Seq<int>)>,
    q: int,
    n: nat,
    bits: Seq<int>,
    upto: nat,
)
    requires
        upto <= blocks.len(),
        forall|b: int|
            0 <= b < blocks.len() ==> decrypt_spec(s, (#[trigger] blocks[b]).0, blocks[b].1, q, n)
                == message_block(bits, n, b as nat),
    ensures
        decrypted_bits(s, blocks, q, n, upto) == padded(bits, upto * n),
    decreases upto,
{
    if upto == 0 {
        assert(0 * n == 0) by (nonlinear_arith);
    } else {
        lemma_decrypted_bits_join(s, blocks, q, n, bits, (upto - 1) as nat);
        assert((upto - 1) * n + n == upto * n) by (nonlinear_arith);
        assert(0 <= (upto - 1) * n) by (nonlinear_arith)
            requires
                upto >= 1,
                n >= 0,
        ;
    }
}

// ---------------------------------------------------------------------------
// Decryption inverts encryption
// ---------------------------------------------------------------------------

/// The noise of a ciphertext, coefficient by coefficient: `e r + e2 - s e1`
/// computed in `Z[x] / (x^n + 1)`, without reduction modulo `q`. What
/// decryption sees of it is its residue modulo `q`; the margin is asked of
/// the centred residue.
pub open spec fn noise(
    s: Seq<Seq<int>>,
    e: Seq<Seq<int>>,
    r: Seq<Seq<int>>,
    e1: Seq<Seq<int>>,
    e2: Seq<int>,
    n: int,
) -> spec_fn(int) -> int {
    |j: int|
        dotf(vext(e, n), vext(r, n), s.len() as int, n)(j) + ext(e2, n)(j) - dotf(
            vext(s, n),
            vext(e1, n),
            s.len() as int,
            n,
        )(j)
}

/// The operands of one encryption have the shape the scheme gives them: a
/// square matrix and vectors of one rank, of polynomials of at most `n`
/// coefficients.
pub open spec fn is_block_shape(
    a: Seq<Seq<Seq<int>>>,
    s: Seq<Seq<int>>,
    e: Seq<Seq<int>>,
    r: Seq<Seq<int>>,
    e1: Seq<Seq<int>>,
    e2: Seq<int>,
    n: nat,
) -> bool {
    &&& has_shape(a, s.len(), s.len())
    &&& matrix_short(a, n)
    &&& all_short(s, n)
    &&& e.len() == s.len()
    &&& all_short(e, n)
    &&& r.len() == s.len()
    &&& all_short(r, n)
    &&& e1.len() == s.len()
    &&& all_short(e1, n)
    &&& e2.len() <= n
}

/// The centred residue of every coefficient of the noise is within the
/// margin.
pub open spec fn noise_within_margin(
    s: Seq<Seq<int>>,
    e: Seq<Seq<int>>,
    r: Seq<Seq<int>>,
    e1: Seq<Seq<int>>,
    e2: Seq<int>,
    q: int,
    n: nat,
) -> bool {
    forall|j: int|
        0 <= j < n ==> within_margin(centred(#[trigger] noise(s, e, r, e1, e2, n as int)(j), q), q)
}

/// The second ciphertext component `v = t r + e2 - msg` represents its
/// function-level form.
proof fn lemma_v_represents(
    t: Seq<Seq<int>>,
    r: Seq<Seq<int>>,
    e2: Seq<int>,
    msg: Seq<int>,
    tf: spec_fn(int) -> spec_fn(int) -> int,
    q: int,
    n: nat,
)
    requires
        q > 0,
        n >= 1,
        t.len() == r.len(),
        represents_all(t, tf, q, n as int),
        all_short(r, n),
        e2.len() <= n,
        msg.len() <= n,
    ensures
        represents(
            ring_sub(ring_add(dot(t, r, q, n), e2, q, n), msg, q, n),
            |m: int|
                dotf(tf, vext(r, n as int), r.len() as int, n as int)(m) + ext(e2, n as int)(m) - ext(
                    msg,
                    n as int,
                )(m),
            q,
            n as int,
        ),
{
    let ni = n as int;
    let rf = vext(r, ni);
    let tr_f = dotf(tf, rf, r.len() as int, ni);
    lemma_vext(r, q, ni);
    lemma_represents_dot(t, r, tf, rf, q, n, r.len());
    lemma_represents_self(e2, q, ni);
    lemma_represents_self(msg, q, ni);
    let tr = dot(t, r, q, n);
    lemma_represents_add(tr, e2, tr_f, ext(e2, ni), q, n);
    let masked_f = |m: int| tr_f(m) + ext(e2, ni)(m);
    lemma_represents_sub(ring_add(tr, e2, q, n), msg, masked_f, ext(msg, ni), q, n);
    let got = |m: int| masked_f(m) - ext(msg, ni)(m);
    let wanted = |m: int| tr_f(m) + ext(e2, ni)(m) - ext(msg, ni)(m);
    assert forall|j: int| 0 <= j < ni implies (#[trigger] got(j) - wanted(j)) % q == 0 by {
        vstd::arithmetic::div_mod::lemma_small_mod(0, q as nat);
    }
    crate::ring_laws::lemma_represents_congruent(
        ring_sub(ring_add(tr, e2, q, n), msg, q, n),
        got,
        wanted,
        q,
        ni,
    );
}

/// The scaled plaintext `v - s u` is canonical and represents its
/// function-level form.
proof fn lemma_scaled_represents(
    s: Seq<Seq<int>>,
    u: Seq<Seq<int>>,
    v: Seq<int>,
    uf: spec_fn(int) -> spec_fn(int) -> int,
    vf: spec_fn(int) -> int,
    q: int,
    n: nat,
)
    requires
        q > 0,
        n >= 1,
        all_short(s, n),
        u.len() == s.len(),
        represents_all(u, uf, q, n as int),
        anti_all(uf, u.len() as int, n as int),
        represents(v, vf, q, n as int),
    ensures
        is_reduced(scaled_plaintext(s, u, v, q, n), q, n),
        represents(
            scaled_plaintext(s, u, v, q, n),
            |m: int| vf(m) - dotf(vext(s, n as int), uf, s.len() as int, n as int)(m),
            q,
            n as int,
        ),
{
    let ni = n as int;
    let sf = vext(s, ni);
    lemma_vext(s, q, ni);
    lemma_represents_dot(s, u, sf, uf, q, n, s.len());
    let su = dot(s, u, q, n);
    lemma_represents_sub(v, su, vf, dotf(sf, uf, s.len() as int, ni), q, n);
    lemma_reduce(pointwise_sum(v, crate::poly_spec::ring_neg(su, q)), q, n);
}

/// Block round trip: a block of bits encrypted under a public key decrypts
/// with the matching secret key to the same bits, whenever every coefficient
/// of the noise `e r + e2 - s e1` is within the margin.
pub proof fn lemma_block_round_trip(
    a: Seq<Seq<Seq<int>>>,
    s: Seq<Seq<int>>,
    e: Seq<Seq<int>>,
    r: Seq<Seq<int>>,
    e1: Seq<Seq<int>>,
    e2: Seq<int>,
    m: Seq<int>,
    q: int,
    n: nat,
)
    requires
        q >= 2,
        n >= 1,
        is_block_shape(a, s, e, r, e1, e2, n),
        m.len() <= n,
        all_bits(m),
        noise_within_margin(s, e, r, e1, e2, q, n),
    ensures
        ({
            let c = encrypt_spec(a, public_vector(a, s, e, q, n), m, r, e1, e2, q, n);
            decrypt_spec(s, c.0, c.1, q, n) == padded(m, n)
        }),
{
    let ni = n as int;
    let k = s.len() as int;
    let t = public_vector(a, s, e, q, n);
    let c = encrypt_spec(a, t, m, r, e1, e2, q, n);
    let u = c.0;
    let v = c.1;
    let msg = message_poly(m, q);
    let af = matrix_ext(a, ni);
    let sf = vext(s, ni);
    let ef = vext(e, ni);
    let rf = vext(r, ni);
    let e1f = vext(e1, ni);
    let tf = key_family(af, sf, ef, k, ni);
    let uf = mask_family(af, rf, e1f, k, ni);
    let weight = half_modulus(q);
    let full = Seq::new(m.len(), |i: int| weight * m[i]);
    lemma_trim(full);
    lemma_public_vector_represents(a, s, e, q, n);
    lemma_mask_represents(a, r, e1, q, n);
    lemma_v_represents(t, r, e2, msg, tf, q, n);
    let vf = |x: int| dotf(tf, rf, k, ni)(x) + ext(e2, ni)(x) - ext(msg, ni)(x);
    lemma_scaled_represents(s, u, v, uf, vf, q, n);
    let scaled = scaled_plaintext(s, u, v, q, n);
    let wf = |x: int| vf(x) - dotf(sf, uf, k, ni)(x);
    lemma_matrix_ext(a, q, n, s.len());
    lemma_vext(s, q, ni);
    lemma_vext(r, q, ni);
    let out = decrypt_spec(s, u, v, q, n);
    assert forall|j: int| 0 <= j < n implies #[trigger] out[j] == padded(m, n)[j] by {
        lemma_key_mask(af, sf, ef, rf, e1f, k, ni, j);
        lemma_represents_reduced(scaled, wf, q, n, j);
        lemma_ext_window(msg, ni, j);
        let bit = coeff(m, j);
        assert(coeff(full, j) == weight * bit) by {
            if j >= m.len() {
                assert(weight * 0 == 0) by (nonlinear_arith);
            }
        }
        let noise_j = noise(s, e, r, e1, e2, ni)(j);
        assert(within_margin(centred(noise_j, q), q));
        lemma_decode_bit_centred(noise_j, bit, q);
    }
}

// ---------------------------------------------------------------------------
// Parameters with room for every noise
// ---------------------------------------------------------------------------

/// Every polynomial of the vector has coefficients `-1`, `0` or `1` only.
pub open spec fn all_signs(v: Seq<Seq<int>>) -> bool {
    forall|i: int| 0 <= i < v.len() ==> all_within(#[trigger] v[i], -1, 2)
}

/// The modulus leaves room for the largest noise that vectors of rank `k`
/// with coefficients `-1`, `0` and `1` can make: `2 k n + 1` on either side.
pub open spec fn has_wide_margin(q: int, n: nat, k: nat) -> bool {
    within_margin(2 * (k * n) as int + 1, q) && within_margin(-(2 * (k * n) as int + 1), q)
}

/// The product of two coefficient functions with values `-1`, `0` and `1`
/// has magnitude at most `n`.
proof fn lemma_mulf_signs(x: Seq<int>, y: Seq<int>, n: int, j: int)
    requires
        n >= 1,
        all_within(x, -1, 2),
        all_within(y, -1, 2),
    ensures
        -n <= mulf(ext(x, n), ext(y, n), n)(j) <= n,
{
    let f = ext(x, n);
    let g = ext(y, n);
    let term = |i: int| f(i) * g(j - i);
    assert forall|i: int| 0 <= i < n implies -1 <= #[trigger] term(i) <= 1 by {
        let a = f(i);
        let b = g(j - i);
        assert(-1 <= a * b <= 1) by (nonlinear_arith)
            requires
                -1 <= a <= 1,
                -1 <= b <= 1,
        ;
    }
    lemma_sum_bound(term, 0, n, 1);
}

/// The dot product of two vectors of rank `k` with coefficients `-1`, `0`
/// and `1` has magnitude at most `k n`.
proof fn lemma_dotf_signs(a: Seq<Seq<int>>, b: Seq<Seq<int>>, n: int, j: int)
    requires
        n >= 1,
        a.len() == b.len(),
        all_signs(a),
        all_signs(b),
    ensures
        -(a.len() * n) <= dotf(vext(a, n), vext(b, n), a.len() as int, n)(j) <= a.len() * n,
{
    let k = a.len() as int;
    let term = |i: int| mulf(vext(a, n)(i), vext(b, n)(i), n)(j);
    assert forall|i: int| 0 <= i < k implies -n <= #[trigger] term(i) <= n by {
        lemma_mulf_signs(a[i], b[i], n, j);
    }
    lemma_sum_bound(term, 0, k, n);
}

/// With a wide margin the noise of every key pair and every encryption is
/// within the margin, whether the secret is taken as drawn or in its stored
/// form.
pub proof fn lemma_wide_margin(
    s: Seq<Seq<int>>,
    e: Seq<Seq<int>>,
    r: Seq<Seq<int>>,
    e1: Seq<Seq<int>>,
    e2: Seq<int>,
    q: int,
    n: nat,
)
    requires
        q >= 2,
        n >= 1,
        e.len() == s.len(),
        r.len() == s.len(),
        e1.len() == s.len(),
        all_short(s, n),
        all_signs(s),
        all_signs(e),
        all_signs(r),
        all_signs(e1),
        all_within(e2, -1, 2),
        has_wide_margin(q, n, s.len()),
    ensures
        noise_within_margin(s, e, r, e1, e2, q, n),
        noise_within_margin(canonical_vector(s, q), e, r, e1, e2, q, n),
{
    let ni = n as int;
    let k = s.len() as int;
    let stored = canonical_vector(s, q);
    crate::rounding::lemma_half_modulus(q);
    assert forall|j: int| 0 <= j < n implies within_margin(
        centred(#[trigger] noise(s, e, r, e1, e2, ni)(j), q),
        q,
    ) && within_margin(centred(noise(stored, e, r, e1, e2, ni)(j), q), q) by {
        lemma_dotf_signs(e, r, ni, j);
        lemma_dotf_signs(s, e1, ni, j);
        let drawn_j = noise(s, e, r, e1, e2, ni)(j);
        let stored_j = noise(stored, e, r, e1, e2, ni)(j);
        assert(within_margin(drawn_j, q));
        vstd::arithmetic::div_mod::lemma_small_mod(0, q as nat);
        lemma_centred_unique(drawn_j, drawn_j, q);
        // the stored secret is congruent to the drawn one, and so is its noise
        assert forall|i: int, x: int| 0 <= i < k && 0 <= x < ni implies (#[trigger] vext(
            stored,
            ni,
        )(i)(x) - vext(s, ni)(i)(x)) % q == 0 by {
            lemma_ext_window(stored[i], ni, x);
            lemma_ext_window(s[i], ni, x);
            lemma_trim(residues(s[i], q));
            lemma_residues_coeff(s[i], q);
            let raw = residues(s[i], q);
            assert(stored[i] == trim(raw));
            assert(coeff(trim(raw), x) == coeff(raw, x));
            assert(coeff(raw, x) == coeff(s[i], x) % q);
            crate::algebra::lemma_congruent_mod(coeff(s[i], x), q);
        }
        lemma_dotf_congruent(vext(stored, ni), vext(s, ni), vext(e1, ni), k, ni, j, q);
        let apart = dotf(vext(stored, ni), vext(e1, ni), k, ni)(j) - dotf(
            vext(s, ni),
            vext(e1, ni),
            k,
            ni,
        )(j);
        assert(stored_j - drawn_j == -apart);
        crate::algebra::lemma_congruent_sym(
            dotf(vext(stored, ni), vext(e1, ni), k, ni)(j),
            dotf(vext(s, ni), vext(e1, ni), k, ni)(j),
            q,
        );
        lemma_centred_unique(stored_j, drawn_j, q);
    }
    assert forall|j: int| 0 <= j < n implies within_margin(
        centred(#[trigger] noise(stored, e, r, e1, e2, ni)(j), q),
        q,
    ) by {
        assert(within_margin(centred(noise(s, e, r, e1, e2, ni)(j), q), q) && within_margin(
            centred(noise(stored, e, r, e1, e2, ni)(j), q),
            q,
        ));
    }
}

/// Block round trip without a condition on the noise: where the modulus
/// leaves room for `2 k n + 1`, every block encrypted with noise of
/// coefficients `-1`, `0` and `1` under a key whose secret is such noise in
/// stored form decrypts to itself.
pub proof fn lemma_block_round_trip_wide(
    a: Seq<Seq<Seq<int>>>,
    s: Seq<Seq<int>>,
    e: Seq<Seq<int>>,
    r: Seq<Seq<int>>,
    e1: Seq<Seq<int>>,
    e2: Seq<int>,
    m: Seq<int>,
    q: int,
    n: nat,
)
    requires
        q >= 2,
        n >= 1,
        is_block_shape(a, s, e, r, e1, e2, n),
        all_signs(s),
        all_signs(e),
        all_signs(r),
        all_signs(e1),
        all_within(e2, -1, 2),
        has_wide_margin(q, n, s.len()),
        m.len() <= n,
        all_bits(m),
    ensures
        ({
            let stored = canonical_vector(s, q);
            let c = encrypt_spec(a, public_vector(a, stored, e, q, n), m, r, e1, e2, q, n);
            decrypt_spec(stored, c.0, c.1, q, n) == padded(m, n)
        }),
{
    let stored = canonical_vector(s, q);
    lemma_wide_margin(s, e, r, e1, e2, q, n);
    assert forall|i: int| 0 <= i < stored.len() implies (#[trigger] stored[i]).len() <= n by {
        lemma_trim(residues(s[i], q));
    }
    lemma_block_round_trip(a, stored, e, r, e1, e2, m, q, n);
}

/// The ciphertext of the bit string `bits` under the key built from `a`, `s`
/// and `e`, block `b` with the noise `rs[b]`, `e1s[b]`, `e2s[b]`.
pub open spec fn honest_blocks(
    a: Seq<Seq<Seq<int>>>,
    s: Seq<Seq<int>>,
    e: Seq<Seq<int>>,
    rs: Seq<Seq<Seq<int>>>,
    e1s: Seq<Seq<Seq<int>>>,
    e2s: Seq<Seq<int>>,
    bits: Seq<int>,
    q: int,
    n: nat,
) -> Seq<(Seq<Seq<int>>, Seq<int>)> {
    Seq::new(
        rs.len(),
        |b: int|
            encrypt_spec(
                a,
                public_vector(a, s, e, q, n),
                message_block(bits, n, b as nat),
                rs[b],
                e1s[b],
                e2s[b],
                q,
                n,
            ),
    )
}

/// The noise of every block has the right shape and is within the margin.
pub open spec fn blocks_within_margin(
    a: Seq<Seq<Seq<int>>>,
    s: Seq<Seq<int>>,
    e: Seq<Seq<int>>,
    rs: Seq<Seq<Seq<int>>>,
    e1s: Seq<Seq<Seq<int>>>,
    e2s: Seq<Seq<int>>,
    q: int,
    n: nat,
) -> bool {
    &&& e1s.len() == rs.len()
    &&& e2s.len() == rs.len()
    &&& forall|b: int|
        0 <= b < rs.len() ==> is_block_shape(a, s, e, #[trigger] rs[b], e1s[b], e2s[b], n)
            && noise_within_margin(s, e, rs[b], e1s[b], e2s[b], q, n)
}

/// Round trip: a byte string encrypted block by block under a public key,
/// written as text, read back and decrypted with the matching secret key
/// gives the byte string without the zero bytes at its end, whenever the
/// noise of every block is within the margin. A byte string that does not
/// end in a zero byte comes back unchanged.
pub proof fn lemma_string_round_trip(
    p: ParametersView,
    a: Seq<Seq<Seq<int>>>,
    s: Seq<Seq<int>>,
    e: Seq<Seq<int>>,
    rs: Seq<Seq<Seq<int>>>,
    e1s: Seq<Seq<Seq<int>>>,
    e2s: Seq<Seq<int>>,
    bytes: Seq<u8>,
    sk_text: Seq<char>,
    ct_text: Seq<char>,
)
    requires
        p.valid(),
        s.len() == p.k,
        is_wire_vector(s, p.q, p.n),
        decompress_spec(sk_text) == Some(machine(secret_key_ints(s, p.n))),
        rs.len() == block_count(bits_of(bytes).len(), p.n),
        blocks_within_margin(a, s, e, rs, e1s, e2s, p.q, p.n),
        decompress_spec(ct_text) == Some(
            machine(
                ciphertext_ints(
                    honest_blocks(a, s, e, rs, e1s, e2s, bits_of(bytes), p.q, p.n),
                    p.n,
                    rs.len(),
                ),
            ),
        ),
    ensures
        decrypt_string_spec(sk_text, ct_text, p) == Some(strip_zeros(bytes)),
        no_trailing_zero(bytes) ==> decrypt_string_spec(sk_text, ct_text, p) == Some(bytes),
{
    let q = p.q;
    let n = p.n;
    let bits = bits_of(bytes);
    let t = public_vector(a, s, e, q, n);
    let blocks = honest_blocks(a, s, e, rs, e1s, e2s, bits, q, n);
    lemma_secret_key_round_trip(s, p, sk_text);
    assert forall|b: int| 0 <= b < blocks.len() implies (#[trigger] blocks[b]).0.len() == p.k
        && is_wire_vector(blocks[b].0, q, n) && is_wire_poly(blocks[b].1, q, n) by {
        lemma_encrypt_spec_reduced(
            a,
            t,
            message_block(bits, n, b as nat),
            rs[b],
            e1s[b],
            e2s[b],
            q,
            n,
        );
    }
    lemma_ciphertext_round_trip(blocks, p, ct_text);
    assert forall|b: int| 0 <= b < blocks.len() implies decrypt_spec(
        s,
        (#[trigger] blocks[b]).0,
        blocks[b].1,
        q,
        n,
    ) == message_block(bits, n, b as nat) by {
        let block = message_block(bits, n, b as nat);
        assert(is_block_shape(a, s, e, rs[b], e1s[b], e2s[b], n) && noise_within_margin(
            s,
            e,
            rs[b],
            e1s[b],
            e2s[b],
            q,
            n,
        ));
        lemma_block_round_trip(a, s, e, rs[b], e1s[b], e2s[b], block, q, n);
    }
    lemma_decrypted_bits_join(s, blocks, q, n, bits, blocks.len());
    lemma_codec_round_trip(bytes, n);
}

/// The noise `e`, `r`, `e1`, `e2` explains the key and block `b` of a
/// ciphertext: it has the shape of drawn noise, `t = a s + e`, and the block
/// is the encryption of block `b` of `bits` with `r`, `e1`, `e2`.
pub open spec fn explains(
    a: Seq<Seq<Seq<int>>>,
    t: Seq<Seq<int>>,
    s: Seq<Seq<int>>,
    e: Seq<Seq<int>>,
    blocks: Seq<(Seq<Seq<int>>, Seq<int>)>,
    bits: Seq<int>,
    b: int,
    r: Seq<Seq<int>>,
    e1: Seq<Seq<int>>,
    e2: Seq<int>,
    p: ParametersView,
) -> bool {
    &&& 0 <= b < blocks.len()
    &&& e.len() == p.k
    &&& all_ternary(e, p.n)
    &&& r.len() == p.k
    &&& all_ternary(r, p.n)
    &&& e1.len() == p.k
    &&& all_ternary(e1, p.n)
    &&& e2.len() <= p.n
    &&& all_within(e2, -1, 2)
    &&& t == public_vector(a, s, e, p.q, p.n)
    &&& blocks[b] == encrypt_spec(a, t, message_block(bits, p.n, b as nat), r, e1, e2, p.q, p.n)
}

/// Whatever noise explains the key and a block, the centred residue of each
/// of its coefficients has magnitude below `q / 4 - 1`.
pub open spec fn every_explanation_is_quiet(
    a: Seq<Seq<Seq<int>>>,
    t: Seq<Seq<int>>,
    s: Seq<Seq<int>>,
    blocks: Seq<(Seq<Seq<int>>, Seq<int>)>,
    bits: Seq<int>,
    p: ParametersView,
) -> bool {
    forall|e: Seq<Seq<int>>, b: int, r: Seq<Seq<int>>, e1: Seq<Seq<int>>, e2: Seq<int>, j: int|
        #[trigger] explains(a, t, s, e, blocks, bits, b, r, e1, e2, p) && 0 <= j < p.n ==> -(p.q
            - 4) < 4 * centred(#[trigger] noise(s, e, r, e1, e2, p.n as int)(j), p.q) < p.q - 4
}

/// Round trip through the three text operations: with the texts of a key
/// pair and the text of a ciphertext of `bytes` under its public key, as key
/// generation and encryption return them, decryption gives `bytes` back byte
/// for byte, whenever `bytes` does not end in a zero byte and the noise is
/// quiet.
pub proof fn lemma_text_round_trip(
    p: ParametersView,
    a: Seq<Seq<Seq<int>>>,
    t: Seq<Seq<int>>,
    s: Seq<Seq<int>>,
    blocks: Seq<(Seq<Seq<int>>, Seq<int>)>,
    bytes: Seq<u8>,
    sk_text: Seq<char>,
    ct_text: Seq<char>,
)
    requires
        p.valid(),
        is_key_pair(a, t, s, p),
        parse_secret_key_spec(sk_text, p) == Some(s),
        is_ciphertext_of(blocks, a, t, bits_of(bytes), p),
        parse_ciphertext_spec(ct_text, p) == Some(blocks),
        every_explanation_is_quiet(a, t, s, blocks, bits_of(bytes), p),
        no_trailing_zero(bytes),
    ensures
        decrypt_string_spec(sk_text, ct_text, p) == Some(bytes),
{
    let q = p.q;
    let n = p.n;
    let bits = bits_of(bytes);
    let e = choose|e: Seq<Seq<int>>|
        e.len() == p.k && all_ternary(e, p.n) && t == #[trigger] public_vector(a, s, e, p.q, p.n);
    assert forall|b: int| 0 <= b < blocks.len() implies decrypt_spec(
        s,
        (#[trigger] blocks[b]).0,
        blocks[b].1,
        q,
        n,
    ) == message_block(bits, n, b as nat) by {
        let block = message_block(bits, n, b as nat);
        let u = blocks[b].0;
        let v = blocks[b].1;
        assert(is_encryption(u, v, a, t, block, p));
        let (r, e1, e2): (Seq<Seq<int>>, Seq<Seq<int>>, Seq<int>) = choose|
            r: Seq<Seq<int>>,
            e1: Seq<Seq<int>>,
            e2: Seq<int>,
        |
            {
                &&& r.len() == p.k
                &&& all_ternary(r, p.n)
                &&& e1.len() == p.k
                &&& all_ternary(e1, p.n)
                &&& e2.len() <= p.n
                &&& all_within(e2, -1, 2)
                &&& (u, v) == #[trigger] encrypt_spec(a, t, block, r, e1, e2, p.q, p.n)
            };
        assert(explains(a, t, s, e, blocks, bits, b, r, e1, e2, p));
        assert forall|j: int| 0 <= j < n implies within_margin(
            centred(#[trigger] noise(s, e, r, e1, e2, n as int)(j), q),
            q,
        ) by {
            lemma_quarter_within_margin(centred(noise(s, e, r, e1, e2, n as int)(j), q), q);
        }
        assert(matrix_short(a, n)) by {
            assert forall|i: int| 0 <= i < a.len() implies all_short(#[trigger] a[i], n) by {
                assert(crate::utils::all_reduced(a[i], q, n));
                assert forall|c: int| 0 <= c < a[i].len() implies (#[trigger] a[i][c]).len() <= n by {
                    assert(is_reduced(a[i][c], q, n));
                }
            }
        }
        assert(all_short(s, n)) by {
            assert forall|i: int| 0 <= i < s.len() implies (#[trigger] s[i]).len() <= n by {
                assert(is_reduced(s[i], q, n));
            }
        }
        assert(is_block_shape(a, s, e, r, e1, e2, n));
        assert forall|j: int| 0 <= j < block.len() implies #[trigger] block[j] == 0 || block[j] == 1 by {
            let at = b * n + j;
            if 0 <= at < bits.len() {
                assert(bits[at] == crate::codec::bit_of_byte(bytes[at / 8], at % 8));
            }
        }
        lemma_block_round_trip(a, s, e, r, e1, e2, block, q, n);
        assert(padded(block, n) =~= block);
    }
    lemma_decrypted_bits_join(s, blocks, q, n, bits, blocks.len());
    lemma_codec_round_trip(bytes, n);
}

// ---------------------------------------------------------------------------
// Adding ciphertexts
// ---------------------------------------------------------------------------

/// Every member of the family added to itself.
pub open spec fn doubled(g: spec_fn(int) -> spec_fn(int) -> int) -> spec_fn(int) -> spec_fn(int) -> int {
    |i: int| (|m: int| g(i)(m) + g(i)(m))
}

/// The dot product with a doubled family is twice the dot product.
proof fn lemma_dotf_doubled(
    f: spec_fn(int) -> spec_fn(int) -> int,
    g: spec_fn(int) -> spec_fn(int) -> int,
    k: int,
    n: int,
    j: int,
)
    ensures
        dotf(f, doubled(g), k, n)(j) == 2 * dotf(f, g, k, n)(j),
{
    let twice = |i: int| mulf(f(i), doubled(g)(i), n)(j);
    let once = |i: int| mulf(f(i), g(i), n)(j);
    let both = |i: int| once(i) + once(i);
    assert forall|i: int| 0 <= i < k implies #[trigger] twice(i) == both(i) by {
        lemma_mulf_add_right(f(i), g(i), g(i), n, j);
    }
    lemma_sum_ext(twice, both, 0, k);
    lemma_sum_add(once, once, 0, k);
}

/// A vector added to itself represents the doubled family.
proof fn lemma_doubled_represents(
    u: Seq<Seq<int>>,
    uf: spec_fn(int) -> spec_fn(int) -> int,
    q: int,
    n: nat,
)
    requires
        q > 0,
        n >= 1,
        represents_all(u, uf, q, n as int),
        anti_all(uf, u.len() as int, n as int),
    ensures
        vec_add(u, u, q, n).len() == u.len(),
        represents_all(vec_add(u, u, q, n), doubled(uf), q, n as int),
        anti_all(doubled(uf), u.len() as int, n as int),
{
    let ni = n as int;
    let uu = vec_add(u, u, q, n);
    let df = doubled(uf);
    assert forall|i: int| 0 <= i < uu.len() implies represents(#[trigger] uu[i], df(i), q, ni) by {
        lemma_represents_add(u[i], u[i], uf(i), uf(i), q, n);
        let both = |m: int| uf(i)(m) + uf(i)(m);
        assert forall|x: int| 0 <= x < ni implies (#[trigger] both(x) - df(i)(x)) % q == 0 by {
            vstd::arithmetic::div_mod::lemma_small_mod(0, q as nat);
        }
    }
    assert forall|i: int| 0 <= i < u.len() implies anti(#[trigger] df(i), ni) by {
        lemma_add_anti(uf(i), uf(i), ni);
    }
}

/// Additive homomorphism: the sum of two ciphertexts made under one public
/// key with the same noise decrypts to the coefficient-wise sum of the two
/// blocks, whenever no place holds a one in both blocks and the centred
/// residue of twice the noise is within the margin.
pub proof fn lemma_additive_homomorphism(
    a: Seq<Seq<Seq<int>>>,
    s: Seq<Seq<int>>,
    e: Seq<Seq<int>>,
    r: Seq<Seq<int>>,
    e1: Seq<Seq<int>>,
    e2: Seq<int>,
    m0: Seq<int>,
    m1: Seq<int>,
    q: int,
    n: nat,
)
    requires
        q >= 2,
        n >= 1,
        is_block_shape(a, s, e, r, e1, e2, n),
        m0.len() <= n,
        m1.len() <= n,
        all_bits(m0),
        all_bits(m1),
        forall|j: int| 0 <= j < n ==> #[trigger] coeff(m0, j) + coeff(m1, j) <= 1,
        forall|j: int|
            0 <= j < n ==> within_margin(
                centred(2 * #[trigger] noise(s, e, r, e1, e2, n as int)(j), q),
                q,
            ),
    ensures
        ({
            let t = public_vector(a, s, e, q, n);
            let c0 = encrypt_spec(a, t, m0, r, e1, e2, q, n);
            let c1 = encrypt_spec(a, t, m1, r, e1, e2, q, n);
            decrypt_spec(s, vec_add(c0.0, c1.0, q, n), ring_add(c0.1, c1.1, q, n), q, n)
                == Seq::new(n, |j: int| coeff(m0, j) + coeff(m1, j))
        }),
{
    let ni = n as int;
    let k = s.len() as int;
    let t = public_vector(a, s, e, q, n);
    let c0 = encrypt_spec(a, t, m0, r, e1, e2, q, n);
    let c1 = encrypt_spec(a, t, m1, r, e1, e2, q, n);
    let u = c0.0;
    let msg0 = message_poly(m0, q);
    let msg1 = message_poly(m1, q);
    let af = matrix_ext(a, ni);
    let sf = vext(s, ni);
    let ef = vext(e, ni);
    let rf = vext(r, ni);
    let e1f = vext(e1, ni);
    let tf = key_family(af, sf, ef, k, ni);
    let uf = mask_family(af, rf, e1f, k, ni);
    let weight = half_modulus(q);
    let full0 = Seq::new(m0.len(), |i: int| weight * m0[i]);
    let full1 = Seq::new(m1.len(), |i: int| weight * m1[i]);
    lemma_trim(full0);
    lemma_trim(full1);
    lemma_public_vector_represents(a, s, e, q, n);
    lemma_mask_represents(a, r, e1, q, n);
    lemma_v_represents(t, r, e2, msg0, tf, q, n);
    lemma_v_represents(t, r, e2, msg1, tf, q, n);
    let vf0 = |x: int| dotf(tf, rf, k, ni)(x) + ext(e2, ni)(x) - ext(msg0, ni)(x);
    let vf1 = |x: int| dotf(tf, rf, k, ni)(x) + ext(e2, ni)(x) - ext(msg1, ni)(x);
    let us = vec_add(u, u, q, n);
    let vs = ring_add(c0.1, c1.1, q, n);
    lemma_doubled_represents(u, uf, q, n);
    lemma_represents_add(c0.1, c1.1, vf0, vf1, q, n);
    let vsf = |x: int| vf0(x) + vf1(x);
    lemma_scaled_represents(s, us, vs, doubled(uf), vsf, q, n);
    let scaled = scaled_plaintext(s, us, vs, q, n);
    let wf = |x: int| vsf(x) - dotf(sf, doubled(uf), k, ni)(x);
    lemma_matrix_ext(a, q, n, s.len());
    lemma_vext(s, q, ni);
    lemma_vext(r, q, ni);
    let out = decrypt_spec(s, us, vs, q, n);
    let wanted = Seq::new(n, |j: int| coeff(m0, j) + coeff(m1, j));
    assert forall|j: int| 0 <= j < n implies #[trigger] out[j] == wanted[j] by {
        lemma_key_mask(af, sf, ef, rf, e1f, k, ni, j);
        lemma_dotf_doubled(sf, uf, k, ni, j);
        lemma_represents_reduced(scaled, wf, q, n, j);
        lemma_ext_window(msg0, ni, j);
        lemma_ext_window(msg1, ni, j);
        let b0 = coeff(m0, j);
        let b1 = coeff(m1, j);
        assert(coeff(full0, j) == weight * b0) by {
            if j >= m0.len() {
                assert(weight * 0 == 0) by (nonlinear_arith);
            }
        }
        assert(coeff(full1, j) == weight * b1) by {
            if j >= m1.len() {
                assert(weight * 0 == 0) by (nonlinear_arith);
            }
        }
        let noise_j = noise(s, e, r, e1, e2, ni)(j);
        assert(weight * (b0 + b1) == weight * b0 + weight * b1) by (nonlinear_arith);
        assert(within_margin(centred(2 * noise_j, q), q));
        lemma_decode_bit_centred(2 * noise_j, b0 + b1, q);
    }
}

// ---------------------------------------------------------------------------
// The empty message
// ---------------------------------------------------------------------------

/// The empty byte string has no bits and no blocks, its ciphertext holds no
/// integers, and an empty ciphertext decrypts to the empty byte string.
pub proof fn lemma_empty_message(s: Seq<Seq<int>>, q: int, n: nat)
    requires
        n >= 1,
    ensures
        bits_of(Seq::<u8>::empty()).len() == 0,
        block_count(0, n) == 0,
        crate::wire::ciphertext_ints(Seq::empty(), n, 0).len() == 0,
        plaintext_of(s, Seq::empty(), q, n) == Seq::<u8>::empty(),
{
}

} // verus!
