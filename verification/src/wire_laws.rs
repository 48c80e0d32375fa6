//! Reading a key or a ciphertext back from its integers gives what was
//! written.

use vstd::prelude::*;
use crate::encoding::decompress_spec;
use crate::layout::{chunk, chunks, chunk_matrix, padded, flat_upto, flat_vector, flat_rows, flat_matrix, is_wire_poly, is_wire_vector, is_wire_matrix, lemma_flat_len, lemma_flat_rows_len};
use crate::poly_spec::{coeff, is_small, is_trimmed, lemma_trim_equal};
use crate::polynomial::ints;
use crate::sampling::all_within;
use crate::utils::{ParametersView, has_shape, lemma_valid_modulus};
use crate::wire::{machine, public_key_ints, secret_key_ints, ciphertext_ints, block_len, block_of, parse_public_key_spec, parse_secret_key_spec, parse_ciphertext_spec, lemma_ciphertext_len};

verus! {

/// A place holds a coefficient of the polynomial it belongs to.
pub open spec fn holds(data: Seq<int>, size: nat, index: int, p: Seq<int>) -> bool {
    &&& 0 <= index
    &&& (index + 1) * size <= data.len()
    &&& forall|t: int| 0 <= t < size ==> data[index * size + t] == #[trigger] coeff(p, t)
}

/// Cutting out the places of a written polynomial gives the polynomial.
pub proof fn lemma_chunk_reads(data: Seq<int>, size: nat, index: int, p: Seq<int>)
    requires
        holds(data, size, index, p),
        is_trimmed(p),
        p.len() <= size,
    ensures
        chunk(data, size, index as nat, 0) == p,
{
    let full = Seq::new(size, |j: int| data[index as nat * size + j] + 0);
    lemma_trim_equal(full, p);
}

/// Where a polynomial of a flattened vector lies.
pub proof fn lemma_flat_holds(v: Seq<Seq<int>>, size: nat, upto: nat, i: int)
    requires
        0 <= i < upto,
    ensures
        flat_upto(v, size, upto).len() == upto * size,
        holds(flat_upto(v, size, upto), size, i, v[i]),
    decreases upto,
{
    lemma_flat_len(v, size, upto);
    assert((i + 1) * size <= upto * size) by (nonlinear_arith)
        requires
            i + 1 <= upto,
            size >= 0,
    ;
    assert(0 <= i * size) by (nonlinear_arith)
        requires
            0 <= i,
            size >= 0,
    ;
    assert((i + 1) * size == i * size + size) by (nonlinear_arith);
    if i < upto - 1 {
        lemma_flat_holds(v, size, (upto - 1) as nat, i);
    }
}

/// A polynomial that lies in `data` lies in every sequence that continues
/// `data`, and in every sequence that `data` continues, moved by the length
/// of what stands in front.
pub proof fn lemma_holds_in_concat(
    front: Seq<int>,
    data: Seq<int>,
    back: Seq<int>,
    size: nat,
    shift: int,
    index: int,
    p: Seq<int>,
)
    requires
        holds(data, size, index, p),
        shift >= 0,
        front.len() == shift * size,
    ensures
        holds(front + data + back, size, shift + index, p),
{
    assert((shift + index + 1) * size == shift * size + (index + 1) * size) by (nonlinear_arith);
    assert((shift + index) * size == shift * size + index * size) by (nonlinear_arith);
    assert(0 <= index * size) by (nonlinear_arith)
        requires
            0 <= index,
            size >= 0,
    ;
    assert((index + 1) * size == index * size + size) by (nonlinear_arith);
}

/// Every value of a flattened vector of small polynomials has magnitude
/// below `q`.
pub proof fn lemma_flat_small(v: Seq<Seq<int>>, size: nat, upto: nat, q: int)
    requires
        q >= 1,
        upto <= v.len(),
        forall|i: int| 0 <= i < v.len() ==> is_small(#[trigger] v[i], q, size),
    ensures
        all_within(flat_upto(v, size, upto), -q + 1, q),
    decreases upto,
{
    if upto > 0 {
        lemma_flat_small(v, size, (upto - 1) as nat, q);
    }
}

/// Every value of the sequence satisfies `ok`.
pub open spec fn all_values(x: Seq<int>, ok: spec_fn(int) -> bool) -> bool {
    forall|i: int| 0 <= i < x.len() ==> ok(#[trigger] x[i])
}

/// Every coefficient of every polynomial of the vector satisfies `ok`.
pub open spec fn all_coefficients(v: Seq<Seq<int>>, ok: spec_fn(int) -> bool) -> bool {
    forall|i: int, j: int| 0 <= i < v.len() && 0 <= j < v[i].len() ==> ok(#[trigger] v[i][j])
}

/// What holds of zero and of every coefficient holds of every written
/// integer: a flattened vector holds coefficients and padding only.
pub proof fn lemma_flat_values(v: Seq<Seq<int>>, size: nat, upto: nat, ok: spec_fn(int) -> bool)
    requires
        upto <= v.len(),
        ok(0),
        all_coefficients(v, ok),
    ensures
        all_values(flat_upto(v, size, upto), ok),
    decreases upto,
{
    if upto > 0 {
        lemma_flat_values(v, size, (upto - 1) as nat, ok);
        let before = flat_upto(v, size, (upto - 1) as nat);
        let last = padded(v[upto - 1], size);
        let whole = flat_upto(v, size, upto);
        assert forall|i: int| 0 <= i < whole.len() implies ok(#[trigger] whole[i]) by {
            if i < before.len() {
                assert(whole[i] == before[i]);
            } else {
                let t = i - before.len();
                assert(whole[i] == last[t]);
                assert(last[t] == coeff(v[upto - 1], t));
                if t < v[upto - 1].len() {
                    assert(ok(v[upto - 1][t]));
                }
            }
        }
    }
}

/// The same for a flattened matrix.
pub proof fn lemma_flat_rows_values(
    a: Seq<Seq<Seq<int>>>,
    size: nat,
    upto: nat,
    ok: spec_fn(int) -> bool,
)
    requires
        upto <= a.len(),
        ok(0),
        forall|i: int| 0 <= i < a.len() ==> all_coefficients(#[trigger] a[i], ok),
    ensures
        all_values(flat_rows(a, size, upto), ok),
    decreases upto,
{
    if upto > 0 {
        lemma_flat_rows_values(a, size, (upto - 1) as nat, ok);
        let before = flat_rows(a, size, (upto - 1) as nat);
        let row = flat_vector(a[upto - 1], size);
        let whole = flat_rows(a, size, upto);
        assert(all_coefficients(a[upto - 1], ok));
        lemma_flat_values(a[upto - 1], size, a[upto - 1].len(), ok);
        assert forall|i: int| 0 <= i < whole.len() implies ok(#[trigger] whole[i]) by {
            if i < before.len() {
                assert(whole[i] == before[i]);
            } else {
                assert(whole[i] == row[i - before.len()]);
            }
        }
    }
}

/// Joining sequences of values within a range gives values within the range.
pub proof fn lemma_within_concat(x: Seq<int>, y: Seq<int>, low: int, high: int)
    requires
        all_within(x, low, high),
        all_within(y, low, high),
    ensures
        all_within(x + y, low, high),
{
}

/// Values of magnitude below a valid modulus are machine integers.
proof fn lemma_small_is_machine(x: Seq<int>, p: ParametersView)
    requires
        p.valid(),
        all_within(x, -p.q + 1, p.q),
    ensures
        ints(machine(x)) == x,
{
    lemma_valid_modulus(p.n as int, p.q, p.k as int);
}

/// Round trip of the secret key: the text of `s` is read back as `s`.
pub proof fn lemma_secret_key_round_trip(s: Seq<Seq<int>>, p: ParametersView, text: Seq<char>)
    requires
        p.valid(),
        s.len() == p.k,
        is_wire_vector(s, p.q, p.n),
        decompress_spec(text) == Some(machine(secret_key_ints(s, p.n))),
    ensures
        parse_secret_key_spec(text, p) == Some(s),
{
    let x = secret_key_ints(s, p.n);
    lemma_flat_len(s, p.n, p.k);
    lemma_flat_small(s, p.n, p.k, p.q);
    lemma_small_is_machine(x, p);
    let read = chunks(x, p.n, 0, p.k, 0);
    assert forall|i: int| 0 <= i < p.k implies #[trigger] read[i] == s[i] by {
        lemma_flat_holds(s, p.n, p.k, i);
        lemma_chunk_reads(x, p.n, i, s[i]);
    }
}

/// Where the polynomials of a flattened matrix lie.
pub proof fn lemma_flat_rows_holds(
    a: Seq<Seq<Seq<int>>>,
    size: nat,
    cols: nat,
    upto: nat,
    i: int,
    j: int,
)
    requires
        upto <= a.len(),
        forall|r: int| 0 <= r < a.len() ==> (#[trigger] a[r]).len() == cols,
        0 <= i < upto,
        0 <= j < cols,
    ensures
        flat_rows(a, size, upto).len() == upto * cols * size,
        holds(flat_rows(a, size, upto), size, i * cols + j, a[i][j]),
    decreases upto,
{
    lemma_flat_rows_len(a, size, cols, upto);
    lemma_flat_rows_len(a, size, cols, (upto - 1) as nat);
    let before = flat_rows(a, size, (upto - 1) as nat);
    let row = flat_vector(a[upto - 1], size);
    let whole = flat_rows(a, size, upto);
    assert(0 <= i * cols) by (nonlinear_arith)
        requires
            0 <= i,
            cols >= 0,
    ;
    if i < upto - 1 {
        lemma_flat_rows_holds(a, size, cols, (upto - 1) as nat, i, j);
        let index = i * cols + j;
        assert forall|t: int| 0 <= t < size implies whole[index * size + t] == #[trigger] coeff(
            a[i][j],
            t,
        ) by {
            assert((index + 1) * size == index * size + size) by (nonlinear_arith);
            assert(0 <= index * size) by (nonlinear_arith)
                requires
                    0 <= index,
                    size >= 0,
            ;
        }
    } else {
        lemma_flat_holds(a[i], size, cols, j);
        assert(0 <= (upto - 1) * cols) by (nonlinear_arith)
            requires
                upto >= 1,
                cols >= 0,
        ;
        lemma_holds_in_concat(before, row, Seq::empty(), size, (upto - 1) * cols, j, a[i][j]);
    }
}

/// Every value of a flattened matrix of small polynomials has magnitude
/// below `q`.
pub proof fn lemma_flat_rows_small(a: Seq<Seq<Seq<int>>>, size: nat, upto: nat, q: int)
    requires
        q >= 1,
        upto <= a.len(),
        is_wire_matrix(a, q, size),
    ensures
        all_within(flat_rows(a, size, upto), -q + 1, q),
    decreases upto,
{
    if upto > 0 {
        lemma_flat_rows_small(a, size, (upto - 1) as nat, q);
        let row = a[upto - 1];
        lemma_flat_small(row, size, row.len(), q);
        lemma_within_concat(
            flat_rows(a, size, (upto - 1) as nat),
            flat_vector(row, size),
            -q + 1,
            q,
        );
    }
}

/// Round trip of the public key: the text of `(a, t)` is read back as
/// `(a, t)`.
pub proof fn lemma_public_key_round_trip(
    a: Seq<Seq<Seq<int>>>,
    t: Seq<Seq<int>>,
    p: ParametersView,
    text: Seq<char>,
)
    requires
        p.valid(),
        has_shape(a, p.k, p.k),
        is_wire_matrix(a, p.q, p.n),
        t.len() == p.k,
        is_wire_vector(t, p.q, p.n),
        decompress_spec(text) == Some(machine(public_key_ints(a, t, p.n))),
    ensures
        parse_public_key_spec(text, p) == Some((a, t)),
{
    let n = p.n;
    let k = p.k;
    let rows = flat_matrix(a, n);
    let tail = flat_vector(t, n);
    let x = public_key_ints(a, t, n);
    lemma_flat_rows_len(a, n, k, k);
    lemma_flat_len(t, n, k);
    assert(k * k * n + k * n == (k * k + k) * n) by (nonlinear_arith);
    lemma_flat_rows_small(a, n, k, p.q);
    lemma_flat_small(t, n, k, p.q);
    lemma_small_is_machine(x, p);
    let read_a = chunk_matrix(x, n, k, k);
    let read_t = chunks(x, n, k * k, k, 0);
    assert forall|i: int| 0 <= i < k implies #[trigger] read_a[i] == a[i] by {
        assert forall|j: int| 0 <= j < k implies #[trigger] read_a[i][j] == a[i][j] by {
            lemma_flat_rows_holds(a, n, k, k, i, j);
            lemma_holds_in_concat(Seq::empty(), rows, tail, n, 0, i * k + j, a[i][j]);
            assert(0 * n == 0) by (nonlinear_arith);
            assert(0 <= i * k) by (nonlinear_arith)
                requires
                    0 <= i,
                    0 <= k,
            ;
            lemma_chunk_reads(x, n, i * k + j, a[i][j]);
        }
    }
    assert forall|i: int| 0 <= i < k implies #[trigger] read_t[i] == t[i] by {
        lemma_flat_holds(t, n, k, i);
        lemma_holds_in_concat(rows, tail, Seq::empty(), n, (k * k) as int, i, t[i]);
        lemma_chunk_reads(x, n, k * k + i, t[i]);
    }
}

/// The polynomial at place `i` of a ciphertext block: a member of `u`, or
/// `v` after them.
pub open spec fn block_member(block: (Seq<Seq<int>>, Seq<int>), i: int) -> Seq<int> {
    if i < block.0.len() {
        block.0[i]
    } else {
        block.1
    }
}

/// Every block is a vector of rank `k` and a polynomial, as they are stored
/// and written.
pub open spec fn is_wire_blocks(
    blocks: Seq<(Seq<Seq<int>>, Seq<int>)>,
    p: ParametersView,
) -> bool {
    forall|b: int|
        0 <= b < blocks.len() ==> (#[trigger] blocks[b]).0.len() == p.k && is_wire_vector(
            blocks[b].0,
            p.q,
            p.n,
        ) && is_wire_poly(blocks[b].1, p.q, p.n)
}

/// Where the polynomials of a flattened ciphertext lie.
pub proof fn lemma_ciphertext_holds(
    blocks: Seq<(Seq<Seq<int>>, Seq<int>)>,
    n: nat,
    k: nat,
    upto: nat,
    b: int,
    i: int,
)
    requires
        upto <= blocks.len(),
        forall|c: int| 0 <= c < blocks.len() ==> (#[trigger] blocks[c]).0.len() == k,
        0 <= b < upto,
        0 <= i <= k,
    ensures
        ciphertext_ints(blocks, n, upto).len() == upto * ((k + 1) * n),
        holds(ciphertext_ints(blocks, n, upto), n, b * (k + 1) + i, block_member(blocks[b], i)),
    decreases upto,
{
    lemma_ciphertext_len(blocks, n, k, upto);
    lemma_ciphertext_len(blocks, n, k, (upto - 1) as nat);
    let before = ciphertext_ints(blocks, n, (upto - 1) as nat);
    let u = blocks[upto - 1].0;
    let v = blocks[upto - 1].1;
    let u_flat = flat_vector(u, n);
    let v_flat = padded(v, n);
    let whole = ciphertext_ints(blocks, n, upto);
    lemma_flat_len(u, n, k);
    assert((upto - 1) * ((k + 1) * n) == ((upto - 1) * (k + 1)) * n) by (nonlinear_arith);
    assert(0 <= (upto - 1) * (k + 1)) by (nonlinear_arith)
        requires
            upto >= 1,
            k >= 0,
    ;
    assert(0 <= b * (k + 1)) by (nonlinear_arith)
        requires
            b >= 0,
            k >= 0,
    ;
    if b < upto - 1 {
        lemma_ciphertext_holds(blocks, n, k, (upto - 1) as nat, b, i);
        assert(0 * n == 0) by (nonlinear_arith);
        lemma_holds_in_concat(
            Seq::empty(),
            before,
            u_flat + v_flat,
            n,
            0,
            b * (k + 1) + i,
            block_member(blocks[b], i),
        );
        assert(Seq::<int>::empty() + before + (u_flat + v_flat) =~= whole);
    } else if i < k {
        lemma_flat_holds(u, n, k, i);
        lemma_holds_in_concat(before, u_flat, v_flat, n, (upto - 1) * (k + 1), i, u[i]);
    } else {
        assert(holds(v_flat, n, 0, v)) by {
            assert((0 + 1) * n == n) by (nonlinear_arith);
            assert forall|t: int| 0 <= t < n implies v_flat[0 * n + t] == #[trigger] coeff(v, t) by {
                assert(0 * n == 0) by (nonlinear_arith);
            }
        }
        let front = before + u_flat;
        assert(front.len() == ((upto - 1) * (k + 1) + k) * n) by (nonlinear_arith)
            requires
                front.len() == (upto - 1) * ((k + 1) * n) + k * n,
        ;
        lemma_holds_in_concat(front, v_flat, Seq::empty(), n, (upto - 1) * (k + 1) + k, 0, v);
    }
}

/// Every value of a flattened ciphertext of small polynomials has magnitude
/// below `q`.
pub proof fn lemma_ciphertext_small(
    blocks: Seq<(Seq<Seq<int>>, Seq<int>)>,
    p: ParametersView,
    upto: nat,
)
    requires
        p.q >= 1,
        upto <= blocks.len(),
        is_wire_blocks(blocks, p),
    ensures
        all_within(ciphertext_ints(blocks, p.n, upto), -p.q + 1, p.q),
    decreases upto,
{
    if upto > 0 {
        lemma_ciphertext_small(blocks, p, (upto - 1) as nat);
        let u = blocks[upto - 1].0;
        let v = blocks[upto - 1].1;
        lemma_flat_small(u, p.n, u.len(), p.q);
        let single = seq![v];
        assert(flat_upto(single, p.n, 1) =~= padded(v, p.n)) by {
            assert(flat_upto(single, p.n, 0) =~= Seq::<int>::empty());
        }
        lemma_within_concat(
            ciphertext_ints(blocks, p.n, (upto - 1) as nat),
            flat_vector(u, p.n),
            -p.q + 1,
            p.q,
        );
        lemma_within_concat(
            ciphertext_ints(blocks, p.n, (upto - 1) as nat) + flat_vector(u, p.n),
            padded(v, p.n),
            -p.q + 1,
            p.q,
        );
    }
}

/// Round trip of the ciphertext: the text of a sequence of blocks is read
/// back as these blocks.
pub proof fn lemma_ciphertext_round_trip(
    blocks: Seq<(Seq<Seq<int>>, Seq<int>)>,
    p: ParametersView,
    text: Seq<char>,
)
    requires
        p.valid(),
        is_wire_blocks(blocks, p),
        decompress_spec(text) == Some(machine(ciphertext_ints(blocks, p.n, blocks.len()))),
    ensures
        parse_ciphertext_spec(text, p) == Some(blocks),
{
    let n = p.n;
    let k = p.k;
    let count = blocks.len();
    let x = ciphertext_ints(blocks, n, count);
    let size = block_len(p);
    lemma_valid_modulus(n as int, p.q, k as int);
    lemma_ciphertext_len(blocks, n, k, count);
    lemma_ciphertext_small(blocks, p, count);
    lemma_small_is_machine(x, p);
    vstd::arithmetic::div_mod::lemma_mod_multiples_basic(count as int, size as int);
    vstd::arithmetic::div_mod::lemma_div_by_multiple(count as int, size as int);
    let data = machine(x);
    let read = Seq::new(
        (data.len() as int / size as int) as nat,
        |b: int| block_of(ints(data), p, b as nat),
    );
    assert forall|b: int| 0 <= b < count implies #[trigger] read[b] == blocks[b] by {
        let u = blocks[b].0;
        let v = blocks[b].1;
        let read_u = chunks(x, n, b as nat * (k + 1), k, 0);
        assert(0 <= b * (k + 1)) by (nonlinear_arith)
            requires
                b >= 0,
                k >= 0,
        ;
        assert forall|i: int| 0 <= i < k implies #[trigger] read_u[i] == u[i] by {
            lemma_ciphertext_holds(blocks, n, k, count, b, i);
            lemma_chunk_reads(x, n, b * (k + 1) + i, u[i]);
        }
        lemma_ciphertext_holds(blocks, n, k, count, b, k as int);
        lemma_chunk_reads(x, n, b * (k + 1) + k, v);
    }
}

} // verus!
