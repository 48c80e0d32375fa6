//! Polynomials laid out in a flat run of integers, and back.
//!
//! Random draws, keys and ciphertexts all travel as one sequence of integers
//! in which every polynomial occupies `size` consecutive places, lowest degree
//! first, zero-padded on the right.

use vstd::prelude::*;
use crate::poly_spec::{coeff, trim, is_small, is_trimmed, lemma_trim};
use crate::polynomial::{Polynomial, ints, vector_view, matrix_view};
use crate::sampling::all_within;

verus! {

/// A polynomial as it is stored and written: small, and without trailing
/// zeros.
pub open spec fn is_wire_poly(p: Seq<int>, q: int, n: nat) -> bool {
    is_small(p, q, n) && is_trimmed(p)
}

/// A vector of polynomials as they are stored and written.
pub open spec fn is_wire_vector(v: Seq<Seq<int>>, q: int, n: nat) -> bool {
    forall|i: int| 0 <= i < v.len() ==> is_wire_poly(#[trigger] v[i], q, n)
}

/// A matrix of polynomials as they are stored and written.
pub open spec fn is_wire_matrix(a: Seq<Seq<Seq<int>>>, q: int, n: nat) -> bool {
    forall|i: int| 0 <= i < a.len() ==> is_wire_vector(#[trigger] a[i], q, n)
}

/// The `index`-th polynomial cut from `values`: `size` consecutive values,
/// each moved by `shift`, as coefficients.
pub open spec fn chunk(values: Seq<int>, size: nat, index: nat, shift: int) -> Seq<int> {
    trim(Seq::new(size, |j: int| values[index * size + j] + shift))
}

/// The `rank` polynomials cut from `values` starting with the `first`-th.
pub open spec fn chunks(values: Seq<int>, size: nat, first: nat, rank: nat, shift: int) -> Seq<
    Seq<int>,
> {
    Seq::new(rank, |i: int| chunk(values, size, first + i as nat, shift))
}

/// The `rows` by `cols` matrix cut from the front of `values`, row by row.
pub open spec fn chunk_matrix(values: Seq<int>, size: nat, rows: nat, cols: nat) -> Seq<
    Seq<Seq<int>>,
> {
    Seq::new(rows, |i: int| chunks(values, size, i as nat * cols, cols, 0))
}

/// The `size` coefficients of `p`, zero-padded on the right.
pub open spec fn padded(p: Seq<int>, size: nat) -> Seq<int> {
    Seq::new(size, |j: int| coeff(p, j))
}

/// The first `upto` polynomials of `v` one after another, each padded to
/// `size` places.
pub open spec fn flat_upto(v: Seq<Seq<int>>, size: nat, upto: nat) -> Seq<int>
    decreases upto,
{
    if upto == 0 {
        Seq::empty()
    } else {
        flat_upto(v, size, (upto - 1) as nat) + padded(v[upto - 1], size)
    }
}

/// The polynomials of `v` one after another, each padded to `size` places.
pub open spec fn flat_vector(v: Seq<Seq<int>>, size: nat) -> Seq<int> {
    flat_upto(v, size, v.len())
}

/// The first `upto` rows of `m` one after another, each as [`flat_vector`].
pub open spec fn flat_rows(m: Seq<Seq<Seq<int>>>, size: nat, upto: nat) -> Seq<int>
    decreases upto,
{
    if upto == 0 {
        Seq::empty()
    } else {
        flat_rows(m, size, (upto - 1) as nat) + flat_vector(m[upto - 1], size)
    }
}

/// The rows of `m` one after another, each as [`flat_vector`].
pub open spec fn flat_matrix(m: Seq<Seq<Seq<int>>>, size: nat) -> Seq<int> {
    flat_rows(m, size, m.len())
}

/// Position `index * size + j` lies inside a run of `rank * size` values.
pub proof fn lemma_chunk_index(index: int, j: int, size: int, rank: int)
    requires
        0 <= index < rank,
        0 <= j < size,
    ensures
        0 <= index * size + j < rank * size,
        index * size + j < (index + 1) * size,
        (index + 1) * size <= rank * size,
        (index * size + j) / size == index,
        (index * size + j) % size == j,
{
    assert(0 <= index * size) by (nonlinear_arith)
        requires
            0 <= index,
            0 <= size,
    ;
    assert((index + 1) * size == index * size + size) by (nonlinear_arith);
    assert((index + 1) * size <= rank * size) by (nonlinear_arith)
        requires
            index + 1 <= rank,
            0 <= size,
    ;
    assert(index * size == size * index) by (nonlinear_arith);
    vstd::arithmetic::div_mod::lemma_fundamental_div_mod_converse(index * size + j, size, index, j);
}

/// A polynomial cut from values in `[low, high)` has at most `size`
/// coefficients, each in `[low + shift, high + shift)`, and no trailing zero.
pub proof fn lemma_chunk_within(
    values: Seq<int>,
    size: nat,
    index: nat,
    shift: int,
    low: int,
    high: int,
)
    requires
        (index + 1) * size <= values.len(),
        all_within(values, low, high),
    ensures
        chunk(values, size, index, shift).len() <= size,
        is_trimmed(chunk(values, size, index, shift)),
        all_within(chunk(values, size, index, shift), low + shift, high + shift),
{
    let full = Seq::new(size, |j: int| values[index * size + j] + shift);
    let c = chunk(values, size, index, shift);
    lemma_trim(full);
    assert forall|t: int| 0 <= t < c.len() implies low + shift <= #[trigger] c[t] < high + shift by {
        lemma_chunk_index(index as int, t, size as int, (index + 1) as int);
    }
}

/// The flat form of `upto` polynomials has `upto * size` places.
pub proof fn lemma_flat_len(v: Seq<Seq<int>>, size: nat, upto: nat)
    ensures
        flat_upto(v, size, upto).len() == upto * size,
    decreases upto,
{
    if upto > 0 {
        lemma_flat_len(v, size, (upto - 1) as nat);
        assert((upto - 1) * size + size == upto * size) by (nonlinear_arith);
    } else {
        assert(0 * size == 0) by (nonlinear_arith);
    }
}

/// The flat form of `upto` rows of `cols` polynomials has
/// `upto * cols * size` places.
pub proof fn lemma_flat_rows_len(m: Seq<Seq<Seq<int>>>, size: nat, cols: nat, upto: nat)
    requires
        upto <= m.len(),
        forall|i: int| 0 <= i < m.len() ==> (#[trigger] m[i]).len() == cols,
    ensures
        flat_rows(m, size, upto).len() == upto * cols * size,
    decreases upto,
{
    if upto > 0 {
        lemma_flat_rows_len(m, size, cols, (upto - 1) as nat);
        lemma_flat_len(m[upto - 1], size, cols);
        assert((upto - 1) * cols * size + cols * size == upto * cols * size) by (nonlinear_arith);
    } else {
        assert(0 * cols * size == 0) by (nonlinear_arith);
    }
}

/// The `index`-th polynomial of `size` places in `values`, every value moved
/// by `shift`.
pub fn polynomial_at(values: &Vec<i64>, size: usize, index: usize, shift: i64) -> (r: Polynomial)
    requires
        (index + 1) * size <= values.len(),
        forall|i: int| 0 <= i < values.len() ==> i64::MIN <= #[trigger] values[i] + shift <= i64::MAX,
    ensures
        r@ == chunk(ints(values@), size as nat, index as nat, shift as int),
{
    let mut coeffs: Vec<i64> = Vec::new();
    let mut j: usize = 0;
    while j < size
        invariant
            j <= size,
            coeffs.len() == j,
            (index + 1) * size <= values.len(),
            forall|t: int|
                0 <= t < values.len() ==> i64::MIN <= #[trigger] values[t] + shift <= i64::MAX,
            forall|t: int|
                0 <= t < j ==> #[trigger] coeffs[t] as int == values[index * size + t] + shift,
        decreases size - j,
    {
        proof {
            lemma_chunk_index(index as int, j as int, size as int, index + 1);
        }
        let idx: usize = index * size + j;
        coeffs.push(values[idx] + shift);
        j += 1;
    }
    proof {
        assert(ints(coeffs@) =~= Seq::new(
            size as nat,
            |j: int| ints(values@)[index as nat * size as nat + j] + shift as int,
        )) by {
            assert forall|t: int| 0 <= t < size implies ints(coeffs@)[t] == ints(values@)[index
                * size + t] + shift by {
                lemma_chunk_index(index as int, t, size as int, index + 1);
            }
        }
    }
    Polynomial::new(coeffs)
}

/// The `rank` polynomials of `size` places in `values` from the `first`-th
/// on, every value moved by `shift`.
pub fn polynomials_from_values(
    values: &Vec<i64>,
    size: usize,
    first: usize,
    rank: usize,
    shift: i64,
) -> (r: Vec<Polynomial>)
    requires
        first + rank <= usize::MAX,
        (first + rank) * size <= values.len(),
        forall|i: int| 0 <= i < values.len() ==> i64::MIN <= #[trigger] values[i] + shift <= i64::MAX,
    ensures
        r.len() == rank,
        vector_view(r@) == chunks(
            ints(values@),
            size as nat,
            first as nat,
            rank as nat,
            shift as int,
        ),
{
    let mut out: Vec<Polynomial> = Vec::new();
    let mut i: usize = 0;
    while i < rank
        invariant
            i <= rank,
            out.len() == i,
            first + rank <= usize::MAX,
            (first + rank) * size <= values.len(),
            forall|t: int|
                0 <= t < values.len() ==> i64::MIN <= #[trigger] values[t] + shift <= i64::MAX,
            forall|t: int|
                0 <= t < i ==> (#[trigger] out[t])@ == chunk(
                    ints(values@),
                    size as nat,
                    (first + t) as nat,
                    shift as int,
                ),
        decreases rank - i,
    {
        proof {
            assert((first + i + 1) * size <= (first + rank) * size) by (nonlinear_arith)
                requires
                    first + i + 1 <= first + rank,
                    size >= 0,
            ;
        }
        out.push(polynomial_at(values, size, first + i, shift));
        i += 1;
    }
    proof {
        assert(vector_view(out@) =~= chunks(
            ints(values@),
            size as nat,
            first as nat,
            rank as nat,
            shift as int,
        ));
    }
    out
}

/// The `rows` by `cols` matrix of polynomials of `size` places at the front
/// of `values`, row by row.
pub fn matrix_from_values(values: &Vec<i64>, size: usize, rows: usize, cols: usize) -> (r: Vec<
    Vec<Polynomial>,
>)
    requires
        rows * cols <= usize::MAX,
        rows * cols * size <= values.len(),
    ensures
        r.len() == rows,
        forall|i: int| 0 <= i < rows ==> (#[trigger] r[i]).len() == cols,
        matrix_view(r@) == chunk_matrix(ints(values@), size as nat, rows as nat, cols as nat),
{
    let mut out: Vec<Vec<Polynomial>> = Vec::new();
    let mut i: usize = 0;
    while i < rows
        invariant
            i <= rows,
            out.len() == i,
            rows * cols <= usize::MAX,
            rows * cols * size <= values.len(),
            forall|t: int| 0 <= t < i ==> (#[trigger] out[t]).len() == cols,
            forall|t: int|
                0 <= t < i ==> vector_view((#[trigger] out[t])@) == chunks(
                    ints(values@),
                    size as nat,
                    t as nat * cols as nat,
                    cols as nat,
                    0,
                ),
        decreases rows - i,
    {
        proof {
            assert((i + 1) * cols <= rows * cols) by (nonlinear_arith)
                requires
                    i + 1 <= rows,
                    cols >= 0,
            ;
            assert((i + 1) * cols == i * cols + cols) by (nonlinear_arith);
            assert(0 <= i * cols) by (nonlinear_arith)
                requires
                    i >= 0,
                    cols >= 0,
            ;
            assert((i * cols + cols) * size <= rows * cols * size) by (nonlinear_arith)
                requires
                    i * cols + cols <= rows * cols,
                    size >= 0,
            ;
        }
        let first: usize = i * cols;
        let row = polynomials_from_values(values, size, first, cols, 0);
        out.push(row);
        i += 1;
    }
    proof {
        assert(matrix_view(out@) =~= chunk_matrix(
            ints(values@),
            size as nat,
            rows as nat,
            cols as nat,
        ));
    }
    out
}

/// Appends the coefficients of `p` to `out`, zero-padded or cut to `size`
/// places.
pub fn append_padded(out: &mut Vec<i64>, p: &Polynomial, size: usize)
    ensures
        ints(final(out)@) == ints(old(out)@) + padded(p@, size as nat),
{
    let coeffs = p.coeffs();
    let ghost before = ints(out@);
    let mut j: usize = 0;
    while j < size
        invariant
            j <= size,
            ints(coeffs@) == p@,
            ints(out@) == before + Seq::new(j as nat, |t: int| coeff(p@, t)),
        decreases size - j,
    {
        let ghost prev = ints(out@);
        let c: i64 = if j < coeffs.len() {
            coeffs[j]
        } else {
            0
        };
        out.push(c);
        assert(prev.push(c as int) =~= before + Seq::new((j + 1) as nat, |t: int| coeff(p@, t)));
        j += 1;
    }
}

/// Appends every polynomial of `v` to `out`, each in `size` places.
pub fn append_vector(out: &mut Vec<i64>, v: &Vec<Polynomial>, size: usize)
    ensures
        ints(final(out)@) == ints(old(out)@) + flat_vector(vector_view(v@), size as nat),
{
    let ghost before = ints(out@);
    let ghost polys = vector_view(v@);
    let mut i: usize = 0;
    while i < v.len()
        invariant
            i <= v.len(),
            polys == vector_view(v@),
            ints(out@) == before + flat_upto(polys, size as nat, i as nat),
        decreases v.len() - i,
    {
        let ghost prev = ints(out@);
        append_padded(out, &v[i], size);
        proof {
            assert(prev + padded(polys[i as int], size as nat) =~= before + flat_upto(
                polys,
                size as nat,
                (i + 1) as nat,
            ));
        }
        i += 1;
    }
}

/// Appends every row of `m` to `out`, each polynomial in `size` places.
pub fn append_matrix(out: &mut Vec<i64>, m: &Vec<Vec<Polynomial>>, size: usize)
    ensures
        ints(final(out)@) == ints(old(out)@) + flat_matrix(matrix_view(m@), size as nat),
{
    let ghost before = ints(out@);
    let ghost rows = matrix_view(m@);
    let mut i: usize = 0;
    while i < m.len()
        invariant
            i <= m.len(),
            rows == matrix_view(m@),
            ints(out@) == before + flat_rows(rows, size as nat, i as nat),
        decreases m.len() - i,
    {
        let ghost prev = ints(out@);
        append_vector(out, &m[i], size);
        proof {
            assert(prev + flat_vector(rows[i as int], size as nat) =~= before + flat_rows(
                rows,
                size as nat,
                (i + 1) as nat,
            ));
        }
        i += 1;
    }
}

} // verus!
