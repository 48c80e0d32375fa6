//! The algebra behind decryption: why `v - s u` is the message plus noise.
//!
//! With `t = A s + e`, `u = A^T r + e1` and `v = t r + e2 - m`, the terms
//! `(A s) r` and `s (A^T r)` cancel, and `v - s u = e r + e2 - s e1 - m`.
//! This file proves that identity for coefficient functions, where no
//! reduction modulo `q` interferes.

use vstd::prelude::*;
use crate::algebra::{sum, anti, mulf, lemma_sum_ext, lemma_sum_add, lemma_sum_swap, lemma_mulf_ext, lemma_mulf_comm, lemma_mulf_assoc, lemma_mulf_add_left, lemma_mulf_add_right};
use crate::ring_laws::{vext, dotf, sumf, anti_all, represents, represents_all, lemma_mulf_sum_left, lemma_mulf_sum_right, lemma_vext, lemma_represents_self, lemma_represents_dot, lemma_represents_add, lemma_represents_congruent, lemma_dotf_anti, lemma_add_anti};
use crate::utils::{has_shape, vec_add, mat_vec, dot, transposed};
use crate::keygen::public_vector;

verus! {

/// Every entry of the first `k` rows and columns of the matrix family
/// changes sign every `n`.
pub open spec fn anti_matrix(
    a: spec_fn(int) -> spec_fn(int) -> spec_fn(int) -> int,
    k: int,
    n: int,
) -> bool {
    forall|i: int| 0 <= i < k ==> anti_all(#[trigger] a(i), k, n)
}

/// Column `j` of a matrix family, as a vector family.
pub open spec fn column(a: spec_fn(int) -> spec_fn(int) -> spec_fn(int) -> int, j: int) -> spec_fn(
    int,
) -> spec_fn(int) -> int {
    |i: int| a(i)(j)
}

/// The public vector as functions: `t_i = sum_j a_ij s_j + e_i`.
pub open spec fn key_family(
    a: spec_fn(int) -> spec_fn(int) -> spec_fn(int) -> int,
    s: spec_fn(int) -> spec_fn(int) -> int,
    e: spec_fn(int) -> spec_fn(int) -> int,
    k: int,
    n: int,
) -> spec_fn(int) -> spec_fn(int) -> int {
    |i: int| (|m: int| dotf(a(i), s, k, n)(m) + e(i)(m))
}

/// The first ciphertext component as functions: `u_j = sum_i a_ij r_i + e1_j`.
pub open spec fn mask_family(
    a: spec_fn(int) -> spec_fn(int) -> spec_fn(int) -> int,
    r: spec_fn(int) -> spec_fn(int) -> int,
    e1: spec_fn(int) -> spec_fn(int) -> int,
    k: int,
    n: int,
) -> spec_fn(int) -> spec_fn(int) -> int {
    |j: int| (|m: int| dotf(column(a, j), r, k, n)(m) + e1(j)(m))
}

/// `(a s) r = s (a r)` for three functions that change sign every `n`.
pub proof fn lemma_triple(
    a: spec_fn(int) -> int,
    s: spec_fn(int) -> int,
    r: spec_fn(int) -> int,
    n: int,
    m: int,
)
    requires
        n >= 0,
        anti(a, n),
        anti(s, n),
        anti(r, n),
    ensures
        mulf(mulf(a, s, n), r, n)(m) == mulf(s, mulf(a, r, n), n)(m),
{
    let left = mulf(a, s, n);
    let turned = mulf(s, a, n);
    assert forall|i: int| 0 <= i < n implies #[trigger] left(i) == turned(i) by {
        lemma_mulf_comm(a, s, n, i);
    }
    lemma_mulf_ext(left, turned, r, r, n, m);
    lemma_mulf_assoc(s, a, r, n, m);
}

/// One term of `t . r`, expanded.
proof fn lemma_key_times_r(
    a: spec_fn(int) -> spec_fn(int) -> spec_fn(int) -> int,
    s: spec_fn(int) -> spec_fn(int) -> int,
    e: spec_fn(int) -> spec_fn(int) -> int,
    r: spec_fn(int) -> spec_fn(int) -> int,
    k: int,
    n: int,
    m: int,
    i: int,
)
    ensures
        mulf(key_family(a, s, e, k, n)(i), r(i), n)(m) == sum(
            |j: int| mulf(mulf(a(i)(j), s(j), n), r(i), n)(m),
            0,
            k,
        ) + mulf(e(i), r(i), n)(m),
{
    let d = dotf(a(i), s, k, n);
    let products = |j: int| mulf(a(i)(j), s(j), n);
    lemma_mulf_add_left(d, e(i), r(i), n, m);
    // d is the sum of the products
    assert forall|x: int| 0 <= x < n implies #[trigger] d(x) == sumf(products, k)(x) by {
        let direct = |j: int| mulf(a(i)(j), s(j), n)(x);
        let through = |j: int| products(j)(x);
        lemma_sum_ext(direct, through, 0, k);
    }
    lemma_mulf_ext(d, sumf(products, k), r(i), r(i), n, m);
    lemma_mulf_sum_left(products, r(i), k, n, m);
    let expanded = |j: int| mulf(products(j), r(i), n)(m);
    let wanted = |j: int| mulf(mulf(a(i)(j), s(j), n), r(i), n)(m);
    lemma_sum_ext(expanded, wanted, 0, k);
}

/// One term of `s . u`, expanded.
proof fn lemma_s_times_mask(
    a: spec_fn(int) -> spec_fn(int) -> spec_fn(int) -> int,
    s: spec_fn(int) -> spec_fn(int) -> int,
    r: spec_fn(int) -> spec_fn(int) -> int,
    e1: spec_fn(int) -> spec_fn(int) -> int,
    k: int,
    n: int,
    m: int,
    j: int,
)
    ensures
        mulf(s(j), mask_family(a, r, e1, k, n)(j), n)(m) == sum(
            |i: int| mulf(s(j), mulf(a(i)(j), r(i), n), n)(m),
            0,
            k,
        ) + mulf(s(j), e1(j), n)(m),
{
    let d = dotf(column(a, j), r, k, n);
    let products = |i: int| mulf(a(i)(j), r(i), n);
    lemma_mulf_add_right(s(j), d, e1(j), n, m);
    assert forall|x: int| #[trigger] d(x) == sumf(products, k)(x) by {
        let direct = |i: int| mulf(column(a, j)(i), r(i), n)(x);
        let through = |i: int| products(i)(x);
        lemma_sum_ext(direct, through, 0, k);
    }
    lemma_mulf_ext(s(j), s(j), d, sumf(products, k), n, m);
    lemma_mulf_sum_right(s(j), products, k, n, m);
    let expanded = |i: int| mulf(s(j), products(i), n)(m);
    let wanted = |i: int| mulf(s(j), mulf(a(i)(j), r(i), n), n)(m);
    lemma_sum_ext(expanded, wanted, 0, k);
}

/// The key identity: `t . r - s . u = e . r - s . e1`.
pub proof fn lemma_key_mask(
    a: spec_fn(int) -> spec_fn(int) -> spec_fn(int) -> int,
    s: spec_fn(int) -> spec_fn(int) -> int,
    e: spec_fn(int) -> spec_fn(int) -> int,
    r: spec_fn(int) -> spec_fn(int) -> int,
    e1: spec_fn(int) -> spec_fn(int) -> int,
    k: int,
    n: int,
    m: int,
)
    requires
        n >= 0,
        anti_matrix(a, k, n),
        anti_all(s, k, n),
        anti_all(r, k, n),
    ensures
        dotf(key_family(a, s, e, k, n), r, k, n)(m) - dotf(s, mask_family(a, r, e1, k, n), k, n)(m)
            == dotf(e, r, k, n)(m) - dotf(s, e1, k, n)(m),
{
    let t = key_family(a, s, e, k, n);
    let u = mask_family(a, r, e1, k, n);
    let x = |i: int, j: int| mulf(mulf(a(i)(j), s(j), n), r(i), n)(m);
    let y = |j: int, i: int| mulf(s(j), mulf(a(i)(j), r(i), n), n)(m);
    // t . r
    let tr_terms = |i: int| mulf(t(i), r(i), n)(m);
    let x_rows = |i: int| sum(|j: int| x(i, j), 0, k);
    let er_terms = |i: int| mulf(e(i), r(i), n)(m);
    let tr_split = |i: int| x_rows(i) + er_terms(i);
    assert forall|i: int| 0 <= i < k implies #[trigger] tr_terms(i) == tr_split(i) by {
        lemma_key_times_r(a, s, e, r, k, n, m, i);
        let wanted = |j: int| mulf(mulf(a(i)(j), s(j), n), r(i), n)(m);
        let row = |j: int| x(i, j);
        lemma_sum_ext(wanted, row, 0, k);
    }
    lemma_sum_ext(tr_terms, tr_split, 0, k);
    lemma_sum_add(x_rows, er_terms, 0, k);
    // s . u
    let su_terms = |j: int| mulf(s(j), u(j), n)(m);
    let y_rows = |j: int| sum(|i: int| y(j, i), 0, k);
    let se_terms = |j: int| mulf(s(j), e1(j), n)(m);
    let su_split = |j: int| y_rows(j) + se_terms(j);
    assert forall|j: int| 0 <= j < k implies #[trigger] su_terms(j) == su_split(j) by {
        lemma_s_times_mask(a, s, r, e1, k, n, m, j);
        let wanted = |i: int| mulf(s(j), mulf(a(i)(j), r(i), n), n)(m);
        let row = |i: int| y(j, i);
        lemma_sum_ext(wanted, row, 0, k);
    }
    lemma_sum_ext(su_terms, su_split, 0, k);
    lemma_sum_add(y_rows, se_terms, 0, k);
    // the double sums agree
    lemma_sum_swap(x, k, k);
    let x_cols = |j: int| sum(|i: int| x(i, j), 0, k);
    assert forall|j: int| 0 <= j < k implies #[trigger] x_cols(j) == y_rows(j) by {
        let col = |i: int| x(i, j);
        let row = |i: int| y(j, i);
        assert forall|i: int| 0 <= i < k implies #[trigger] col(i) == row(i) by {
            lemma_triple(a(i)(j), s(j), r(i), n, m);
        }
        lemma_sum_ext(col, row, 0, k);
    }
    lemma_sum_ext(x_cols, y_rows, 0, k);
}

// ---------------------------------------------------------------------------
// From sequences to functions
// ---------------------------------------------------------------------------

/// The coefficient functions of the entries of a matrix, by row and column.
pub open spec fn matrix_ext(a: Seq<Seq<Seq<int>>>, n: int) -> spec_fn(int) -> spec_fn(int) -> spec_fn(
    int,
) -> int {
    |i: int| vext(a[i], n)
}

/// Every polynomial of the vector has at most `n` coefficients.
pub open spec fn all_short(v: Seq<Seq<int>>, n: nat) -> bool {
    forall|i: int| 0 <= i < v.len() ==> (#[trigger] v[i]).len() <= n
}

/// Every entry of the matrix has at most `n` coefficients.
pub open spec fn matrix_short(a: Seq<Seq<Seq<int>>>, n: nat) -> bool {
    forall|i: int| 0 <= i < a.len() ==> all_short(#[trigger] a[i], n)
}

/// The entries of a matrix of short polynomials change sign every `n` as
/// functions.
pub proof fn lemma_matrix_ext(a: Seq<Seq<Seq<int>>>, q: int, n: nat, k: nat)
    requires
        q > 0,
        n >= 1,
        has_shape(a, k, k),
        matrix_short(a, n),
    ensures
        anti_matrix(matrix_ext(a, n as int), k as int, n as int),
{
    let f = matrix_ext(a, n as int);
    assert forall|i: int| 0 <= i < k implies anti_all(#[trigger] f(i), k as int, n as int) by {
        lemma_vext(a[i], q, n as int);
    }
}

/// The public vector `t = A s + e` represents its function-level form, which
/// changes sign every `n`.
pub proof fn lemma_public_vector_represents(
    a: Seq<Seq<Seq<int>>>,
    s: Seq<Seq<int>>,
    e: Seq<Seq<int>>,
    q: int,
    n: nat,
)
    requires
        q > 0,
        n >= 1,
        has_shape(a, s.len(), s.len()),
        matrix_short(a, n),
        all_short(s, n),
        e.len() == s.len(),
        all_short(e, n),
    ensures
        public_vector(a, s, e, q, n).len() == s.len(),
        represents_all(
            public_vector(a, s, e, q, n),
            key_family(
                matrix_ext(a, n as int),
                vext(s, n as int),
                vext(e, n as int),
                s.len() as int,
                n as int,
            ),
            q,
            n as int,
        ),
        anti_all(
            key_family(
                matrix_ext(a, n as int),
                vext(s, n as int),
                vext(e, n as int),
                s.len() as int,
                n as int,
            ),
            s.len() as int,
            n as int,
        ),
{
    let k = s.len() as int;
    let ni = n as int;
    let af = matrix_ext(a, ni);
    let sf = vext(s, ni);
    let ef = vext(e, ni);
    let t = public_vector(a, s, e, q, n);
    let tf = key_family(af, sf, ef, k, ni);
    lemma_vext(s, q, ni);
    lemma_vext(e, q, ni);
    assert forall|i: int| 0 <= i < k implies represents(#[trigger] t[i], tf(i), q, ni) && anti(
        tf(i),
        ni,
    ) by {
        lemma_vext(a[i], q, ni);
        let row = dot(a[i], s, q, n);
        let row_f = dotf(af(i), sf, k, ni);
        lemma_represents_dot(a[i], s, af(i), sf, q, n, k as nat);
        lemma_represents_add(row, e[i], row_f, ef(i), q, n);
        let both = |m: int| row_f(m) + ef(i)(m);
        assert forall|j: int| 0 <= j < ni implies (#[trigger] both(j) - tf(i)(j)) % q == 0 by {
            vstd::arithmetic::div_mod::lemma_small_mod(0, q as nat);
        }
        lemma_dotf_anti(af(i), sf, k, ni);
        lemma_add_anti(row_f, ef(i), ni);
    }
    assert forall|i: int| 0 <= i < k implies anti(#[trigger] tf(i), ni) by {
        assert(represents(t[i], tf(i), q, ni) && anti(tf(i), ni));
    }
}

/// The first ciphertext component `u = A^T r + e1` represents its
/// function-level form, which changes sign every `n`.
pub proof fn lemma_mask_represents(
    a: Seq<Seq<Seq<int>>>,
    r: Seq<Seq<int>>,
    e1: Seq<Seq<int>>,
    q: int,
    n: nat,
)
    requires
        q > 0,
        n >= 1,
        has_shape(a, r.len(), r.len()),
        matrix_short(a, n),
        all_short(r, n),
        e1.len() == r.len(),
        all_short(e1, n),
    ensures
        vec_add(mat_vec(transposed(a, r.len()), r, q, n), e1, q, n).len() == r.len(),
        represents_all(
            vec_add(mat_vec(transposed(a, r.len()), r, q, n), e1, q, n),
            mask_family(
                matrix_ext(a, n as int),
                vext(r, n as int),
                vext(e1, n as int),
                r.len() as int,
                n as int,
            ),
            q,
            n as int,
        ),
        anti_all(
            mask_family(
                matrix_ext(a, n as int),
                vext(r, n as int),
                vext(e1, n as int),
                r.len() as int,
                n as int,
            ),
            r.len() as int,
            n as int,
        ),
{
    let k = r.len() as int;
    let ni = n as int;
    let af = matrix_ext(a, ni);
    let rf = vext(r, ni);
    let ef = vext(e1, ni);
    let at = transposed(a, r.len());
    let u = vec_add(mat_vec(at, r, q, n), e1, q, n);
    let uf = mask_family(af, rf, ef, k, ni);
    lemma_vext(r, q, ni);
    lemma_vext(e1, q, ni);
    assert forall|j: int| 0 <= j < k implies represents(#[trigger] u[j], uf(j), q, ni) && anti(
        uf(j),
        ni,
    ) by {
        let col = at[j];
        let col_f = column(af, j);
        assert forall|i: int| 0 <= i < col.len() implies represents(
            #[trigger] col[i],
            col_f(i),
            q,
            ni,
        ) by {
            lemma_represents_self(a[i][j], q, ni);
        }
        let row = dot(col, r, q, n);
        let row_f = dotf(col_f, rf, k, ni);
        lemma_represents_dot(col, r, col_f, rf, q, n, k as nat);
        lemma_represents_add(row, e1[j], row_f, ef(j), q, n);
        let both = |m: int| row_f(m) + ef(j)(m);
        assert forall|x: int| 0 <= x < ni implies (#[trigger] both(x) - uf(j)(x)) % q == 0 by {
            vstd::arithmetic::div_mod::lemma_small_mod(0, q as nat);
        }
        lemma_represents_congruent(u[j], both, uf(j), q, ni);
        lemma_dotf_anti(col_f, rf, k, ni);
        lemma_add_anti(row_f, ef(j), ni);
    }
    assert forall|j: int| 0 <= j < k implies anti(#[trigger] uf(j), ni) by {
        assert(represents(u[j], uf(j), q, ni) && anti(uf(j), ni));
    }
}

} // verus!
