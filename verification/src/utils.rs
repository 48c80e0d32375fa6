//! Parameters, and the vector and matrix operations of the scheme.
//!
//! A vector is a `Vec<Polynomial>`, a matrix a `Vec` of rows. The functions
//! here lift ring arithmetic to them, and fill them from random draws.

use vstd::prelude::*;
pub use crate::encoding::{compress, decompress};
use crate::error::LweError;
use crate::poly_spec::{cyclotomic, trim, residues, is_small, is_reduced, is_trimmed, product_fits, sum_fits, ring_add, ring_mul, lemma_small_fits, lemma_trim};
use crate::polynomial::{Polynomial, ints, vector_view, matrix_view};
use crate::ring_mod::{is_modulus_poly, ring_degree, mod_coeffs, polyadd, polymul};
use crate::sampling::{draws, seeded_stream, all_within};
use crate::layout::{chunks, chunk_matrix, polynomials_from_values, matrix_from_values, lemma_chunk_within};

verus! {

/// The mathematical content of a parameter set.
pub struct ParametersView {
    /// Ring degree: the number of coefficients of a ring element.
    pub n: nat,
    /// Coefficient modulus.
    pub q: int,
    /// Module rank: the number of ring elements in a vector.
    pub k: nat,
}

/// The invariants of a parameter set: a positive degree and rank, a modulus
/// above one, and sizes that the machine can hold. `q * q * n` bounds every
/// partial sum of a product of two elements; the last clause bounds the
/// length of an encoded public key.
pub open spec fn params_valid(n: int, q: int, k: int) -> bool {
    &&& n >= 1
    &&& q >= 2
    &&& k >= 1
    &&& q * q * n <= i64::MAX
    &&& 16 * ((k * k + k) * n) + 64 <= usize::MAX
}

impl ParametersView {
    /// The parameters satisfy [`params_valid`].
    pub open spec fn valid(self) -> bool {
        params_valid(self.n as int, self.q, self.k as int)
    }
}

/// Parameters of the scheme: ring degree `n`, modulus `q`, rank `k`, and the
/// modulus polynomial `x^n + 1` derived from `n`.
#[derive(Debug)]
pub struct Parameters {
    n: usize,
    q: i64,
    k: usize,
    f: Polynomial,
}

impl View for Parameters {
    type V = ParametersView;

    closed spec fn view(&self) -> ParametersView {
        ParametersView { n: self.n as nat, q: self.q as int, k: self.k as nat }
    }
}

impl Default for Parameters {
    /// Degree 512, modulus 12289, rank 8.
    fn default() -> (r: Self)
        ensures
            r@ == (ParametersView { n: 512, q: 12289, k: 8 }),
            r@.valid(),
    {
        assert(12289int * 12289 * 512 == 77_321_994_752) by (nonlinear_arith);
        assert((8int * 8 + 8) * 512 == 36_864) by (nonlinear_arith);
        Parameters::build(512, 12289, 8)
    }
}

impl Parameters {
    #[verifier::type_invariant]
    spec fn well_formed(&self) -> bool {
        &&& params_valid(self.n as int, self.q as int, self.k as int)
        &&& self.f@ == cyclotomic(self.n as nat)
    }

    fn build(n: usize, q: i64, k: usize) -> (r: Parameters)
        requires
            params_valid(n as int, q as int, k as int),
        ensures
            r@ == (ParametersView { n: n as nat, q: q as int, k: k as nat }),
            r@.valid(),
    {
        proof {
            assert(2 * n <= (k * k + k) * n) by (nonlinear_arith)
                requires
                    k >= 1,
                    n >= 1,
            ;
        }
        let mut coeffs: Vec<i64> = Vec::new();
        coeffs.push(1);
        let mut i: usize = 1;
        while i < n
            invariant
                1 <= i <= n,
                coeffs.len() == i,
                coeffs[0] == 1,
                forall|j: int| 1 <= j < i ==> coeffs[j] == 0,
            decreases n - i,
        {
            coeffs.push(0);
            i += 1;
        }
        coeffs.push(1);
        let f = Polynomial::new(coeffs);
        proof {
            assert(ints(coeffs@) =~= cyclotomic(n as nat));
        }
        Parameters { n, q, k, f }
    }

    /// Parameters with ring degree `n`, modulus `q` and rank `k`.
    ///
    /// Fails with `ParameterInvalid` exactly when [`params_valid`] does not
    /// hold of them.
    pub fn new(n: usize, q: i64, k: usize) -> (r: Result<Parameters, LweError>)
        ensures
            match r {
                Ok(p) => params_valid(n as int, q as int, k as int) && p@ == (ParametersView {
                    n: n as nat,
                    q: q as int,
                    k: k as nat,
                }),
                Err(e) => e == LweError::ParameterInvalid && !params_valid(
                    n as int,
                    q as int,
                    k as int,
                ),
            },
    {
        if n == 0 || q <= 1 || k == 0 {
            return Err(LweError::ParameterInvalid);
        }
        if !Self::product_in_range(n, q) || !Self::key_length_in_range(n, k) {
            return Err(LweError::ParameterInvalid);
        }
        Ok(Parameters::build(n, q, k))
    }

    /// Whether `q * q * n` fits in `i64`.
    fn product_in_range(n: usize, q: i64) -> (r: bool)
        requires
            n >= 1,
            q >= 2,
        ensures
            r == (q * q * n <= i64::MAX),
    {
        let qq: i64 = match q.checked_mul(q) {
            Some(v) => v,
            None => {
                assert(q * q * n >= q * q) by (nonlinear_arith)
                    requires
                        n >= 1,
                        q >= 2,
                ;
                return false;
            },
        };
        let n_wide: u64 = n as u64;
        if n_wide > 0x7fff_ffff_ffff_ffff {
            assert(q * q * n > i64::MAX) by (nonlinear_arith)
                requires
                    n > i64::MAX,
                    q >= 2,
            ;
            return false;
        }
        let n_signed: i64 = n as i64;
        match qq.checked_mul(n_signed) {
            Some(_) => true,
            None => false,
        }
    }

    /// Whether the encoded public key, `(k * k + k) * n` integers, has a
    /// length that fits in `usize`.
    fn key_length_in_range(n: usize, k: usize) -> (r: bool)
        requires
            n >= 1,
            k >= 1,
        ensures
            r == (16 * ((k * k + k) * n) + 64 <= usize::MAX),
    {
        let kk: usize = match k.checked_mul(k) {
            Some(v) => v,
            None => {
                assert((k * k + k) * n >= k * k) by (nonlinear_arith)
                    requires
                        n >= 1,
                        k >= 1,
                ;
                return false;
            },
        };
        let entries: usize = match kk.checked_add(k) {
            Some(v) => v,
            None => {
                assert((k * k + k) * n >= k * k + k) by (nonlinear_arith)
                    requires
                        n >= 1,
                        k >= 1,
                ;
                return false;
            },
        };
        let count: usize = match entries.checked_mul(n) {
            Some(v) => v,
            None => {
                return false;
            },
        };
        let scaled: usize = match count.checked_mul(16) {
            Some(v) => v,
            None => {
                return false;
            },
        };
        match scaled.checked_add(64) {
            Some(_) => true,
            None => false,
        }
    }

    /// Ring degree.
    pub fn n(&self) -> (r: usize)
        ensures
            r == self@.n,
            self@.valid(),
    {
        proof {
            use_type_invariant(self);
        }
        self.n
    }

    /// Coefficient modulus.
    pub fn q(&self) -> (r: i64)
        ensures
            r == self@.q,
            self@.valid(),
    {
        proof {
            use_type_invariant(self);
        }
        self.q
    }

    /// Module rank.
    pub fn k(&self) -> (r: usize)
        ensures
            r == self@.k,
            self@.valid(),
    {
        proof {
            use_type_invariant(self);
        }
        self.k
    }

    /// The modulus polynomial `x^n + 1`.
    pub fn f(&self) -> (r: &Polynomial)
        ensures
            r@ == cyclotomic(self@.n),
            is_modulus_poly(r@),
            ring_degree(r@) == self@.n,
            self@.valid(),
    {
        proof {
            use_type_invariant(self);
        }
        &self.f
    }
}

/// Every polynomial of the vector is small: see [`is_small`].
pub open spec fn all_small(v: Seq<Seq<int>>, q: int, n: nat) -> bool {
    forall|i: int| 0 <= i < v.len() ==> is_small(#[trigger] v[i], q, n)
}

/// Every polynomial of the vector is a canonical ring element.
pub open spec fn all_reduced(v: Seq<Seq<int>>, q: int, n: nat) -> bool {
    forall|i: int| 0 <= i < v.len() ==> is_reduced(#[trigger] v[i], q, n)
}

/// The vectors have one rank, polynomials of at most `n` coefficients, and
/// sums that fit in `i64`.
pub open spec fn vec_sum_fits(a: Seq<Seq<int>>, b: Seq<Seq<int>>, n: nat) -> bool {
    &&& a.len() == b.len()
    &&& forall|i: int|
        0 <= i < a.len() ==> (#[trigger] a[i]).len() <= n && b[i].len() <= n && sum_fits(a[i], b[i])
}

/// The vectors have one rank, polynomials of at most `n` coefficients, and
/// products that can be accumulated in `i64`.
pub open spec fn vec_product_fits(a: Seq<Seq<int>>, b: Seq<Seq<int>>, n: nat) -> bool {
    &&& a.len() == b.len()
    &&& forall|i: int|
        0 <= i < a.len() ==> (#[trigger] a[i]).len() <= n && b[i].len() <= n && product_fits(
            a[i],
            b[i],
        )
}

/// Component-wise sum of two vectors of ring elements.
pub open spec fn vec_add(a: Seq<Seq<int>>, b: Seq<Seq<int>>, q: int, n: nat) -> Seq<Seq<int>> {
    Seq::new(a.len(), |i: int| ring_add(a[i], b[i], q, n))
}

/// Sum of the first `upto` component products of two vectors, accumulated
/// from the left starting at zero.
pub open spec fn dot_upto(a: Seq<Seq<int>>, b: Seq<Seq<int>>, q: int, n: nat, upto: nat) -> Seq<int>
    decreases upto,
{
    if upto == 0 {
        Seq::empty()
    } else {
        ring_add(
            dot_upto(a, b, q, n, (upto - 1) as nat),
            ring_mul(a[upto - 1], b[upto - 1], q, n),
            q,
            n,
        )
    }
}

/// Dot product of two vectors of ring elements.
pub open spec fn dot(a: Seq<Seq<int>>, b: Seq<Seq<int>>, q: int, n: nat) -> Seq<int> {
    dot_upto(a, b, q, n, a.len())
}

/// Product of a matrix, given by its rows, and a vector.
pub open spec fn mat_vec(m: Seq<Seq<Seq<int>>>, v: Seq<Seq<int>>, q: int, n: nat) -> Seq<Seq<int>> {
    Seq::new(m.len(), |i: int| dot(m[i], v, q, n))
}

/// The matrix has `rows` rows of `cols` entries each.
pub open spec fn has_shape<T>(m: Seq<Seq<T>>, rows: nat, cols: nat) -> bool {
    &&& m.len() == rows
    &&& forall|i: int| 0 <= i < rows ==> (#[trigger] m[i]).len() == cols
}

/// Transpose of a matrix with `cols` columns.
pub open spec fn transposed(m: Seq<Seq<Seq<int>>>, cols: nat) -> Seq<Seq<Seq<int>>> {
    Seq::new(cols, |j: int| Seq::new(m.len(), |i: int| m[i][j]))
}

/// Every row of the matrix is a vector of small polynomials.
pub open spec fn matrix_small(m: Seq<Seq<Seq<int>>>, q: int, n: nat) -> bool {
    forall|i: int| 0 <= i < m.len() ==> all_small(#[trigger] m[i], q, n)
}

/// Vectors of small polynomials of one rank can be multiplied and added
/// component by component in `i64` whenever `q * q * n` fits.
pub proof fn lemma_small_vectors_fit(a: Seq<Seq<int>>, b: Seq<Seq<int>>, q: int, n: nat)
    requires
        q >= 1,
        q * q * n <= i64::MAX,
        a.len() == b.len(),
        all_small(a, q, n),
        all_small(b, q, n),
    ensures
        vec_product_fits(a, b, n),
        vec_sum_fits(a, b, n),
{
    assert forall|i: int| 0 <= i < a.len() implies (#[trigger] a[i]).len() <= n && b[i].len() <= n
        && product_fits(a[i], b[i]) && sum_fits(a[i], b[i]) by {
        lemma_small_fits(a[i], b[i], q, n);
    }
}

/// With valid parameters, twice the modulus fits in `i64`.
pub proof fn lemma_valid_modulus(n: int, q: int, k: int)
    requires
        params_valid(n, q, k),
    ensures
        2 * (q - 1) <= i64::MAX,
        q * q <= i64::MAX,
        k * k <= usize::MAX,
        k * k * n <= usize::MAX,
        (k * k + k) * n <= usize::MAX,
        k * n <= usize::MAX,
        (k + 1) * n <= usize::MAX,
        k * k + k <= usize::MAX,
        k + 1 <= usize::MAX,
        (k + 1) * n >= 1,
{
    assert(k * k + k <= (k * k + k) * n && k + 1 <= k * k + k && (k + 1) * n >= 1) by (nonlinear_arith)
        requires
            k >= 1,
            n >= 1,
    ;
    assert(2 * (q - 1) <= q * q && q * q <= q * q * n) by (nonlinear_arith)
        requires
            q >= 2,
            n >= 1,
    ;
    assert(k * k <= k * k * n && k * k * n <= (k * k + k) * n && k * n <= (k * k + k) * n && (k
        + 1) * n <= (k * k + k) * n) by (nonlinear_arith)
        requires
            k >= 1,
            n >= 1,
    ;
}

/// Every polynomial has at most `size` coefficients, each `-1`, `0` or `1`.
pub open spec fn all_ternary(v: Seq<Seq<int>>, size: nat) -> bool {
    forall|i: int|
        0 <= i < v.len() ==> (#[trigger] v[i]).len() <= size && all_within(v[i], -1, 2)
            && is_trimmed(v[i])
}

/// Every entry of the matrix has at most `size` coefficients, each in
/// `[0, q)`.
pub open spec fn all_uniform(m: Seq<Seq<Seq<int>>>, size: nat, q: int) -> bool {
    forall|i: int, j: int|
        0 <= i < m.len() && 0 <= j < m[i].len() ==> (#[trigger] m[i][j]).len() <= size
            && all_within(m[i][j], 0, q) && is_trimmed(m[i][j])
}

/// The noise vector that a run of draws from `{0, 1, 2}` stands for: `rank`
/// polynomials of `size` coefficients, each draw less one.
pub open spec fn small_vector_of(stream: Seq<int>, size: nat, rank: nat) -> Seq<Seq<int>> {
    chunks(stream, size, 0, rank, -1)
}

/// The square matrix that a run of draws from `[0, q)` stands for, row by
/// row.
pub open spec fn uniform_matrix_of(stream: Seq<int>, size: nat, rank: nat) -> Seq<Seq<Seq<int>>> {
    chunk_matrix(stream, size, rank, rank)
}

/// Every entry of the matrix is a canonical ring element.
pub open spec fn matrix_reduced(m: Seq<Seq<Seq<int>>>, q: int, n: nat) -> bool {
    forall|i: int| 0 <= i < m.len() ==> all_reduced(#[trigger] m[i], q, n)
}

/// Every polynomial of the vector with its coefficients taken modulo `q`:
/// the form in which noise is stored.
pub open spec fn canonical_vector(v: Seq<Seq<int>>, q: int) -> Seq<Seq<int>> {
    Seq::new(v.len(), |i: int| trim(residues(v[i], q)))
}

/// A noise polynomial in stored form: a canonical ring element whose
/// coefficients are `0`, `1` or `q - 1`.
pub open spec fn is_stored_noise(p: Seq<int>, q: int, n: nat) -> bool {
    &&& is_reduced(p, q, n)
    &&& forall|j: int| 0 <= j < p.len() ==> #[trigger] p[j] == 0 || p[j] == 1 || p[j] == q - 1
}

/// Every polynomial of the vector is noise in stored form.
pub open spec fn all_stored_noise(v: Seq<Seq<int>>, q: int, n: nat) -> bool {
    forall|i: int| 0 <= i < v.len() ==> is_stored_noise(#[trigger] v[i], q, n)
}

/// The stored form of a noise polynomial is a canonical ring element with
/// coefficients `0`, `1` and `q - 1` only.
pub proof fn lemma_stored_noise(x: Seq<int>, q: int, n: nat)
    requires
        q >= 2,
        x.len() <= n,
        all_within(x, -1, 2),
    ensures
        is_stored_noise(trim(residues(x, q)), q, n),
{
    let raw = residues(x, q);
    let stored = trim(raw);
    lemma_trim(raw);
    assert forall|j: int| 0 <= j < stored.len() implies 0 <= #[trigger] stored[j] < q && (stored[j]
        == 0 || stored[j] == 1 || stored[j] == q - 1) by {
        assert(stored[j] == raw[j]);
        assert(raw[j] == x[j] % q);
        assert(-1 <= x[j] < 2);
        if x[j] == -1 {
            vstd::arithmetic::div_mod::lemma_mod_add_multiples_vanish(-1, q);
            vstd::arithmetic::div_mod::lemma_small_mod((q - 1) as nat, q as nat);
        } else {
            vstd::arithmetic::div_mod::lemma_small_mod(x[j] as nat, q as nat);
        }
    }
}

/// The noise vector `v` in stored form: every coefficient in `[0, modulus)`,
/// so that `-1` becomes `modulus - 1`.
pub fn store_small_vector(v: &Vec<Polynomial>, size: usize, modulus: i64) -> (r: Vec<Polynomial>)
    requires
        modulus >= 2,
        all_ternary(vector_view(v@), size as nat),
    ensures
        r.len() == v.len(),
        vector_view(r@) == canonical_vector(vector_view(v@), modulus as int),
        all_stored_noise(vector_view(r@), modulus as int, size as nat),
        all_reduced(vector_view(r@), modulus as int, size as nat),
{
    let ghost raw = vector_view(v@);
    let mut out: Vec<Polynomial> = Vec::new();
    let mut i: usize = 0;
    while i < v.len()
        invariant
            modulus >= 2,
            i <= v.len(),
            raw == vector_view(v@),
            all_ternary(raw, size as nat),
            out.len() == i,
            forall|t: int|
                0 <= t < i ==> (#[trigger] out[t])@ == trim(residues(raw[t], modulus as int))
                    && is_stored_noise(out[t]@, modulus as int, size as nat),
        decreases v.len() - i,
    {
        proof {
            assert(raw[i as int] == v[i as int]@);
            assert(raw[i as int].len() <= size && all_within(raw[i as int], -1, 2));
            lemma_stored_noise(raw[i as int], modulus as int, size as nat);
        }
        let stored = mod_coeffs(v[i].clone(), modulus);
        out.push(stored);
        i += 1;
    }
    proof {
        assert(vector_view(out@) =~= canonical_vector(raw, modulus as int));
        assert forall|t: int| 0 <= t < out.len() implies is_stored_noise(
            #[trigger] vector_view(out@)[t],
            modulus as int,
            size as nat,
        ) by {
            assert(vector_view(out@)[t] == out[t]@);
        }
    }
    out
}

/// The noise vector cut from draws in `{0, 1, 2}`.
pub fn small_vector_from_draws(values: &Vec<i64>, size: usize, rank: usize) -> (r: Vec<Polynomial>)
    requires
        values.len() == size * rank,
        all_within(ints(values@), 0, 3),
    ensures
        r.len() == rank,
        vector_view(r@) == small_vector_of(ints(values@), size as nat, rank as nat),
        all_ternary(vector_view(r@), size as nat),
{
    proof {
        assert(size * rank == rank * size) by (nonlinear_arith);
        assert forall|i: int| 0 <= i < values.len() implies i64::MIN <= #[trigger] values[i] + (
        -1i64) <= i64::MAX by {
            assert(0 <= ints(values@)[i] < 3);
        }
    }
    let r = polynomials_from_values(values, size, 0, rank, -1);
    proof {
        assert forall|i: int| 0 <= i < r.len() implies (#[trigger] vector_view(r@)[i]).len() <= size
            && all_within(vector_view(r@)[i], -1, 2) && is_trimmed(vector_view(r@)[i]) by {
            assert((i + 1) * size <= rank * size) by (nonlinear_arith)
                requires
                    i + 1 <= rank,
                    size >= 0,
            ;
            lemma_chunk_within(ints(values@), size as nat, i as nat, -1, 0, 3);
        }
    }
    r
}

/// The square matrix cut from draws in `[0, modulus)`.
pub fn uniform_matrix_from_draws(values: &Vec<i64>, size: usize, rank: usize, modulus: i64) -> (r:
    Vec<Vec<Polynomial>>)
    requires
        rank * rank <= usize::MAX,
        values.len() == rank * rank * size,
        all_within(ints(values@), 0, modulus as int),
    ensures
        has_shape(matrix_view(r@), rank as nat, rank as nat),
        matrix_view(r@) == uniform_matrix_of(ints(values@), size as nat, rank as nat),
        all_uniform(matrix_view(r@), size as nat, modulus as int),
{
    let r = matrix_from_values(values, size, rank, rank);
    proof {
        let m = matrix_view(r@);
        assert forall|i: int, j: int| 0 <= i < m.len() && 0 <= j < m[i].len() implies (
        #[trigger] m[i][j]).len() <= size && all_within(m[i][j], 0, modulus as int) && is_trimmed(
            m[i][j],
        ) by {
            assert(i * rank + j + 1 <= rank * rank) by (nonlinear_arith)
                requires
                    0 <= i < rank,
                    0 <= j < rank,
            ;
            assert((i * rank + j + 1) * size <= rank * rank * size) by (nonlinear_arith)
                requires
                    i * rank + j + 1 <= rank * rank,
                    size >= 0,
            ;
            assert(0 <= i * rank) by (nonlinear_arith)
                requires
                    0 <= i,
                    0 <= rank,
            ;
            lemma_chunk_within(
                ints(values@),
                size as nat,
                (i * rank + j) as nat,
                0,
                0,
                modulus as int,
            );
        }
    }
    r
}

/// A vector of `rank` noise polynomials of `size` coefficients, each drawn
/// from `{-1, 0, 1}`: reproducible under a seed, from entropy without one.
pub fn gen_small_vector(size: usize, rank: usize, seed: Option<u64>) -> (r: Vec<Polynomial>)
    requires
        size * rank <= usize::MAX,
    ensures
        r.len() == rank,
        all_ternary(vector_view(r@), size as nat),
        seed matches Some(s) ==> vector_view(r@) == small_vector_of(
            seeded_stream(s, 0, 3, (size * rank) as nat),
            size as nat,
            rank as nat,
        ),
{
    let count: usize = size * rank;
    let values = draws(seed, 0, 3, count);
    small_vector_from_draws(&values, size, rank)
}

/// A `rank` by `rank` matrix of polynomials of `size` coefficients, each
/// drawn uniformly from `[0, modulus)`: reproducible under a seed, from
/// entropy without one.
pub fn gen_uniform_matrix(size: usize, rank: usize, modulus: i64, seed: Option<u64>) -> (r: Vec<
    Vec<Polynomial>,
>)
    requires
        modulus > 0,
        rank * rank * size <= usize::MAX,
        rank * rank <= usize::MAX,
    ensures
        has_shape(matrix_view(r@), rank as nat, rank as nat),
        all_uniform(matrix_view(r@), size as nat, modulus as int),
        seed matches Some(s) ==> matrix_view(r@) == uniform_matrix_of(
            seeded_stream(s, 0, modulus as int, (rank * rank * size) as nat),
            size as nat,
            rank as nat,
        ),
{
    let count: usize = rank * rank * size;
    let values = draws(seed, 0, modulus, count);
    uniform_matrix_from_draws(&values, size, rank, modulus)
}

/// Adds two vectors of polynomials component by component.
pub fn add_vec(
    v0: &Vec<Polynomial>,
    v1: &Vec<Polynomial>,
    modulus: i64,
    poly_mod: &Polynomial,
) -> (r: Vec<Polynomial>)
    requires
        modulus > 0,
        is_modulus_poly(poly_mod@),
        vec_sum_fits(vector_view(v0@), vector_view(v1@), ring_degree(poly_mod@)),
    ensures
        r.len() == v0.len(),
        vector_view(r@) == vec_add(
            vector_view(v0@),
            vector_view(v1@),
            modulus as int,
            ring_degree(poly_mod@),
        ),
        all_reduced(vector_view(r@), modulus as int, ring_degree(poly_mod@)),
{
    let ghost a = vector_view(v0@);
    let ghost b = vector_view(v1@);
    let ghost q = modulus as int;
    let ghost n = ring_degree(poly_mod@);
    let mut result: Vec<Polynomial> = Vec::new();
    let mut i: usize = 0;
    while i < v0.len()
        invariant
            modulus > 0,
            is_modulus_poly(poly_mod@),
            a == vector_view(v0@),
            b == vector_view(v1@),
            q == modulus as int,
            n == ring_degree(poly_mod@),
            vec_sum_fits(a, b, n),
            i <= v0.len(),
            v0.len() == v1.len(),
            result.len() == i,
            forall|t: int|
                0 <= t < i ==> (#[trigger] result[t])@ == ring_add(a[t], b[t], q, n) && is_reduced(
                    result[t]@,
                    q,
                    n,
                ),
        decreases v0.len() - i,
    {
        assert(a[i as int].len() <= n);
        let sum = polyadd(&v0[i], &v1[i], modulus, poly_mod);
        result.push(sum);
        i += 1;
    }
    result
}

/// Dot product of two vectors of polynomials: the component products, summed
/// from the left.
pub fn mul_vec_simple(
    v0: &Vec<Polynomial>,
    v1: &Vec<Polynomial>,
    modulus: i64,
    poly_mod: &Polynomial,
) -> (r: Polynomial)
    requires
        modulus > 0,
        2 * (modulus - 1) <= i64::MAX,
        is_modulus_poly(poly_mod@),
        vec_product_fits(vector_view(v0@), vector_view(v1@), ring_degree(poly_mod@)),
    ensures
        r@ == dot(vector_view(v0@), vector_view(v1@), modulus as int, ring_degree(poly_mod@)),
        is_reduced(r@, modulus as int, ring_degree(poly_mod@)),
{
    let ghost a = vector_view(v0@);
    let ghost b = vector_view(v1@);
    let ghost q = modulus as int;
    let ghost n = ring_degree(poly_mod@);
    let mut result = Polynomial::zero();
    let mut i: usize = 0;
    while i < v0.len()
        invariant
            modulus > 0,
            2 * (modulus - 1) <= i64::MAX,
            is_modulus_poly(poly_mod@),
            a == vector_view(v0@),
            b == vector_view(v1@),
            q == modulus as int,
            n == ring_degree(poly_mod@),
            vec_product_fits(a, b, n),
            i <= v0.len(),
            v0.len() == v1.len(),
            result@ == dot_upto(a, b, q, n, i as nat),
            is_reduced(result@, q, n),
        decreases v0.len() - i,
    {
        assert(a[i as int].len() <= n);
        let product = polymul(&v0[i], &v1[i], modulus, poly_mod);
        assert(sum_fits(result@, product@));
        result = polyadd(&result, &product, modulus, poly_mod);
        i += 1;
    }
    result
}

/// Product of a matrix of polynomials, given by its rows, and a vector.
pub fn mul_mat_vec_simple(
    m: &Vec<Vec<Polynomial>>,
    v: &Vec<Polynomial>,
    modulus: i64,
    poly_mod: &Polynomial,
) -> (r: Vec<Polynomial>)
    requires
        modulus > 0,
        2 * (modulus - 1) <= i64::MAX,
        is_modulus_poly(poly_mod@),
        forall|i: int|
            0 <= i < m.len() ==> vec_product_fits(
                #[trigger] matrix_view(m@)[i],
                vector_view(v@),
                ring_degree(poly_mod@),
            ),
    ensures
        r.len() == m.len(),
        vector_view(r@) == mat_vec(
            matrix_view(m@),
            vector_view(v@),
            modulus as int,
            ring_degree(poly_mod@),
        ),
        all_reduced(vector_view(r@), modulus as int, ring_degree(poly_mod@)),
{
    let ghost a = matrix_view(m@);
    let ghost b = vector_view(v@);
    let ghost q = modulus as int;
    let ghost n = ring_degree(poly_mod@);
    let mut result: Vec<Polynomial> = Vec::new();
    let mut i: usize = 0;
    while i < m.len()
        invariant
            modulus > 0,
            2 * (modulus - 1) <= i64::MAX,
            is_modulus_poly(poly_mod@),
            a == matrix_view(m@),
            b == vector_view(v@),
            q == modulus as int,
            n == ring_degree(poly_mod@),
            forall|t: int| 0 <= t < m.len() ==> vec_product_fits(#[trigger] a[t], b, n),
            i <= m.len(),
            result.len() == i,
            forall|t: int|
                0 <= t < i ==> (#[trigger] result[t])@ == dot(a[t], b, q, n) && is_reduced(
                    result[t]@,
                    q,
                    n,
                ),
        decreases m.len() - i,
    {
        assert(a[i as int] == vector_view(m[i as int]@));
        let row = mul_vec_simple(&m[i], v, modulus, poly_mod);
        result.push(row);
        i += 1;
    }
    result
}

/// Transpose of a rectangular matrix of polynomials with at least one row.
pub fn transpose(m: &Vec<Vec<Polynomial>>) -> (r: Vec<Vec<Polynomial>>)
    requires
        m.len() > 0,
        has_shape(matrix_view(m@), m.len() as nat, m[0].len() as nat),
    ensures
        matrix_view(r@) == transposed(matrix_view(m@), m[0].len() as nat),
        has_shape(matrix_view(r@), m[0].len() as nat, m.len() as nat),
{
    let rows: usize = m.len();
    let cols: usize = m[0].len();
    let ghost a = matrix_view(m@);
    let mut result: Vec<Vec<Polynomial>> = Vec::new();
    let mut j: usize = 0;
    while j < cols
        invariant
            rows == m.len(),
            a == matrix_view(m@),
            has_shape(a, rows as nat, cols as nat),
            j <= cols,
            result.len() == j,
            forall|t: int|
                0 <= t < j ==> vector_view((#[trigger] result[t])@) == Seq::new(
                    rows as nat,
                    |i: int| a[i][t],
                ),
        decreases cols - j,
    {
        let mut column: Vec<Polynomial> = Vec::new();
        let mut i: usize = 0;
        while i < rows
            invariant
                rows == m.len(),
                a == matrix_view(m@),
                has_shape(a, rows as nat, cols as nat),
                j < cols,
                i <= rows,
                column.len() == i,
                forall|t: int| 0 <= t < i ==> (#[trigger] column[t])@ == a[t][j as int],
            decreases rows - i,
        {
            assert(a[i as int].len() == cols);
            column.push(m[i][j].clone());
            i += 1;
        }
        result.push(column);
        j += 1;
    }
    result
}

} // verus!
