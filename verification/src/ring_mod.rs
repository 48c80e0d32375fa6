//! Arithmetic in the ring `Z_q[x] / (x^n + 1)`.
//!
//! Every operation returns the canonical representative of its result:
//! degree below `n`, coefficients in `[0, q)`. Operands need not be
//! canonical (a noise polynomial holds `-1`), but must have at most `n`
//! coefficients, and small enough ones that the integer sum or product
//! computed before the reduction stays inside `i64`.

use vstd::prelude::*;
use crate::poly_spec::{coeff, trim, cyclotomic, pointwise_sum, residues, convolution, product_fits, sum_fits, reduce, is_reduced, ring_add, ring_mul, ring_neg, ring_sub, lemma_trim, lemma_reduce, lemma_reduce_steps, lemma_reduce_of_reduced};
use crate::polynomial::{Polynomial, ints, raw_sum, raw_product, raw_negation, raw_remainder};
use crate::sampling::{draws, seeded_stream, all_within};

verus! {

/// `f` is the polynomial `x^n + 1` for some `n >= 1`.
pub open spec fn is_modulus_poly(f: Seq<int>) -> bool {
    f.len() >= 2 && f == cyclotomic((f.len() - 1) as nat)
}

/// The `n` of a modulus polynomial `x^n + 1`.
pub open spec fn ring_degree(f: Seq<int>) -> nat {
    (f.len() - 1) as nat
}

/// Euclidean remainder of `a` by a positive `m`: the representative in `[0, m)`.
pub fn euclid_rem(a: i64, m: i64) -> (r: i64)
    requires
        m > 0,
    ensures
        r == (a as int) % (m as int),
        0 <= r < m,
{
    match a.checked_rem_euclid(m) {
        Some(r) => r,
        None => 0,
    }
}

/// Takes every coefficient of `x` modulo `modulus`, into `[0, modulus)`.
pub fn mod_coeffs(x: Polynomial, modulus: i64) -> (r: Polynomial)
    requires
        modulus > 0,
    ensures
        r@ == trim(residues(x@, modulus as int)),
        r@.len() <= x@.len(),
        forall|i: int| 0 <= i < r@.len() ==> 0 <= #[trigger] r@[i] < modulus,
{
    let coeffs = x.coeffs();
    let mut newcoeffs: Vec<i64> = Vec::new();
    let mut i: usize = 0;
    while i < coeffs.len()
        invariant
            modulus > 0,
            i <= coeffs.len(),
            newcoeffs.len() == i,
            forall|j: int|
                0 <= j < i ==> #[trigger] newcoeffs[j] as int == (coeffs[j] as int) % (
                modulus as int),
        decreases coeffs.len() - i,
    {
        let c: i64 = euclid_rem(coeffs[i], modulus);
        newcoeffs.push(c);
        i += 1;
    }
    let r = Polynomial::new(newcoeffs);
    proof {
        assert(ints(newcoeffs@) =~= residues(x@, modulus as int));
        lemma_trim(residues(x@, modulus as int));
    }
    r
}

/// Canonical representative of `x` modulo `(modulus, poly_mod)`:
/// coefficients into `[0, modulus)`, remainder by `poly_mod`, coefficients
/// into `[0, modulus)` again. An element that is canonical already comes
/// back unchanged.
pub fn polyreduce(x: Polynomial, modulus: i64, poly_mod: &Polynomial) -> (r: Polynomial)
    requires
        modulus > 0,
        is_modulus_poly(poly_mod@),
        x@.len() <= 2 * ring_degree(poly_mod@),
    ensures
        r@ == reduce(x@, modulus as int, ring_degree(poly_mod@)),
        is_reduced(r@, modulus as int, ring_degree(poly_mod@)),
        is_reduced(x@, modulus as int, ring_degree(poly_mod@)) ==> r@ == x@,
{
    let ghost c = x@;
    let ghost q = modulus as int;
    let ghost n = ring_degree(poly_mod@);
    proof {
        lemma_reduce_steps(c, q, n);
        lemma_reduce(c, q, n);
        if is_reduced(c, q, n) {
            lemma_reduce_of_reduced(c, q, n);
        }
    }
    x.recall_trimmed();
    let inner = mod_coeffs(x, modulus);
    let f = poly_mod.coeffs();
    let remainder = raw_remainder(inner.coeffs(), f);
    let folded = Polynomial::new(remainder);
    proof {
        lemma_trim(crate::poly_spec::fold(inner@, n));
    }
    mod_coeffs(folded, modulus)
}

/// Product of `x` and `y` in `Z_modulus[x] / (poly_mod)`.
pub fn polymul(x: &Polynomial, y: &Polynomial, modulus: i64, poly_mod: &Polynomial) -> (r:
    Polynomial)
    requires
        modulus > 0,
        is_modulus_poly(poly_mod@),
        x@.len() <= ring_degree(poly_mod@),
        y@.len() <= ring_degree(poly_mod@),
        product_fits(x@, y@),
    ensures
        r@ == ring_mul(x@, y@, modulus as int, ring_degree(poly_mod@)),
        is_reduced(r@, modulus as int, ring_degree(poly_mod@)),
{
    let raw = raw_product(x.coeffs(), y.coeffs());
    proof {
        lemma_trim(convolution(x@, y@));
        lemma_reduce_trim(convolution(x@, y@), modulus as int, ring_degree(poly_mod@));
    }
    polyreduce(Polynomial::new(raw), modulus, poly_mod)
}

/// Sum of `x` and `y` in `Z_modulus[x] / (poly_mod)`.
pub fn polyadd(x: &Polynomial, y: &Polynomial, modulus: i64, poly_mod: &Polynomial) -> (r:
    Polynomial)
    requires
        modulus > 0,
        is_modulus_poly(poly_mod@),
        x@.len() <= ring_degree(poly_mod@),
        y@.len() <= ring_degree(poly_mod@),
        sum_fits(x@, y@),
    ensures
        r@ == ring_add(x@, y@, modulus as int, ring_degree(poly_mod@)),
        is_reduced(r@, modulus as int, ring_degree(poly_mod@)),
{
    let raw = raw_sum(x.coeffs(), y.coeffs());
    proof {
        lemma_trim(pointwise_sum(x@, y@));
        lemma_reduce_trim(pointwise_sum(x@, y@), modulus as int, ring_degree(poly_mod@));
    }
    polyreduce(Polynomial::new(raw), modulus, poly_mod)
}

/// Additive inverse of `x` with coefficients in `[0, modulus)`.
pub fn polyinv(x: &Polynomial, modulus: i64) -> (r: Polynomial)
    requires
        modulus > 0,
        forall|i: int| 0 <= i < x@.len() ==> x@[i] != i64::MIN,
    ensures
        r@ == ring_neg(x@, modulus as int),
        r@.len() <= x@.len(),
        forall|i: int| 0 <= i < r@.len() ==> 0 <= #[trigger] r@[i] < modulus,
{
    let cx = x.coeffs();
    assert forall|i: int| 0 <= i < cx.len() implies cx[i] != i64::MIN by {
        assert(ints(cx@)[i] == x@[i]);
    }
    let raw = raw_negation(cx);
    let p = Polynomial::new(raw);
    mod_coeffs(p, modulus)
}

/// Difference of `x` and `y` in `Z_modulus[x] / (poly_mod)`.
pub fn polysub(x: &Polynomial, y: &Polynomial, modulus: i64, poly_mod: &Polynomial) -> (r:
    Polynomial)
    requires
        modulus > 0,
        is_modulus_poly(poly_mod@),
        x@.len() <= ring_degree(poly_mod@),
        y@.len() <= ring_degree(poly_mod@),
        forall|i: int| 0 <= i < y@.len() ==> y@[i] != i64::MIN,
        forall|i: int| 0 <= i < x@.len() ==> x@[i] + modulus - 1 <= i64::MAX,
    ensures
        r@ == ring_sub(x@, y@, modulus as int, ring_degree(poly_mod@)),
        is_reduced(r@, modulus as int, ring_degree(poly_mod@)),
{
    let neg = polyinv(y, modulus);
    proof {
        x.lemma_coefficients_fit();
    }
    polyadd(x, &neg, modulus, poly_mod)
}

/// A polynomial of `size` coefficients drawn uniformly from `[0, q)`:
/// reproducible under a seed, from entropy without one.
pub fn gen_uniform_poly(size: usize, q: i64, seed: Option<u64>) -> (r: Polynomial)
    requires
        q > 0,
    ensures
        r@.len() <= size,
        all_within(r@, 0, q as int),
        seed matches Some(s) ==> r@ == trim(seeded_stream(s, 0, q as int, size as nat)),
{
    let values = draws(seed, 0, q, size);
    proof {
        lemma_trim(ints(values@));
    }
    Polynomial::new(values)
}

/// The canonical representative does not depend on trailing zeros.
proof fn lemma_reduce_trim(c: Seq<int>, q: int, n: nat)
    ensures
        reduce(trim(c), q, n) == reduce(c, q, n),
{
    lemma_trim(c);
    assert(Seq::new(n, |j: int| (coeff(trim(c), j) - coeff(trim(c), j + n)) % q) =~= Seq::new(
        n,
        |j: int| (coeff(c, j) - coeff(c, j + n)) % q,
    ));
}

} // verus!
