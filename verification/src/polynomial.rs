//! The polynomial value type and the calls into `polynomial_ring`.
//!
//! A [`Polynomial`] owns its coefficients, lowest degree first, and never
//! stores a trailing zero, so two values are the same polynomial exactly when
//! their views are equal. The raw integer operations (sum, product, negation,
//! remainder modulo `x^n + 1`) are delegated to the `polynomial_ring` crate;
//! the four functions at the end of this file state what those calls return.

use vstd::prelude::*;
use crate::poly_spec::{coeff, trim, is_trimmed, cyclotomic, pointwise_sum, negation, convolution, fold, max_abs};

verus! {

/// A machine-integer coefficient sequence read as mathematical integers.
pub open spec fn ints(s: Seq<i64>) -> Seq<int> {
    Seq::new(s.len(), |i: int| s[i] as int)
}

/// The views of a vector of polynomials.
pub open spec fn vector_view(v: Seq<Polynomial>) -> Seq<Seq<int>> {
    Seq::new(v.len(), |i: int| v[i]@)
}

/// The views of a matrix of polynomials, row by row.
pub open spec fn matrix_view(m: Seq<Vec<Polynomial>>) -> Seq<Seq<Seq<int>>> {
    Seq::new(m.len(), |i: int| vector_view(m[i]@))
}

/// A polynomial with `i64` coefficients.
#[derive(Debug)]
pub struct Polynomial {
    coeffs: Vec<i64>,
}

impl View for Polynomial {
    type V = Seq<int>;

    /// The coefficients, lowest degree first, without trailing zeros.
    closed spec fn view(&self) -> Seq<int> {
        ints(self.coeffs@)
    }
}

impl Clone for Polynomial {
    fn clone(&self) -> (r: Self)
        ensures
            r@ == self@,
    {
        proof {
            use_type_invariant(self);
        }
        let coeffs = self.coeffs.clone();
        Polynomial { coeffs }
    }
}

impl Polynomial {
    #[verifier::type_invariant]
    spec fn no_trailing_zero(&self) -> bool {
        is_trimmed(ints(self.coeffs@))
    }

    /// The polynomial with the given coefficients, lowest degree first.
    /// Trailing zeros are dropped.
    pub fn new(coeffs: Vec<i64>) -> (p: Polynomial)
        ensures
            p@ == trim(ints(coeffs@)),
    {
        let mut kept = coeffs;
        while kept.len() > 0 && kept[kept.len() - 1] == 0
            invariant
                trim(ints(kept@)) == trim(ints(coeffs@)),
            decreases kept.len(),
        {
            let ghost before = ints(kept@);
            kept.pop();
            assert(ints(kept@) =~= before.drop_last());
        }
        Polynomial { coeffs: kept }
    }

    /// The zero polynomial.
    pub fn zero() -> (p: Polynomial)
        ensures
            p@ == Seq::<int>::empty(),
    {
        let p = Polynomial { coeffs: Vec::new() };
        p
    }

    /// The stored coefficients, lowest degree first.
    pub fn coeffs(&self) -> (r: &Vec<i64>)
        ensures
            ints(r@) == self@,
            is_trimmed(self@),
    {
        proof {
            use_type_invariant(self);
        }
        &self.coeffs
    }

    /// Recalls that a polynomial value stores no trailing zero. Compiles to
    /// nothing.
    pub(crate) fn recall_trimmed(&self)
        ensures
            is_trimmed(self@),
    {
        proof {
            use_type_invariant(self);
        }
    }

    /// Every coefficient of a polynomial value is an `i64`.
    pub proof fn lemma_coefficients_fit(self)
        ensures
            forall|i: int| 0 <= i < self@.len() ==> i64::MIN <= #[trigger] self@[i] <= i64::MAX,
    {
    }

    /// Number of stored coefficients: the degree plus one, or zero for the
    /// zero polynomial.
    pub fn len(&self) -> (r: usize)
        ensures
            r == self@.len(),
    {
        self.coeffs.len()
    }
}

/// `polynomial_ring`'s `+` on the polynomials with coefficients `x` and `y`.
///
/// Trusted: the result holds the coefficient-wise sums, without trailing
/// zeros. The crate adds with the machine `+=`, so no sum may leave `i64`.
#[verifier::external_body]
pub(crate) fn raw_sum(x: &Vec<i64>, y: &Vec<i64>) -> (r: Vec<i64>)
    requires
        forall|i: int|
            i64::MIN <= #[trigger] coeff(ints(x@), i) + coeff(ints(y@), i) <= i64::MAX,
    ensures
        ints(r@) == trim(pointwise_sum(ints(x@), ints(y@))),
{
    let a = polynomial_ring::Polynomial::new(x.clone());
    let b = polynomial_ring::Polynomial::new(y.clone());
    (&a + &b).coeffs().to_vec()
}

/// `polynomial_ring`'s `*` on the polynomials with coefficients `x` and `y`.
///
/// Trusted: the result is the convolution of the two coefficient sequences,
/// without trailing zeros. The crate accumulates each output coefficient term
/// by term in `i64`; a coefficient has at most as many terms as the shorter
/// operand has coefficients, so the bound below keeps every partial sum in
/// range.
#[verifier::external_body]
pub(crate) fn raw_product(x: &Vec<i64>, y: &Vec<i64>) -> (r: Vec<i64>)
    requires
        max_abs(ints(x@)) * max_abs(ints(y@)) * (if x.len() <= y.len() { x.len() } else { y.len() })
            <= i64::MAX,
    ensures
        ints(r@) == trim(convolution(ints(x@), ints(y@))),
{
    let a = polynomial_ring::Polynomial::new(x.clone());
    let b = polynomial_ring::Polynomial::new(y.clone());
    (&a * &b).coeffs().to_vec()
}

/// `polynomial_ring`'s unary `-` on the polynomial with coefficients `x`.
///
/// Trusted: every coefficient is negated. The crate negates in `i64`, which
/// has no negative of `i64::MIN`.
#[verifier::external_body]
pub(crate) fn raw_negation(x: &Vec<i64>) -> (r: Vec<i64>)
    requires
        forall|i: int| 0 <= i < x.len() ==> x[i] != i64::MIN,
    ensures
        ints(r@) == trim(negation(ints(x@))),
{
    let a = polynomial_ring::Polynomial::new(x.clone());
    (-&a).coeffs().to_vec()
}

/// `polynomial_ring`'s `division`, keeping the remainder, of the polynomial
/// with coefficients `x` by the polynomial with coefficients `f`.
///
/// Trusted, and only for `f = x^n + 1` and a dividend of at most `2n`
/// coefficients: long division by `x^n + 1` subtracts the coefficient of
/// degree `n + j` from the coefficient of degree `j` and drops the upper
/// half. The subtraction is done in `i64`.
#[verifier::external_body]
pub(crate) fn raw_remainder(x: &Vec<i64>, f: &Vec<i64>) -> (r: Vec<i64>)
    requires
        f.len() >= 2,
        ints(f@) == cyclotomic((f.len() - 1) as nat),
        x.len() <= 2 * (f.len() - 1),
        forall|j: int|
            i64::MIN <= #[trigger] coeff(ints(x@), j) - coeff(ints(x@), j + (f.len() - 1))
                <= i64::MAX,
    ensures
        ints(r@) == trim(fold(ints(x@), (f.len() - 1) as nat)),
{
    let mut a = polynomial_ring::Polynomial::new(x.clone());
    let g = polynomial_ring::Polynomial::new(f.clone());
    a.division(&g);
    a.coeffs().to_vec()
}

} // verus!
