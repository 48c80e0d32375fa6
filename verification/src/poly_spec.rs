//! Mathematics of coefficient sequences.
//!
//! A polynomial is modelled as the sequence of its integer coefficients,
//! lowest degree first. Everything here is ghost code: the definitions that
//! the contracts of the executable modules are written in, and the lemmas
//! that connect them.

use vstd::prelude::*;
use vstd::arithmetic::div_mod::{lemma_small_mod, lemma_sub_mod_noop};

verus! {

/// Coefficient of `x^i` in `s`; zero outside the stored range.
pub open spec fn coeff(s: Seq<int>, i: int) -> int {
    if 0 <= i < s.len() {
        s[i]
    } else {
        0
    }
}

/// `s` without its trailing zero coefficients.
pub open spec fn trim(s: Seq<int>) -> Seq<int>
    decreases s.len(),
{
    if s.len() == 0 {
        s
    } else if s.last() == 0 {
        trim(s.drop_last())
    } else {
        s
    }
}

/// No trailing zero: the last stored coefficient, if any, is the leading one.
pub open spec fn is_trimmed(s: Seq<int>) -> bool {
    s.len() > 0 ==> s.last() != 0
}

/// The modulus polynomial `x^n + 1`.
pub open spec fn cyclotomic(n: nat) -> Seq<int> {
    Seq::new(n + 1, |i: int| if i == 0 || i == n { 1int } else { 0int })
}

/// Coefficient-wise sum, as long as the longer operand.
pub open spec fn pointwise_sum(a: Seq<int>, b: Seq<int>) -> Seq<int> {
    Seq::new(if a.len() >= b.len() { a.len() } else { b.len() }, |i: int| coeff(a, i) + coeff(b, i))
}

/// Coefficient-wise negation.
pub open spec fn negation(a: Seq<int>) -> Seq<int> {
    Seq::new(a.len(), |i: int| -a[i])
}

/// Every coefficient taken modulo `q` (the Euclidean remainder, in `[0, q)` for `q > 0`).
pub open spec fn residues(a: Seq<int>, q: int) -> Seq<int> {
    Seq::new(a.len(), |i: int| a[i] % q)
}

/// Partial sum `a[0]*b[k] + a[1]*b[k-1] + ... + a[upto-1]*b[k-upto+1]` of the
/// products that contribute to `x^k`.
pub open spec fn conv_sum(a: Seq<int>, b: Seq<int>, k: int, upto: nat) -> int
    decreases upto,
{
    if upto == 0 {
        0
    } else {
        conv_sum(a, b, k, (upto - 1) as nat) + coeff(a, upto - 1) * coeff(b, k - (upto - 1))
    }
}

/// Coefficient of `x^k` in the product of `a` and `b`.
pub open spec fn conv_coeff(a: Seq<int>, b: Seq<int>, k: int) -> int {
    conv_sum(a, b, k, a.len())
}

/// The raw product of two polynomials: the convolution of their coefficients.
pub open spec fn convolution(a: Seq<int>, b: Seq<int>) -> Seq<int> {
    if a.len() == 0 || b.len() == 0 {
        Seq::empty()
    } else {
        Seq::new((a.len() + b.len() - 1) as nat, |k: int| conv_coeff(a, b, k))
    }
}

/// Remainder modulo `x^n + 1` of a polynomial of fewer than `2n` coefficients:
/// the term of degree `n + j` is subtracted from the term of degree `j`.
pub open spec fn fold(c: Seq<int>, n: nat) -> Seq<int> {
    Seq::new(if c.len() <= n { c.len() } else { n }, |j: int| coeff(c, j) - coeff(c, j + n))
}

/// Largest absolute value among the coefficients; zero for the empty sequence.
pub open spec fn max_abs(s: Seq<int>) -> int
    decreases s.len(),
{
    if s.len() == 0 {
        0
    } else {
        let rest = max_abs(s.drop_last());
        let last = if s.last() < 0 { -s.last() } else { s.last() };
        if last > rest { last } else { rest }
    }
}

/// The product of `a` and `b` can be accumulated in `i64`: a coefficient of
/// the product has at most as many terms as the shorter operand has
/// coefficients, each at most the product of the largest magnitudes.
pub open spec fn product_fits(a: Seq<int>, b: Seq<int>) -> bool {
    max_abs(a) * max_abs(b) * (if a.len() <= b.len() { a.len() } else { b.len() }) <= i64::MAX
}

/// Every coefficient of the sum of `a` and `b` is an `i64`.
pub open spec fn sum_fits(a: Seq<int>, b: Seq<int>) -> bool {
    forall|i: int| i64::MIN <= #[trigger] coeff(a, i) + coeff(b, i) <= i64::MAX
}

/// At most `n` coefficients, each of magnitude below `q`: the shape of every
/// polynomial the scheme handles, canonical or noise.
pub open spec fn is_small(p: Seq<int>, q: int, n: nat) -> bool {
    &&& p.len() <= n
    &&& forall|i: int| 0 <= i < p.len() ==> -q < #[trigger] p[i] < q
}

/// Canonical representative modulo `(q, x^n + 1)` of a polynomial of fewer
/// than `2n` coefficients: degree below `n`, coefficients in `[0, q)`, no
/// trailing zero.
pub open spec fn reduce(c: Seq<int>, q: int, n: nat) -> Seq<int> {
    trim(Seq::new(n, |j: int| (coeff(c, j) - coeff(c, j + n)) % q))
}

/// An element of the ring in canonical form.
pub open spec fn is_reduced(c: Seq<int>, q: int, n: nat) -> bool {
    &&& c.len() <= n
    &&& is_trimmed(c)
    &&& forall|i: int| 0 <= i < c.len() ==> 0 <= #[trigger] c[i] < q
}

/// Sum in `Z_q[x] / (x^n + 1)`.
pub open spec fn ring_add(a: Seq<int>, b: Seq<int>, q: int, n: nat) -> Seq<int> {
    reduce(pointwise_sum(a, b), q, n)
}

/// Product in `Z_q[x] / (x^n + 1)`.
pub open spec fn ring_mul(a: Seq<int>, b: Seq<int>, q: int, n: nat) -> Seq<int> {
    reduce(convolution(a, b), q, n)
}

/// Additive inverse of every coefficient modulo `q`.
pub open spec fn ring_neg(a: Seq<int>, q: int) -> Seq<int> {
    trim(residues(negation(a), q))
}

/// Difference in `Z_q[x] / (x^n + 1)`.
pub open spec fn ring_sub(a: Seq<int>, b: Seq<int>, q: int, n: nat) -> Seq<int> {
    ring_add(a, ring_neg(b, q), q, n)
}

// ---------------------------------------------------------------------------
// Trimming
// ---------------------------------------------------------------------------

/// `trim` keeps a prefix, drops only zeros, and leaves no trailing zero.
pub proof fn lemma_trim(s: Seq<int>)
    ensures
        is_trimmed(trim(s)),
        trim(s).len() <= s.len(),
        trim(s) == s.subrange(0, trim(s).len() as int),
        forall|i: int| trim(s).len() <= i < s.len() ==> s[i] == 0,
        forall|i: int| coeff(trim(s), i) == coeff(s, i),
    decreases s.len(),
{
    if s.len() > 0 && s.last() == 0 {
        lemma_trim(s.drop_last());
        assert(trim(s) =~= s.subrange(0, trim(s).len() as int));
        assert forall|i: int| coeff(trim(s), i) == coeff(s, i) by {
            assert(coeff(trim(s), i) == coeff(s.drop_last(), i));
        }
    } else {
        assert(s =~= s.subrange(0, s.len() as int));
    }
}

/// Two sequences without trailing zeros that agree as polynomials are equal.
pub proof fn lemma_trimmed_equal(a: Seq<int>, b: Seq<int>)
    requires
        is_trimmed(a),
        is_trimmed(b),
        forall|i: int| coeff(a, i) == coeff(b, i),
    ensures
        a == b,
{
    if a.len() < b.len() {
        assert(coeff(a, b.len() - 1) == coeff(b, b.len() - 1));
    } else if b.len() < a.len() {
        assert(coeff(a, a.len() - 1) == coeff(b, a.len() - 1));
    }
    assert forall|i: int| 0 <= i < a.len() implies a[i] == b[i] by {
        assert(coeff(a, i) == coeff(b, i));
    }
}

/// Trimming is determined by the polynomial, not by how many zeros pad it.
pub proof fn lemma_trim_equal(a: Seq<int>, b: Seq<int>)
    requires
        forall|i: int| coeff(a, i) == coeff(b, i),
    ensures
        trim(a) == trim(b),
{
    lemma_trim(a);
    lemma_trim(b);
    assert forall|i: int| coeff(trim(a), i) == coeff(trim(b), i) by {
        assert(coeff(a, i) == coeff(b, i));
    }
    lemma_trimmed_equal(trim(a), trim(b));
}

// ---------------------------------------------------------------------------
// Coefficients of the derived sequences
// ---------------------------------------------------------------------------

/// Reducing the coefficients commutes with reading a coefficient.
pub proof fn lemma_residues_coeff(a: Seq<int>, q: int)
    requires
        q > 0,
    ensures
        forall|i: int| #[trigger] coeff(residues(a, q), i) == coeff(a, i) % q,
        forall|i: int| 0 <= #[trigger] coeff(residues(a, q), i) < q,
{
    assert forall|i: int| #[trigger] coeff(residues(a, q), i) == coeff(a, i) % q && 0 <= coeff(
        residues(a, q),
        i,
    ) < q by {
        lemma_small_mod(0, q as nat);
    }
}

/// The coefficients of a canonical representative, and that it is canonical.
pub proof fn lemma_reduce(c: Seq<int>, q: int, n: nat)
    requires
        q > 0,
    ensures
        is_reduced(reduce(c, q, n), q, n),
        forall|j: int|
            0 <= j < n ==> #[trigger] coeff(reduce(c, q, n), j) == (coeff(c, j) - coeff(c, j + n))
                % q,
        forall|j: int| !(0 <= j < n) ==> #[trigger] coeff(reduce(c, q, n), j) == 0,
{
    let full = Seq::new(n, |j: int| (coeff(c, j) - coeff(c, j + n)) % q);
    lemma_trim(full);
    assert forall|j: int| 0 <= j < n implies #[trigger] coeff(reduce(c, q, n), j) == (coeff(c, j)
        - coeff(c, j + n)) % q by {
        assert(coeff(reduce(c, q, n), j) == coeff(full, j));
    }
}

/// The executable reduction works in four steps: trim, reduce the
/// coefficients, fold modulo `x^n + 1`, reduce the coefficients again. The
/// outcome is the canonical representative.
pub proof fn lemma_reduce_steps(c: Seq<int>, q: int, n: nat)
    requires
        q > 0,
    ensures
        ({
            let inner = trim(residues(trim(c), q));
            let outer = trim(residues(trim(fold(inner, n)), q));
            &&& outer == reduce(c, q, n)
            &&& inner.len() <= c.len()
            &&& forall|i: int| 0 <= #[trigger] coeff(inner, i) < q
        }),
{
    let start = trim(c);
    let inner_raw = residues(start, q);
    let inner = trim(inner_raw);
    let fold_raw = fold(inner, n);
    let folded = trim(fold_raw);
    let outer_raw = residues(folded, q);
    let full = Seq::new(n, |j: int| (coeff(c, j) - coeff(c, j + n)) % q);
    lemma_trim(c);
    lemma_trim(inner_raw);
    lemma_trim(fold_raw);
    lemma_residues_coeff(start, q);
    lemma_residues_coeff(folded, q);
    assert forall|i: int| coeff(outer_raw, i) == coeff(full, i) by {
        if 0 <= i < n {
            assert(coeff(fold_raw, i) == coeff(inner, i) - coeff(inner, i + n));
            assert(coeff(inner_raw, i) == coeff(start, i) % q);
            assert(coeff(inner_raw, i + n) == coeff(start, i + n) % q);
            lemma_sub_mod_noop(coeff(c, i), coeff(c, i + n), q);
        }
    }
    lemma_trim_equal(outer_raw, full);
}

/// Reducing an element that is already canonical leaves it unchanged.
pub proof fn lemma_reduce_of_reduced(c: Seq<int>, q: int, n: nat)
    requires
        q > 0,
        is_reduced(c, q, n),
    ensures
        reduce(c, q, n) == c,
{
    lemma_reduce(c, q, n);
    assert forall|j: int| coeff(reduce(c, q, n), j) == coeff(c, j) by {
        if 0 <= j < n {
            if j < c.len() {
                lemma_small_mod(c[j] as nat, q as nat);
            } else {
                lemma_small_mod(0, q as nat);
            }
        }
    }
    lemma_trimmed_equal(reduce(c, q, n), c);
}

/// Reduction is idempotent.
pub proof fn lemma_reduce_idempotent(c: Seq<int>, q: int, n: nat)
    requires
        q > 0,
    ensures
        reduce(reduce(c, q, n), q, n) == reduce(c, q, n),
{
    lemma_reduce(c, q, n);
    lemma_reduce_of_reduced(reduce(c, q, n), q, n);
}

/// Reducing the coefficients twice is reducing them once.
pub proof fn lemma_residues_idempotent(a: Seq<int>, q: int)
    requires
        q > 0,
    ensures
        trim(residues(trim(residues(a, q)), q)) == trim(residues(a, q)),
{
    let once = trim(residues(a, q));
    lemma_trim(residues(a, q));
    assert forall|i: int| coeff(residues(once, q), i) == coeff(once, i) by {
        lemma_small_mod(coeff(once, i) as nat, q as nat);
    }
    lemma_trim(residues(once, q));
    lemma_trimmed_equal(trim(residues(once, q)), once);
}

/// The additive inverse modulo `q` has coefficients in `[0, q)` and is no
/// longer than its argument.
pub proof fn lemma_ring_neg(a: Seq<int>, q: int)
    requires
        q > 0,
    ensures
        ring_neg(a, q).len() <= a.len(),
        is_trimmed(ring_neg(a, q)),
        forall|i: int| #[trigger] coeff(ring_neg(a, q), i) == (-coeff(a, i)) % q,
        forall|i: int| 0 <= #[trigger] coeff(ring_neg(a, q), i) < q,
{
    let raw = residues(negation(a), q);
    lemma_trim(raw);
    lemma_residues_coeff(negation(a), q);
    assert forall|i: int| #[trigger] coeff(ring_neg(a, q), i) == (-coeff(a, i)) % q && 0 <= coeff(
        ring_neg(a, q),
        i,
    ) < q by {
        assert(0 <= coeff(raw, i) < q);
    }
}

// ---------------------------------------------------------------------------
// Magnitudes
// ---------------------------------------------------------------------------

/// `max_abs` bounds every coefficient, and is bounded by any common bound.
pub proof fn lemma_max_abs(s: Seq<int>, bound: int)
    requires
        bound >= 0,
        forall|i: int| 0 <= i < s.len() ==> -bound <= #[trigger] s[i] <= bound,
    ensures
        0 <= max_abs(s) <= bound,
    decreases s.len(),
{
    if s.len() > 0 {
        lemma_max_abs(s.drop_last(), bound);
    }
}

/// Small polynomials can be multiplied and added in `i64` whenever
/// `q * q * n` fits.
pub proof fn lemma_small_fits(a: Seq<int>, b: Seq<int>, q: int, n: nat)
    requires
        q >= 1,
        q * q * n <= i64::MAX,
        is_small(a, q, n),
        is_small(b, q, n),
    ensures
        product_fits(a, b),
        sum_fits(a, b),
{
    lemma_max_abs(a, q - 1);
    lemma_max_abs(b, q - 1);
    let m = if a.len() <= b.len() { a.len() } else { b.len() };
    let x = max_abs(a);
    let y = max_abs(b);
    assert(x * y * m <= q * q * n) by (nonlinear_arith)
        requires
            0 <= x <= q - 1,
            0 <= y <= q - 1,
            0 <= m <= n,
            q >= 1,
    ;
    if n > 0 {
        assert(2 * q - 2 <= q * q * n) by (nonlinear_arith)
            requires
                q >= 1,
                n >= 1,
        ;
    }
}

} // verus!
