//! Ring elements as coefficient functions.
//!
//! Connects the sequence-level ring operations of [`crate::poly_spec`] with
//! the function-level product of [`crate::algebra`]: a sequence *represents*
//! a function when its coefficients agree with the function modulo `q` on the
//! window `[0, n)`, and every ring operation on sequences represents the
//! matching operation on functions.

use vstd::prelude::*;
use crate::algebra::{sum, anti, flips, mulf, lemma_sum_ext, lemma_sum_zero, lemma_sum_sub, lemma_sum_split, lemma_sum_scale, lemma_mulf_congruent, lemma_mulf_anti, lemma_mulf_ext, lemma_mulf_add_left, lemma_mulf_add_right, lemma_congruent_add, lemma_congruent_mod, lemma_congruent_trans, lemma_congruent_sym};
use crate::utils::{dot_upto, dot};
use crate::poly_spec::{coeff, pointwise_sum, residues, conv_sum, convolution, is_reduced, ring_add, ring_mul, ring_neg, ring_sub, lemma_reduce, lemma_ring_neg};

verus! {

/// The coefficient function of `x` in `Z[x] / (x^n + 1)`: the coefficients on
/// `[0, n)`, continued to all integers with a change of sign every `n`.
pub open spec fn ext(x: Seq<int>, n: int) -> spec_fn(int) -> int {
    |m: int|
        if (m / n) % 2 == 0 {
            coeff(x, m % n)
        } else {
            -coeff(x, m % n)
        }
}

/// On the window the coefficient function gives the coefficients, and just
/// below it their negatives.
pub proof fn lemma_ext_window(x: Seq<int>, n: int, m: int)
    requires
        n >= 1,
    ensures
        0 <= m < n ==> ext(x, n)(m) == coeff(x, m),
        -n <= m < 0 ==> ext(x, n)(m) == -coeff(x, m + n),
{
    if 0 <= m < n {
        vstd::arithmetic::div_mod::lemma_fundamental_div_mod_converse(m, n, 0, m);
    }
    if -n <= m < 0 {
        vstd::arithmetic::div_mod::lemma_fundamental_div_mod_converse(m, n, -1, m + n);
    }
}

/// The coefficient function changes sign every `n`.
pub proof fn lemma_ext_anti(x: Seq<int>, n: int)
    requires
        n >= 1,
    ensures
        anti(ext(x, n), n),
{
    let f = ext(x, n);
    assert forall|m: int| #[trigger] flips(f, n, m) by {
        vstd::arithmetic::div_mod::lemma_fundamental_div_mod(m, n);
        let d = m / n;
        let r = m % n;
        assert(m + n == n * (d + 1) + r) by (nonlinear_arith)
            requires
                m == n * d + r,
        ;
        vstd::arithmetic::div_mod::lemma_fundamental_div_mod_converse(m + n, n, d + 1, r);
    }
}

/// A function that changes sign every `n` is determined by its values on the
/// window.
pub proof fn lemma_anti_unfold(f: spec_fn(int) -> int, n: int, m: int)
    requires
        n >= 1,
        anti(f, n),
    ensures
        f(m) == (if (m / n) % 2 == 0 {
            f(m % n)
        } else {
            -f(m % n)
        }),
    decreases (if m >= 0 { m } else { n - m }),
{
    vstd::arithmetic::div_mod::lemma_fundamental_div_mod(m, n);
    let d = m / n;
    let r = m % n;
    if m >= n {
        lemma_anti_unfold(f, n, m - n);
        assert(m - n == n * (d - 1) + r) by (nonlinear_arith)
            requires
                m == n * d + r,
        ;
        vstd::arithmetic::div_mod::lemma_fundamental_div_mod_converse(m - n, n, d - 1, r);
        assert(flips(f, n, m - n));
    } else if m < 0 {
        lemma_anti_unfold(f, n, m + n);
        assert(m + n == n * (d + 1) + r) by (nonlinear_arith)
            requires
                m == n * d + r,
        ;
        vstd::arithmetic::div_mod::lemma_fundamental_div_mod_converse(m + n, n, d + 1, r);
        assert(flips(f, n, m));
    } else {
        vstd::arithmetic::div_mod::lemma_fundamental_div_mod_converse(m, n, 0, m);
    }
}

/// The term `a[i] b[k - i]` of the product coefficient of `x^k`.
pub open spec fn conv_term(a: Seq<int>, b: Seq<int>, k: int) -> spec_fn(int) -> int {
    |i: int| coeff(a, i) * coeff(b, k - i)
}

/// The recursive partial sum of a product coefficient is a finite sum.
proof fn lemma_conv_sum(a: Seq<int>, b: Seq<int>, k: int, upto: nat)
    ensures
        conv_sum(a, b, k, upto) == sum(conv_term(a, b, k), 0, upto as int),
    decreases upto,
{
    if upto > 0 {
        lemma_conv_sum(a, b, k, (upto - 1) as nat);
    }
}

/// Every coefficient of the raw product, stored or not, is the sum of its
/// terms over a window that covers the first factor.
pub proof fn lemma_conv_coeff(a: Seq<int>, b: Seq<int>, k: int, n: int)
    requires
        a.len() <= n,
        k >= 0,
    ensures
        coeff(convolution(a, b), k) == sum(conv_term(a, b, k), 0, n),
{
    let term = conv_term(a, b, k);
    let la = a.len() as int;
    lemma_sum_split(term, 0, la, n);
    assert(sum(term, la, n) == 0) by {
        assert forall|i: int| la <= i < n implies #[trigger] term(i) == 0 by {
            assert(0 * coeff(b, k - i) == 0) by (nonlinear_arith);
        }
        lemma_sum_zero(term, la, n);
    }
    if 0 <= k < convolution(a, b).len() {
        lemma_conv_sum(a, b, k, a.len());
    } else {
        assert forall|i: int| 0 <= i < la implies #[trigger] term(i) == 0 by {
            assert(coeff(a, i) * 0 == 0) by (nonlinear_arith);
        }
        lemma_sum_zero(term, 0, la);
    }
}

/// Folding the raw product modulo `x^n + 1` gives the function-level
/// product of the coefficient functions.
pub proof fn lemma_fold_is_mulf(a: Seq<int>, b: Seq<int>, n: int, j: int)
    requires
        n >= 1,
        a.len() <= n,
        b.len() <= n,
        0 <= j < n,
    ensures
        coeff(convolution(a, b), j) - coeff(convolution(a, b), j + n) == mulf(
            ext(a, n),
            ext(b, n),
            n,
        )(j),
{
    let low = conv_term(a, b, j);
    let high = conv_term(a, b, j + n);
    let fa = ext(a, n);
    let fb = ext(b, n);
    let by_function = |i: int| fa(i) * fb(j - i);
    let by_sequence = |i: int| low(i) - high(i);
    lemma_conv_coeff(a, b, j, n);
    lemma_conv_coeff(a, b, j + n, n);
    lemma_sum_sub(low, high, 0, n);
    assert forall|i: int| 0 <= i < n implies #[trigger] by_sequence(i) == by_function(i) by {
        lemma_ext_window(a, n, i);
        lemma_ext_window(b, n, j - i);
        let x = coeff(a, i);
        if j - i >= 0 {
            assert(x * 0 == 0) by (nonlinear_arith);
        } else {
            assert(x * 0 == 0) by (nonlinear_arith);
            let y = coeff(b, j - i + n);
            assert(0 - x * y == x * (-y)) by (nonlinear_arith);
        }
    }
    lemma_sum_ext(by_sequence, by_function, 0, n);
}

// ---------------------------------------------------------------------------
// Representation
// ---------------------------------------------------------------------------

/// The coefficient of `x^j` in `x` is congruent to `f(j)` modulo `q`.
pub open spec fn agrees(x: Seq<int>, f: spec_fn(int) -> int, q: int, j: int) -> bool {
    (coeff(x, j) - f(j)) % q == 0
}

/// `x` has at most `n` coefficients, congruent modulo `q` to the values of
/// `f` on the window.
pub open spec fn represents(x: Seq<int>, f: spec_fn(int) -> int, q: int, n: int) -> bool {
    &&& x.len() <= n
    &&& forall|j: int| 0 <= j < n ==> #[trigger] agrees(x, f, q, j)
}

/// A sequence of at most `n` coefficients represents its own coefficient
/// function.
pub proof fn lemma_represents_self(x: Seq<int>, q: int, n: int)
    requires
        q > 0,
        n >= 1,
        x.len() <= n,
    ensures
        represents(x, ext(x, n), q, n),
{
    assert forall|j: int| 0 <= j < n implies #[trigger] agrees(x, ext(x, n), q, j) by {
        lemma_ext_window(x, n, j);
        vstd::arithmetic::div_mod::lemma_small_mod(0, q as nat);
    }
}

/// Representation carries over to a function that is congruent on the
/// window.
pub proof fn lemma_represents_congruent(
    x: Seq<int>,
    f: spec_fn(int) -> int,
    g: spec_fn(int) -> int,
    q: int,
    n: int,
)
    requires
        q > 0,
        represents(x, f, q, n),
        forall|j: int| 0 <= j < n ==> (#[trigger] f(j) - g(j)) % q == 0,
    ensures
        represents(x, g, q, n),
{
    assert forall|j: int| 0 <= j < n implies #[trigger] agrees(x, g, q, j) by {
        assert(agrees(x, f, q, j));
        lemma_congruent_trans(coeff(x, j), f(j), g(j), q);
    }
}

/// A representing sequence agrees with a sign-changing function everywhere,
/// through its coefficient function.
pub proof fn lemma_represents_everywhere(
    x: Seq<int>,
    f: spec_fn(int) -> int,
    q: int,
    n: int,
    m: int,
)
    requires
        q > 0,
        n >= 1,
        represents(x, f, q, n),
        anti(f, n),
    ensures
        (ext(x, n)(m) - f(m)) % q == 0,
{
    lemma_anti_unfold(f, n, m);
    let r = m % n;
    assert(agrees(x, f, q, r));
    if (m / n) % 2 != 0 {
        lemma_congruent_sym(coeff(x, r), f(r), q);
    }
}

/// The ring product represents the function-level product.
pub proof fn lemma_represents_mul(
    x: Seq<int>,
    y: Seq<int>,
    f: spec_fn(int) -> int,
    g: spec_fn(int) -> int,
    q: int,
    n: nat,
)
    requires
        q > 0,
        n >= 1,
        represents(x, f, q, n as int),
        represents(y, g, q, n as int),
        anti(g, n as int),
    ensures
        represents(ring_mul(x, y, q, n), mulf(f, g, n as int), q, n as int),
{
    let p = ring_mul(x, y, q, n);
    let conv = convolution(x, y);
    let fx = ext(x, n as int);
    let fy = ext(y, n as int);
    lemma_reduce(conv, q, n);
    assert forall|j: int| 0 <= j < n implies #[trigger] agrees(p, mulf(f, g, n as int), q, j) by {
        lemma_fold_is_mulf(x, y, n as int, j);
        let exact = mulf(fx, fy, n as int)(j);
        lemma_congruent_mod(exact, q);
        assert forall|i: int| 0 <= i < n implies (#[trigger] fx(i) - f(i)) % q == 0 by {
            lemma_ext_window(x, n as int, i);
            assert(agrees(x, f, q, i));
        }
        assert forall|m: int| (#[trigger] fy(m) - g(m)) % q == 0 by {
            lemma_represents_everywhere(y, g, q, n as int, m);
        }
        lemma_mulf_congruent(fx, f, fy, g, n as int, j, q);
        lemma_congruent_trans(coeff(p, j), exact, mulf(f, g, n as int)(j), q);
    }
}

/// The ring sum represents the sum of the functions.
pub proof fn lemma_represents_add(
    x: Seq<int>,
    y: Seq<int>,
    f: spec_fn(int) -> int,
    g: spec_fn(int) -> int,
    q: int,
    n: nat,
)
    requires
        q > 0,
        n >= 1,
        represents(x, f, q, n as int),
        represents(y, g, q, n as int),
    ensures
        represents(ring_add(x, y, q, n), |m: int| f(m) + g(m), q, n as int),
{
    let s = ring_add(x, y, q, n);
    let raw = pointwise_sum(x, y);
    let h = |m: int| f(m) + g(m);
    lemma_reduce(raw, q, n);
    assert forall|j: int| 0 <= j < n implies #[trigger] agrees(s, h, q, j) by {
        let exact = coeff(x, j) + coeff(y, j);
        lemma_congruent_mod(exact, q);
        assert(agrees(x, f, q, j));
        assert(agrees(y, g, q, j));
        lemma_congruent_add(coeff(x, j), f(j), coeff(y, j), g(j), q);
        lemma_congruent_trans(coeff(s, j), exact, h(j), q);
    }
}

/// The ring negative represents the negative of the function.
pub proof fn lemma_represents_neg(x: Seq<int>, f: spec_fn(int) -> int, q: int, n: nat)
    requires
        q > 0,
        n >= 1,
        represents(x, f, q, n as int),
    ensures
        represents(ring_neg(x, q), |m: int| -f(m), q, n as int),
{
    let s = ring_neg(x, q);
    let h = |m: int| -f(m);
    lemma_ring_neg(x, q);
    assert forall|j: int| 0 <= j < n implies #[trigger] agrees(s, h, q, j) by {
        let exact = -coeff(x, j);
        lemma_congruent_mod(exact, q);
        assert(agrees(x, f, q, j));
        lemma_congruent_sym(coeff(x, j), f(j), q);
        lemma_congruent_trans(coeff(s, j), exact, h(j), q);
    }
}

/// The ring difference represents the difference of the functions.
pub proof fn lemma_represents_sub(
    x: Seq<int>,
    y: Seq<int>,
    f: spec_fn(int) -> int,
    g: spec_fn(int) -> int,
    q: int,
    n: nat,
)
    requires
        q > 0,
        n >= 1,
        represents(x, f, q, n as int),
        represents(y, g, q, n as int),
    ensures
        represents(ring_sub(x, y, q, n), |m: int| f(m) - g(m), q, n as int),
{
    let neg = |m: int| -g(m);
    let via = |m: int| f(m) + neg(m);
    let direct = |m: int| f(m) - g(m);
    lemma_represents_neg(y, g, q, n);
    lemma_represents_add(x, ring_neg(y, q), f, neg, q, n);
    assert forall|j: int| 0 <= j < n implies (#[trigger] via(j) - direct(j)) % q == 0 by {
        vstd::arithmetic::div_mod::lemma_small_mod(0, q as nat);
    }
    lemma_represents_congruent(ring_sub(x, y, q, n), via, direct, q, n as int);
}

/// A canonical element is determined by a function it represents: its
/// coefficients are the remainders of the function's values.
pub proof fn lemma_represents_reduced(
    x: Seq<int>,
    f: spec_fn(int) -> int,
    q: int,
    n: nat,
    j: int,
)
    requires
        q > 0,
        is_reduced(x, q, n),
        represents(x, f, q, n as int),
        0 <= j < n,
    ensures
        coeff(x, j) == f(j) % q,
{
    assert(agrees(x, f, q, j));
    let c = coeff(x, j);
    lemma_congruent_mod(f(j), q);
    lemma_congruent_trans(c, f(j), f(j) % q, q);
    // two residues in [0, q) that are congruent are equal
    let d = c - f(j) % q;
    if d > 0 {
        vstd::arithmetic::div_mod::lemma_small_mod(d as nat, q as nat);
    } else if d < 0 {
        vstd::arithmetic::div_mod::lemma_mod_add_multiples_vanish(d, q);
        vstd::arithmetic::div_mod::lemma_small_mod((d + q) as nat, q as nat);
    }
}

// ---------------------------------------------------------------------------
// Vectors of ring elements
// ---------------------------------------------------------------------------

/// The coefficient functions of the polynomials of a vector, by index.
pub open spec fn vext(v: Seq<Seq<int>>, n: int) -> spec_fn(int) -> spec_fn(int) -> int {
    |i: int| ext(v[i], n)
}

/// The function-level dot product of the first `k` members of two families:
/// the sum of their products.
pub open spec fn dotf(
    f: spec_fn(int) -> spec_fn(int) -> int,
    g: spec_fn(int) -> spec_fn(int) -> int,
    k: int,
    n: int,
) -> spec_fn(int) -> int {
    |m: int| sum(|i: int| mulf(f(i), g(i), n)(m), 0, k)
}

/// The first `k` members of the family change sign every `n`.
pub open spec fn anti_all(f: spec_fn(int) -> spec_fn(int) -> int, k: int, n: int) -> bool {
    forall|i: int| 0 <= i < k ==> anti(#[trigger] f(i), n)
}

/// Every polynomial of `v` represents the member of the family with its
/// index.
pub open spec fn represents_all(
    v: Seq<Seq<int>>,
    f: spec_fn(int) -> spec_fn(int) -> int,
    q: int,
    n: int,
) -> bool {
    forall|i: int| 0 <= i < v.len() ==> represents(#[trigger] v[i], f(i), q, n)
}

/// The sum of two functions that change sign every `n` does so too.
pub proof fn lemma_add_anti(f: spec_fn(int) -> int, g: spec_fn(int) -> int, n: int)
    requires
        anti(f, n),
        anti(g, n),
    ensures
        anti(|m: int| f(m) + g(m), n),
        anti(|m: int| f(m) - g(m), n),
{
    let a = |m: int| f(m) + g(m);
    let b = |m: int| f(m) - g(m);
    assert forall|m: int| #[trigger] flips(a, n, m) by {
        assert(flips(f, n, m));
        assert(flips(g, n, m));
    }
    assert forall|m: int| #[trigger] flips(b, n, m) by {
        assert(flips(f, n, m));
        assert(flips(g, n, m));
    }
}

/// A vector of polynomials of at most `n` coefficients represents its
/// coefficient functions, which change sign every `n`.
pub proof fn lemma_vext(v: Seq<Seq<int>>, q: int, n: int)
    requires
        q > 0,
        n >= 1,
        forall|i: int| 0 <= i < v.len() ==> (#[trigger] v[i]).len() <= n,
    ensures
        represents_all(v, vext(v, n), q, n),
        anti_all(vext(v, n), v.len() as int, n),
{
    let f = vext(v, n);
    assert forall|i: int| 0 <= i < v.len() implies represents(#[trigger] v[i], f(i), q, n) by {
        lemma_represents_self(v[i], q, n);
    }
    assert forall|i: int| 0 <= i < v.len() implies anti(#[trigger] f(i), n) by {
        lemma_ext_anti(v[i], n);
    }
}

/// The function-level dot product changes sign every `n` as the members of
/// its second family do.
pub proof fn lemma_dotf_anti(
    f: spec_fn(int) -> spec_fn(int) -> int,
    g: spec_fn(int) -> spec_fn(int) -> int,
    k: int,
    n: int,
)
    requires
        anti_all(g, k, n),
    ensures
        anti(dotf(f, g, k, n), n),
{
    let d = dotf(f, g, k, n);
    assert forall|m: int| #[trigger] flips(d, n, m) by {
        let here = |i: int| mulf(f(i), g(i), n)(m);
        let there = |i: int| mulf(f(i), g(i), n)(m + n);
        let negated = |i: int| (-1) * here(i);
        assert forall|i: int| 0 <= i < k implies #[trigger] there(i) == negated(i) by {
            lemma_mulf_anti(f(i), g(i), n);
            assert(flips(mulf(f(i), g(i), n), n, m));
        }
        lemma_sum_ext(there, negated, 0, k);
        lemma_sum_scale(here, -1, 0, k);
    }
}

/// The ring-level dot product represents the function-level one.
pub proof fn lemma_represents_dot(
    a: Seq<Seq<int>>,
    b: Seq<Seq<int>>,
    f: spec_fn(int) -> spec_fn(int) -> int,
    g: spec_fn(int) -> spec_fn(int) -> int,
    q: int,
    n: nat,
    upto: nat,
)
    requires
        q > 0,
        n >= 1,
        upto <= a.len(),
        upto <= b.len(),
        represents_all(a, f, q, n as int),
        represents_all(b, g, q, n as int),
        anti_all(g, b.len() as int, n as int),
    ensures
        represents(dot_upto(a, b, q, n, upto), dotf(f, g, upto as int, n as int), q, n as int),
    decreases upto,
{
    let target = dotf(f, g, upto as int, n as int);
    if upto == 0 {
        assert forall|j: int| 0 <= j < n implies #[trigger] agrees(
            dot_upto(a, b, q, n, 0),
            target,
            q,
            j,
        ) by {
            assert(target(j) == 0);
            vstd::arithmetic::div_mod::lemma_small_mod(0, q as nat);
        }
    } else {
        let last = (upto - 1) as int;
        let before = dot_upto(a, b, q, n, last as nat);
        let before_f = dotf(f, g, last, n as int);
        lemma_represents_dot(a, b, f, g, q, n, last as nat);
        let product = ring_mul(a[last], b[last], q, n);
        let product_f = mulf(f(last), g(last), n as int);
        lemma_represents_mul(a[last], b[last], f(last), g(last), q, n);
        lemma_represents_add(before, product, before_f, product_f, q, n);
        let both = |m: int| before_f(m) + product_f(m);
        assert forall|j: int| 0 <= j < n implies (#[trigger] both(j) - target(j)) % q == 0 by {
            vstd::arithmetic::div_mod::lemma_small_mod(0, q as nat);
        }
        lemma_represents_congruent(dot_upto(a, b, q, n, upto), both, target, q, n as int);
    }
}

/// Dot products whose first families are congruent modulo `q` on the window
/// are congruent.
pub proof fn lemma_dotf_congruent(
    f1: spec_fn(int) -> spec_fn(int) -> int,
    f2: spec_fn(int) -> spec_fn(int) -> int,
    g: spec_fn(int) -> spec_fn(int) -> int,
    k: int,
    n: int,
    j: int,
    q: int,
)
    requires
        q > 0,
        forall|i: int, x: int|
            0 <= i < k && 0 <= x < n ==> (#[trigger] f1(i)(x) - f2(i)(x)) % q == 0,
    ensures
        (dotf(f1, g, k, n)(j) - dotf(f2, g, k, n)(j)) % q == 0,
{
    let one = |i: int| mulf(f1(i), g(i), n)(j);
    let two = |i: int| mulf(f2(i), g(i), n)(j);
    assert forall|i: int| 0 <= i < k implies (#[trigger] one(i) - two(i)) % q == 0 by {
        let a = f1(i);
        let b = f2(i);
        let c = g(i);
        assert forall|x: int| 0 <= x < n implies (#[trigger] a(x) - b(x)) % q == 0 by {
            assert((f1(i)(x) - f2(i)(x)) % q == 0);
        }
        assert forall|m: int| (#[trigger] c(m) - c(m)) % q == 0 by {
            vstd::arithmetic::div_mod::lemma_small_mod(0, q as nat);
        }
        lemma_mulf_congruent(a, b, c, c, n, j, q);
    }
    crate::algebra::lemma_sum_congruent(one, two, 0, k, q);
    assert(dotf(f1, g, k, n)(j) == crate::algebra::sum(one, 0, k));
    assert(dotf(f2, g, k, n)(j) == crate::algebra::sum(two, 0, k));
}

/// The function that sums the first `k` members of a family.
pub open spec fn sumf(p: spec_fn(int) -> spec_fn(int) -> int, k: int) -> spec_fn(int) -> int {
    |x: int| sum(|t: int| p(t)(x), 0, k)
}

/// The product distributes over a finite sum in its first factor.
pub proof fn lemma_mulf_sum_left(
    p: spec_fn(int) -> spec_fn(int) -> int,
    g: spec_fn(int) -> int,
    k: int,
    n: int,
    j: int,
)
    ensures
        mulf(sumf(p, k), g, n)(j) == sum(|t: int| mulf(p(t), g, n)(j), 0, k),
    decreases k,
{
    if k <= 0 {
        let zero = |i: int| sumf(p, k)(i) * g(j - i);
        assert forall|i: int| 0 <= i < n implies #[trigger] zero(i) == 0 by {
            assert(0 * g(j - i) == 0) by (nonlinear_arith);
        }
        lemma_sum_zero(zero, 0, n);
    } else {
        lemma_mulf_sum_left(p, g, k - 1, n, j);
        let before = sumf(p, k - 1);
        let last = p(k - 1);
        let both = |x: int| before(x) + last(x);
        lemma_mulf_add_left(before, last, g, n, j);
        lemma_mulf_ext(sumf(p, k), both, g, g, n, j);
    }
}

/// The product distributes over a finite sum in its second factor.
pub proof fn lemma_mulf_sum_right(
    f: spec_fn(int) -> int,
    p: spec_fn(int) -> spec_fn(int) -> int,
    k: int,
    n: int,
    j: int,
)
    ensures
        mulf(f, sumf(p, k), n)(j) == sum(|t: int| mulf(f, p(t), n)(j), 0, k),
    decreases k,
{
    if k <= 0 {
        let zero = |i: int| f(i) * sumf(p, k)(j - i);
        assert forall|i: int| 0 <= i < n implies #[trigger] zero(i) == 0 by {
            assert(f(i) * 0 == 0) by (nonlinear_arith);
        }
        lemma_sum_zero(zero, 0, n);
    } else {
        lemma_mulf_sum_right(f, p, k - 1, n, j);
        let before = sumf(p, k - 1);
        let last = p(k - 1);
        let both = |x: int| before(x) + last(x);
        lemma_mulf_add_right(f, before, last, n, j);
        lemma_mulf_ext(f, f, sumf(p, k), both, n, j);
    }
}

} // verus!
