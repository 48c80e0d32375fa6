//! Finite sums and the negacyclic product of coefficient functions.
//!
//! A ring element is read as a function from all integers to its
//! coefficients that changes sign when its argument moves by `n` (the rule
//! `x^n = -1`). The product in `Z[x] / (x^n + 1)` is then one sum over a
//! window of `n` places, and its laws follow from laws of finite sums.

use vstd::prelude::*;

verus! {

/// `f(lo) + f(lo + 1) + ... + f(hi - 1)`.
pub open spec fn sum(f: spec_fn(int) -> int, lo: int, hi: int) -> int
    decreases hi - lo,
{
    if hi <= lo {
        0
    } else {
        sum(f, lo, hi - 1) + f(hi - 1)
    }
}

/// Sums of functions that agree on the range are equal.
pub proof fn lemma_sum_ext(f: spec_fn(int) -> int, g: spec_fn(int) -> int, lo: int, hi: int)
    requires
        forall|i: int| lo <= i < hi ==> #[trigger] f(i) == g(i),
    ensures
        sum(f, lo, hi) == sum(g, lo, hi),
    decreases hi - lo,
{
    if hi > lo {
        lemma_sum_ext(f, g, lo, hi - 1);
    }
}

/// The sum of zeros is zero.
pub proof fn lemma_sum_zero(f: spec_fn(int) -> int, lo: int, hi: int)
    requires
        forall|i: int| lo <= i < hi ==> #[trigger] f(i) == 0,
    ensures
        sum(f, lo, hi) == 0,
    decreases hi - lo,
{
    if hi > lo {
        lemma_sum_zero(f, lo, hi - 1);
    }
}

/// A sum of sums is the sum of the sums.
pub proof fn lemma_sum_add(f: spec_fn(int) -> int, g: spec_fn(int) -> int, lo: int, hi: int)
    ensures
        sum(|i: int| f(i) + g(i), lo, hi) == sum(f, lo, hi) + sum(g, lo, hi),
    decreases hi - lo,
{
    if hi > lo {
        lemma_sum_add(f, g, lo, hi - 1);
    }
}

/// A sum of differences is the difference of the sums.
pub proof fn lemma_sum_sub(f: spec_fn(int) -> int, g: spec_fn(int) -> int, lo: int, hi: int)
    ensures
        sum(|i: int| f(i) - g(i), lo, hi) == sum(f, lo, hi) - sum(g, lo, hi),
    decreases hi - lo,
{
    if hi > lo {
        lemma_sum_sub(f, g, lo, hi - 1);
    }
}

/// A constant factor moves out of a sum.
pub proof fn lemma_sum_scale(f: spec_fn(int) -> int, c: int, lo: int, hi: int)
    ensures
        sum(|i: int| c * f(i), lo, hi) == c * sum(f, lo, hi),
    decreases hi - lo,
{
    if hi > lo {
        lemma_sum_scale(f, c, lo, hi - 1);
        let a = sum(f, lo, hi - 1);
        let b = f(hi - 1);
        assert(c * (a + b) == c * a + c * b) by (nonlinear_arith);
    } else {
        assert(c * 0 == 0) by (nonlinear_arith);
    }
}

/// A sum splits at any point of its range.
pub proof fn lemma_sum_split(f: spec_fn(int) -> int, lo: int, mid: int, hi: int)
    requires
        lo <= mid <= hi,
    ensures
        sum(f, lo, hi) == sum(f, lo, mid) + sum(f, mid, hi),
    decreases hi - mid,
{
    if hi > mid {
        lemma_sum_split(f, lo, mid, hi - 1);
    }
}

/// Moving the argument moves the range.
pub proof fn lemma_sum_shift(f: spec_fn(int) -> int, lo: int, hi: int, d: int)
    ensures
        sum(|i: int| f(i + d), lo, hi) == sum(f, lo + d, hi + d),
    decreases hi - lo,
{
    if hi > lo {
        lemma_sum_shift(f, lo, hi - 1, d);
    }
}

/// The first term of a sum.
pub proof fn lemma_sum_first(f: spec_fn(int) -> int, lo: int, hi: int)
    requires
        lo < hi,
    ensures
        sum(f, lo, hi) == f(lo) + sum(f, lo + 1, hi),
    decreases hi - lo,
{
    if hi > lo + 1 {
        lemma_sum_first(f, lo, hi - 1);
    } else {
        assert(sum(f, lo, lo) == 0);
    }
}

/// Running through the range backwards gives the same sum.
pub proof fn lemma_sum_reverse(f: spec_fn(int) -> int, lo: int, hi: int, c: int)
    ensures
        sum(|i: int| f(c - i), lo, hi) == sum(f, c - hi + 1, c - lo + 1),
    decreases hi - lo,
{
    if hi > lo {
        lemma_sum_reverse(f, lo, hi - 1, c);
        lemma_sum_first(f, c - hi + 1, c - lo + 1);
    }
}

/// The order of two nested sums does not matter.
pub proof fn lemma_sum_swap(f: spec_fn(int, int) -> int, n: int, m: int)
    ensures
        sum(|i: int| sum(|j: int| f(i, j), 0, m), 0, n) == sum(
            |j: int| sum(|i: int| f(i, j), 0, n),
            0,
            m,
        ),
    decreases n,
{
    let rows = |i: int| sum(|j: int| f(i, j), 0, m);
    let cols = |j: int| sum(|i: int| f(i, j), 0, n);
    if n <= 0 {
        lemma_sum_zero(cols, 0, m);
    } else {
        lemma_sum_swap(f, n - 1, m);
        let cols_before = |j: int| sum(|i: int| f(i, j), 0, n - 1);
        let last = |j: int| f(n - 1, j);
        assert(rows(n - 1) == sum(last, 0, m));
        lemma_sum_add(cols_before, last, 0, m);
        lemma_sum_ext(cols, |j: int| cols_before(j) + last(j), 0, m);
    }
}

/// `g` takes the same value at `m` and at `m + n`.
pub open spec fn repeats(g: spec_fn(int) -> int, n: int, m: int) -> bool {
    g(m + n) == g(m)
}

/// `g` has period `n`.
pub open spec fn periodic(g: spec_fn(int) -> int, n: int) -> bool {
    forall|m: int| #[trigger] repeats(g, n, m)
}

/// The sum of a function of period `n` over `n` consecutive places does not
/// depend on where the places start.
pub proof fn lemma_sum_window(g: spec_fn(int) -> int, n: int, lo: int)
    requires
        n >= 0,
        periodic(g, n),
    ensures
        sum(g, lo, lo + n) == sum(g, 0, n),
    decreases (if lo >= 0 { lo } else { -lo }),
{
    if lo > 0 {
        lemma_sum_window(g, n, lo - 1);
        // sum over [lo - 1, lo - 1 + n) = g(lo - 1) + sum over [lo, lo - 1 + n)
        if n > 0 {
            lemma_sum_first(g, lo - 1, lo - 1 + n);
            assert(repeats(g, n, lo - 1));
        }
    } else if lo < 0 {
        lemma_sum_window(g, n, lo + 1);
        if n > 0 {
            lemma_sum_first(g, lo, lo + n);
            assert(repeats(g, n, lo));
        }
    }
}

/// A sum of terms of magnitude at most `bound` has magnitude at most the
/// number of terms times `bound`.
pub proof fn lemma_sum_bound(f: spec_fn(int) -> int, lo: int, hi: int, bound: int)
    requires
        lo <= hi,
        bound >= 0,
        forall|i: int| lo <= i < hi ==> -bound <= #[trigger] f(i) <= bound,
    ensures
        -((hi - lo) * bound) <= sum(f, lo, hi) <= (hi - lo) * bound,
    decreases hi - lo,
{
    if hi > lo {
        lemma_sum_bound(f, lo, hi - 1, bound);
        assert((hi - lo) * bound == (hi - 1 - lo) * bound + bound) by (nonlinear_arith);
    } else {
        assert((hi - lo) * bound == 0) by (nonlinear_arith)
            requires
                hi - lo == 0,
        ;
    }
}

/// Sums of functions that are congruent modulo `q` on the range are
/// congruent.
pub proof fn lemma_sum_congruent(
    f: spec_fn(int) -> int,
    g: spec_fn(int) -> int,
    lo: int,
    hi: int,
    q: int,
)
    requires
        q > 0,
        forall|i: int| lo <= i < hi ==> (#[trigger] f(i) - g(i)) % q == 0,
    ensures
        (sum(f, lo, hi) - sum(g, lo, hi)) % q == 0,
    decreases hi - lo,
{
    if hi > lo {
        lemma_sum_congruent(f, g, lo, hi - 1, q);
        lemma_congruent_add(sum(f, lo, hi - 1), sum(g, lo, hi - 1), f(hi - 1), g(hi - 1), q);
    } else {
        vstd::arithmetic::div_mod::lemma_small_mod(0, q as nat);
    }
}

/// Congruences add.
pub proof fn lemma_congruent_add(a: int, b: int, c: int, d: int, q: int)
    requires
        q > 0,
        (a - b) % q == 0,
        (c - d) % q == 0,
    ensures
        ((a + c) - (b + d)) % q == 0,
        ((a - c) - (b - d)) % q == 0,
{
    vstd::arithmetic::div_mod::lemma_fundamental_div_mod(a - b, q);
    vstd::arithmetic::div_mod::lemma_fundamental_div_mod(c - d, q);
    let x = (a - b) / q;
    let y = (c - d) / q;
    assert((a + c) - (b + d) == q * (x + y)) by (nonlinear_arith)
        requires
            a - b == q * x,
            c - d == q * y,
    ;
    assert((a - c) - (b - d) == q * (x - y)) by (nonlinear_arith)
        requires
            a - b == q * x,
            c - d == q * y,
    ;
    vstd::arithmetic::div_mod::lemma_mod_multiples_basic(x + y, q);
    vstd::arithmetic::div_mod::lemma_mod_multiples_basic(x - y, q);
    assert(q * (x + y) == (x + y) * q) by (nonlinear_arith);
    assert(q * (x - y) == (x - y) * q) by (nonlinear_arith);
}

/// Congruences multiply.
pub proof fn lemma_congruent_mul(a: int, b: int, c: int, d: int, q: int)
    requires
        q > 0,
        (a - b) % q == 0,
        (c - d) % q == 0,
    ensures
        (a * c - b * d) % q == 0,
{
    vstd::arithmetic::div_mod::lemma_fundamental_div_mod(a - b, q);
    vstd::arithmetic::div_mod::lemma_fundamental_div_mod(c - d, q);
    let x = (a - b) / q;
    let y = (c - d) / q;
    let z = x * c + b * y;
    assert(a * c - b * d == z * q) by (nonlinear_arith)
        requires
            a - b == q * x,
            c - d == q * y,
            z == x * c + b * y,
    ;
    vstd::arithmetic::div_mod::lemma_mod_multiples_basic(z, q);
}

/// A number is congruent to its remainder.
pub proof fn lemma_congruent_mod(a: int, q: int)
    requires
        q > 0,
    ensures
        (a % q - a) % q == 0,
        (a - a % q) % q == 0,
{
    vstd::arithmetic::div_mod::lemma_fundamental_div_mod(a, q);
    let d = a / q;
    assert(a % q - a == (-d) * q) by (nonlinear_arith)
        requires
            a == q * d + a % q,
    ;
    assert(a - a % q == d * q) by (nonlinear_arith)
        requires
            a == q * d + a % q,
    ;
    vstd::arithmetic::div_mod::lemma_mod_multiples_basic(-d, q);
    vstd::arithmetic::div_mod::lemma_mod_multiples_basic(d, q);
}

/// Congruence is transitive.
pub proof fn lemma_congruent_trans(a: int, b: int, c: int, q: int)
    requires
        q > 0,
        (a - b) % q == 0,
        (b - c) % q == 0,
    ensures
        (a - c) % q == 0,
{
    lemma_congruent_add(a, b, b, c, q);
}

/// Congruence is symmetric.
pub proof fn lemma_congruent_sym(a: int, b: int, q: int)
    requires
        q > 0,
        (a - b) % q == 0,
    ensures
        (b - a) % q == 0,
{
    vstd::arithmetic::div_mod::lemma_small_mod(0, q as nat);
    lemma_congruent_add(0, 0, a, b, q);
}

// ---------------------------------------------------------------------------
// The negacyclic product of coefficient functions
// ---------------------------------------------------------------------------

/// `f` takes opposite values at `m` and at `m + n`.
pub open spec fn flips(f: spec_fn(int) -> int, n: int, m: int) -> bool {
    f(m + n) == -f(m)
}

/// `f` changes sign when its argument moves by `n`.
pub open spec fn anti(f: spec_fn(int) -> int, n: int) -> bool {
    forall|m: int| #[trigger] flips(f, n, m)
}

/// The product of `f` and `g` in `Z[x] / (x^n + 1)`: the coefficient of
/// `x^j` collects `f(i) g(j - i)` over one window of `n` places.
pub open spec fn mulf(f: spec_fn(int) -> int, g: spec_fn(int) -> int, n: int) -> spec_fn(int) -> int {
    |j: int| sum(|i: int| f(i) * g(j - i), 0, n)
}

/// The product changes sign with its argument as its second factor does.
pub proof fn lemma_mulf_anti(f: spec_fn(int) -> int, g: spec_fn(int) -> int, n: int)
    requires
        anti(g, n),
    ensures
        anti(mulf(f, g, n), n),
{
    let fg = mulf(f, g, n);
    assert forall|m: int| #[trigger] flips(fg, n, m) by {
        let term = |i: int| f(i) * g(m - i);
        let moved = |i: int| f(i) * g(m + n - i);
        let negated = |i: int| (-1) * term(i);
        assert forall|i: int| 0 <= i < n implies #[trigger] moved(i) == negated(i) by {
            assert(flips(g, n, m - i));
            assert(f(i) * (-g(m - i)) == (-1) * (f(i) * g(m - i))) by (nonlinear_arith);
        }
        lemma_sum_ext(moved, negated, 0, n);
        lemma_sum_scale(term, -1, 0, n);
    }
}

/// For a function that changes sign every `n`, subtracting `n` changes the
/// sign too.
pub proof fn lemma_anti_back(f: spec_fn(int) -> int, n: int, m: int)
    requires
        anti(f, n),
    ensures
        f(m - n) == -f(m),
{
    assert(flips(f, n, m - n));
}

/// `g(m) f(c - m)` as a function of `m`.
pub open spec fn along(f: spec_fn(int) -> int, g: spec_fn(int) -> int, c: int) -> spec_fn(int) -> int {
    |m: int| g(m) * f(c - m)
}

/// The product of two functions that change sign every `n` has period `n`
/// along any line `m -> (m, c - m)`.
pub proof fn lemma_along_periodic(f: spec_fn(int) -> int, g: spec_fn(int) -> int, n: int, c: int)
    requires
        anti(f, n),
        anti(g, n),
    ensures
        periodic(along(f, g, c), n),
{
    let h = along(f, g, c);
    assert forall|m: int| #[trigger] repeats(h, n, m) by {
        assert(flips(g, n, m));
        lemma_anti_back(f, n, c - m);
        assert((-g(m)) * (-f(c - m)) == g(m) * f(c - m)) by (nonlinear_arith);
    }
}

/// The product is commutative.
pub proof fn lemma_mulf_comm(f: spec_fn(int) -> int, g: spec_fn(int) -> int, n: int, j: int)
    requires
        n >= 0,
        anti(f, n),
        anti(g, n),
    ensures
        mulf(f, g, n)(j) == mulf(g, f, n)(j),
{
    let h = along(f, g, j);
    lemma_along_periodic(f, g, n, j);
    let left = |i: int| f(i) * g(j - i);
    let mirrored = |i: int| h(j - i);
    assert forall|i: int| 0 <= i < n implies #[trigger] left(i) == mirrored(i) by {
        assert(f(i) * g(j - i) == g(j - i) * f(i)) by (nonlinear_arith);
    }
    lemma_sum_ext(left, mirrored, 0, n);
    lemma_sum_reverse(h, 0, n, j);
    lemma_sum_window(h, n, j - n + 1);
}

/// The term `f(i) g(k - i) h(j - k)` of a threefold product, by `(k, i)`.
pub open spec fn cell(
    f: spec_fn(int) -> int,
    g: spec_fn(int) -> int,
    h: spec_fn(int) -> int,
    j: int,
) -> spec_fn(int, int) -> int {
    |k: int, i: int| f(i) * g(k - i) * h(j - k)
}

/// `(f g) h` collects the terms row by row.
proof fn lemma_assoc_rows(
    f: spec_fn(int) -> int,
    g: spec_fn(int) -> int,
    h: spec_fn(int) -> int,
    n: int,
    j: int,
)
    ensures
        mulf(mulf(f, g, n), h, n)(j) == sum(|k: int| sum(|i: int| cell(f, g, h, j)(k, i), 0, n), 0, n),
{
    let fg = mulf(f, g, n);
    let c = cell(f, g, h, j);
    let left = |k: int| fg(k) * h(j - k);
    let by_rows = |k: int| sum(|i: int| c(k, i), 0, n);
    assert forall|k: int| 0 <= k < n implies #[trigger] left(k) == by_rows(k) by {
        let inner = |i: int| f(i) * g(k - i);
        let scaled = |i: int| h(j - k) * inner(i);
        let row = |i: int| c(k, i);
        lemma_sum_scale(inner, h(j - k), 0, n);
        assert forall|i: int| 0 <= i < n implies #[trigger] scaled(i) == row(i) by {
            assert(h(j - k) * (f(i) * g(k - i)) == f(i) * g(k - i) * h(j - k)) by (nonlinear_arith);
        }
        lemma_sum_ext(scaled, row, 0, n);
        assert(fg(k) * h(j - k) == h(j - k) * fg(k)) by (nonlinear_arith);
    }
    lemma_sum_ext(left, by_rows, 0, n);
}

/// One column of the terms of a threefold product sums to `f(i)` times a
/// coefficient of `g h`.
proof fn lemma_assoc_column(
    f: spec_fn(int) -> int,
    g: spec_fn(int) -> int,
    h: spec_fn(int) -> int,
    n: int,
    j: int,
    i: int,
)
    requires
        n >= 0,
        anti(g, n),
        anti(h, n),
    ensures
        sum(|k: int| cell(f, g, h, j)(k, i), 0, n) == f(i) * mulf(g, h, n)(j - i),
{
    let c = cell(f, g, h, j);
    let p = along(h, g, j - i);
    lemma_along_periodic(h, g, n, j - i);
    let column = |k: int| g(k - i) * h(j - k);
    let moved = |k: int| p(k + (-i));
    lemma_sum_ext(column, moved, 0, n);
    lemma_sum_shift(p, 0, n, -i);
    lemma_sum_window(p, n, -i);
    lemma_sum_scale(column, f(i), 0, n);
    let col = |k: int| c(k, i);
    let scaled = |k: int| f(i) * column(k);
    assert forall|k: int| 0 <= k < n implies #[trigger] col(k) == scaled(k) by {
        assert(f(i) * g(k - i) * h(j - k) == f(i) * (g(k - i) * h(j - k))) by (nonlinear_arith);
    }
    lemma_sum_ext(col, scaled, 0, n);
}

/// The product is associative.
pub proof fn lemma_mulf_assoc(
    f: spec_fn(int) -> int,
    g: spec_fn(int) -> int,
    h: spec_fn(int) -> int,
    n: int,
    j: int,
)
    requires
        n >= 0,
        anti(g, n),
        anti(h, n),
    ensures
        mulf(mulf(f, g, n), h, n)(j) == mulf(f, mulf(g, h, n), n)(j),
{
    let gh = mulf(g, h, n);
    let c = cell(f, g, h, j);
    let by_cols = |i: int| sum(|k: int| c(k, i), 0, n);
    let right = |i: int| f(i) * gh(j - i);
    lemma_assoc_rows(f, g, h, n, j);
    lemma_sum_swap(c, n, n);
    assert forall|i: int| 0 <= i < n implies #[trigger] by_cols(i) == right(i) by {
        lemma_assoc_column(f, g, h, n, j, i);
    }
    lemma_sum_ext(by_cols, right, 0, n);
}

/// The product distributes over a sum in its first factor.
pub proof fn lemma_mulf_add_left(
    f1: spec_fn(int) -> int,
    f2: spec_fn(int) -> int,
    g: spec_fn(int) -> int,
    n: int,
    j: int,
)
    ensures
        mulf(|x: int| f1(x) + f2(x), g, n)(j) == mulf(f1, g, n)(j) + mulf(f2, g, n)(j),
{
    let a = |i: int| f1(i) * g(j - i);
    let b = |i: int| f2(i) * g(j - i);
    let both = |x: int| f1(x) + f2(x);
    let whole = |i: int| both(i) * g(j - i);
    let parts = |i: int| a(i) + b(i);
    assert forall|i: int| 0 <= i < n implies #[trigger] whole(i) == parts(i) by {
        assert((f1(i) + f2(i)) * g(j - i) == f1(i) * g(j - i) + f2(i) * g(j - i))
            by (nonlinear_arith);
    }
    lemma_sum_ext(whole, parts, 0, n);
    lemma_sum_add(a, b, 0, n);
}

/// The product distributes over a sum in its second factor.
pub proof fn lemma_mulf_add_right(
    f: spec_fn(int) -> int,
    g1: spec_fn(int) -> int,
    g2: spec_fn(int) -> int,
    n: int,
    j: int,
)
    ensures
        mulf(f, |x: int| g1(x) + g2(x), n)(j) == mulf(f, g1, n)(j) + mulf(f, g2, n)(j),
{
    let a = |i: int| f(i) * g1(j - i);
    let b = |i: int| f(i) * g2(j - i);
    let both = |x: int| g1(x) + g2(x);
    let whole = |i: int| f(i) * both(j - i);
    let parts = |i: int| a(i) + b(i);
    assert forall|i: int| 0 <= i < n implies #[trigger] whole(i) == parts(i) by {
        assert(f(i) * (g1(j - i) + g2(j - i)) == f(i) * g1(j - i) + f(i) * g2(j - i))
            by (nonlinear_arith);
    }
    lemma_sum_ext(whole, parts, 0, n);
    lemma_sum_add(a, b, 0, n);
}

/// Products of factors that are congruent modulo `q` are congruent: the first
/// factors on the window, the second ones everywhere.
pub proof fn lemma_mulf_congruent(
    f1: spec_fn(int) -> int,
    f2: spec_fn(int) -> int,
    g1: spec_fn(int) -> int,
    g2: spec_fn(int) -> int,
    n: int,
    j: int,
    q: int,
)
    requires
        q > 0,
        forall|i: int| 0 <= i < n ==> (#[trigger] f1(i) - f2(i)) % q == 0,
        forall|m: int| (#[trigger] g1(m) - g2(m)) % q == 0,
    ensures
        (mulf(f1, g1, n)(j) - mulf(f2, g2, n)(j)) % q == 0,
{
    let a = |i: int| f1(i) * g1(j - i);
    let b = |i: int| f2(i) * g2(j - i);
    assert forall|i: int| 0 <= i < n implies (#[trigger] a(i) - b(i)) % q == 0 by {
        lemma_congruent_mul(f1(i), f2(i), g1(j - i), g2(j - i), q);
    }
    lemma_sum_congruent(a, b, 0, n, q);
}

/// Products of factors that agree, the first ones on the window and the
/// second ones everywhere, are equal.
pub proof fn lemma_mulf_ext(
    f1: spec_fn(int) -> int,
    f2: spec_fn(int) -> int,
    g1: spec_fn(int) -> int,
    g2: spec_fn(int) -> int,
    n: int,
    j: int,
)
    requires
        forall|i: int| 0 <= i < n ==> #[trigger] f1(i) == f2(i),
        forall|m: int| #[trigger] g1(m) == g2(m),
    ensures
        mulf(f1, g1, n)(j) == mulf(f2, g2, n)(j),
{
    let a = |i: int| f1(i) * g1(j - i);
    let b = |i: int| f2(i) * g2(j - i);
    lemma_sum_ext(a, b, 0, n);
}

} // verus!
