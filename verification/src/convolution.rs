//! Finite sums of integers, and products in `Z[X] / (X^d - w)` computed without reduction.
use vstd::arithmetic::div_mod::*;
use vstd::arithmetic::mul::*;
use vstd::arithmetic::power::*;
use vstd::prelude::*;

use crate::field::{cong, lemma_cong_add, lemma_cong_mul};
use crate::number_theory::{
    binom,
    is_prime,
    lemma_binom_above,
    lemma_binom_diag,
    lemma_fermat_pow_p,
    lemma_prime_divides_binom,
};

verus! {

/// `h(lo) + h(lo + 1) + ... + h(lo + n - 1)`, adding from the top.
pub open spec fn sum_up(h: spec_fn(int) -> int, lo: int, n: nat) -> int
    decreases n,
{
    if n == 0 {
        0
    } else {
        sum_up(h, lo, (n - 1) as nat) + h(lo + n - 1)
    }
}

/// `h(lo + n - 1) + ... + h(lo)`, the same terms in reverse order.
pub open spec fn sum_down(h: spec_fn(int) -> int, lo: int, n: nat) -> int
    decreases n,
{
    if n == 0 {
        0
    } else {
        sum_down(h, lo + 1, (n - 1) as nat) + h(lo)
    }
}

/// The first term can be taken off the front of a sum.
pub proof fn lemma_sum_up_peel(h: spec_fn(int) -> int, lo: int, n: nat)
    requires
        n >= 1,
    ensures
        sum_up(h, lo, n) == h(lo) + sum_up(h, lo + 1, (n - 1) as nat),
    decreases n,
{
    if n > 1 {
        lemma_sum_up_peel(h, lo, (n - 1) as nat);
        assert(sum_up(h, lo + 1, (n - 1) as nat) == sum_up(h, lo + 1, (n - 2) as nat) + h(lo + 1 + (n
            - 1) - 1));
        assert(lo + 1 + (n - 1) - 1 == lo + n - 1);
    } else {
        assert(sum_up(h, lo, 1) == sum_up(h, lo, 0) + h(lo + 1 - 1));
        assert(lo + 1 - 1 == lo);
    }
}

/// Summing in either order gives the same total.
pub proof fn lemma_sum_up_down(h: spec_fn(int) -> int, lo: int, n: nat)
    ensures
        sum_up(h, lo, n) == sum_down(h, lo, n),
    decreases n,
{
    if n >= 1 {
        lemma_sum_up_peel(h, lo, n);
        lemma_sum_up_down(h, lo + 1, (n - 1) as nat);
    }
}

/// A sum of `m + n` terms is the sum of its first `m` and of its last `n`.
pub proof fn lemma_sum_split(h: spec_fn(int) -> int, lo: int, m: nat, n: nat)
    ensures
        sum_up(h, lo, m + n) == sum_up(h, lo, m) + sum_up(h, lo + m, n),
    decreases n,
{
    if n > 0 {
        lemma_sum_split(h, lo, m, (n - 1) as nat);
    }
}

/// A sum taken backwards equals one taken forwards when the terms match up reflected.
pub proof fn lemma_sum_reflect(h: spec_fn(int) -> int, g: spec_fn(int) -> int, lo: int, lo2: int, n: nat)
    requires
        forall|t: int| 0 <= t < n ==> #[trigger] h(lo + n - 1 - t) == g(lo2 + t),
    ensures
        sum_down(h, lo, n) == sum_up(g, lo2, n),
    decreases n,
{
    if n > 0 {
        assert(h(lo + n - 1 - (n - 1)) == g(lo2 + (n - 1)));
        assert forall|t: int| 0 <= t < n - 1 implies #[trigger] h((lo + 1) + (n - 1) - 1 - t) == g(
            lo2 + t,
        ) by {
            assert(h(lo + n - 1 - t) == g(lo2 + t));
        }
        lemma_sum_reflect(h, g, lo + 1, lo2, (n - 1) as nat);
    }
}


/// Sums whose terms agree one by one are equal, wherever each starts.
pub proof fn lemma_sum_shift(h: spec_fn(int) -> int, g: spec_fn(int) -> int, lo: int, lo2: int, n: nat)
    requires
        forall|t: int| 0 <= t < n ==> #[trigger] h(lo + t) == g(lo2 + t),
    ensures
        sum_up(h, lo, n) == sum_up(g, lo2, n),
    decreases n,
{
    if n > 0 {
        assert(h(lo + (n - 1)) == g(lo2 + (n - 1)));
        lemma_sum_shift(h, g, lo, lo2, (n - 1) as nat);
    }
}

/// A sum of zeros is zero.
pub proof fn lemma_sum_zero(h: spec_fn(int) -> int, lo: int, n: nat)
    requires
        forall|t: int| 0 <= t < n ==> #[trigger] h(lo + t) == 0,
    ensures
        sum_up(h, lo, n) == 0,
    decreases n,
{
    if n > 0 {
        assert(h(lo + (n - 1)) == 0);
        lemma_sum_zero(h, lo, (n - 1) as nat);
    }
}

/// The sum of termwise sums is the sum of the two sums.
pub proof fn lemma_sum_add(g: spec_fn(int) -> int, h: spec_fn(int) -> int, lo: int, n: nat)
    ensures
        sum_up(|j: int| g(j) + h(j), lo, n) == sum_up(g, lo, n) + sum_up(h, lo, n),
    decreases n,
{
    if n > 0 {
        lemma_sum_add(g, h, lo, (n - 1) as nat);
    }
}

/// A common factor comes out of a sum.
pub proof fn lemma_sum_scale(c: int, g: spec_fn(int) -> int, lo: int, n: nat)
    ensures
        sum_up(|j: int| c * g(j), lo, n) == c * sum_up(g, lo, n),
    decreases n,
{
    if n > 0 {
        lemma_sum_scale(c, g, lo, (n - 1) as nat);
        lemma_mul_is_distributive_add(c, sum_up(g, lo, (n - 1) as nat), g(lo + n - 1));
    }
}

/// Sums of termwise congruent terms are congruent.
pub proof fn lemma_sum_cong(g: spec_fn(int) -> int, h: spec_fn(int) -> int, lo: int, n: nat, m: int)
    requires
        m > 0,
        forall|t: int| 0 <= t < n ==> cong(#[trigger] g(lo + t), h(lo + t), m),
    ensures
        cong(sum_up(g, lo, n), sum_up(h, lo, n), m),
    decreases n,
{
    if n > 0 {
        assert(cong(g(lo + (n - 1)), h(lo + (n - 1)), m));
        lemma_sum_cong(g, h, lo, (n - 1) as nat, m);
        lemma_cong_add(
            sum_up(g, lo, (n - 1) as nat),
            g(lo + n - 1),
            sum_up(h, lo, (n - 1) as nat),
            h(lo + n - 1),
            m,
        );
    }
}

/// The two orders of summing a double sum give the same total.
pub proof fn lemma_sum_swap(f: spec_fn(int, int) -> int, m: nat, n: nat)
    ensures
        sum_up(|j: int| sum_up(|i: int| f(i, j), 0, m), 0, n) == sum_up(
            |i: int| sum_up(|j: int| f(i, j), 0, n),
            0,
            m,
        ),
    decreases m,
{
    if m == 0 {
        lemma_sum_zero(|j: int| sum_up(|i: int| f(i, j), 0, m), 0, n);
    } else {
        let k = (m - 1) as nat;
        lemma_sum_swap(f, k, n);
        let inner = |j: int| sum_up(|i: int| f(i, j), 0, k);
        let last = |j: int| f(k as int, j);
        let outer = |j: int| sum_up(|i: int| f(i, j), 0, m);
        let parts = |j: int| inner(j) + last(j);
        lemma_sum_add(inner, last, 0, n);
        assert forall|t: int| 0 <= t < n implies #[trigger] outer(0 + t) == parts(0 + t) by {}
        lemma_sum_shift(outer, parts, 0, 0, n);
        assert((|i: int| sum_up(|j: int| f(i, j), 0, n))(k as int) == sum_up(last, 0, n)) by {
            assert((|j: int| f(k as int, j)) =~= last);
        }
    }
}


/// Multiplication by `X` in `Z[X] / (X^d - w)`: every coefficient moves up one place
/// and the top one wraps around to the bottom, multiplied by `w`.
pub open spec fn shift(b: Seq<int>, w: int) -> Seq<int> {
    Seq::new(
        b.len(),
        |k: int|
            if k == 0 {
                w * b[b.len() - 1]
            } else {
                b[k - 1]
            },
    )
}

/// `X^i * b` in `Z[X] / (X^d - w)`.
pub open spec fn xpow(b: Seq<int>, w: int, i: nat) -> Seq<int>
    decreases i,
{
    if i == 0 {
        b
    } else {
        shift(xpow(b, w, (i - 1) as nat), w)
    }
}

/// Coefficient `k` of `a * b` in `Z[X] / (X^d - w)`: the sum over `i` of `a[i]` times
/// coefficient `k` of `X^i * b`.
pub open spec fn iconv_coeff(a: Seq<int>, b: Seq<int>, w: int, k: int) -> int {
    sum_up(|i: int| a[i] * xpow(b, w, i as nat)[k], 0, a.len())
}

/// The product of `a` and `b` in `Z[X] / (X^d - w)`, with no reduction of the coefficients.
pub open spec fn iconv(a: Seq<int>, b: Seq<int>, w: int) -> Seq<int> {
    Seq::new(a.len(), |k: int| iconv_coeff(a, b, w, k))
}

/// Multiplying by a power of `X` keeps the length.
pub proof fn lemma_xpow_len(b: Seq<int>, w: int, i: nat)
    ensures
        xpow(b, w, i).len() == b.len(),
    decreases i,
{
    if i > 0 {
        lemma_xpow_len(b, w, (i - 1) as nat);
    }
}

/// Coefficient `k` of `X^i * b`, for `i` below the degree: `b[k - i]`, or `w * b[k + d - i]`
/// where the power wraps around.
pub proof fn lemma_xpow_index(b: Seq<int>, w: int, i: nat, k: int)
    requires
        i < b.len(),
        0 <= k < b.len(),
    ensures
        xpow(b, w, i)[k] == if i <= k {
            b[k - i]
        } else {
            w * b[k + b.len() - i]
        },
    decreases i,
{
    if i > 0 {
        let d = b.len() as int;
        lemma_xpow_len(b, w, (i - 1) as nat);
        if k == 0 {
            lemma_xpow_index(b, w, (i - 1) as nat, d - 1);
        } else {
            lemma_xpow_index(b, w, (i - 1) as nat, k - 1);
        }
    }
}

/// `X^d * b == w * b` in `Z[X] / (X^d - w)`.
pub proof fn lemma_xpow_wrap(b: Seq<int>, w: int, k: int)
    requires
        b.len() >= 1,
        0 <= k < b.len(),
    ensures
        xpow(b, w, b.len())[k] == w * b[k],
{
    let d = b.len() as int;
    lemma_xpow_len(b, w, (d - 1) as nat);
    if k == 0 {
        lemma_xpow_index(b, w, (d - 1) as nat, d - 1);
    } else {
        lemma_xpow_index(b, w, (d - 1) as nat, k - 1);
    }
}

/// Multiplying by `X` before or after a product gives the same: `(X * b) * c == X * (b * c)`.
pub proof fn lemma_iconv_shift(b: Seq<int>, c: Seq<int>, w: int)
    requires
        b.len() >= 1,
        c.len() == b.len(),
    ensures
        iconv(shift(b, w), c, w) == shift(iconv(b, c, w), w),
{
    let d = b.len() as int;
    let sb = shift(b, w);
    let bc = iconv(b, c, w);
    assert forall|k: int| 0 <= k < d implies #[trigger] iconv(sb, c, w)[k] == shift(bc, w)[k] by {
        let g = |j: int| b[j] * xpow(c, w, (j + 1) as nat)[k];
        let h = |j: int| sb[j] * xpow(c, w, j as nat)[k];
        // the product with the shifted b, as the sum of the g terms
        lemma_sum_up_peel(h, 0, d as nat);
        assert forall|t: int| 0 <= t < d - 1 implies #[trigger] h(1 + t) == g(0 + t) by {}
        lemma_sum_shift(h, g, 1, 0, (d - 1) as nat);
        lemma_xpow_wrap(c, w, k);
        assert(g(d - 1) == b[d - 1] * (w * c[k]));
        assert(h(0) == (w * b[d - 1]) * c[k]);
        lemma_mul_is_associative(w, b[d - 1], c[k]);
        lemma_mul_is_associative(b[d - 1], w, c[k]);
        lemma_mul_is_commutative(w, b[d - 1]);
        assert(sum_up(g, 0, d as nat) == sum_up(g, 0, (d - 1) as nat) + g(d - 1));
        // the shifted product, as the sum of the g terms
        if k == 0 {
            let e = |j: int| b[j] * xpow(c, w, j as nat)[d - 1];
            let we = |j: int| w * e(j);
            lemma_sum_scale(w, e, 0, d as nat);
            assert forall|t: int| 0 <= t < d implies #[trigger] g(0 + t) == we(0 + t) by {
                lemma_xpow_len(c, w, t as nat);
                assert(xpow(c, w, (t + 1) as nat)[0] == w * xpow(c, w, t as nat)[d - 1]);
                lemma_mul_is_associative(b[t], w, xpow(c, w, t as nat)[d - 1]);
                lemma_mul_is_associative(w, b[t], xpow(c, w, t as nat)[d - 1]);
                lemma_mul_is_commutative(w, b[t]);
            }
            lemma_sum_shift(g, we, 0, 0, d as nat);
            assert(sum_up(we, 0, d as nat) == w * bc[d - 1]);
        } else {
            let e = |j: int| b[j] * xpow(c, w, j as nat)[k - 1];
            assert forall|t: int| 0 <= t < d implies #[trigger] g(0 + t) == e(0 + t) by {
                lemma_xpow_len(c, w, t as nat);
                assert(xpow(c, w, (t + 1) as nat)[k] == xpow(c, w, t as nat)[k - 1]);
            }
            lemma_sum_shift(g, e, 0, 0, d as nat);
        }
    }
    assert(iconv(sb, c, w) =~= shift(bc, w));
}

/// `(X^i * b) * c == X^i * (b * c)`.
pub proof fn lemma_iconv_xpow(b: Seq<int>, c: Seq<int>, w: int, i: nat)
    requires
        b.len() >= 1,
        c.len() == b.len(),
    ensures
        iconv(xpow(b, w, i), c, w) == xpow(iconv(b, c, w), w, i),
    decreases i,
{
    if i > 0 {
        lemma_xpow_len(b, w, (i - 1) as nat);
        lemma_iconv_xpow(b, c, w, (i - 1) as nat);
        lemma_iconv_shift(xpow(b, w, (i - 1) as nat), c, w);
    }
}

/// The product in `Z[X] / (X^d - w)` is associative: `(a * b) * c == a * (b * c)`.
pub proof fn lemma_iconv_associative(a: Seq<int>, b: Seq<int>, c: Seq<int>, w: int)
    requires
        b.len() == a.len(),
        c.len() == a.len(),
    ensures
        iconv(iconv(a, b, w), c, w) == iconv(a, iconv(b, c, w), w),
{
    let d = a.len() as int;
    let ab = iconv(a, b, w);
    let bc = iconv(b, c, w);
    assert forall|k: int| 0 <= k < d implies #[trigger] iconv(ab, c, w)[k] == iconv(a, bc, w)[k] by {
        let f = |i: int, j: int| a[i] * xpow(b, w, i as nat)[j] * xpow(c, w, j as nat)[k];
        let lhs = |j: int| ab[j] * xpow(c, w, j as nat)[k];
        let rows = |j: int| sum_up(|i: int| f(i, j), 0, d as nat);
        assert forall|t: int| 0 <= t < d implies #[trigger] lhs(0 + t) == rows(0 + t) by {
            let y = xpow(c, w, t as nat)[k];
            let u = |i: int| a[i] * xpow(b, w, i as nat)[t];
            let yu = |i: int| y * u(i);
            let ft = |i: int| f(i, t);
            lemma_sum_scale(y, u, 0, d as nat);
            assert forall|r: int| 0 <= r < d implies #[trigger] yu(0 + r) == ft(0 + r) by {
                lemma_mul_is_commutative(y, u(r));
            }
            lemma_sum_shift(yu, ft, 0, 0, d as nat);
            assert(rows(0 + t) == sum_up(ft, 0, d as nat)) by {
                assert((|i: int| f(i, 0 + t)) =~= ft);
            }
            lemma_mul_is_commutative(y, ab[t]);
        }
        lemma_sum_shift(lhs, rows, 0, 0, d as nat);
        lemma_sum_swap(f, d as nat, d as nat);
        let cols = |i: int| sum_up(|j: int| f(i, j), 0, d as nat);
        let rhs = |i: int| a[i] * xpow(bc, w, i as nat)[k];
        assert forall|t: int| 0 <= t < d implies #[trigger] cols(0 + t) == rhs(0 + t) by {
            let xb = xpow(b, w, t as nat);
            lemma_xpow_len(b, w, t as nat);
            lemma_iconv_xpow(b, c, w, t as nat);
            let v = |j: int| xb[j] * xpow(c, w, j as nat)[k];
            let av = |j: int| a[t] * v(j);
            lemma_sum_scale(a[t], v, 0, d as nat);
            let ft = |j: int| f(t, j);
            assert forall|r: int| 0 <= r < d implies #[trigger] ft(0 + r) == av(0 + r) by {
                lemma_mul_is_associative(a[t], xb[r], xpow(c, w, r as nat)[k]);
            }
            lemma_sum_shift(ft, av, 0, 0, d as nat);
            assert(cols(0 + t) == sum_up(ft, 0, d as nat)) by {
                assert((|j: int| f(0 + t, j)) =~= ft);
            }
            assert(iconv(xb, c, w)[k] == sum_up(v, 0, d as nat));
        }
        lemma_sum_shift(cols, rhs, 0, 0, d as nat);
    }
    assert(iconv(ab, c, w) =~= iconv(a, bc, w));
}

/// Products with termwise congruent left factors have congruent coefficients.
pub proof fn lemma_iconv_cong_left(x: Seq<int>, x2: Seq<int>, c: Seq<int>, w: int, k: int, m: int)
    requires
        m > 0,
        x2.len() == x.len(),
        forall|i: int| 0 <= i < x.len() ==> cong(#[trigger] x[i], x2[i], m),
    ensures
        cong(iconv_coeff(x, c, w, k), iconv_coeff(x2, c, w, k), m),
{
    let g = |i: int| x[i] * xpow(c, w, i as nat)[k];
    let h = |i: int| x2[i] * xpow(c, w, i as nat)[k];
    assert forall|t: int| 0 <= t < x.len() implies cong(#[trigger] g(0 + t), h(0 + t), m) by {
        let y = xpow(c, w, t as nat)[k];
        lemma_cong_mul(x[t], y, x2[t], y, m);
    }
    lemma_sum_cong(g, h, 0, x.len(), m);
}

/// Products with termwise congruent right factors have congruent coefficients.
pub proof fn lemma_iconv_cong_right(a: Seq<int>, y: Seq<int>, y2: Seq<int>, w: int, k: int, m: int)
    requires
        m > 0,
        y.len() == a.len(),
        y2.len() == a.len(),
        0 <= k < a.len(),
        forall|i: int| 0 <= i < y.len() ==> cong(#[trigger] y[i], y2[i], m),
    ensures
        cong(iconv_coeff(a, y, w, k), iconv_coeff(a, y2, w, k), m),
{
    let d = a.len() as int;
    let g = |i: int| a[i] * xpow(y, w, i as nat)[k];
    let h = |i: int| a[i] * xpow(y2, w, i as nat)[k];
    assert forall|t: int| 0 <= t < d implies cong(#[trigger] g(0 + t), h(0 + t), m) by {
        lemma_xpow_index(y, w, t as nat, k);
        lemma_xpow_index(y2, w, t as nat, k);
        if t <= k {
            assert(cong(y[k - t], y2[k - t], m));
        } else {
            assert(cong(y[k + d - t], y2[k + d - t], m));
            lemma_cong_mul(w, y[k + d - t], w, y2[k + d - t], m);
        }
        lemma_cong_mul(a[t], xpow(y, w, t as nat)[k], a[t], xpow(y2, w, t as nat)[k], m);
    }
    lemma_sum_cong(g, h, 0, a.len(), m);
}

/// The coefficientwise sum.
pub open spec fn sadd(x: Seq<int>, y: Seq<int>) -> Seq<int> {
    Seq::new(x.len(), |k: int| x[k] + y[k])
}

/// Every coefficient multiplied by `c`.
pub open spec fn sscale(c: int, x: Seq<int>) -> Seq<int> {
    Seq::new(x.len(), |k: int| c * x[k])
}

/// The unit `1` of `Z[X] / (X^d - w)`.
pub open spec fn ione(d: nat) -> Seq<int> {
    Seq::new(
        d,
        |k: int|
            if k == 0 {
                1
            } else {
                0
            },
    )
}

/// The product in `Z[X] / (X^d - w)` is commutative.
pub proof fn lemma_iconv_commutative(a: Seq<int>, b: Seq<int>, w: int)
    requires
        b.len() == a.len(),
    ensures
        iconv(a, b, w) == iconv(b, a, w),
{
    let d = a.len() as int;
    assert forall|k: int| 0 <= k < d implies #[trigger] iconv(a, b, w)[k] == iconv(b, a, w)[k] by {
        let h = |i: int| a[i] * xpow(b, w, i as nat)[k];
        let g = |i: int| b[i] * xpow(a, w, i as nat)[k];
        let m = (k + 1) as nat;
        let n = (d - k - 1) as nat;
        lemma_sum_split(h, 0, m, n);
        lemma_sum_split(g, 0, m, n);
        lemma_sum_up_down(h, 0, m);
        lemma_sum_up_down(h, m as int, n);
        assert forall|t: int| 0 <= t < m implies #[trigger] h(0 + m - 1 - t) == g(0 + t) by {
            lemma_xpow_index(b, w, (k - t) as nat, k);
            lemma_xpow_index(a, w, t as nat, k);
            lemma_mul_is_commutative(a[k - t], b[t]);
        }
        lemma_sum_reflect(h, g, 0, 0, m);
        assert forall|t: int| 0 <= t < n implies #[trigger] h(m + n - 1 - t) == g(m + t) by {
            lemma_xpow_index(b, w, (d - 1 - t) as nat, k);
            lemma_xpow_index(a, w, (k + 1 + t) as nat, k);
            lemma_mul_is_associative(a[d - 1 - t], w, b[k + 1 + t]);
            lemma_mul_is_associative(b[k + 1 + t], w, a[d - 1 - t]);
            lemma_mul_is_commutative(a[d - 1 - t], w);
            lemma_mul_is_commutative(b[k + 1 + t], w);
            lemma_mul_is_associative(w, a[d - 1 - t], b[k + 1 + t]);
            lemma_mul_is_associative(w, b[k + 1 + t], a[d - 1 - t]);
            lemma_mul_is_commutative(a[d - 1 - t], b[k + 1 + t]);
        }
        lemma_sum_reflect(h, g, m as int, m as int, n);
    }
    assert(iconv(a, b, w) =~= iconv(b, a, w));
}

/// One is the identity: `1 * x == x`.
pub proof fn lemma_iconv_one(x: Seq<int>, w: int)
    requires
        x.len() >= 1,
    ensures
        iconv(ione(x.len()), x, w) == x,
{
    let d = x.len();
    assert forall|k: int| 0 <= k < d implies #[trigger] iconv(ione(d), x, w)[k] == x[k] by {
        let h = |i: int| ione(d)[i] * xpow(x, w, i as nat)[k];
        lemma_sum_up_peel(h, 0, d);
        assert forall|t: int| 0 <= t < d - 1 implies #[trigger] h(1 + t) == 0 by {}
        lemma_sum_zero(h, 1, (d - 1) as nat);
    }
    assert(iconv(ione(d), x, w) =~= x);
}

/// The product distributes over the sum on the right: `x * (u + v) == x * u + x * v`.
pub proof fn lemma_iconv_add(x: Seq<int>, u: Seq<int>, v: Seq<int>, w: int)
    requires
        u.len() == x.len(),
        v.len() == x.len(),
    ensures
        iconv(x, sadd(u, v), w) == sadd(iconv(x, u, w), iconv(x, v, w)),
{
    let d = x.len() as int;
    let uv = sadd(u, v);
    assert forall|k: int| 0 <= k < d implies #[trigger] iconv(x, uv, w)[k] == sadd(
        iconv(x, u, w),
        iconv(x, v, w),
    )[k] by {
        let h = |i: int| x[i] * xpow(uv, w, i as nat)[k];
        let g1 = |i: int| x[i] * xpow(u, w, i as nat)[k];
        let g2 = |i: int| x[i] * xpow(v, w, i as nat)[k];
        let g = |i: int| g1(i) + g2(i);
        assert forall|t: int| 0 <= t < d implies #[trigger] h(0 + t) == g(0 + t) by {
            lemma_xpow_index(uv, w, t as nat, k);
            lemma_xpow_index(u, w, t as nat, k);
            lemma_xpow_index(v, w, t as nat, k);
            if t <= k {
                lemma_mul_is_distributive_add(x[t], u[k - t], v[k - t]);
            } else {
                lemma_mul_is_distributive_add(w, u[k + d - t], v[k + d - t]);
                lemma_mul_is_distributive_add(x[t], w * u[k + d - t], w * v[k + d - t]);
            }
        }
        lemma_sum_shift(h, g, 0, 0, d as nat);
        lemma_sum_add(g1, g2, 0, d as nat);
    }
    assert(iconv(x, uv, w) =~= sadd(iconv(x, u, w), iconv(x, v, w)));
}

/// A scalar factor on the left comes out of the product: `(c x) * y == c (x * y)`.
pub proof fn lemma_iconv_scale(c: int, x: Seq<int>, y: Seq<int>, w: int)
    ensures
        iconv(sscale(c, x), y, w) == sscale(c, iconv(x, y, w)),
{
    let d = x.len() as int;
    assert forall|k: int| 0 <= k < d implies #[trigger] iconv(sscale(c, x), y, w)[k] == sscale(
        c,
        iconv(x, y, w),
    )[k] by {
        let h = |i: int| sscale(c, x)[i] * xpow(y, w, i as nat)[k];
        let g = |i: int| x[i] * xpow(y, w, i as nat)[k];
        let cg = |i: int| c * g(i);
        assert forall|t: int| 0 <= t < d implies #[trigger] h(0 + t) == cg(0 + t) by {
            lemma_mul_is_associative(c, x[t], xpow(y, w, t as nat)[k]);
        }
        lemma_sum_shift(h, cg, 0, 0, d as nat);
        lemma_sum_scale(c, g, 0, d as nat);
    }
    assert(iconv(sscale(c, x), y, w) =~= sscale(c, iconv(x, y, w)));
}

/// The product is linear in its left factor over a finite sum: when
/// `x = c(0) f(0) + ... + c(m-1) f(m-1)`, coefficient `k` of `x * b` is
/// `c(0) (f(0) * b)[k] + ... + c(m-1) (f(m-1) * b)[k]`.
pub proof fn lemma_iconv_sum_left(
    x: Seq<int>,
    f: spec_fn(int) -> Seq<int>,
    c: spec_fn(int) -> int,
    m: nat,
    b: Seq<int>,
    w: int,
    k: int,
)
    requires
        forall|j: int| 0 <= j < m ==> (#[trigger] f(j)).len() == x.len(),
        forall|i: int| 0 <= i < x.len() ==> #[trigger] x[i] == sum_up(|j: int| c(j) * f(j)[i], 0, m),
    ensures
        iconv_coeff(x, b, w, k) == sum_up(|j: int| c(j) * iconv_coeff(f(j), b, w, k), 0, m),
{
    let d = x.len();
    let g = |j: int, i: int| c(j) * f(j)[i] * xpow(b, w, i as nat)[k];
    let lhs = |i: int| x[i] * xpow(b, w, i as nat)[k];
    let cols = |i: int| sum_up(|j: int| g(j, i), 0, m);
    assert forall|t: int| 0 <= t < d implies #[trigger] lhs(0 + t) == cols(0 + t) by {
        let y = xpow(b, w, t as nat)[k];
        let u = |j: int| c(j) * f(j)[t];
        let yu = |j: int| y * u(j);
        let gt = |j: int| g(j, t);
        lemma_sum_scale(y, u, 0, m);
        assert forall|r: int| 0 <= r < m implies #[trigger] yu(0 + r) == gt(0 + r) by {
            lemma_mul_is_commutative(y, u(r));
        }
        lemma_sum_shift(yu, gt, 0, 0, m);
        assert(cols(0 + t) == sum_up(gt, 0, m)) by {
            assert((|j: int| g(j, 0 + t)) =~= gt);
        }
        assert(x[t] == sum_up(u, 0, m)) by {
            assert((|j: int| c(j) * f(j)[t]) =~= u);
        }
        lemma_mul_is_commutative(y, x[t]);
    }
    lemma_sum_shift(lhs, cols, 0, 0, d);
    lemma_sum_swap(g, m, d);
    let rows = |j: int| sum_up(|i: int| g(j, i), 0, d);
    let rhs = |j: int| c(j) * iconv_coeff(f(j), b, w, k);
    assert forall|t: int| 0 <= t < m implies #[trigger] rows(0 + t) == rhs(0 + t) by {
        let v = |i: int| f(t)[i] * xpow(b, w, i as nat)[k];
        let cv = |i: int| c(t) * v(i);
        let gt = |i: int| g(t, i);
        lemma_sum_scale(c(t), v, 0, d);
        assert forall|r: int| 0 <= r < d implies #[trigger] gt(0 + r) == cv(0 + r) by {
            lemma_mul_is_associative(c(t), f(t)[r], xpow(b, w, r as nat)[k]);
        }
        lemma_sum_shift(gt, cv, 0, 0, d);
        assert(rows(0 + t) == sum_up(gt, 0, d)) by {
            assert((|i: int| g(0 + t, i)) =~= gt);
        }
        assert(iconv_coeff(f(t), b, w, k) == sum_up(v, 0, d));
    }
    lemma_sum_shift(rows, rhs, 0, 0, m);
}

/// `a^n` in `Z[X] / (X^d - w)`.
pub open spec fn ipow(a: Seq<int>, w: int, n: nat) -> Seq<int>
    decreases n,
{
    if n == 0 {
        ione(a.len())
    } else {
        iconv(ipow(a, w, (n - 1) as nat), a, w)
    }
}

/// A power has the length of its base.
pub proof fn lemma_ipow_len(a: Seq<int>, w: int, n: nat)
    ensures
        ipow(a, w, n).len() == a.len(),
    decreases n,
{
    if n > 0 {
        lemma_ipow_len(a, w, (n - 1) as nat);
    }
}

/// Pascal's rule under a sum: for any terms `t`,
/// `sum_(j<=n) C(n,j) t(j+1) + sum_(j<=n) C(n,j) t(j) == sum_(j<=n+1) C(n+1,j) t(j)`.
pub proof fn lemma_pascal_sum(t: spec_fn(int) -> int, n: nat)
    ensures
        sum_up(|j: int| binom(n, j as nat) * t(j + 1), 0, n + 1) + sum_up(
            |j: int| binom(n, j as nat) * t(j),
            0,
            n + 1,
        ) == sum_up(|j: int| binom(n + 1, j as nat) * t(j), 0, n + 2),
{
    let a = |j: int| binom(n, j as nat) * t(j + 1);
    let b = |j: int| binom(n, j as nat) * t(j);
    let r = |j: int| binom(n + 1, j as nat) * t(j);
    let b1 = |j: int| binom(n, (j + 1) as nat) * t(j + 1);
    let ab1 = |j: int| a(j) + b1(j);
    lemma_sum_up_peel(r, 0, n + 2);
    assert forall|s: int| 0 <= s < n + 1 implies #[trigger] r(1 + s) == ab1(0 + s) by {
        assert(binom(n + 1, (s + 1) as nat) == binom(n, s as nat) + binom(n, (s + 1) as nat));
        lemma_mul_is_distributive_add_other_way(t(s + 1), binom(n, s as nat) as int, binom(n, (s + 1) as nat) as int);
    }
    lemma_sum_shift(r, ab1, 1, 0, n + 1);
    lemma_sum_add(a, b1, 0, n + 1);
    assert forall|s: int| 0 <= s < n + 1 implies #[trigger] b1(0 + s) == b(1 + s) by {}
    lemma_sum_shift(b1, b, 0, 1, n + 1);
    lemma_sum_up_peel(b, 0, n + 2);
    lemma_binom_above(n, n + 1);
    assert(sum_up(b, 0, n + 2) == sum_up(b, 0, n + 1) + b((n + 1) as int));
}

/// The term `u^j v^(n-j)` of the binomial expansion of `(u + v)^n`.
pub open spec fn bterm(u: Seq<int>, v: Seq<int>, w: int, n: nat, j: int) -> Seq<int> {
    iconv(ipow(u, w, j as nat), ipow(v, w, (n - j) as nat), w)
}

/// Multiplying a binomial term by `u` or by `v` gives a term of the next power.
proof fn lemma_bterm_step(u: Seq<int>, v: Seq<int>, w: int, n: nat, j: int)
    requires
        u.len() >= 1,
        v.len() == u.len(),
        0 <= j <= n,
    ensures
        iconv(bterm(u, v, w, n, j), u, w) == bterm(u, v, w, n + 1, j + 1),
        iconv(bterm(u, v, w, n, j), v, w) == bterm(u, v, w, n + 1, j),
{
    let uj = ipow(u, w, j as nat);
    let vr = ipow(v, w, (n - j) as nat);
    lemma_ipow_len(u, w, j as nat);
    lemma_ipow_len(v, w, (n - j) as nat);
    lemma_iconv_associative(uj, vr, u, w);
    lemma_iconv_commutative(vr, u, w);
    lemma_iconv_associative(uj, u, vr, w);
    assert(ipow(u, w, (j + 1) as nat) == iconv(uj, u, w));
    assert(((n + 1) - (j + 1)) as nat == (n - j) as nat);
    lemma_iconv_associative(uj, vr, v, w);
    assert(ipow(v, w, ((n + 1) - j) as nat) == iconv(vr, v, w));
}

/// The binomial theorem in `Z[X] / (X^d - w)`:
/// `(u + v)^n == sum_(j<=n) C(n, j) u^j v^(n-j)`, coefficient by coefficient.
pub proof fn lemma_binomial(u: Seq<int>, v: Seq<int>, w: int, n: nat, k: int)
    requires
        u.len() >= 1,
        v.len() == u.len(),
        0 <= k < u.len(),
    ensures
        ipow(sadd(u, v), w, n)[k] == sum_up(
            |j: int| binom(n, j as nat) * bterm(u, v, w, n, j)[k],
            0,
            n + 1,
        ),
    decreases n,
{
    let d = u.len();
    let s = sadd(u, v);
    if n == 0 {
        lemma_iconv_one(ione(d), w);
        reveal_with_fuel(sum_up, 2);
        assert(sum_up(|j: int| binom(0, j as nat) * bterm(u, v, w, 0, j)[k], 0, 1) == binom(0, 0)
            * bterm(u, v, w, 0, 0)[k]);
    } else {
        let m = (n - 1) as nat;
        let x = ipow(s, w, m);
        lemma_ipow_len(s, w, m);
        let f = |j: int| bterm(u, v, w, m, j);
        let c = |j: int| binom(m, j as nat) as int;
        assert forall|j: int| 0 <= j < m + 1 implies (#[trigger] f(j)).len() == x.len() by {
            lemma_ipow_len(u, w, j as nat);
        }
        assert forall|i: int| 0 <= i < x.len() implies #[trigger] x[i] == sum_up(
            |j: int| c(j) * f(j)[i],
            0,
            m + 1,
        ) by {
            lemma_binomial(u, v, w, m, i);
            assert((|j: int| c(j) * f(j)[i]) =~= (|j: int| binom(m, j as nat) * bterm(
                u,
                v,
                w,
                m,
                j,
            )[i]));
        }
        lemma_iconv_sum_left(x, f, c, m + 1, u, w, k);
        lemma_iconv_sum_left(x, f, c, m + 1, v, w, k);
        lemma_iconv_add(x, u, v, w);
        let t = |j: int| bterm(u, v, w, n, j)[k];
        let cu = |j: int| c(j) * iconv_coeff(f(j), u, w, k);
        let cv = |j: int| c(j) * iconv_coeff(f(j), v, w, k);
        let ta = |j: int| binom(m, j as nat) * t(j + 1);
        let tb = |j: int| binom(m, j as nat) * t(j);
        assert forall|r: int| 0 <= r < m + 1 implies #[trigger] cu(0 + r) == ta(0 + r) by {
            lemma_bterm_step(u, v, w, m, r);
            lemma_ipow_len(u, w, r as nat);
            assert(iconv(f(r), u, w)[k] == iconv_coeff(f(r), u, w, k));
        }
        assert forall|r: int| 0 <= r < m + 1 implies #[trigger] cv(0 + r) == tb(0 + r) by {
            lemma_bterm_step(u, v, w, m, r);
            lemma_ipow_len(u, w, r as nat);
            assert(iconv(f(r), v, w)[k] == iconv_coeff(f(r), v, w, k));
        }
        lemma_sum_shift(cu, ta, 0, 0, m + 1);
        lemma_sum_shift(cv, tb, 0, 0, m + 1);
        lemma_pascal_sum(t, m);
        assert(ipow(s, w, n) == iconv(x, s, w));
        assert(iconv(x, u, w)[k] == iconv_coeff(x, u, w, k));
        assert(iconv(x, v, w)[k] == iconv_coeff(x, v, w, k));
        assert((|j: int| binom(m + 1, j as nat) * t(j)) =~= (|j: int| binom(n, j as nat) * bterm(
            u,
            v,
            w,
            n,
            j,
        )[k]));
    }
}

/// The freshman's dream in `Z[X] / (X^d - w)` modulo a prime `p`:
/// `(u + v)^p` is congruent to `u^p + v^p`, coefficient by coefficient.
pub proof fn lemma_freshman_ring(u: Seq<int>, v: Seq<int>, w: int, p: nat, k: int)
    requires
        is_prime(p as int),
        u.len() >= 1,
        v.len() == u.len(),
        0 <= k < u.len(),
    ensures
        cong(ipow(sadd(u, v), w, p)[k], ipow(u, w, p)[k] + ipow(v, w, p)[k], p as int),
{
    let d = u.len();
    let pi = p as int;
    let up = ipow(u, w, p);
    let vp = ipow(v, w, p);
    lemma_ipow_len(u, w, p);
    lemma_ipow_len(v, w, p);
    lemma_binomial(u, v, w, p, k);
    let h = |j: int| binom(p, j as nat) * bterm(u, v, w, p, j)[k];
    let g = |j: int|
        if j == 0 {
            vp[k]
        } else if j == pi {
            up[k]
        } else {
            0
        };
    assert forall|t: int| 0 <= t < p + 1 implies cong(#[trigger] h(0 + t), g(0 + t), pi) by {
        lemma_ipow_len(u, w, t as nat);
        let x = bterm(u, v, w, p, t)[k];
        if t == 0 {
            lemma_iconv_one(vp, w);
            assert(x == vp[k]);
            lemma_mul_basics(x);
            assert(h(0 + t) == g(0 + t));
        } else if t == pi {
            lemma_binom_diag(p);
            lemma_iconv_commutative(up, ione(d), w);
            lemma_iconv_one(up, w);
            assert(x == up[k]);
            lemma_mul_basics(x);
            assert(h(0 + t) == g(0 + t));
        } else {
            lemma_prime_divides_binom(p, t as nat);
            lemma_mul_mod_noop_left(binom(p, t as nat) as int, x, pi);
            lemma_mul_basics(x);
            lemma_small_mod(0, p);
            assert(h(0 + t) % pi == 0);
            assert(g(0 + t) == 0);
        }
    }
    lemma_sum_cong(h, g, 0, p + 1, pi);
    lemma_sum_up_peel(g, 0, p + 1);
    assert forall|t: int| 0 <= t < p - 1 implies #[trigger] g(1 + t) == 0 by {}
    lemma_sum_zero(g, 1, (p - 1) as nat);
    assert(sum_up(g, 1, p) == sum_up(g, 1, (p - 1) as nat) + g(1 + p - 1));
    lemma_mul_is_commutative(1, up[k]);
}

/// Powers of termwise congruent elements are termwise congruent.
pub proof fn lemma_ipow_cong(x: Seq<int>, x2: Seq<int>, w: int, n: nat, k: int, m: int)
    requires
        m > 0,
        x.len() >= 1,
        x2.len() == x.len(),
        0 <= k < x.len(),
        forall|i: int| 0 <= i < x.len() ==> cong(#[trigger] x[i], x2[i], m),
    ensures
        cong(ipow(x, w, n)[k], ipow(x2, w, n)[k], m),
    decreases n,
{
    if n > 0 {
        let n1 = (n - 1) as nat;
        let y = ipow(x, w, n1);
        let y2 = ipow(x2, w, n1);
        lemma_ipow_len(x, w, n1);
        lemma_ipow_len(x2, w, n1);
        assert forall|i: int| 0 <= i < x.len() implies cong(#[trigger] y[i], y2[i], m) by {
            lemma_ipow_cong(x, x2, w, n1, i, m);
        }
        lemma_iconv_cong_left(y, y2, x, w, k, m);
        lemma_iconv_cong_right(y2, x, x2, w, k, m);
    }
}

/// `X^s` applied after `X^t` is `X^(s + t)`.
pub proof fn lemma_xpow_add(b: Seq<int>, w: int, s: nat, t: nat)
    ensures
        xpow(xpow(b, w, s), w, t) == xpow(b, w, s + t),
    decreases t,
{
    if t > 0 {
        lemma_xpow_add(b, w, s, (t - 1) as nat);
        assert((s + t - 1) as nat == s + (t - 1) as nat);
    }
}

/// Multiplying by a power of `X` commutes with scaling.
pub proof fn lemma_xpow_scale(c: int, y: Seq<int>, w: int, t: nat)
    ensures
        xpow(sscale(c, y), w, t) == sscale(c, xpow(y, w, t)),
    decreases t,
{
    if t > 0 {
        let t1 = (t - 1) as nat;
        lemma_xpow_scale(c, y, w, t1);
        let yt = xpow(y, w, t1);
        lemma_xpow_len(y, w, t1);
        if yt.len() > 0 {
            lemma_mul_is_associative(w, c, yt[yt.len() - 1]);
            lemma_mul_is_associative(c, w, yt[yt.len() - 1]);
            lemma_mul_is_commutative(w, c);
        }
        assert(shift(sscale(c, yt), w) =~= sscale(c, shift(yt, w)));
    }
}

/// Scaling twice scales by the product.
pub proof fn lemma_sscale_sscale(a: int, b: int, y: Seq<int>)
    ensures
        sscale(a, sscale(b, y)) == sscale(a * b, y),
{
    assert forall|k: int| 0 <= k < y.len() implies #[trigger] sscale(a, sscale(b, y))[k] == sscale(
        a * b,
        y,
    )[k] by {
        lemma_mul_is_associative(a, b, y[k]);
    }
    assert(sscale(a, sscale(b, y)) =~= sscale(a * b, y));
}

/// `X^(d q) * y == w^q y`, since `X^d == w`.
pub proof fn lemma_xpow_wrap_pow(y: Seq<int>, w: int, q: nat)
    requires
        y.len() >= 1,
    ensures
        xpow(y, w, y.len() * q) == sscale(pow(w, q), y),
    decreases q,
{
    let d = y.len();
    reveal(pow);
    lemma_xpow_len(y, w, d);
    if q == 0 {
        lemma_mul_basics(d as int);
        assert(sscale(1, y) =~= y);
    } else {
        let q1 = (q - 1) as nat;
        lemma_xpow_wrap_pow(y, w, q1);
        lemma_mul_is_distributive_add(d as int, q1 as int, 1);
        lemma_mul_basics(d as int);
        assert(d * q == d * q1 + d);
        lemma_xpow_add(y, w, d * q1, d);
        lemma_xpow_scale(pow(w, q1), y, w, d);
        assert forall|k: int| 0 <= k < d implies #[trigger] xpow(y, w, d)[k] == sscale(w, y)[k] by {
            lemma_xpow_wrap(y, w, k);
        }
        assert(xpow(y, w, d) =~= sscale(w, y));
        assert(pow(w, q) == w * pow(w, q1));
        lemma_sscale_sscale(pow(w, q1), w, y);
        lemma_mul_is_commutative(pow(w, q1), w);
    }
}

/// A power of a scaled element: `(c x)^n == c^n x^n`.
pub proof fn lemma_ipow_scale(c: int, x: Seq<int>, w: int, n: nat)
    requires
        x.len() >= 1,
    ensures
        ipow(sscale(c, x), w, n) == sscale(pow(c, n), ipow(x, w, n)),
    decreases n,
{
    let d = x.len();
    reveal(pow);
    if n == 0 {
        assert(sscale(1, ione(d)) =~= ione(d));
    } else {
        let n1 = (n - 1) as nat;
        lemma_ipow_scale(c, x, w, n1);
        let xn = ipow(x, w, n1);
        lemma_ipow_len(x, w, n1);
        lemma_iconv_scale(pow(c, n1), xn, sscale(c, x), w);
        lemma_iconv_commutative(xn, sscale(c, x), w);
        lemma_iconv_scale(c, x, xn, w);
        lemma_iconv_commutative(x, xn, w);
        lemma_sscale_sscale(pow(c, n1), c, iconv(xn, x, w));
        lemma_mul_is_commutative(pow(c, n1), c);
        assert(ipow(sscale(c, x), w, n) == iconv(sscale(pow(c, n1), xn), sscale(c, x), w));
        assert(iconv(xn, sscale(c, x), w) == sscale(c, iconv(xn, x, w)));
        assert(ipow(sscale(c, x), w, n) == sscale(pow(c, n1), sscale(c, iconv(xn, x, w))));
        assert(pow(c, n) == c * pow(c, n1));
        assert(ipow(x, w, n) == iconv(xn, x, w));
    }
}

/// A power of `X^i`: `(X^i)^n == X^(i n)`.
pub proof fn lemma_ipow_xpow(d: nat, w: int, i: nat, n: nat)
    requires
        d >= 1,
    ensures
        ipow(xpow(ione(d), w, i), w, n) == xpow(ione(d), w, i * n),
    decreases n,
{
    let one = ione(d);
    let xi = xpow(one, w, i);
    lemma_xpow_len(one, w, i);
    if n == 0 {
        lemma_mul_basics(i as int);
    } else {
        let n1 = (n - 1) as nat;
        lemma_ipow_xpow(d, w, i, n1);
        lemma_iconv_xpow(one, xi, w, i * n1);
        lemma_iconv_one(xi, w);
        lemma_xpow_add(one, w, i, i * n1);
        lemma_mul_is_distributive_add(i as int, 1, n1 as int);
    }
}

/// The first `m` coefficients of `a`, and zeros above them.
pub open spec fn prefix(a: Seq<int>, m: int) -> Seq<int> {
    Seq::new(
        a.len(),
        |k: int|
            if k < m {
                a[k]
            } else {
                0
            },
    )
}

/// The monomial `c X^i` in `Z[X] / (X^d - w)`.
pub open spec fn mono(c: int, i: int, d: nat) -> Seq<int> {
    Seq::new(
        d,
        |k: int|
            if k == i {
                c
            } else {
                0
            },
    )
}

/// `c X^i` is `c` times `X^i * 1`.
pub proof fn lemma_mono_xpow(c: int, i: nat, d: nat, w: int)
    requires
        i < d,
    ensures
        mono(c, i as int, d) == sscale(c, xpow(ione(d), w, i)),
{
    lemma_xpow_len(ione(d), w, i);
    assert forall|k: int| 0 <= k < d implies #[trigger] mono(c, i as int, d)[k] == sscale(
        c,
        xpow(ione(d), w, i),
    )[k] by {
        lemma_xpow_index(ione(d), w, i, k);
        lemma_mul_basics(c);
        lemma_mul_basics(w);
    }
    assert(mono(c, i as int, d) =~= sscale(c, xpow(ione(d), w, i)));
}

/// `(c X^i)^p == c^p w^(i q) X^i` when `p - 1 == d q`, since `X^(i (p - 1)) == w^(i q)`.
pub proof fn lemma_ipow_mono(c: int, i: nat, d: nat, w: int, p: nat, q: nat, k: int)
    requires
        i < d,
        p == d * q + 1,
        0 <= k < d,
    ensures
        ipow(mono(c, i as int, d), w, p)[k] == if k == i {
            pow(c, p) * pow(w, i * q)
        } else {
            0
        },
{
    let one = ione(d);
    let xi = xpow(one, w, i);
    lemma_xpow_len(one, w, i);
    lemma_mono_xpow(c, i, d, w);
    lemma_ipow_scale(c, xi, w, p);
    lemma_ipow_xpow(d, w, i, p);
    assert(i * p == i + d * (i * q)) by (nonlinear_arith)
        requires
            p == d * q + 1,
    ;
    lemma_xpow_add(one, w, i, d * (i * q));
    lemma_xpow_wrap_pow(xi, w, i * q);
    lemma_mono_xpow(1, i, d, w);
    lemma_mul_basics(pow(w, i * q));
    lemma_mul_basics(pow(c, p));
    assert(xi[k] == mono(1, i as int, d)[k]);
}

/// The zero element to any positive power is zero.
pub proof fn lemma_ipow_zero(d: nat, w: int, n: nat, k: int)
    requires
        d >= 1,
        n >= 1,
        0 <= k < d,
    ensures
        ipow(prefix(Seq::new(d, |i: int| 0int), 0), w, n)[k] == 0,
{
    let z = prefix(Seq::new(d, |i: int| 0int), 0);
    let x = ipow(z, w, (n - 1) as nat);
    lemma_ipow_len(z, w, (n - 1) as nat);
    let h = |i: int| x[i] * xpow(z, w, i as nat)[k];
    assert forall|t: int| 0 <= t < d implies #[trigger] h(0 + t) == 0 by {
        lemma_xpow_index(z, w, t as nat, k);
        lemma_mul_basics(w);
        lemma_mul_basics(x[t]);
    }
    lemma_sum_zero(h, 0, d);
}

/// The `p`-th power of `a` in `Z[X] / (X^d - w)`, modulo a prime `p` with `p - 1 == d q`,
/// multiplies each coefficient `a[k]` by `(w^q)^k`: for the first `m` coefficients of `a`,
/// `(a[0] + ... + a[m-1] X^(m-1))^p` is congruent to `sum_(k<m) a[k] (w^q)^k X^k`.
pub proof fn lemma_frobenius_ring(a: Seq<int>, w: int, p: nat, q: nat, m: nat, k: int)
    requires
        is_prime(p as int),
        a.len() >= 1,
        p == a.len() * q + 1,
        m <= a.len(),
        0 <= k < a.len(),
        forall|i: int| 0 <= i < a.len() ==> #[trigger] a[i] >= 0,
    ensures
        cong(
            ipow(prefix(a, m as int), w, p)[k],
            if k < m {
                a[k] * pow(pow(w, q), k as nat)
            } else {
                0
            },
            p as int,
        ),
    decreases m,
{
    let d = a.len();
    let pi = p as int;
    if m == 0 {
        assert(prefix(a, 0) =~= prefix(Seq::new(d, |i: int| 0int), 0));
        lemma_ipow_zero(d, w, p, k);
    } else {
        let m1 = (m - 1) as nat;
        let u = prefix(a, m1 as int);
        let v = mono(a[m1 as int], m1 as int, d);
        assert(prefix(a, m as int) =~= sadd(u, v));
        lemma_freshman_ring(u, v, w, p, k);
        lemma_frobenius_ring(a, w, p, q, m1, k);
        lemma_ipow_mono(a[m1 as int], m1, d, w, p, q, k);
        let prev = if k < m1 {
            a[k] * pow(pow(w, q), k as nat)
        } else {
            0
        };
        let up = ipow(u, w, p)[k];
        let vp = ipow(v, w, p)[k];
        if k == m1 {
            let wk = pow(w, m1 * q);
            lemma_pow_multiplies(w, q, m1);
            lemma_mul_is_commutative(q as int, m1 as int);
            lemma_fermat_pow_p(a[k] as nat, p);
            lemma_cong_mul(pow(a[k], p), wk, a[k], wk, pi);
            lemma_cong_add(up, vp, prev, a[k] * wk, pi);
        } else {
            lemma_cong_add(up, vp, prev, 0, pi);
        }
    }
}

} // verus!
