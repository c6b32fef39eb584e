//! The binomial extension field `F[X] / (X^D - W)` of a prime field `F`.
use vstd::arithmetic::div_mod::*;
use vstd::arithmetic::mul::*;
use vstd::arithmetic::power::*;
use vstd::prelude::*;
use vstd::std_specs::convert::FromSpecImpl;
use vstd::std_specs::ops::AddSpecImpl;
use vstd::std_specs::ops::DivSpecImpl;
use vstd::std_specs::ops::MulSpecImpl;
use vstd::std_specs::ops::NegSpecImpl;
use vstd::std_specs::ops::SubSpecImpl;

use num_bigint::BigUint;

use crate::bigint::{biguint_pow, biguint_pow_result};
use crate::convolution::{
    iconv,
    iconv_coeff,
    lemma_iconv_commutative,
    lemma_iconv_scale,
    lemma_ipow_len,
    sscale,
    ione,
    ipow,
    lemma_frobenius_ring,
    prefix,
    lemma_iconv_associative,
    lemma_iconv_cong_left,
    lemma_iconv_cong_right,
    lemma_sum_shift,
    lemma_xpow_index,
    sum_up,
    xpow,
};
use crate::decimal::{decimal, decimal_string, join};
use crate::exponentiation::{is_pow_of, lemma_pow_of_mul};
use crate::number_theory::{is_prime, lemma_euclid, lemma_fermat};
use crate::field::{
    cong,
    lemma_cong_add,
    lemma_cong_canonical,
    lemma_cong_mod,
    lemma_cong_mul,
    lemma_cong_sub,
    BinomiallyExtendable,
    Field,
};

verus! {

/// An element `a[0] + a[1] X + ... + a[D-1] X^(D-1)` of `F[X] / (X^D - W)`.
#[derive(Copy, Clone, PartialEq, Eq, Hash, Debug, PartialOrd, Ord)]
pub struct BinomialExtensionField<F, const D: usize> {
    pub(crate) value: [F; D],
}

impl<F: Field, const D: usize> View for BinomialExtensionField<F, D> {
    type V = Seq<nat>;

    /// The canonical values of the coefficients, lowest degree first.
    closed spec fn view(&self) -> Seq<nat> {
        self.value@.map_values(|x: F| x.to_nat())
    }
}

/// The canonical values of the elements of a sequence.
pub open spec fn to_nats<F: Field>(s: Seq<F>) -> Seq<nat> {
    s.map_values(|x: F| x.to_nat())
}

/// The coefficients of the base field element `b` in the extension of degree `d`: `b`
/// followed by zeros, each zero stored as `zero` returns it.
pub open spec fn base_coeffs<F: Field>(b: F, d: nat) -> Seq<F> {
    Seq::new(
        d,
        |k: int|
            if k == 0 {
                b
            } else {
                F::zero_spec()
            },
    )
}

/// The coefficientwise sum modulo `p`.
pub open spec fn ext_add(a: Seq<nat>, b: Seq<nat>, p: nat) -> Seq<nat> {
    Seq::new(a.len(), |k: int| (a[k] + b[k]) % p)
}

/// The coefficientwise difference modulo `p`.
pub open spec fn ext_sub(a: Seq<nat>, b: Seq<nat>, p: nat) -> Seq<nat> {
    Seq::new(a.len(), |k: int| ((a[k] - b[k]) % (p as int)) as nat)
}

/// The coefficientwise negation modulo `p`.
pub open spec fn ext_neg(a: Seq<nat>, p: nat) -> Seq<nat> {
    Seq::new(a.len(), |k: int| ((-(a[k] as int)) % (p as int)) as nat)
}

/// Every coefficient multiplied by the scalar `c`, modulo `p`.
pub open spec fn ext_scale(a: Seq<nat>, c: nat, p: nat) -> Seq<nat> {
    Seq::new(a.len(), |k: int| (a[k] * c) % p)
}

/// The base field element `x` as an element of the extension of degree `d`.
pub open spec fn base_embed(x: nat, d: nat) -> Seq<nat> {
    Seq::new(d, |k: int| if k == 0 {
        x
    } else {
        0
    })
}

/// The term of index `i` in coefficient `k` of the product `a * b` modulo `X^d - w`:
/// `a[i] * b[k - i]` when `i <= k`, and `w * a[i] * b[k + d - i]` when `X^(i + j)`
/// wraps around past `X^d`.
pub open spec fn mul_term(a: Seq<nat>, b: Seq<nat>, w: nat, k: int, i: int) -> int {
    if i <= k {
        (a[i] * b[k - i]) as int
    } else {
        (w * a[i] * b[k + a.len() - i]) as int
    }
}

/// The sum of the first `n` terms of coefficient `k` of `a * b` modulo `X^d - w`.
pub open spec fn mul_coeff(a: Seq<nat>, b: Seq<nat>, w: nat, k: int, n: nat) -> int
    decreases n,
{
    if n == 0 {
        0
    } else {
        mul_coeff(a, b, w, k, (n - 1) as nat) + mul_term(a, b, w, k, n - 1)
    }
}

/// The product of `a` and `b` in `F_p[X] / (X^d - w)`, where `d` is the length of `a`.
pub open spec fn ext_mul(a: Seq<nat>, b: Seq<nat>, w: nat, p: nat) -> Seq<nat> {
    Seq::new(a.len(), |k: int| (mul_coeff(a, b, w, k, a.len()) % (p as int)) as nat)
}

/// `c = x * y` in the field, with `x` congruent to `xs` and `y` to `ys`.
proof fn lemma_times(c: nat, x: nat, y: nat, xs: int, ys: int, p: nat)
    requires
        p > 0,
        c == (x * y) % p,
        cong(x as int, xs, p as int),
        cong(y as int, ys, p as int),
    ensures
        cong(c as int, xs * ys, p as int),
{
    lemma_cong_mod((x * y) as int, p as int);
    lemma_cong_mul(x as int, y as int, xs, ys, p as int);
}

/// `c = x + y` in the field, with `x` congruent to `xs` and `y` to `ys`.
proof fn lemma_plus(c: nat, x: nat, y: nat, xs: int, ys: int, p: nat)
    requires
        p > 0,
        c == (x + y) % p,
        cong(x as int, xs, p as int),
        cong(y as int, ys, p as int),
    ensures
        cong(c as int, xs + ys, p as int),
{
    lemma_cong_mod((x + y) as int, p as int);
    lemma_cong_add(x as int, y as int, xs, ys, p as int);
}

/// `c = x - y` in the field, with `x` congruent to `xs` and `y` to `ys`.
proof fn lemma_minus(c: nat, x: nat, y: nat, xs: int, ys: int, p: nat)
    requires
        p > 0,
        c == (x - y) % (p as int),
        cong(x as int, xs, p as int),
        cong(y as int, ys, p as int),
    ensures
        cong(c as int, xs - ys, p as int),
{
    lemma_cong_mod(x - y, p as int);
    lemma_cong_sub(x as int, y as int, xs, ys, p as int);
}

/// The index `j` for which `X^i * X^j` lands on `X^k` modulo `X^d - w`.
pub open spec fn wrap_index(d: int, i: int, k: int) -> int {
    if i <= k {
        k - i
    } else {
        k + d - i
    }
}

/// Coefficient `k` of the schoolbook product after all terms of rows below `i`
/// and the terms of row `i` for columns below `j`.
pub open spec fn partial_coeff(a: Seq<nat>, b: Seq<nat>, w: nat, k: int, i: nat, j: int) -> int {
    mul_coeff(a, b, w, k, i) + if wrap_index(a.len() as int, i as int, k) < j {
        mul_term(a, b, w, k, i as int)
    } else {
        0
    }
}


/// Before any term of row `i`, the partial coefficient is the sum of the rows below `i`.
proof fn lemma_partial_start(a: Seq<nat>, b: Seq<nat>, w: nat, k: int, i: nat)
    requires
        i < a.len(),
        0 <= k < a.len(),
    ensures
        partial_coeff(a, b, w, k, i, 0) == mul_coeff(a, b, w, k, i),
{
}

/// After every term of row `i`, the partial coefficient includes row `i`.
proof fn lemma_partial_end(a: Seq<nat>, b: Seq<nat>, w: nat, k: int, i: nat)
    requires
        i < a.len(),
        0 <= k < a.len(),
    ensures
        partial_coeff(a, b, w, k, i, a.len() as int) == mul_coeff(a, b, w, k, i + 1),
{
    assert(mul_coeff(a, b, w, k, i + 1) == mul_coeff(a, b, w, k, i) + mul_term(a, b, w, k, i as int));
}

/// One step of the schoolbook product: the term `a[i] * b[j]` (times `w` when it
/// wraps around) lands on coefficient `t` and on no other.
proof fn lemma_schoolbook_step(
    a: Seq<nat>,
    b: Seq<nat>,
    w: nat,
    i: nat,
    j: int,
    t: int,
    old: nat,
    prod: nat,
    sum: nat,
    p: nat,
)
    requires
        p > 1,
        b.len() == a.len(),
        i < a.len(),
        0 <= j < a.len(),
        t == if i + j >= a.len() {
            i + j - a.len()
        } else {
            i + j
        },
        old == partial_coeff(a, b, w, t, i, j) % (p as int),
        cong(
            prod as int,
            if i + j >= a.len() {
                ((a[i as int] * w) * b[j]) as int
            } else {
                (a[i as int] * b[j]) as int
            },
            p as int,
        ),
        sum == (old + prod) % p,
    ensures
        0 <= t < a.len(),
        sum == partial_coeff(a, b, w, t, i, j + 1) % (p as int),
        forall|k: int|
            0 <= k < a.len() && k != t ==> partial_coeff(a, b, w, k, i, j) == partial_coeff(
                a,
                b,
                w,
                k,
                i,
                j + 1,
            ),
{
    let d = a.len() as int;
    let pi = p as int;
    assert(wrap_index(d, i as int, t) == j);
    let term = mul_term(a, b, w, t, i as int);
    if i + j >= d {
        assert(term == w * a[i as int] * b[j]);
        lemma_mul_is_commutative(a[i as int] as int, w as int);
    } else {
        assert(term == a[i as int] * b[j]);
    }
    let before = partial_coeff(a, b, w, t, i, j);
    assert(partial_coeff(a, b, w, t, i, j + 1) == before + term);
    lemma_cong_mod(before, pi);
    lemma_plus(sum, old, prod, before, term, p);
    lemma_cong_canonical(sum as int, before + term, pi);
    assert forall|k: int| 0 <= k < d && k != t implies partial_coeff(a, b, w, k, i, j)
        == partial_coeff(a, b, w, k, i, j + 1) by {
        assert(wrap_index(d, i as int, k) != j);
    }
}

/// The closed formulas of the quadratic product.
proof fn lemma_quadratic_mul(a: Seq<nat>, b: Seq<nat>, w: nat, r0: int, r1: int, p: nat)
    requires
        p > 1,
        a.len() == 2,
        b.len() == 2,
        cong(r0, (a[0] * b[0] + (a[1] * w) * b[1]) as int, p as int),
        cong(r1, (a[0] * b[1] + a[1] * b[0]) as int, p as int),
    ensures
        cong(r0, mul_coeff(a, b, w, 0, 2), p as int),
        cong(r1, mul_coeff(a, b, w, 1, 2), p as int),
{
    reveal_with_fuel(mul_coeff, 3);
    lemma_mul_is_commutative(a[1] as int, w as int);
}

/// Karatsuba's formulas for the cubic product.
proof fn lemma_karatsuba(a: Seq<nat>, b: Seq<nat>, w: nat)
    requires
        a.len() == 3,
        b.len() == 3,
    ensures
        mul_coeff(a, b, w, 0, 3) == a[0] * b[0] + ((a[1] + a[2]) * (b[1] + b[2]) - a[1] * b[1]
            - a[2] * b[2]) * w,
        mul_coeff(a, b, w, 1, 3) == (a[0] + a[1]) * (b[0] + b[1]) - a[0] * b[0] - a[1] * b[1]
            + (a[2] * b[2]) * w,
        mul_coeff(a, b, w, 2, 3) == (a[0] + a[2]) * (b[0] + b[2]) - a[0] * b[0] - a[2] * b[2]
            + a[1] * b[1],
{
    reveal_with_fuel(mul_coeff, 4);
    let (a0, a1, a2) = (a[0] as int, a[1] as int, a[2] as int);
    let (b0, b1, b2) = (b[0] as int, b[1] as int, b[2] as int);
    let wi = w as int;
    assert(a0 * b0 + wi * a1 * b2 + wi * a2 * b1 == a0 * b0 + ((a1 + a2) * (b1 + b2) - a1 * b1
        - a2 * b2) * wi) by (nonlinear_arith);
    assert(a0 * b1 + a1 * b0 + wi * a2 * b2 == (a0 + a1) * (b0 + b1) - a0 * b0 - a1 * b1 + (a2
        * b2) * wi) by (nonlinear_arith);
    assert(a0 * b2 + a1 * b1 + a2 * b0 == (a0 + a2) * (b0 + b2) - a0 * b0 - a2 * b2 + a1 * b1)
        by (nonlinear_arith);
}

/// The closed formulas of the cubic square.
proof fn lemma_cubic_square_formulas(a: Seq<nat>, w: nat)
    requires
        a.len() == 3,
    ensures
        mul_coeff(a, a, w, 0, 3) == a[0] * a[0] + 2 * (a[1] * (a[2] * w)),
        mul_coeff(a, a, w, 1, 3) == (a[2] * w) * a[2] + 2 * (a[0] * a[1]),
        mul_coeff(a, a, w, 2, 3) == a[1] * a[1] + 2 * (a[0] * a[2]),
{
    reveal_with_fuel(mul_coeff, 4);
    let (a0, a1, a2) = (a[0] as int, a[1] as int, a[2] as int);
    let wi = w as int;
    assert(a0 * a0 + wi * a1 * a2 + wi * a2 * a1 == a0 * a0 + 2 * (a1 * (a2 * wi)))
        by (nonlinear_arith);
    assert(a0 * a1 + a1 * a0 + wi * a2 * a2 == (a2 * wi) * a2 + 2 * (a0 * a1)) by (nonlinear_arith);
    assert(a0 * a2 + a1 * a1 + a2 * a0 == a1 * a1 + 2 * (a0 * a2)) by (nonlinear_arith);
}

/// The closed formulas of the quadratic square.
proof fn lemma_quadratic_square_formulas(a: Seq<nat>, w: nat)
    requires
        a.len() == 2,
    ensures
        mul_coeff(a, a, w, 0, 2) == a[0] * a[0] + (a[1] * a[1]) * w,
        mul_coeff(a, a, w, 1, 2) == a[0] * (2 * a[1]),
{
    reveal_with_fuel(mul_coeff, 3);
    let (a0, a1) = (a[0] as int, a[1] as int);
    let wi = w as int;
    assert(wi * a1 * a1 == (a1 * a1) * wi) by (nonlinear_arith);
    assert(a0 * a1 + a1 * a0 == a0 * (2 * a1)) by (nonlinear_arith);
}

/// The repeated Frobenius map `x -> x^(p^c)` on `F[X] / (X^d - w)`: coefficient `i`
/// is multiplied by `z^(c i)`, where `z = w^((p - 1) / d)`.
pub open spec fn frobenius_spec(a: Seq<nat>, z: nat, c: nat, p: nat) -> Seq<nat> {
    Seq::new(a.len(), |i: int| ((a[i] * pow(z as int, c * (i as nat))) % (p as int)) as nat)
}

/// The chain `f_0 = 1`, `f_(n+1) = frobenius(f_n * a)` of the Frobenius inversion.
pub open spec fn frobenius_inv_chain(a: Seq<nat>, w: nat, z: nat, p: nat, n: nat) -> Seq<nat>
    decreases n,
{
    if n == 0 {
        base_embed(1, a.len())
    } else {
        frobenius_spec(
            ext_mul(frobenius_inv_chain(a, w, z, p, (n - 1) as nat), a, w, p),
            z,
            1nat % a.len(),
            p,
        )
    }
}

/// The base field element `a * f_(d-1)`, i.e. the norm of `a`, whose inverse the
/// Frobenius inversion needs.
pub open spec fn frobenius_inv_norm(a: Seq<nat>, w: nat, z: nat, p: nat) -> nat {
    ext_mul(a, frobenius_inv_chain(a, w, z, p, (a.len() - 1) as nat), w, p)[0]
}

/// `a[1] * b[d-1] + ... + a[n-1] * b[d-n+1]`.
pub open spec fn tail_sum(a: Seq<nat>, b: Seq<nat>, n: nat) -> int
    decreases n,
{
    if n <= 1 {
        0
    } else {
        tail_sum(a, b, (n - 1) as nat) + a[n - 1] * b[a.len() - (n - 1)]
    }
}

/// Coefficient 0 of `a * b` is `a[0] b[0] + w * tail_sum`.
proof fn lemma_coeff0_tail(a: Seq<nat>, b: Seq<nat>, w: nat, n: nat)
    requires
        1 <= n <= a.len(),
    ensures
        mul_coeff(a, b, w, 0, n) == a[0] * b[0] + w * tail_sum(a, b, n),
    decreases n,
{
    reveal_with_fuel(mul_coeff, 2);
    if n > 1 {
        lemma_coeff0_tail(a, b, w, (n - 1) as nat);
        let t = tail_sum(a, b, (n - 1) as nat);
        let x = a[n - 1] * b[a.len() - (n - 1)];
        assert(mul_term(a, b, w, 0, n - 1) == w * x) by (nonlinear_arith)
            requires
                mul_term(a, b, w, 0, n - 1) == w * a[n - 1] * b[a.len() - (n - 1)],
                x == a[n - 1] * b[a.len() - (n - 1)],
        ;
        lemma_mul_is_distributive_add(w as int, t, x as int);
    }
}

/// `x` is an inverse of `a`: their product is one.
pub open spec fn is_ext_inverse(a: Seq<nat>, x: Seq<nat>, w: nat, p: nat) -> bool {
    ext_mul(a, x, w, p) == base_embed(1, a.len())
}

/// The inputs on which inversion does not divide by zero: zero itself, and the
/// elements whose norm is nonzero.
pub open spec fn inverse_defined(a: Seq<nat>, w: nat, z: nat, p: nat) -> bool {
    (forall|k: int| 0 <= k < a.len() ==> #[trigger] a[k] == 0) || if a.len() == 2 {
        quadratic_norm(a, w) % (p as int) != 0
    } else if a.len() == 3 {
        cubic_norm(a, w) % (p as int) != 0
    } else {
        frobenius_inv_norm(a, w, z, p) != 0
    }
}

/// The sum of a sequence of elements, from zero.
pub open spec fn ext_sum<F: BinomiallyExtendable<D>, const D: usize>(
    s: Seq<BinomialExtensionField<F, D>>,
    p: nat,
) -> Seq<nat>
    decreases s.len(),
{
    if s.len() == 0 {
        base_embed(0, D as nat)
    } else {
        ext_add(ext_sum(s.drop_last(), p), s.last()@, p)
    }
}

/// The product of a sequence of elements, from one.
pub open spec fn ext_product<F: BinomiallyExtendable<D>, const D: usize>(
    s: Seq<BinomialExtensionField<F, D>>,
    w: nat,
    p: nat,
) -> Seq<nat>
    decreases s.len(),
{
    if s.len() == 0 {
        base_embed(1, D as nat)
    } else {
        ext_mul(ext_product(s.drop_last(), w, p), s.last()@, w, p)
    }
}

/// The coefficients that `sum` stores: zero, then each element added in turn.
pub open spec fn ext_sum_coeffs<F: BinomiallyExtendable<D>, const D: usize>(
    s: Seq<BinomialExtensionField<F, D>>,
) -> Seq<F>
    decreases s.len(),
{
    if s.len() == 0 {
        base_coeffs(F::zero_spec(), D as nat)
    } else {
        let acc = ext_sum_coeffs(s.drop_last());
        Seq::new(D as nat, |k: int| acc[k].plus_spec(s.last().coeffs()[k]))
    }
}

/// The coefficients that `product` stores: one, then each element multiplied in turn.
pub open spec fn ext_product_coeffs<F: BinomiallyExtendable<D>, const D: usize>(
    s: Seq<BinomialExtensionField<F, D>>,
) -> Seq<F>
    decreases s.len(),
{
    if s.len() == 0 {
        base_coeffs(F::one_spec(), D as nat)
    } else {
        ext_mul_coeffs(ext_product_coeffs(s.drop_last()), s.last().coeffs(), F::w_elem(), D as nat)
    }
}

/// The text of the term of degree `i` with coefficient text `x`: the coefficient is
/// left out when it is one, and the power of `X` when `i` is zero.
pub open spec fn term_display(x: Seq<char>, one: bool, i: nat) -> Seq<char> {
    if i == 0 {
        x
    } else if i == 1 {
        if one {
            "X"@
        } else {
            x + " X"@
        }
    } else if one {
        "X^"@ + decimal(i)
    } else {
        x + " X^"@ + decimal(i)
    }
}

/// The texts of the terms with a nonzero coefficient among the first `n`.
pub open spec fn display_terms<F: Field>(v: Seq<F>, n: nat) -> Seq<Seq<char>>
    decreases n,
{
    if n == 0 {
        Seq::empty()
    } else {
        let c = v[n - 1];
        let prev = display_terms(v, (n - 1) as nat);
        if c.to_nat() != 0 {
            prev.push(term_display(c.display(), c.to_nat() == 1, (n - 1) as nat))
        } else {
            prev
        }
    }
}

/// The text of an element: `0`, or its nonzero terms joined by ` + `, lowest degree first.
pub open spec fn ext_display<F: Field>(v: Seq<F>) -> Seq<char> {
    if forall|k: int| 0 <= k < v.len() ==> (#[trigger] v[k]).to_nat() == 0 {
        "0"@
    } else {
        join(display_terms(v, v.len()), " + "@)
    }
}

/// The coefficients of the quadratic product: `a0 b0 + (a1 w) b1` and `a0 b1 + a1 b0`.
pub open spec fn quadratic_mul_coeffs<F: Field>(a: Seq<F>, b: Seq<F>, w: F) -> Seq<F> {
    seq![
        a[0].times_spec(b[0]).plus_spec(a[1].times_spec(w).times_spec(b[1])),
        a[0].times_spec(b[1]).plus_spec(a[1].times_spec(b[0])),
    ]
}

/// The coefficients of the quadratic square: `a0^2 + a1^2 w` and `a0 (2 a1)`.
pub open spec fn quadratic_square_coeffs<F: Field>(a: Seq<F>, w: F) -> Seq<F> {
    seq![
        a[0].times_spec(a[0]).plus_spec(a[1].times_spec(a[1]).times_spec(w)),
        a[0].times_spec(a[1].plus_spec(a[1])),
    ]
}

/// One step of the schoolbook product: `a_i b_j`, times `w` where the degree
/// `i + j` reaches `d`, is added to the coefficient of degree `(i + j) mod d`.
pub open spec fn schoolbook_step<F: Field>(
    res: Seq<F>,
    a: Seq<F>,
    b: Seq<F>,
    w: F,
    d: nat,
    i: int,
    j: int,
) -> Seq<F> {
    if i + j >= d {
        let t = i + j - d;
        res.update(t, res[t].plus_spec(a[i].times_spec(w).times_spec(b[j])))
    } else {
        let t = i + j;
        res.update(t, res[t].plus_spec(a[i].times_spec(b[j])))
    }
}

/// The schoolbook product after the rows `0..i` and, in row `i`, the columns `0..j`,
/// starting from `d` zeros.
pub open spec fn schoolbook_coeffs<F: Field>(
    a: Seq<F>,
    b: Seq<F>,
    w: F,
    d: nat,
    i: nat,
    j: nat,
) -> Seq<F>
    decreases i, j,
{
    if j == 0 {
        if i == 0 {
            Seq::new(d, |k: int| F::zero_spec())
        } else {
            schoolbook_coeffs(a, b, w, d, (i - 1) as nat, d)
        }
    } else {
        schoolbook_step(schoolbook_coeffs(a, b, w, d, i, (j - 1) as nat), a, b, w, d, i as int, j - 1)
    }
}

/// The coefficients that the product in `F[X] / (X^d - w)` stores.
pub open spec fn ext_mul_coeffs<F: Field>(a: Seq<F>, b: Seq<F>, w: F, d: nat) -> Seq<F> {
    if d == 2 {
        quadratic_mul_coeffs(a, b, w)
    } else if d == 3 {
        cubic_mul_coeffs(a, b, w)
    } else {
        schoolbook_coeffs(a, b, w, d, d, 0)
    }
}

/// The coefficients that squaring in `F[X] / (X^d - w)` stores.
pub open spec fn ext_square_coeffs<F: Field>(a: Seq<F>, w: F, d: nat) -> Seq<F> {
    if d == 2 {
        quadratic_square_coeffs(a, w)
    } else if d == 3 {
        cubic_square_coeffs(a, w)
    } else {
        ext_mul_coeffs(a, a, w, d)
    }
}

/// `x * m^n`, multiplied one factor at a time.
pub open spec fn times_power<F: Field>(x: F, m: F, n: nat) -> F
    decreases n,
{
    if n == 0 {
        x
    } else {
        times_power(x, m, (n - 1) as nat).times_spec(m)
    }
}

/// The coefficients that the repeated Frobenius map stores: with `c = count mod d`,
/// the input itself where `c` is zero, else `a_i * (root^c)^i`, each power built one
/// factor at a time.
pub open spec fn frobenius_coeffs<F: Field>(a: Seq<F>, root: F, d: nat, count: nat) -> Seq<F> {
    let c = count % d;
    if c == 0 {
        a
    } else {
        let z0 = times_power(root, root, (c - 1) as nat);
        Seq::new(d, |i: int| a[i].times_spec(times_power(F::one_spec(), z0, i as nat)))
    }
}

/// The factor `f` that the Frobenius inversion builds: one, then `n` times the
/// product with `a` followed by the Frobenius map.
pub open spec fn frobenius_inv_chain_coeffs<F: Field>(
    a: Seq<F>,
    w: F,
    root: F,
    d: nat,
    n: nat,
) -> Seq<F>
    decreases n,
{
    if n == 0 {
        base_coeffs(F::one_spec(), d)
    } else {
        frobenius_coeffs(
            ext_mul_coeffs(frobenius_inv_chain_coeffs(a, w, root, d, (n - 1) as nat), a, w, d),
            root,
            d,
            1,
        )
    }
}

/// `a_1 b_(d-1) + ... + a_(n-1) b_(d-n+1)`, added from zero in that order.
pub open spec fn tail_sum_coeff<F: Field>(a: Seq<F>, b: Seq<F>, d: nat, n: nat) -> F
    decreases n,
{
    if n <= 1 {
        F::zero_spec()
    } else {
        tail_sum_coeff(a, b, d, (n - 1) as nat).plus_spec(
            a[n - 1].times_spec(b[d - (n - 1)]),
        )
    }
}

/// The coefficients that the Frobenius inversion stores: each coefficient of `f`
/// times the inverse of the norm `g w + a0 f0`.
pub open spec fn frobenius_inv_coeffs<F: Field>(a: Seq<F>, w: F, root: F, d: nat) -> Seq<F> {
    let f = frobenius_inv_chain_coeffs(a, w, root, d, (d - 1) as nat);
    let norm = tail_sum_coeff(a, f, d, d).times_spec(w).plus_spec(a[0].times_spec(f[0]));
    Seq::new(d, |k: int| f[k].times_spec(norm.inverse_spec()))
}

/// The coefficients that the inverse stores: closed formulas for degrees two and
/// three, the Frobenius inversion otherwise.
pub open spec fn ext_inverse_coeffs<F: Field>(a: Seq<F>, w: F, root: F, d: nat) -> Seq<F> {
    if d == 2 {
        quadratic_inv_coeffs(a, w)
    } else if d == 3 {
        cubic_inv_coeffs(a, w)
    } else {
        frobenius_inv_coeffs(a, w, root, d)
    }
}

impl<F: BinomiallyExtendable<D>, const D: usize> BinomialExtensionField<F, D> {
    /// The view has `D` canonical coefficients.
    proof fn lemma_view(self)
        ensures
            self@.len() == D,
            forall|k: int| 0 <= k < D ==> #[trigger] self@[k] < F::order(),
            forall|k: int| 0 <= k < D ==> #[trigger] self@[k] == self.value@[k].to_nat(),
            F::order() > 1,
    {
        assert forall|k: int| 0 <= k < D implies #[trigger] self@[k] < F::order() by {
            self.value@[k].lemma_field();
        }
        F::lemma_order();
    }

    /// The element with the given coefficients.
    fn from_array(value: [F; D]) -> (r: Self)
        ensures
            r.value == value,
            r@ == to_nats(value@),
    {
        Self { value }
    }

    /// The base field element `b`, as `b + 0 X + ... + 0 X^(D-1)`.
    pub fn from_base(b: F) -> (r: Self)
        ensures
            r@ == base_embed(b.to_nat(), D as nat),
            r.coeffs() == base_coeffs(b, D as nat),
    {
        let mut value = [F::zero(); D];
        proof {
            F::lemma_degree();
        }
        value[0] = b;
        let r = Self::from_array(value);
        proof {
            assert(r@ =~= base_embed(b.to_nat(), D as nat));
            assert(r.coeffs() =~= base_coeffs(b, D as nat));
        }
        r
    }

    pub fn zero() -> (r: Self)
        ensures
            r@ == base_embed(0, D as nat),
            r.coeffs() == base_coeffs(F::zero_spec(), D as nat),
    {
        Self::from_base(F::zero())
    }

    pub fn one() -> (r: Self)
        ensures
            r@ == base_embed(1, D as nat),
            r.coeffs() == base_coeffs(F::one_spec(), D as nat),
    {
        Self::from_base(F::one())
    }

    pub fn two() -> (r: Self)
        ensures
            r@ == base_embed(2nat % F::order(), D as nat),
            r.coeffs() == base_coeffs(F::two_spec(), D as nat),
    {
        Self::from_base(F::two())
    }

    pub fn neg_one() -> (r: Self)
        ensures
            r@ == base_embed((F::order() - 1) as nat, D as nat),
            r.coeffs() == base_coeffs(F::neg_one_spec(), D as nat),
    {
        Self::from_base(F::neg_one())
    }

    /// The generator of the multiplicative group chosen by the base field.
    pub fn generator() -> (r: Self)
        ensures
            r@ == F::spec_ext_generator(),
            r.coeffs() == F::ext_generator_elems(),
    {
        Self::from_array(F::ext_generator())
    }

    pub fn from_bool(b: bool) -> (r: Self)
        ensures
            r@ == base_embed(
                if b {
                    1nat
                } else {
                    0nat
                },
                D as nat,
            ),
            r.coeffs() == base_coeffs(
                if b {
                    F::one_spec()
                } else {
                    F::zero_spec()
                },
                D as nat,
            ),
    {
        Self::from_base(F::from_bool(b))
    }

    pub fn from_canonical_u8(n: u8) -> (r: Self)
        requires
            n < F::order(),
        ensures
            r@ == base_embed(n as nat, D as nat),
            r.coeffs() == base_coeffs(F::canonical_spec(n as nat), D as nat),
    {
        Self::from_base(F::from_canonical_u32(n as u32))
    }

    pub fn from_canonical_u16(n: u16) -> (r: Self)
        requires
            n < F::order(),
        ensures
            r@ == base_embed(n as nat, D as nat),
            r.coeffs() == base_coeffs(F::canonical_spec(n as nat), D as nat),
    {
        Self::from_base(F::from_canonical_u32(n as u32))
    }

    pub fn from_canonical_u32(n: u32) -> (r: Self)
        requires
            n < F::order(),
        ensures
            r@ == base_embed(n as nat, D as nat),
            r.coeffs() == base_coeffs(F::canonical_spec(n as nat), D as nat),
    {
        Self::from_base(F::from_canonical_u32(n))
    }

    pub fn from_canonical_u64(n: u64) -> (r: Self)
        requires
            n < F::order(),
        ensures
            r@ == base_embed(n as nat, D as nat),
            r.coeffs() == base_coeffs(F::canonical_spec(n as nat), D as nat),
    {
        Self::from_base(F::from_canonical_u64(n))
    }

    pub fn from_canonical_usize(n: usize) -> (r: Self)
        requires
            n < F::order(),
        ensures
            r@ == base_embed(n as nat, D as nat),
            r.coeffs() == base_coeffs(F::canonical_spec(n as nat), D as nat),
    {
        Self::from_base(F::from_canonical_u64(n as u64))
    }

    pub fn from_wrapped_u32(n: u32) -> (r: Self)
        ensures
            r@ == base_embed((n as nat) % F::order(), D as nat),
            r.coeffs() == base_coeffs(F::wrapped_u32_spec(n), D as nat),
    {
        Self::from_base(F::from_wrapped_u32(n))
    }

    pub fn from_wrapped_u64(n: u64) -> (r: Self)
        ensures
            r@ == base_embed((n as nat) % F::order(), D as nat),
            r.coeffs() == base_coeffs(F::wrapped_u64_spec(n), D as nat),
    {
        Self::from_base(F::from_wrapped_u64(n))
    }

    /// The element with coefficients `bs[0], ..., bs[D-1]`.
    pub fn from_base_slice(bs: &[F]) -> (r: Self)
        requires
            bs@.len() >= D,
        ensures
            r@ == to_nats(bs@.take(D as int)),
            r.coeffs() == bs@.take(D as int),
    {
        let mut value = [F::zero(); D];
        let mut i: usize = 0;
        while i < D
            invariant
                i <= D,
                bs@.len() >= D,
                forall|j: int| 0 <= j < i ==> #[trigger] value@[j] == bs@[j],
            decreases D - i,
        {
            value[i] = bs[i];
            i += 1;
        }
        let r = Self::from_array(value);
        proof {
            assert(value@ =~= bs@.take(D as int));
        }
        r
    }

    /// The element whose coefficient `i` is `f(i)`.
    pub fn from_base_fn<G: Fn(usize) -> F>(f: G) -> (r: Self)
        requires
            forall|i: usize| i < D ==> #[trigger] f.requires((i,)),
        ensures
            forall|i: usize| i < D ==> #[trigger] f.ensures((i,), r.coeffs()[i as int]),
    {
        let mut value = [F::zero(); D];
        let mut i: usize = 0;
        while i < D
            invariant
                i <= D,
                forall|j: usize| j < D ==> #[trigger] f.requires((j,)),
                forall|j: usize| j < i ==> #[trigger] f.ensures((j,), value@[j as int]),
            decreases D - i,
        {
            value[i] = f(i);
            i += 1;
        }
        Self::from_array(value)
    }

    /// The element whose coefficients are the items of `items` in order, followed by zeros.
    pub fn from_base_iter(items: &[F]) -> (r: Self)
        requires
            items@.len() <= D,
        ensures
            r@ == to_nats(items@) + Seq::new((D - items@.len()) as nat, |k: int| 0nat),
            r.coeffs() == items@ + Seq::new((D - items@.len()) as nat, |k: int| F::zero_spec()),
    {
        let mut value = [F::zero(); D];
        let mut i: usize = 0;
        while i < items.len()
            invariant
                i <= items@.len() <= D,
                forall|j: int| 0 <= j < i ==> #[trigger] value@[j] == items@[j],
                forall|j: int| i <= j < D ==> (#[trigger] value@[j]).to_nat() == 0,
                forall|j: int| i <= j < D ==> #[trigger] value@[j] == F::zero_spec(),
            decreases items.len() - i,
        {
            value[i] = items[i];
            i += 1;
        }
        let r = Self::from_array(value);
        proof {
            assert(r@ =~= to_nats(items@) + Seq::new((D - items@.len()) as nat, |k: int| 0nat));
            assert(r.coeffs() =~= items@ + Seq::new(
                (D - items@.len()) as nat,
                |k: int| F::zero_spec(),
            ));
        }
        r
    }

    /// The coefficients, lowest degree first.
    pub fn as_base_slice(&self) -> (r: &[F])
        ensures
            to_nats(r@) == self@,
            r@.len() == D,
            r@ == self.coeffs(),
    {
        self.value.as_slice()
    }

    /// Whether every coefficient is zero.
    pub fn is_zero(&self) -> (b: bool)
        ensures
            b == (forall|k: int| 0 <= k < D ==> #[trigger] self@[k] == 0),
    {
        proof {
            self.lemma_view();
        }
        let mut i: usize = 0;
        while i < D
            invariant
                i <= D,
                forall|k: int| 0 <= k < i ==> #[trigger] self@[k] == 0,
                forall|k: int| 0 <= k < D ==> #[trigger] self@[k] == self.value@[k].to_nat(),
            decreases D - i,
        {
            if !self.value[i].is_zero() {
                assert(self@[i as int] != 0);
                return false;
            }
            i += 1;
        }
        true
    }

    /// Halves every coefficient.
    pub fn halve(&self) -> (r: Self)
        ensures
            forall|k: int| 0 <= k < D ==> (2 * #[trigger] r@[k]) % F::order() == self@[k],
            forall|k: int| 0 <= k < D ==> #[trigger] r.coeffs()[k] == self.coeffs()[k].halve_spec(),
    {
        let mut value = self.value;
        let mut i: usize = 0;
        while i < D
            invariant
                i <= D,
                forall|j: int|
                    0 <= j < i ==> (2 * (#[trigger] value@[j]).to_nat()) % F::order()
                        == self.value@[j].to_nat(),
                forall|j: int| 0 <= j < i ==> #[trigger] value@[j] == self.value@[j].halve_spec(),
            decreases D - i,
        {
            value[i] = self.value[i].halve();
            i += 1;
        }
        Self::from_array(value)
    }




    /// Every coefficient multiplied by the base field element `rhs`.
    pub fn mul_base(self, rhs: F) -> (r: Self)
        ensures
            r@ == ext_scale(self@, rhs.to_nat(), F::order()),
            forall|k: int|
                0 <= k < D ==> #[trigger] r.coeffs()[k] == self.coeffs()[k].times_spec(rhs),
    {
        let mut res = self.value;
        let mut i: usize = 0;
        while i < D
            invariant
                i <= D,
                forall|j: int|
                    0 <= j < i ==> (#[trigger] res@[j]).to_nat() == (self.value@[j].to_nat()
                        * rhs.to_nat()) % F::order(),
                forall|j: int| 0 <= j < i ==> #[trigger] res@[j] == self.value@[j].times_spec(rhs),
            decreases D - i,
        {
            res[i] = self.value[i].times(rhs);
            i += 1;
        }
        let r = Self::from_array(res);
        proof {
            self.lemma_view();
            r.lemma_view();
            assert(r@ =~= ext_scale(self@, rhs.to_nat(), F::order()));
        }
        r
    }

    /// Adds the base field element `rhs` to the constant coefficient.
    pub fn add_base(self, rhs: F) -> (r: Self)
        ensures
            r@ == self@.update(0, (self@[0] + rhs.to_nat()) % F::order()),
            r.coeffs() == self.coeffs().update(0, self.coeffs()[0].plus_spec(rhs)),
    {
        proof {
            F::lemma_degree();
        }
        let mut res = self.value;
        res[0] = res[0].plus(rhs);
        let r = Self::from_array(res);
        proof {
            assert(r@ =~= self@.update(0, (self@[0] + rhs.to_nat()) % F::order()));
            assert(r.coeffs() =~= self.coeffs().update(0, self.coeffs()[0].plus_spec(rhs)));
        }
        r
    }

    /// Subtracts the base field element `rhs` from the constant coefficient.
    pub fn sub_base(self, rhs: F) -> (r: Self)
        ensures
            r@ == self@.update(0, ((self@[0] - rhs.to_nat()) % (F::order() as int)) as nat),
            r.coeffs() == self.coeffs().update(0, self.coeffs()[0].minus_spec(rhs)),
    {
        proof {
            F::lemma_degree();
        }
        let mut res = self.value;
        res[0] = res[0].minus(rhs);
        let r = Self::from_array(res);
        proof {
            assert(r@ =~= self@.update(
                0,
                ((self@[0] - rhs.to_nat()) % (F::order() as int)) as nat,
            ));
            assert(r.coeffs() =~= self.coeffs().update(0, self.coeffs()[0].minus_spec(rhs)));
        }
        r
    }



    /// `self * self`: closed formulas for `D = 2` and `D = 3`, the product otherwise.
    pub fn square(&self) -> (r: Self)
        ensures
            r@ == ext_mul(self@, self@, F::spec_w(), F::order()),
            r.coeffs() == ext_square_coeffs(self.coeffs(), F::w_elem(), D as nat),
    {
        let a = self.value;
        let ghost av = self@;
        let ghost p = F::order();
        let ghost ww = F::spec_w();
        proof {
            self.lemma_view();
        }
        match D {
            2 => {
                let w = F::w();
                let mut res = [F::zero(); D];
                let s0 = a[0].square();
                let s1 = a[1].square();
                let s1w = s1.times(w);
                let r0 = s0.plus(s1w);
                let d1 = a[1].double();
                let r1 = a[0].times(d1);
                proof {
                    let (x0, x1) = (av[0] as int, av[1] as int);
                    lemma_times(s0.to_nat(), av[0], av[0], x0, x0, p);
                    lemma_times(s1.to_nat(), av[1], av[1], x1, x1, p);
                    lemma_times(s1w.to_nat(), s1.to_nat(), ww, x1 * x1, ww as int, p);
                    lemma_plus(r0.to_nat(), s0.to_nat(), s1w.to_nat(), x0 * x0, (x1 * x1) * ww, p);
                    lemma_times(d1.to_nat(), 2, av[1], 2, x1, p);
                    lemma_times(r1.to_nat(), av[0], d1.to_nat(), x0, 2 * x1, p);
                    lemma_quadratic_square_formulas(av, ww);
                    r0.lemma_field();
                    r1.lemma_field();
                    lemma_cong_canonical(r0.to_nat() as int, mul_coeff(av, av, ww, 0, 2), p as int);
                    lemma_cong_canonical(r1.to_nat() as int, mul_coeff(av, av, ww, 1, 2), p as int);
                }
                res[0] = r0;
                res[1] = r1;
                let r = Self::from_array(res);
                proof {
                    r.lemma_view();
                    assert(r@ =~= ext_mul(av, av, ww, p));
                    assert(r.coeffs() =~= quadratic_square_coeffs(a@, w));
                }
                r
            },
            3 => {
                let mut res = [F::zero(); D];
                cubic_square(&a, &mut res, F::w());
                let r = Self::from_array(res);
                proof {
                    assert(to_nats(a@) == av);
                }
                r
            },
            _ => *self * *self,
        }
    }

    /// The repeated Frobenius automorphism `x -> x^(p^count)`.
    pub fn repeated_frobenius(&self, count: usize) -> (r: Self)
        ensures
            r@ == frobenius_spec(self@, F::spec_dth_root(), (count % D) as nat, F::order()),
            r@ == ext_pow(
                self@,
                pow(F::order() as int, count as nat) as nat,
                F::spec_w(),
                F::order(),
            ),
            r.coeffs() == frobenius_coeffs(self.coeffs(), F::dth_root_elem(), D as nat, count as nat),
        decreases count,
    {
        proof {
            self.lemma_view();
            lemma_repeated_frobenius_pow::<F, D>(self@, count as nat);
        }
        let ghost p = F::order();
        let ghost z = F::spec_dth_root();
        proof {
            F::lemma_degree();
            F::lemma_order();
            self.lemma_view();
        }
        if count == 0 {
            proof {
                assert forall|i: int| 0 <= i < D implies #[trigger] frobenius_spec(self@, z, 0, p)[i]
                    == self@[i] by {
                    assert(0 * (i as nat) == 0);
                    lemma_pow0(z as int);
                    lemma_small_mod(self@[i], p);
                }
                assert(frobenius_spec(self@, z, 0, p) =~= self@);
                lemma_small_mod(count as nat, D as nat);
            }
            return *self;
        } else if count >= D {
            proof {
                lemma_mod_twice(count as int, D as int);
            }
            return self.repeated_frobenius(count % D);
        }
        // z0 = dth_root^count
        let root = F::dth_root();
        let mut z0 = root;
        let mut c: usize = 1;
        proof {
            root.lemma_field();
            lemma_pow1(z as int);
            lemma_small_mod(z, p);
        }
        while c < count
            invariant
                1 <= c <= count,
                p == F::order(),
                p > 1,
                root.to_nat() == z,
                is_pow_of(z, z, 1, p),
                is_pow_of(z0.to_nat(), z, c as nat, p),
                root == F::dth_root_elem(),
                z0 == times_power(root, root, (c - 1) as nat),
            decreases count - c,
        {
            let ghost prev = z0.to_nat();
            z0 = z0.times(root);
            proof {
                lemma_pow_of_mul(prev, z, z, c as nat, 1, p);
            }
            c += 1;
        }
        // res[i] = self[i] * z0^i
        let mut res = [F::zero(); D];
        let mut zi = F::one();
        let mut i: usize = 0;
        proof {
            lemma_pow0(z as int);
            lemma_small_mod(1, p);
        }
        while i < D
            invariant
                i <= D,
                count < D,
                p == F::order(),
                p > 1,
                is_pow_of(z0.to_nat(), z, count as nat, p),
                is_pow_of(zi.to_nat(), z, (count * i) as nat, p),
                forall|k: int| 0 <= k < D ==> #[trigger] self@[k] == self.value@[k].to_nat(),
                forall|k: int|
                    0 <= k < i ==> (#[trigger] res@[k]).to_nat() == frobenius_spec(
                        self@,
                        z,
                        count as nat,
                        p,
                    )[k],
                zi == times_power(F::one_spec(), z0, i as nat),
                forall|k: int|
                    0 <= k < i ==> #[trigger] res@[k] == self.value@[k].times_spec(
                        times_power(F::one_spec(), z0, k as nat),
                    ),
            decreases D - i,
        {
            let ghost zi_prev = zi.to_nat();
            let t = self.value[i].times(zi);
            proof {
                lemma_mul_mod_noop_right(self@[i as int] as int, pow(z as int, (count * i) as nat), p as int);
            }
            res[i] = t;
            zi = zi.times(z0);
            proof {
                lemma_pow_of_mul(zi_prev, z0.to_nat(), z, (count * i) as nat, count as nat, p);
                assert(count * i + count == count * (i + 1)) by (nonlinear_arith);
            }
            i += 1;
        }
        let r = Self::from_array(res);
        proof {
            r.lemma_view();
            assert(r@ =~= frobenius_spec(self@, z, count as nat, p));
            lemma_small_mod(count as nat, D as nat);
            assert(r.coeffs() =~= frobenius_coeffs(
                self.coeffs(),
                F::dth_root_elem(),
                D as nat,
                count as nat,
            ));
        }
        r
    }

    /// The Frobenius automorphism `x -> x^p`.
    pub fn frobenius(&self) -> (r: Self)
        ensures
            r@ == frobenius_spec(self@, F::spec_dth_root(), 1nat % (D as nat), F::order()),
            r@ == ext_pow(self@, F::order(), F::spec_w(), F::order()),
            r.coeffs() == frobenius_coeffs(self.coeffs(), F::dth_root_elem(), D as nat, 1),
    {
        proof {
            self.lemma_view();
            lemma_frobenius_pow::<F, D>(self@);
        }
        self.repeated_frobenius(1)
    }

    /// Inversion through the Frobenius map: with `f = a^(p + p^2 + ... + p^(D-1))`,
    /// the product `g = a f` is the norm of `a`, a base field element, and the
    /// inverse is `f / g`.
    pub fn frobenius_inv(&self) -> (r: Self)
        requires
            exists|k: int| 0 <= k < D && #[trigger] self@[k] != 0,
        ensures
            forall|k: int|
                0 <= k < D ==> (#[trigger] r@[k] * frobenius_inv_norm(
                    self@,
                    F::spec_w(),
                    F::spec_dth_root(),
                    F::order(),
                )) % F::order() == frobenius_inv_chain(
                    self@,
                    F::spec_w(),
                    F::spec_dth_root(),
                    F::order(),
                    (D - 1) as nat,
                )[k],
            ext_mul(self@, r@, F::spec_w(), F::order()) == base_embed(1, D as nat),
            r.coeffs() == frobenius_inv_coeffs(
                self.coeffs(),
                F::w_elem(),
                F::dth_root_elem(),
                D as nat,
            ),
    {
        let ghost p = F::order();
        let ghost ww = F::spec_w();
        let ghost z = F::spec_dth_root();
        let ghost av = self@;
        proof {
            F::lemma_degree();
            F::lemma_order();
            self.lemma_view();
            lemma_frobenius_norm_nonzero::<F, D>(self@);
        }
        let mut f = Self::one();
        let mut n: usize = 1;
        while n < D
            invariant
                1 <= n <= D,
                av == self@,
                av.len() == D,
                p == F::order(),
                ww == F::spec_w(),
                z == F::spec_dth_root(),
                f@ == frobenius_inv_chain(av, ww, z, p, (n - 1) as nat),
                f.coeffs() == frobenius_inv_chain_coeffs(
                    self.coeffs(),
                    F::w_elem(),
                    F::dth_root_elem(),
                    D as nat,
                    (n - 1) as nat,
                ),
            decreases D - n,
        {
            let ghost prev = f@;
            f = (f * *self).frobenius();
            proof {
                assert(frobenius_inv_chain(av, ww, z, p, n as nat) == frobenius_spec(
                    ext_mul(frobenius_inv_chain(av, ww, z, p, (n - 1) as nat), av, ww, p),
                    z,
                    1nat % av.len(),
                    p,
                ));
            }
            n += 1;
        }
        let a = self.value;
        let b = f.value;
        let ghost bv = f@;
        proof {
            f.lemma_view();
        }
        let mut g = F::zero();
        let mut i: usize = 1;
        proof {
            lemma_small_mod(0, p);
        }
        while i < D
            invariant
                1 <= i <= D,
                p == F::order(),
                p > 1,
                av.len() == D,
                bv.len() == D,
                forall|k: int| 0 <= k < D ==> #[trigger] av[k] == a@[k].to_nat(),
                forall|k: int| 0 <= k < D ==> #[trigger] bv[k] == b@[k].to_nat(),
                g.to_nat() == tail_sum(av, bv, i as nat) % (p as int),
                g == tail_sum_coeff(a@, b@, D as nat, i as nat),
            decreases D - i,
        {
            let t = a[i].times(b[D - i]);
            let g_next = g.plus(t);
            proof {
                let x = av[i as int] * bv[D - i];
                lemma_times(t.to_nat(), av[i as int], bv[D - i], av[i as int] as int, bv[D - i] as int, p);
                lemma_cong_mod(tail_sum(av, bv, i as nat), p as int);
                lemma_plus(g_next.to_nat(), g.to_nat(), t.to_nat(), tail_sum(av, bv, i as nat), x as int, p);
                g_next.lemma_field();
                lemma_cong_canonical(g_next.to_nat() as int, tail_sum(av, bv, (i + 1) as nat), p as int);
            }
            g = g_next;
            i += 1;
        }
        let w = F::w();
        let g_w = g.times(w);
        let a0_b0 = a[0].times(b[0]);
        let norm = g_w.plus(a0_b0);
        proof {
            let tail = tail_sum(av, bv, D as nat);
            lemma_cong_mod(tail, p as int);
            lemma_times(g_w.to_nat(), g.to_nat(), ww, tail, ww as int, p);
            lemma_times(a0_b0.to_nat(), av[0], bv[0], av[0] as int, bv[0] as int, p);
            lemma_plus(norm.to_nat(), g_w.to_nat(), a0_b0.to_nat(), tail * ww, (av[0] * bv[0]) as int, p);
            lemma_mul_is_commutative(tail, ww as int);
            lemma_coeff0_tail(av, bv, ww, D as nat);
            norm.lemma_field();
            lemma_cong_canonical(norm.to_nat() as int, mul_coeff(av, bv, ww, 0, D as nat), p as int);
            assert(norm.to_nat() == frobenius_inv_norm(av, ww, z, p));
        }
        let norm_inv = norm.inverse();
        let r = f.mul_base(norm_inv);
        proof {
            let nv = norm.to_nat() as int;
            let sv = norm_inv.to_nat() as int;
            lemma_mul_is_commutative(nv, sv);
            lemma_small_mod(1, p);
            assert forall|k: int| 0 <= k < D implies (#[trigger] r@[k] * frobenius_inv_norm(
                av,
                ww,
                z,
                p,
            )) % p == frobenius_inv_chain(av, ww, z, p, (D - 1) as nat)[k] by {
                lemma_cong_mod(bv[k] * sv, p as int);
                lemma_quotient(r@[k] as int, bv[k] as int, sv, nv, p as int);
                lemma_small_mod(bv[k], p);
            }
            lemma_frobenius_norm_in_base::<F, D>(av);
            lemma_scaled_cofactor_inverse(av, bv, norm_inv.to_nat(), norm.to_nat(), ww, p);
            r.lemma_coeffs_view();
            assert(r.coeffs() =~= frobenius_inv_coeffs(
                self.coeffs(),
                F::w_elem(),
                F::dth_root_elem(),
                D as nat,
            ));
        }
        r
    }

    /// The multiplicative inverse, or `None` for zero: closed formulas for
    /// `D = 2` and `D = 3`, the Frobenius inversion otherwise.
    pub fn try_inverse(&self) -> (r: Option<Self>)
        ensures
            r is None <==> (forall|k: int| 0 <= k < D ==> #[trigger] self@[k] == 0),
            r matches Some(x) ==> is_ext_inverse(self@, x@, F::spec_w(), F::order()),
            r matches Some(x) ==> x.coeffs() == ext_inverse_coeffs(
                self.coeffs(),
                F::w_elem(),
                F::dth_root_elem(),
                D as nat,
            ),
    {
        if self.is_zero() {
            return None;
        }
        proof {
            self.lemma_view();
            F::lemma_inverse_defined(self@);
            assert(self.value@.take(D as int) =~= self.value@);
        }
        match D {
            2 => {
                let inv = qudratic_inv(self.value.as_slice(), F::w());
                let r = Self::from_base_slice(inv.as_slice());
                proof {
                    assert(inv@.take(D as int) =~= inv@);
                }
                Some(r)
            },
            3 => {
                let inv = cubic_inv(self.value.as_slice(), F::w());
                let r = Self::from_base_slice(inv.as_slice());
                proof {
                    assert(inv@.take(D as int) =~= inv@);
                }
                Some(r)
            },
            _ => Some(self.frobenius_inv()),
        }
    }

    /// The multiplicative inverse of a nonzero element.
    pub fn inverse(&self) -> (r: Self)
        requires
            exists|k: int| 0 <= k < D && #[trigger] self@[k] != 0,
        ensures
            is_ext_inverse(self@, r@, F::spec_w(), F::order()),
            r.coeffs() == ext_inverse_coeffs(
                self.coeffs(),
                F::w_elem(),
                F::dth_root_elem(),
                D as nat,
            ),
    {
        match self.try_inverse() {
            Some(x) => x,
            None => Self::zero(),
        }
    }


    /// A vector of `len` zeros.
    pub fn zero_vec(len: usize) -> (r: Vec<Self>)
        ensures
            r@.len() == len,
            forall|i: int| 0 <= i < len ==> (#[trigger] r@[i])@ == base_embed(0, D as nat),
            forall|i: int|
                0 <= i < len ==> (#[trigger] r@[i]).coeffs() == base_coeffs(F::zero_spec(), D as nat),
    {
        let mut v: Vec<Self> = Vec::new();
        let mut i: usize = 0;
        while i < len
            invariant
                i <= len,
                v@.len() == i,
                forall|j: int| 0 <= j < i ==> (#[trigger] v@[j])@ == base_embed(0, D as nat),
                forall|j: int|
                    0 <= j < i ==> (#[trigger] v@[j]).coeffs() == base_coeffs(
                        F::zero_spec(),
                        D as nat,
                    ),
            decreases len - i,
        {
            v.push(Self::zero());
            i += 1;
        }
        v
    }

    /// The sum of a slice, from zero.
    pub fn sum(values: &[Self]) -> (r: Self)
        ensures
            r@ == ext_sum(values@, F::order()),
            r.coeffs() == ext_sum_coeffs(values@),
    {
        let mut acc = Self::zero();
        let mut i: usize = 0;
        while i < values.len()
            invariant
                i <= values.len(),
                acc@ == ext_sum(values@.take(i as int), F::order()),
                acc.coeffs() == ext_sum_coeffs(values@.take(i as int)),
            decreases values.len() - i,
        {
            proof {
                assert(values@.take(i + 1).drop_last() =~= values@.take(i as int));
            }
            let ghost prev = acc;
            acc = acc + values[i];
            proof {
                acc.lemma_coeffs_view();
                prev.lemma_coeffs_view();
                values[i as int].lemma_coeffs_view();
                assert(acc.coeffs() =~= ext_sum_coeffs(values@.take(i + 1)));
            }
            i += 1;
        }
        proof {
            assert(values@.take(i as int) =~= values@);
        }
        acc
    }

    /// The product of a slice, from one.
    pub fn product(values: &[Self]) -> (r: Self)
        ensures
            r@ == ext_product(values@, F::spec_w(), F::order()),
            r.coeffs() == ext_product_coeffs(values@),
    {
        let mut acc = Self::one();
        let mut i: usize = 0;
        while i < values.len()
            invariant
                i <= values.len(),
                acc@ == ext_product(values@.take(i as int), F::spec_w(), F::order()),
                acc.coeffs() == ext_product_coeffs(values@.take(i as int)),
            decreases values.len() - i,
        {
            proof {
                assert(values@.take(i + 1).drop_last() =~= values@.take(i as int));
            }
            acc = acc * values[i];
            i += 1;
        }
        proof {
            assert(values@.take(i as int) =~= values@);
        }
        acc
    }

    /// The order `p^D` of the extension field.
    pub fn order() -> (r: BigUint)
        ensures
            r == biguint_pow_result(F::spec_order_biguint(), D as u32),
    {
        biguint_pow(&F::order_biguint(), D as u32)
    }

    /// The coefficients, lowest degree first.
    pub closed spec fn coeffs(self) -> Seq<F> {
        self.value@
    }

    /// The view is the canonical values of the `D` coefficients.
    pub proof fn lemma_coeffs_view(self)
        ensures
            self.coeffs().len() == D,
            self@ == to_nats(self.coeffs()),
    {
    }

    /// The text of the element, as its `Display` writes it: for example `1 + 2 X + X^2`.
    pub fn to_string(&self) -> (s: String)
        ensures
            s@ == ext_display(self.coeffs()),
    {
        proof {
            self.lemma_view();
        }
        if self.is_zero() {
            proof {
                assert forall|k: int| 0 <= k < D implies (#[trigger] self.value@[k]).to_nat() == 0 by {
                    assert(self@[k] == 0);
                }
            }
            return String::from_str("0");
        }
        let ghost v = self.value@;
        let mut res = String::new();
        let mut first = true;
        let mut i: usize = 0;
        while i < D
            invariant
                i <= D,
                v == self.value@,
                v.len() == D,
                res@ == join(display_terms(v, i as nat), " + "@),
                first == (display_terms(v, i as nat).len() == 0),
            decreases D - i,
        {
            let x = self.value[i];
            if !x.is_zero() {
                let term = if i == 0 {
                    x.to_string()
                } else if i == 1 {
                    if x.is_one() {
                        String::from_str("X")
                    } else {
                        let mut t = x.to_string();
                        t.append(" X");
                        t
                    }
                } else if x.is_one() {
                    let mut t = String::from_str("X^");
                    t.append(decimal_string(i as u64).as_str());
                    t
                } else {
                    let mut t = x.to_string();
                    t.append(" X^");
                    t.append(decimal_string(i as u64).as_str());
                    t
                };
                proof {
                    let prev = display_terms(v, i as nat);
                    assert(display_terms(v, (i + 1) as nat) == prev.push(term@));
                    assert(prev.push(term@).drop_last() =~= prev);
                }
                if !first {
                    res.append(" + ");
                }
                res.append(term.as_str());
                first = false;
            }
            i += 1;
        }
        res
    }
}

impl<F: BinomiallyExtendable<D>, const D: usize> Default for BinomialExtensionField<F, D> {
    fn default() -> (r: Self)
        ensures
            r@ == base_embed(0, D as nat),
            r.coeffs() == base_coeffs(F::zero_spec(), D as nat),
    {
        Self::zero()
    }
}

impl<F: BinomiallyExtendable<D>, const D: usize> From<F> for BinomialExtensionField<F, D> {
    fn from(x: F) -> (r: Self)
        ensures
            r@ == base_embed(x.to_nat(), D as nat),
            r.coeffs() == base_coeffs(x, D as nat),
    {
        Self::from_base(x)
    }
}

impl<F: BinomiallyExtendable<D>, const D: usize> FromSpecImpl<F> for BinomialExtensionField<F, D> {
    /// The result is pinned down by its coefficients' values, not structurally.
    open spec fn obeys_from_spec() -> bool {
        false
    }

    open spec fn from_spec(v: F) -> Self {
        arbitrary()
    }
}

impl<F: BinomiallyExtendable<D>, const D: usize> core::ops::Add for BinomialExtensionField<F, D> {
    type Output = Self;

    /// The coefficientwise sum.
    fn add(self, rhs: Self) -> (r: Self)
        ensures
            r@ == ext_add(self@, rhs@, F::order()),
            forall|k: int|
                0 <= k < D ==> #[trigger] r.coeffs()[k] == self.coeffs()[k].plus_spec(
                    rhs.coeffs()[k],
                ),
    {
        let mut res = self.value;
        let mut i: usize = 0;
        while i < D
            invariant
                i <= D,
                forall|j: int|
                    0 <= j < i ==> (#[trigger] res@[j]).to_nat() == (self.value@[j].to_nat()
                        + rhs.value@[j].to_nat()) % F::order(),
                forall|j: int|
                    0 <= j < i ==> #[trigger] res@[j] == self.value@[j].plus_spec(rhs.value@[j]),
                forall|j: int| i <= j < D ==> #[trigger] res@[j] == self.value@[j],
            decreases D - i,
        {
            res[i] = res[i].plus(rhs.value[i]);
            i += 1;
        }
        let r = Self::from_array(res);
        proof {
            self.lemma_view();
            rhs.lemma_view();
            r.lemma_view();
            assert(r@ =~= ext_add(self@, rhs@, F::order()));
        }
        r
    }
}

impl<F: BinomiallyExtendable<D>, const D: usize> AddSpecImpl for BinomialExtensionField<F, D> {
    /// The result is pinned down by its coefficients' values, not structurally.
    open spec fn obeys_add_spec() -> bool {
        false
    }

    open spec fn add_req(self, rhs: Self) -> bool {
        true
    }

    open spec fn add_spec(self, rhs: Self) -> Self {
        arbitrary()
    }
}

impl<F: BinomiallyExtendable<D>, const D: usize> core::ops::Add<F> for BinomialExtensionField<F, D> {
    type Output = Self;

    fn add(self, rhs: F) -> (r: Self)
        ensures
            r@ == self@.update(0, (self@[0] + rhs.to_nat()) % F::order()),
            r.coeffs() == self.coeffs().update(0, self.coeffs()[0].plus_spec(rhs)),
    {
        self.add_base(rhs)
    }
}

impl<F: BinomiallyExtendable<D>, const D: usize> AddSpecImpl<F> for BinomialExtensionField<F, D> {
    open spec fn obeys_add_spec() -> bool {
        false
    }

    open spec fn add_req(self, rhs: F) -> bool {
        true
    }

    open spec fn add_spec(self, rhs: F) -> Self {
        arbitrary()
    }
}

impl<F: BinomiallyExtendable<D>, const D: usize> core::ops::Sub for BinomialExtensionField<F, D> {
    type Output = Self;

    /// The coefficientwise difference.
    fn sub(self, rhs: Self) -> (r: Self)
        ensures
            r@ == ext_sub(self@, rhs@, F::order()),
            forall|k: int|
                0 <= k < D ==> #[trigger] r.coeffs()[k] == self.coeffs()[k].minus_spec(
                    rhs.coeffs()[k],
                ),
    {
        let mut res = self.value;
        let mut i: usize = 0;
        while i < D
            invariant
                i <= D,
                forall|j: int|
                    0 <= j < i ==> (#[trigger] res@[j]).to_nat() == (self.value@[j].to_nat()
                        - rhs.value@[j].to_nat()) % (F::order() as int),
                forall|j: int|
                    0 <= j < i ==> #[trigger] res@[j] == self.value@[j].minus_spec(rhs.value@[j]),
                forall|j: int| i <= j < D ==> #[trigger] res@[j] == self.value@[j],
            decreases D - i,
        {
            res[i] = res[i].minus(rhs.value[i]);
            i += 1;
        }
        let r = Self::from_array(res);
        proof {
            assert(r@ =~= ext_sub(self@, rhs@, F::order()));
        }
        r
    }
}

impl<F: BinomiallyExtendable<D>, const D: usize> SubSpecImpl for BinomialExtensionField<F, D> {
    open spec fn obeys_sub_spec() -> bool {
        false
    }

    open spec fn sub_req(self, rhs: Self) -> bool {
        true
    }

    open spec fn sub_spec(self, rhs: Self) -> Self {
        arbitrary()
    }
}

impl<F: BinomiallyExtendable<D>, const D: usize> core::ops::Sub<F> for BinomialExtensionField<F, D> {
    type Output = Self;

    fn sub(self, rhs: F) -> (r: Self)
        ensures
            r@ == self@.update(0, ((self@[0] - rhs.to_nat()) % (F::order() as int)) as nat),
            r.coeffs() == self.coeffs().update(0, self.coeffs()[0].minus_spec(rhs)),
    {
        self.sub_base(rhs)
    }
}

impl<F: BinomiallyExtendable<D>, const D: usize> SubSpecImpl<F> for BinomialExtensionField<F, D> {
    open spec fn obeys_sub_spec() -> bool {
        false
    }

    open spec fn sub_req(self, rhs: F) -> bool {
        true
    }

    open spec fn sub_spec(self, rhs: F) -> Self {
        arbitrary()
    }
}

impl<F: BinomiallyExtendable<D>, const D: usize> core::ops::Neg for BinomialExtensionField<F, D> {
    type Output = Self;

    /// The coefficientwise negation.
    fn neg(self) -> (r: Self)
        ensures
            r@ == ext_neg(self@, F::order()),
            forall|k: int| 0 <= k < D ==> #[trigger] r.coeffs()[k] == self.coeffs()[k].negate_spec(),
    {
        let mut res = self.value;
        let mut i: usize = 0;
        while i < D
            invariant
                i <= D,
                forall|j: int| 0 <= j < i ==> #[trigger] res@[j] == self.value@[j].negate_spec(),
                forall|j: int|
                    0 <= j < i ==> (#[trigger] res@[j]).to_nat() == (-(
                    self.value@[j].to_nat() as int)) % (F::order() as int),
            decreases D - i,
        {
            res[i] = self.value[i].negate();
            i += 1;
        }
        let r = Self::from_array(res);
        proof {
            assert(r@ =~= ext_neg(self@, F::order()));
        }
        r
    }
}

impl<F: BinomiallyExtendable<D>, const D: usize> NegSpecImpl for BinomialExtensionField<F, D> {
    open spec fn obeys_neg_spec() -> bool {
        false
    }

    open spec fn neg_req(self) -> bool {
        true
    }

    open spec fn neg_spec(self) -> Self {
        arbitrary()
    }
}

impl<F: BinomiallyExtendable<D>, const D: usize> core::ops::Mul for BinomialExtensionField<F, D> {
    type Output = Self;

    /// The product in `F[X] / (X^D - W)`: closed formulas for `D = 2`,
    /// Karatsuba for `D = 3`, and the schoolbook product otherwise.
    fn mul(self, rhs: Self) -> (r: Self)
        ensures
            r@ == ext_mul(self@, rhs@, F::spec_w(), F::order()),
            r.coeffs() == ext_mul_coeffs(self.coeffs(), rhs.coeffs(), F::w_elem(), D as nat),
    {
        let a = self.value;
        let b = rhs.value;
        let w = F::w();
        let mut res = [F::zero(); D];
        let ghost av = self@;
        let ghost bv = rhs@;
        let ghost p = F::order();
        let ghost ww = F::spec_w();
        proof {
            self.lemma_view();
            rhs.lemma_view();
            w.lemma_field();
        }
        match D {
            2 => {
                let m00 = a[0].times(b[0]);
                let a1w = a[1].times(w);
                let m11 = a1w.times(b[1]);
                let r0 = m00.plus(m11);
                let m01 = a[0].times(b[1]);
                let m10 = a[1].times(b[0]);
                let r1 = m01.plus(m10);
                proof {
                    let (x0, x1) = (av[0] as int, av[1] as int);
                    let (y0, y1) = (bv[0] as int, bv[1] as int);
                    lemma_times(m00.to_nat(), av[0], bv[0], x0, y0, p);
                    lemma_times(a1w.to_nat(), av[1], ww, x1, ww as int, p);
                    lemma_times(m11.to_nat(), a1w.to_nat(), bv[1], x1 * ww, y1, p);
                    lemma_plus(r0.to_nat(), m00.to_nat(), m11.to_nat(), x0 * y0, (x1 * ww) * y1, p);
                    lemma_times(m01.to_nat(), av[0], bv[1], x0, y1, p);
                    lemma_times(m10.to_nat(), av[1], bv[0], x1, y0, p);
                    lemma_plus(r1.to_nat(), m01.to_nat(), m10.to_nat(), x0 * y1, x1 * y0, p);
                    lemma_quadratic_mul(av, bv, ww, r0.to_nat() as int, r1.to_nat() as int, p);
                    r0.lemma_field();
                    r1.lemma_field();
                    lemma_cong_canonical(r0.to_nat() as int, mul_coeff(av, bv, ww, 0, 2), p as int);
                    lemma_cong_canonical(r1.to_nat() as int, mul_coeff(av, bv, ww, 1, 2), p as int);
                }
                res[0] = r0;
                res[1] = r1;
                proof {
                    assert(res@ =~= quadratic_mul_coeffs(a@, b@, w));
                }
            },
            3 => {
                cubic_mul(&a, &b, &mut res, w);
                proof {
                    assert(to_nats(a@) == av);
                    assert(to_nats(b@) == bv);
                }
            },
            _ => {
                proof {
                    assert forall|k: int| 0 <= k < D implies (#[trigger] res@[k]).to_nat()
                        == mul_coeff(av, bv, ww, k, 0) % (p as int) by {
                        lemma_small_mod(0, p);
                    }
                    assert(res@ =~= schoolbook_coeffs(a@, b@, w, D as nat, 0, 0));
                }
                let mut i: usize = 0;
                while i < D
                    invariant
                        i <= D,
                        av.len() == D,
                        bv.len() == D,
                        p == F::order(),
                        p > 1,
                        ww == w.to_nat(),
                        forall|k: int| 0 <= k < D ==> #[trigger] av[k] == a@[k].to_nat(),
                        forall|k: int| 0 <= k < D ==> #[trigger] bv[k] == b@[k].to_nat(),
                        forall|k: int|
                            0 <= k < D ==> (#[trigger] res@[k]).to_nat() == mul_coeff(
                                av,
                                bv,
                                ww,
                                k,
                                i as nat,
                            ) % (p as int),
                        res@ == schoolbook_coeffs(a@, b@, w, D as nat, i as nat, 0),
                    decreases D - i,
                {
                    let mut j: usize = 0;
                    proof {
                        assert forall|k: int| 0 <= k < D implies (#[trigger] res@[k]).to_nat()
                            == partial_coeff(av, bv, ww, k, i as nat, 0) % (p as int) by {
                            lemma_partial_start(av, bv, ww, k, i as nat);
                        }
                    }
                    while j < D
                        invariant
                            i < D,
                            j <= D,
                            av.len() == D,
                            bv.len() == D,
                            p == F::order(),
                            p > 1,
                            ww == w.to_nat(),
                            forall|k: int| 0 <= k < D ==> #[trigger] av[k] == a@[k].to_nat(),
                            forall|k: int| 0 <= k < D ==> #[trigger] bv[k] == b@[k].to_nat(),
                            forall|k: int|
                                0 <= k < D ==> (#[trigger] res@[k]).to_nat() == partial_coeff(
                                    av,
                                    bv,
                                    ww,
                                    k,
                                    i as nat,
                                    j as int,
                                ) % (p as int),
                            res@ == schoolbook_coeffs(a@, b@, w, D as nat, i as nat, j as nat),
                        decreases D - j,
                    {
                        let ghost old_res = res;
                        let t: usize;
                        let prod: F;
                        // `i + j >= D`, written without overflow
                        if i >= D - j {
                            t = i - (D - j);
                            let aw = a[i].times(w);
                            prod = aw.times(b[j]);
                            proof {
                                let (x, y) = (av[i as int] as int, bv[j as int] as int);
                                lemma_times(aw.to_nat(), av[i as int], ww, x, ww as int, p);
                                lemma_times(prod.to_nat(), aw.to_nat(), bv[j as int], x * ww, y, p);
                            }
                        } else {
                            t = i + j;
                            prod = a[i].times(b[j]);
                            proof {
                                let (x, y) = (av[i as int] as int, bv[j as int] as int);
                                lemma_times(prod.to_nat(), av[i as int], bv[j as int], x, y, p);
                            }
                        }
                        let sum = res[t].plus(prod);
                        proof {
                            lemma_schoolbook_step(
                                av,
                                bv,
                                ww,
                                i as nat,
                                j as int,
                                t as int,
                                old_res@[t as int].to_nat(),
                                prod.to_nat(),
                                sum.to_nat(),
                                p,
                            );
                        }
                        res[t] = sum;
                        proof {
                            assert(res@ =~= schoolbook_step(
                                old_res@,
                                a@,
                                b@,
                                w,
                                D as nat,
                                i as int,
                                j as int,
                            ));
                        }
                        j += 1;
                    }
                    proof {
                        assert forall|k: int| 0 <= k < D implies (#[trigger] res@[k]).to_nat()
                            == mul_coeff(av, bv, ww, k, (i + 1) as nat) % (p as int) by {
                            lemma_partial_end(av, bv, ww, k, i as nat);
                        }
                    }
                    i += 1;
                }
            },
        }
        let r = Self::from_array(res);
        proof {
            r.lemma_view();
            assert(r@ =~= ext_mul(av, bv, ww, p));
        }
        r
    }
}

impl<F: BinomiallyExtendable<D>, const D: usize> MulSpecImpl for BinomialExtensionField<F, D> {
    open spec fn obeys_mul_spec() -> bool {
        false
    }

    open spec fn mul_req(self, rhs: Self) -> bool {
        true
    }

    open spec fn mul_spec(self, rhs: Self) -> Self {
        arbitrary()
    }
}

impl<F: BinomiallyExtendable<D>, const D: usize> core::ops::Mul<F> for BinomialExtensionField<F, D> {
    type Output = Self;

    fn mul(self, rhs: F) -> (r: Self)
        ensures
            r@ == ext_scale(self@, rhs.to_nat(), F::order()),
            forall|k: int|
                0 <= k < D ==> #[trigger] r.coeffs()[k] == self.coeffs()[k].times_spec(rhs),
    {
        self.mul_base(rhs)
    }
}

impl<F: BinomiallyExtendable<D>, const D: usize> MulSpecImpl<F> for BinomialExtensionField<F, D> {
    open spec fn obeys_mul_spec() -> bool {
        false
    }

    open spec fn mul_req(self, rhs: F) -> bool {
        true
    }

    open spec fn mul_spec(self, rhs: F) -> Self {
        arbitrary()
    }
}

impl<F: BinomiallyExtendable<D>, const D: usize> core::ops::Div for BinomialExtensionField<F, D> {
    type Output = Self;

    /// Multiplication by the inverse of a nonzero divisor.
    fn div(self, rhs: Self) -> (r: Self)
        ensures
            exists|inv: Seq<nat>|
                is_ext_inverse(rhs@, inv, F::spec_w(), F::order()) && r@
                    == ext_mul(self@, inv, F::spec_w(), F::order()),
            r.coeffs() == ext_mul_coeffs(
                self.coeffs(),
                ext_inverse_coeffs(rhs.coeffs(), F::w_elem(), F::dth_root_elem(), D as nat),
                F::w_elem(),
                D as nat,
            ),
    {
        let inv = rhs.inverse();
        self * inv
    }
}

impl<F: BinomiallyExtendable<D>, const D: usize> DivSpecImpl for BinomialExtensionField<F, D> {
    open spec fn obeys_div_spec() -> bool {
        false
    }

    /// The divisor is nonzero.
    open spec fn div_req(self, rhs: Self) -> bool {
        exists|k: int| 0 <= k < D && #[trigger] rhs@[k] != 0
    }

    open spec fn div_spec(self, rhs: Self) -> Self {
        arbitrary()
    }
}

impl<F: BinomiallyExtendable<D>, const D: usize> core::ops::AddAssign for BinomialExtensionField<F, D> {
    fn add_assign(&mut self, rhs: Self)
        ensures
            final(self)@ == ext_add(old(self)@, rhs@, F::order()),
            forall|k: int|
                0 <= k < D ==> #[trigger] final(self).coeffs()[k] == old(self).coeffs()[k].plus_spec(
                    rhs.coeffs()[k],
                ),
    {
        *self = *self + rhs;
    }
}

impl<F: BinomiallyExtendable<D>, const D: usize> core::ops::AddAssign<F> for BinomialExtensionField<F, D> {
    fn add_assign(&mut self, rhs: F)
        ensures
            final(self)@ == old(self)@.update(0, (old(self)@[0] + rhs.to_nat()) % F::order()),
            final(self).coeffs() == old(self).coeffs().update(
                0,
                old(self).coeffs()[0].plus_spec(rhs),
            ),
    {
        *self = self.add_base(rhs);
    }
}

impl<F: BinomiallyExtendable<D>, const D: usize> core::ops::SubAssign for BinomialExtensionField<F, D> {
    fn sub_assign(&mut self, rhs: Self)
        ensures
            final(self)@ == ext_sub(old(self)@, rhs@, F::order()),
            forall|k: int|
                0 <= k < D ==> #[trigger] final(self).coeffs()[k] == old(self).coeffs()[k].minus_spec(
                    rhs.coeffs()[k],
                ),
    {
        *self = *self - rhs;
    }
}

impl<F: BinomiallyExtendable<D>, const D: usize> core::ops::SubAssign<F> for BinomialExtensionField<F, D> {
    fn sub_assign(&mut self, rhs: F)
        ensures
            final(self)@ == old(self)@.update(
                0,
                ((old(self)@[0] - rhs.to_nat()) % (F::order() as int)) as nat,
            ),
            final(self).coeffs() == old(self).coeffs().update(
                0,
                old(self).coeffs()[0].minus_spec(rhs),
            ),
    {
        *self = self.sub_base(rhs);
    }
}

impl<F: BinomiallyExtendable<D>, const D: usize> core::ops::MulAssign for BinomialExtensionField<F, D> {
    fn mul_assign(&mut self, rhs: Self)
        ensures
            final(self)@ == ext_mul(old(self)@, rhs@, F::spec_w(), F::order()),
            final(self).coeffs() == ext_mul_coeffs(
                old(self).coeffs(),
                rhs.coeffs(),
                F::w_elem(),
                D as nat,
            ),
    {
        *self = *self * rhs;
    }
}

impl<F: BinomiallyExtendable<D>, const D: usize> core::ops::MulAssign<F> for BinomialExtensionField<F, D> {
    fn mul_assign(&mut self, rhs: F)
        ensures
            final(self)@ == ext_scale(old(self)@, rhs.to_nat(), F::order()),
            forall|k: int|
                0 <= k < D ==> #[trigger] final(self).coeffs()[k] == old(self).coeffs()[k].times_spec(
                    rhs,
                ),
    {
        *self = self.mul_base(rhs);
    }
}

/// The coefficients that `cubic_mul` stores: Karatsuba's three products
/// `a_i * b_i`, then each coefficient as a sum of them.
pub open spec fn cubic_mul_coeffs<F: Field>(a: Seq<F>, b: Seq<F>, w: F) -> Seq<F> {
    let a0_b0 = a[0].times_spec(b[0]);
    let a1_b1 = a[1].times_spec(b[1]);
    let a2_b2 = a[2].times_spec(b[2]);
    let m12 = a[1].plus_spec(a[2]).times_spec(b[1].plus_spec(b[2]));
    let r0 = a0_b0.plus_spec(m12.minus_spec(a1_b1).minus_spec(a2_b2).times_spec(w));
    let m01 = a[0].plus_spec(a[1]).times_spec(b[0].plus_spec(b[1]));
    let r1 = m01.minus_spec(a0_b0).minus_spec(a1_b1).plus_spec(a2_b2.times_spec(w));
    let m02 = a[0].plus_spec(a[2]).times_spec(b[0].plus_spec(b[2]));
    let r2 = m02.minus_spec(a0_b0).minus_spec(a2_b2).plus_spec(a1_b1);
    seq![r0, r1, r2]
}

/// The coefficients that `cubic_square` stores.
pub open spec fn cubic_square_coeffs<F: Field>(a: Seq<F>, w: F) -> Seq<F> {
    let w_a2 = a[2].times_spec(w);
    let r0 = a[0].times_spec(a[0]).plus_spec(
        a[1].times_spec(w_a2).plus_spec(a[1].times_spec(w_a2)),
    );
    let a0_a1 = a[0].times_spec(a[1]);
    let r1 = w_a2.times_spec(a[2]).plus_spec(a0_a1.plus_spec(a0_a1));
    let a0_a2 = a[0].times_spec(a[2]);
    let r2 = a[1].times_spec(a[1]).plus_spec(a0_a2.plus_spec(a0_a2));
    seq![r0, r1, r2]
}

/// Karatsuba multiplication in the cubic extension `F[X] / (X^3 - w)`.
pub fn cubic_mul<F: Field, const D: usize>(a: &[F; D], b: &[F; D], res: &mut [F; D], w: F)
    requires
        D == 3,
    ensures
        to_nats(final(res)@) == ext_mul(to_nats(a@), to_nats(b@), w.to_nat(), F::order()),
        final(res)@ == cubic_mul_coeffs(a@, b@, w),
{
    let ghost p = F::order();
    let ghost av = to_nats(a@);
    let ghost bv = to_nats(b@);
    let ghost wn = w.to_nat();
    proof {
        F::lemma_order();
    }
    let a0_b0 = a[0].times(b[0]);
    let a1_b1 = a[1].times(b[1]);
    let a2_b2 = a[2].times(b[2]);
    let (a0, a1, a2) = (a[0], a[1], a[2]);
    let (b0, b1, b2) = (b[0], b[1], b[2]);
    let ghost (x0, x1, x2) = (a0.to_nat() as int, a1.to_nat() as int, a2.to_nat() as int);
    let ghost (y0, y1, y2) = (b0.to_nat() as int, b1.to_nat() as int, b2.to_nat() as int);
    proof {
        lemma_times(a0_b0.to_nat(), a0.to_nat(), b0.to_nat(), x0, y0, p);
        lemma_times(a1_b1.to_nat(), a1.to_nat(), b1.to_nat(), x1, y1, p);
        lemma_times(a2_b2.to_nat(), a2.to_nat(), b2.to_nat(), x2, y2, p);
    }

    let s12a = a1.plus(a2);
    let s12b = b1.plus(b2);
    let m12 = s12a.times(s12b);
    let t1 = m12.minus(a1_b1);
    let t2 = t1.minus(a2_b2);
    let t3 = t2.times(w);
    let r0 = a0_b0.plus(t3);
    proof {
        lemma_plus(s12a.to_nat(), a1.to_nat(), a2.to_nat(), x1, x2, p);
        lemma_plus(s12b.to_nat(), b1.to_nat(), b2.to_nat(), y1, y2, p);
        lemma_times(m12.to_nat(), s12a.to_nat(), s12b.to_nat(), x1 + x2, y1 + y2, p);
        lemma_minus(t1.to_nat(), m12.to_nat(), a1_b1.to_nat(), (x1 + x2) * (y1 + y2), x1 * y1, p);
        lemma_minus(
            t2.to_nat(),
            t1.to_nat(),
            a2_b2.to_nat(),
            (x1 + x2) * (y1 + y2) - x1 * y1,
            x2 * y2,
            p,
        );
        lemma_times(
            t3.to_nat(),
            t2.to_nat(),
            w.to_nat(),
            (x1 + x2) * (y1 + y2) - x1 * y1 - x2 * y2,
            wn as int,
            p,
        );
        lemma_plus(
            r0.to_nat(),
            a0_b0.to_nat(),
            t3.to_nat(),
            x0 * y0,
            ((x1 + x2) * (y1 + y2) - x1 * y1 - x2 * y2) * wn,
            p,
        );
    }

    let s01a = a0.plus(a1);
    let s01b = b0.plus(b1);
    let m01 = s01a.times(s01b);
    let u1 = m01.minus(a0_b0);
    let u2 = u1.minus(a1_b1);
    let u3 = a2_b2.times(w);
    let r1 = u2.plus(u3);
    proof {
        lemma_plus(s01a.to_nat(), a0.to_nat(), a1.to_nat(), x0, x1, p);
        lemma_plus(s01b.to_nat(), b0.to_nat(), b1.to_nat(), y0, y1, p);
        lemma_times(m01.to_nat(), s01a.to_nat(), s01b.to_nat(), x0 + x1, y0 + y1, p);
        lemma_minus(u1.to_nat(), m01.to_nat(), a0_b0.to_nat(), (x0 + x1) * (y0 + y1), x0 * y0, p);
        lemma_minus(
            u2.to_nat(),
            u1.to_nat(),
            a1_b1.to_nat(),
            (x0 + x1) * (y0 + y1) - x0 * y0,
            x1 * y1,
            p,
        );
        lemma_times(u3.to_nat(), a2_b2.to_nat(), w.to_nat(), x2 * y2, wn as int, p);
        lemma_plus(
            r1.to_nat(),
            u2.to_nat(),
            u3.to_nat(),
            (x0 + x1) * (y0 + y1) - x0 * y0 - x1 * y1,
            (x2 * y2) * wn,
            p,
        );
    }

    let s02a = a0.plus(a2);
    let s02b = b0.plus(b2);
    let m02 = s02a.times(s02b);
    let v1 = m02.minus(a0_b0);
    let v2 = v1.minus(a2_b2);
    let r2 = v2.plus(a1_b1);
    proof {
        lemma_plus(s02a.to_nat(), a0.to_nat(), a2.to_nat(), x0, x2, p);
        lemma_plus(s02b.to_nat(), b0.to_nat(), b2.to_nat(), y0, y2, p);
        lemma_times(m02.to_nat(), s02a.to_nat(), s02b.to_nat(), x0 + x2, y0 + y2, p);
        lemma_minus(v1.to_nat(), m02.to_nat(), a0_b0.to_nat(), (x0 + x2) * (y0 + y2), x0 * y0, p);
        lemma_minus(
            v2.to_nat(),
            v1.to_nat(),
            a2_b2.to_nat(),
            (x0 + x2) * (y0 + y2) - x0 * y0,
            x2 * y2,
            p,
        );
        lemma_plus(
            r2.to_nat(),
            v2.to_nat(),
            a1_b1.to_nat(),
            (x0 + x2) * (y0 + y2) - x0 * y0 - x2 * y2,
            x1 * y1,
            p,
        );
        lemma_karatsuba(av, bv, wn);
        r0.lemma_field();
        r1.lemma_field();
        r2.lemma_field();
        lemma_cong_canonical(r0.to_nat() as int, mul_coeff(av, bv, wn, 0, 3), p as int);
        lemma_cong_canonical(r1.to_nat() as int, mul_coeff(av, bv, wn, 1, 3), p as int);
        lemma_cong_canonical(r2.to_nat() as int, mul_coeff(av, bv, wn, 2, 3), p as int);
    }
    res[0] = r0;
    res[1] = r1;
    res[2] = r2;
    proof {
        assert(to_nats(res@) =~= ext_mul(av, bv, wn, p));
        assert(res@ =~= cubic_mul_coeffs(a@, b@, w));
    }
}

/// Squaring in the cubic extension `F[X] / (X^3 - w)`.
pub fn cubic_square<F: Field, const D: usize>(a: &[F; D], res: &mut [F; D], w: F)
    requires
        D == 3,
    ensures
        to_nats(final(res)@) == ext_mul(to_nats(a@), to_nats(a@), w.to_nat(), F::order()),
        final(res)@ == cubic_square_coeffs(a@, w),
{
    let ghost p = F::order();
    let ghost av = to_nats(a@);
    let ghost wn = w.to_nat() as int;
    proof {
        F::lemma_order();
    }
    let (a0, a1, a2) = (a[0], a[1], a[2]);
    let ghost (x0, x1, x2) = (a0.to_nat() as int, a1.to_nat() as int, a2.to_nat() as int);
    let w_a2 = a2.times(w);
    proof {
        lemma_times(w_a2.to_nat(), a2.to_nat(), w.to_nat(), x2, wn, p);
    }

    let sq0 = a0.square();
    let m0 = a1.times(w_a2);
    let d0 = m0.double();
    let r0 = sq0.plus(d0);
    proof {
        lemma_times(sq0.to_nat(), a0.to_nat(), a0.to_nat(), x0, x0, p);
        lemma_times(m0.to_nat(), a1.to_nat(), w_a2.to_nat(), x1, x2 * wn, p);
        lemma_times(d0.to_nat(), 2, m0.to_nat(), 2, x1 * (x2 * wn), p);
        lemma_plus(r0.to_nat(), sq0.to_nat(), d0.to_nat(), x0 * x0, 2 * (x1 * (x2 * wn)), p);
    }

    let m1 = w_a2.times(a2);
    let m2 = a0.times(a1);
    let d1 = m2.double();
    let r1 = m1.plus(d1);
    proof {
        lemma_times(m1.to_nat(), w_a2.to_nat(), a2.to_nat(), x2 * wn, x2, p);
        lemma_times(m2.to_nat(), a0.to_nat(), a1.to_nat(), x0, x1, p);
        lemma_times(d1.to_nat(), 2, m2.to_nat(), 2, x0 * x1, p);
        lemma_plus(r1.to_nat(), m1.to_nat(), d1.to_nat(), (x2 * wn) * x2, 2 * (x0 * x1), p);
    }

    let sq1 = a1.square();
    let m3 = a0.times(a2);
    let d2 = m3.double();
    let r2 = sq1.plus(d2);
    proof {
        lemma_times(sq1.to_nat(), a1.to_nat(), a1.to_nat(), x1, x1, p);
        lemma_times(m3.to_nat(), a0.to_nat(), a2.to_nat(), x0, x2, p);
        lemma_times(d2.to_nat(), 2, m3.to_nat(), 2, x0 * x2, p);
        lemma_plus(r2.to_nat(), sq1.to_nat(), d2.to_nat(), x1 * x1, 2 * (x0 * x2), p);
        lemma_cubic_square_formulas(av, w.to_nat());
        r0.lemma_field();
        r1.lemma_field();
        r2.lemma_field();
        lemma_cong_canonical(r0.to_nat() as int, mul_coeff(av, av, w.to_nat(), 0, 3), p as int);
        lemma_cong_canonical(r1.to_nat() as int, mul_coeff(av, av, w.to_nat(), 1, 3), p as int);
        lemma_cong_canonical(r2.to_nat() as int, mul_coeff(av, av, w.to_nat(), 2, 3), p as int);
    }
    res[0] = r0;
    res[1] = r1;
    res[2] = r2;
    proof {
        assert(to_nats(res@) =~= ext_mul(av, av, w.to_nat(), p));
        assert(res@ =~= cubic_square_coeffs(a@, w));
    }
}

/// `a0^2 - w * a1^2`, whose inverse gives the inverse in the quadratic extension.
pub open spec fn quadratic_norm(a: Seq<nat>, w: nat) -> int {
    a[0] * a[0] - w * (a[1] * a[1])
}

/// `a0^3 + w a1^3 + w^2 a2^3 - 3 w a0 a1 a2`, whose inverse gives the inverse in the
/// cubic extension.
pub open spec fn cubic_norm(a: Seq<nat>, w: nat) -> int {
    let (a0, a1, a2, wi) = (a[0] as int, a[1] as int, a[2] as int, w as int);
    a0 * a0 * a0 + wi * a1 * (a1 * a1) + (wi * a2) * (wi * a2) * a2 - 3 * (wi * a2) * (a0 * a1)
}

/// The cofactors `[a0^2 - w a1 a2, w a2^2 - a0 a1, a1^2 - a0 a2]` of the cubic inverse.
pub open spec fn cubic_cofactor(a: Seq<nat>, w: nat, k: int) -> int {
    let (a0, a1, a2, wi) = (a[0] as int, a[1] as int, a[2] as int, w as int);
    if k == 0 {
        a0 * a0 - a1 * (wi * a2)
    } else if k == 1 {
        (wi * a2) * a2 - a0 * a1
    } else {
        a1 * a1 - a0 * a2
    }
}

/// Multiplying `a0 + a1 X` by `s (a0 - a1 X)` gives `s` times the norm.
proof fn lemma_quadratic_inverse_product(a: Seq<nat>, r: Seq<nat>, w: nat, s: int, p: nat)
    requires
        p > 1,
        a.len() == 2,
        r.len() == 2,
        cong(r[0] as int, a[0] * s, p as int),
        cong(r[1] as int, (-(a[1] as int)) * s, p as int),
    ensures
        cong(mul_coeff(a, r, w, 0, 2), s * quadratic_norm(a, w), p as int),
        cong(mul_coeff(a, r, w, 1, 2), 0, p as int),
{
    reveal_with_fuel(mul_coeff, 3);
    let pi = p as int;
    let (x0, x1, y0, y1, wi) = (a[0] as int, a[1] as int, r[0] as int, r[1] as int, w as int);
    lemma_cong_mul(x0, y0, x0, x0 * s, pi);
    lemma_cong_mul(wi * x1, y1, wi * x1, (-x1) * s, pi);
    lemma_cong_add(x0 * y0, (wi * x1) * y1, x0 * (x0 * s), (wi * x1) * ((-x1) * s), pi);
    assert(x0 * (x0 * s) + (wi * x1) * ((-x1) * s) == s * (x0 * x0 - wi * (x1 * x1)))
        by (nonlinear_arith);
    lemma_cong_mul(x0, y1, x0, (-x1) * s, pi);
    lemma_cong_mul(x1, y0, x1, x0 * s, pi);
    lemma_cong_add(x0 * y1, x1 * y0, x0 * ((-x1) * s), x1 * (x0 * s), pi);
    assert(x0 * ((-x1) * s) + x1 * (x0 * s) == 0) by (nonlinear_arith);
}

/// The cofactors of the cubic inverse: multiplying by them gives the norm.
proof fn lemma_cubic_identities(x0: int, x1: int, x2: int, w: int)
    ensures
        x0 * (x0 * x0 - x1 * (w * x2)) + (w * x1) * (x1 * x1 - x0 * x2) + (w * x2) * ((w * x2) * x2
            - x0 * x1) == x0 * x0 * x0 + w * x1 * (x1 * x1) + (w * x2) * (w * x2) * x2 - 3 * (w
            * x2) * (x0 * x1),
        x0 * ((w * x2) * x2 - x0 * x1) + x1 * (x0 * x0 - x1 * (w * x2)) + (w * x2) * (x1 * x1 - x0
            * x2) == 0,
        x0 * (x1 * x1 - x0 * x2) + x1 * ((w * x2) * x2 - x0 * x1) + x2 * (x0 * x0 - x1 * (w * x2))
            == 0,
{
    let wx2 = w * x2;
    let m = x0 * x1;
    assert(x0 * (x0 * x0 - x1 * wx2) == x0 * x0 * x0 - wx2 * m) by (nonlinear_arith)
        requires
            m == x0 * x1,
    ;
    assert((w * x1) * (x1 * x1 - x0 * x2) == w * x1 * (x1 * x1) - wx2 * m) by (nonlinear_arith)
        requires
            m == x0 * x1,
            wx2 == w * x2,
    ;
    assert(wx2 * (wx2 * x2 - m) == wx2 * wx2 * x2 - wx2 * m) by (nonlinear_arith);
    assert(3 * wx2 * m == 3 * (wx2 * m)) by (nonlinear_arith);
    assert(x0 * (wx2 * x2 - x0 * x1) + x1 * (x0 * x0 - x1 * wx2) + wx2 * (x1 * x1 - x0 * x2) == 0)
        by (nonlinear_arith);
    assert(x0 * (x1 * x1 - x0 * x2) + x1 * (wx2 * x2 - x0 * x1) + x2 * (x0 * x0 - x1 * wx2) == 0)
        by (nonlinear_arith)
        requires
            wx2 == w * x2,
    ;
}

/// The norm of `a * (-a1 + a2 X)`, whose `X^2` coefficient vanishes, is the norm of `a`
/// times that of `-a1 + a2 X`.
proof fn lemma_cubic_norm_product(a0: int, a1: int, a2: int, w: int)
    ensures
        ({
            let c1 = w * a2 * a2 - a0 * a1;
            let c2 = a1 * a1 - a0 * a2;
            let n = a0 * a0 * a0 + w * a1 * (a1 * a1) + (w * a2) * (w * a2) * a2 - 3 * (w * a2) * (
            a0 * a1);
            c1 * c1 * c1 - w * (c2 * c2 * c2) == n * (w * (a2 * a2 * a2) - a1 * a1 * a1)
        }),
{
    // the monomials of both sides
    let m1 = w * (a0 * a0 * a0) * (a2 * a2 * a2);
    let m2 = (a0 * a0 * a0) * (a1 * a1 * a1);
    let m3 = (w * w) * (a1 * a1 * a1) * (a2 * a2 * a2);
    let m4 = w * ((a1 * a1 * a1) * (a1 * a1 * a1));
    let m5 = (w * w * w) * ((a2 * a2 * a2) * (a2 * a2 * a2));
    let m6 = (w * w) * (a0 * a1) * (a2 * a2 * a2 * a2);
    let m7 = w * (a0 * a2) * (a1 * a1 * a1 * a1);
    let m8 = w * (a0 * a0) * (a1 * a1) * (a2 * a2);
    // the left side
    let a = w * a2 * a2;
    let b = a0 * a1;
    let c = a1 * a1;
    let d = a0 * a2;
    let c1 = a - b;
    let c2 = c - d;
    assert(c1 * c1 * c1 == a * a * a - 3 * (a * a * b) + 3 * (a * b * b) - b * b * b) by (
    nonlinear_arith)
        requires
            c1 == a - b,
    ;
    assert(c2 * c2 * c2 == c * c * c - 3 * (c * c * d) + 3 * (c * d * d) - d * d * d) by (
    nonlinear_arith)
        requires
            c2 == c - d,
    ;
    assert(a * a * a == m5) by (nonlinear_arith)
        requires
            a == w * a2 * a2,
            m5 == (w * w * w) * ((a2 * a2 * a2) * (a2 * a2 * a2)),
    ;
    assert(a * a * b == m6) by (nonlinear_arith)
        requires
            a == w * a2 * a2,
            b == a0 * a1,
            m6 == (w * w) * (a0 * a1) * (a2 * a2 * a2 * a2),
    ;
    assert(a * b * b == m8) by (nonlinear_arith)
        requires
            a == w * a2 * a2,
            b == a0 * a1,
            m8 == w * (a0 * a0) * (a1 * a1) * (a2 * a2),
    ;
    assert(b * b * b == m2) by (nonlinear_arith)
        requires
            b == a0 * a1,
            m2 == (a0 * a0 * a0) * (a1 * a1 * a1),
    ;
    assert(w * (c * c * c) == m4) by (nonlinear_arith)
        requires
            c == a1 * a1,
            m4 == w * ((a1 * a1 * a1) * (a1 * a1 * a1)),
    ;
    assert(w * (c * c * d) == m7) by (nonlinear_arith)
        requires
            c == a1 * a1,
            d == a0 * a2,
            m7 == w * (a0 * a2) * (a1 * a1 * a1 * a1),
    ;
    assert(w * (c * d * d) == m8) by (nonlinear_arith)
        requires
            c == a1 * a1,
            d == a0 * a2,
            m8 == w * (a0 * a0) * (a1 * a1) * (a2 * a2),
    ;
    assert(w * (d * d * d) == m1) by (nonlinear_arith)
        requires
            d == a0 * a2,
            m1 == w * (a0 * a0 * a0) * (a2 * a2 * a2),
    ;
    let cc = c * c * c - 3 * (c * c * d) + 3 * (c * d * d) - d * d * d;
    assert(w * cc == w * (c * c * c) - 3 * (w * (c * c * d)) + 3 * (w * (c * d * d)) - w * (d * d
        * d)) by (nonlinear_arith)
        requires
            cc == c * c * c - 3 * (c * c * d) + 3 * (c * d * d) - d * d * d,
    ;
    // the right side
    let n1 = a0 * a0 * a0;
    let n2 = w * a1 * (a1 * a1);
    let n3 = (w * a2) * (w * a2) * a2;
    let n4 = (w * a2) * (a0 * a1);
    let f1 = w * (a2 * a2 * a2);
    let f2 = a1 * a1 * a1;
    let n = n1 + n2 + n3 - 3 * n4;
    assert(n * (f1 - f2) == n1 * f1 - n1 * f2 + n2 * f1 - n2 * f2 + n3 * f1 - n3 * f2 - 3 * (n4
        * f1) + 3 * (n4 * f2)) by (nonlinear_arith)
        requires
            n == n1 + n2 + n3 - 3 * n4,
    ;
    assert(n1 * f1 == m1) by (nonlinear_arith)
        requires
            n1 == a0 * a0 * a0,
            f1 == w * (a2 * a2 * a2),
            m1 == w * (a0 * a0 * a0) * (a2 * a2 * a2),
    ;
    assert(n1 * f2 == m2) by (nonlinear_arith)
        requires
            n1 == a0 * a0 * a0,
            f2 == a1 * a1 * a1,
            m2 == (a0 * a0 * a0) * (a1 * a1 * a1),
    ;
    assert(n2 * f1 == m3) by (nonlinear_arith)
        requires
            n2 == w * a1 * (a1 * a1),
            f1 == w * (a2 * a2 * a2),
            m3 == (w * w) * (a1 * a1 * a1) * (a2 * a2 * a2),
    ;
    assert(n2 * f2 == m4) by (nonlinear_arith)
        requires
            n2 == w * a1 * (a1 * a1),
            f2 == a1 * a1 * a1,
            m4 == w * ((a1 * a1 * a1) * (a1 * a1 * a1)),
    ;
    assert(n3 * f1 == m5) by (nonlinear_arith)
        requires
            n3 == (w * a2) * (w * a2) * a2,
            f1 == w * (a2 * a2 * a2),
            m5 == (w * w * w) * ((a2 * a2 * a2) * (a2 * a2 * a2)),
    ;
    assert(n3 * f2 == m3) by (nonlinear_arith)
        requires
            n3 == (w * a2) * (w * a2) * a2,
            f2 == a1 * a1 * a1,
            m3 == (w * w) * (a1 * a1 * a1) * (a2 * a2 * a2),
    ;
    assert(n4 * f1 == m6) by (nonlinear_arith)
        requires
            n4 == (w * a2) * (a0 * a1),
            f1 == w * (a2 * a2 * a2),
            m6 == (w * w) * (a0 * a1) * (a2 * a2 * a2 * a2),
    ;
    assert(n4 * f2 == m7) by (nonlinear_arith)
        requires
            n4 == (w * a2) * (a0 * a1),
            f2 == a1 * a1 * a1,
            m7 == w * (a0 * a2) * (a1 * a1 * a1 * a1),
    ;
    assert(3 * (w * a2) * (a0 * a1) == 3 * n4) by (nonlinear_arith)
        requires
            n4 == (w * a2) * (a0 * a1),
    ;
}

/// `w` has a cube root modulo `p`.
pub open spec fn is_cube_mod(w: int, p: int) -> bool {
    exists|r: int| #[trigger] ((r * r * r - w) % p) == 0
}

/// A cube that is zero modulo a prime has a root that is zero.
proof fn lemma_cube_zero(x: int, p: int)
    requires
        is_prime(p),
        (x * x * x) % p == 0,
    ensures
        x % p == 0,
{
    lemma_euclid(p, x * x, x);
    if (x * x) % p == 0 {
        lemma_euclid(p, x, x);
    }
}

/// When `x^3 == w y^3` modulo a prime and `y` is not zero, `x / y` is a cube root of `w`.
proof fn lemma_cube_root_from_ratio(x: int, y: int, w: int, p: int)
    requires
        is_prime(p),
        y % p != 0,
        (x * x * x - w * (y * y * y)) % p == 0,
    ensures
        is_cube_mod(w, p),
{
    let yn = y % p;
    lemma_mod_bound(y, p);
    lemma_mod_twice(y, p);
    lemma_fermat(yn as nat, p as nat);
    let t = pow(yn, (p - 2) as nat);
    reveal(pow);
    assert(pow(yn, (p - 1) as nat) == yn * t);
    let r = x * t;
    // y t is 1 modulo p
    lemma_mul_mod_noop_left(y, t, p);
    let u = y * t;
    assert(u % p == 1);
    assert(r * r * r == (x * x * x) * (t * t * t)) by (nonlinear_arith)
        requires
            r == x * t,
    ;
    assert(w * (u * u * u) == (w * (y * y * y)) * (t * t * t)) by (nonlinear_arith)
        requires
            u == y * t,
    ;
    lemma_mul_mod_noop(x * x * x, t * t * t, p);
    lemma_mul_mod_noop(w * (y * y * y), t * t * t, p);
    assert((x * x * x) % p == (w * (y * y * y)) % p) by {
        lemma_sub_mod_noop(x * x * x, w * (y * y * y), p);
        lemma_mod_bound(x * x * x, p);
        lemma_mod_bound(w * (y * y * y), p);
        lemma_small_mod(0, p as nat);
        if (x * x * x) % p != (w * (y * y * y)) % p {
            lemma_mod_adds(x * x * x - w * (y * y * y), w * (y * y * y), p);
        }
    }
    // u^3 is 1 modulo p
    lemma_mul_mod_noop(u, u, p);
    lemma_mul_mod_noop(u * u, u, p);
    lemma_small_mod(1, p as nat);
    lemma_mul_mod_noop_right(w, u * u * u, p);
    lemma_mul_basics(w);
    assert((r * r * r) % p == w % p);
    lemma_sub_mod_noop(r * r * r, w, p);
    lemma_small_mod(0, p as nat);
    assert(((r * r * r - w) % p) == 0);
}

/// When `w` is no cube modulo the prime `p`, only zero has a cubic norm divisible by `p`.
pub proof fn lemma_cubic_norm_nonzero(a: Seq<nat>, w: nat, p: nat)
    requires
        is_prime(p as int),
        a.len() == 3,
        forall|k: int| 0 <= k < 3 ==> #[trigger] a[k] < p,
        exists|k: int| 0 <= k < 3 && #[trigger] a[k] != 0,
        !is_cube_mod(w as int, p as int),
    ensures
        cubic_norm(a, w) % (p as int) != 0,
{
    let pi = p as int;
    let (a0, a1, a2, wi) = (a[0] as int, a[1] as int, a[2] as int, w as int);
    let n = cubic_norm(a, w);
    if n % pi == 0 {
        if a2 == 0 {
            assert(n == a0 * a0 * a0 + wi * (a1 * a1 * a1)) by (nonlinear_arith)
                requires
                    a2 == 0,
                    n == a0 * a0 * a0 + wi * a1 * (a1 * a1) + (wi * a2) * (wi * a2) * a2 - 3 * (wi
                        * a2) * (a0 * a1),
            ;
            if a1 == 0 {
                assert(n == a0 * a0 * a0) by (nonlinear_arith)
                    requires
                        a1 == 0,
                        n == a0 * a0 * a0 + wi * (a1 * a1 * a1),
                ;
                lemma_cube_zero(a0, pi);
                lemma_small_mod(a0 as nat, p);
                assert(false);
            } else {
                assert((-a0) * (-a0) * (-a0) - wi * (a1 * a1 * a1) == -n) by (nonlinear_arith)
                    requires
                        n == a0 * a0 * a0 + wi * (a1 * a1 * a1),
                ;
                lemma_small_mod(a1 as nat, p);
                lemma_mod_sub_multiples_vanish(0, pi);
                assert((-n) % pi == 0) by {
                    lemma_fundamental_div_mod(n, pi);
                    lemma_mod_multiples_basic(-(n / pi), pi);
                    assert(-n == (-(n / pi)) * pi) by (nonlinear_arith)
                        requires
                            n == pi * (n / pi) + n % pi,
                            n % pi == 0,
                    ;
                }
                lemma_cube_root_from_ratio(-a0, a1, wi, pi);
            }
        } else {
            let c1 = wi * a2 * a2 - a0 * a1;
            let c2 = a1 * a1 - a0 * a2;
            lemma_cubic_norm_product(a0, a1, a2, wi);
            let f = wi * (a2 * a2 * a2) - a1 * a1 * a1;
            lemma_mul_mod_noop_left(n, f, pi);
            lemma_small_mod(0, p);
            lemma_mul_basics(f % pi);
            assert((c1 * c1 * c1 - wi * (c2 * c2 * c2)) % pi == 0);
            if c2 % pi != 0 {
                lemma_cube_root_from_ratio(c1, c2, wi, pi);
            } else {
                // c1 is zero too, so a1^3 == w a2^3
                lemma_mul_mod_noop_left(c2, c2 * c2, pi);
                lemma_mul_basics(c2 * c2);
                assert((c2 * (c2 * c2)) % pi == 0);
                assert(c2 * (c2 * c2) == c2 * c2 * c2) by (nonlinear_arith);
                lemma_mul_mod_noop_right(wi, c2 * c2 * c2, pi);
                lemma_mul_basics(wi);
                assert((wi * (c2 * c2 * c2)) % pi == 0);
                lemma_sub_mod_noop(c1 * c1 * c1, wi * (c2 * c2 * c2), pi);
                lemma_mod_twice(c1 * c1 * c1, pi);
                assert((c1 * c1 * c1) % pi == 0);
                lemma_cube_zero(c1, pi);
                // a1^3 - w a2^3 == a1 c2 - a2 c1
                assert(a1 * a1 * a1 - wi * (a2 * a2 * a2) == a1 * c2 - a2 * c1) by (nonlinear_arith)
                    requires
                        c1 == wi * a2 * a2 - a0 * a1,
                        c2 == a1 * a1 - a0 * a2,
                ;
                lemma_mul_mod_noop_right(a1, c2, pi);
                lemma_mul_mod_noop_right(a2, c1, pi);
                lemma_mul_basics(a1);
                lemma_mul_basics(a2);
                lemma_sub_mod_noop(a1 * c2, a2 * c1, pi);
                lemma_small_mod(a2 as nat, p);
                lemma_cube_root_from_ratio(a1, a2, wi, pi);
            }
        }
    }
}

/// `w` is no cube modulo the prime `p = 3 q + 1` when `w^q` is not one: a cube root `r`
/// would give `w^q == r^(p - 1) == 1`.
pub proof fn lemma_not_cube(w: int, p: int, q: nat)
    requires
        is_prime(p),
        p == 3 * q + 1,
        w % p != 0,
        pow(w, q) % p != 1,
    ensures
        !is_cube_mod(w, p),
{
    if is_cube_mod(w, p) {
        let r = choose|r: int| #[trigger] ((r * r * r - w) % p) == 0;
        let rn = r % p;
        lemma_mod_bound(r, p);
        lemma_mul_mod_noop(r, r, p);
        lemma_mul_mod_noop(r * r, r, p);
        lemma_mul_mod_noop(rn, rn, p);
        lemma_mul_mod_noop(rn * rn, rn, p);
        lemma_mod_twice(r, p);
        lemma_mod_twice(rn * rn, p);
        // w and rn^3 agree modulo p
        lemma_sub_mod_noop(r * r * r, w, p);
        lemma_mod_bound(w, p);
        lemma_mod_bound(r * r * r, p);
        lemma_small_mod(0, p as nat);
        if (r * r * r) % p != w % p {
            lemma_mod_adds(r * r * r - w, w, p);
        }
        assert((rn * rn * rn) % p == w % p);
        if rn == 0 {
            lemma_mul_basics(0);
            assert(false);
        }
        let c = rn * rn * rn;
        reveal(pow);
        lemma_pow_mod_noop(w, q, p);
        lemma_pow_mod_noop(c, q, p);
        assert(c == pow(rn, 3)) by {
            reveal_with_fuel(pow, 4);
            lemma_mul_is_associative(rn, rn, rn);
        }
        lemma_pow_multiplies(rn, 3, q);
        lemma_fermat(rn as nat, p as nat);
        lemma_small_mod(rn as nat, p as nat);
    }
}

/// Pulling a common factor out of a sum of three products.
proof fn lemma_scale3(s: int, u: int, v: int, t: int, c0: int, c1: int, c2: int)
    ensures
        u * (s * c0) + v * (s * c1) + t * (s * c2) == s * (u * c0 + v * c1 + t * c2),
{
    lemma_mul_is_associative(u, s, c0);
    lemma_mul_is_associative(v, s, c1);
    lemma_mul_is_associative(t, s, c2);
    lemma_mul_is_commutative(u, s);
    lemma_mul_is_commutative(v, s);
    lemma_mul_is_commutative(t, s);
    lemma_mul_is_associative(s, u, c0);
    lemma_mul_is_associative(s, v, c1);
    lemma_mul_is_associative(s, t, c2);
    lemma_mul_is_distributive_add(s, u * c0 + v * c1, t * c2);
    lemma_mul_is_distributive_add(s, u * c0, v * c1);
}

/// Multiplying `a` by `s` times the cofactors gives `s` times the norm.
proof fn lemma_cubic_inverse_product(a: Seq<nat>, r: Seq<nat>, w: nat, s: int, p: nat)
    requires
        p > 1,
        a.len() == 3,
        r.len() == 3,
        forall|k: int| 0 <= k < 3 ==> cong(#[trigger] r[k] as int, s * cubic_cofactor(a, w, k), p as int),
    ensures
        cong(mul_coeff(a, r, w, 0, 3), s * cubic_norm(a, w), p as int),
        cong(mul_coeff(a, r, w, 1, 3), 0, p as int),
        cong(mul_coeff(a, r, w, 2, 3), 0, p as int),
{
    reveal_with_fuel(mul_coeff, 4);
    let pi = p as int;
    let (x0, x1, x2, wi) = (a[0] as int, a[1] as int, a[2] as int, w as int);
    let (y0, y1, y2) = (r[0] as int, r[1] as int, r[2] as int);
    let (c0, c1, c2) = (cubic_cofactor(a, w, 0), cubic_cofactor(a, w, 1), cubic_cofactor(a, w, 2));
    assert(cong(y0, s * c0, pi));
    assert(cong(y1, s * c1, pi));
    assert(cong(y2, s * c2, pi));
    // coefficient 0: a0 r0 + w a1 r2 + w a2 r1
    lemma_cong_mul(x0, y0, x0, s * c0, pi);
    lemma_cong_mul(wi * x1, y2, wi * x1, s * c2, pi);
    lemma_cong_mul(wi * x2, y1, wi * x2, s * c1, pi);
    lemma_cong_add(x0 * y0, (wi * x1) * y2, x0 * (s * c0), (wi * x1) * (s * c2), pi);
    lemma_cong_add(
        x0 * y0 + (wi * x1) * y2,
        (wi * x2) * y1,
        x0 * (s * c0) + (wi * x1) * (s * c2),
        (wi * x2) * (s * c1),
        pi,
    );
    lemma_cubic_identities(x0, x1, x2, wi);
    lemma_scale3(s, x0, wi * x1, wi * x2, c0, c2, c1);
    // coefficient 1: a0 r1 + a1 r0 + w a2 r2
    lemma_cong_mul(x0, y1, x0, s * c1, pi);
    lemma_cong_mul(x1, y0, x1, s * c0, pi);
    lemma_cong_mul(wi * x2, y2, wi * x2, s * c2, pi);
    lemma_cong_add(x0 * y1, x1 * y0, x0 * (s * c1), x1 * (s * c0), pi);
    lemma_cong_add(
        x0 * y1 + x1 * y0,
        (wi * x2) * y2,
        x0 * (s * c1) + x1 * (s * c0),
        (wi * x2) * (s * c2),
        pi,
    );
    lemma_scale3(s, x0, x1, wi * x2, c1, c0, c2);
    // coefficient 2: a0 r2 + a1 r1 + a2 r0
    lemma_cong_mul(x0, y2, x0, s * c2, pi);
    lemma_cong_mul(x1, y1, x1, s * c1, pi);
    lemma_cong_mul(x2, y0, x2, s * c0, pi);
    lemma_cong_add(x0 * y2, x1 * y1, x0 * (s * c2), x1 * (s * c1), pi);
    lemma_cong_add(x0 * y2 + x1 * y1, x2 * y0, x0 * (s * c2) + x1 * (s * c1), x2 * (s * c0), pi);
    lemma_scale3(s, x0, x1, x2, c2, c1, c0);
    assert(mul_coeff(a, r, w, 0, 3) == x0 * y0 + (wi * x1) * y2 + (wi * x2) * y1);
    assert(mul_coeff(a, r, w, 1, 3) == x0 * y1 + x1 * y0 + (wi * x2) * y2);
    assert(mul_coeff(a, r, w, 2, 3) == x0 * y2 + x1 * y1 + x2 * y0);
}

/// `y = x * s` where `s` inverts `n`: then `y * n` is `x`.
proof fn lemma_quotient(y: int, x: int, s: int, n: int, p: int)
    requires
        p > 0,
        cong(y, x * s, p),
        cong(s * n, 1, p),
    ensures
        cong(y * n, x, p),
{
    lemma_cong_mul(y, n, x * s, n, p);
    lemma_mul_is_associative(x, s, n);
    lemma_cong_mul(x, s * n, x, 1, p);
}

/// `c = -x` in the field, with `x` congruent to `xs`.
proof fn lemma_negate(c: nat, x: nat, xs: int, p: nat)
    requires
        p > 0,
        c == (-(x as int)) % (p as int),
        cong(x as int, xs, p as int),
    ensures
        cong(c as int, -xs, p as int),
{
    lemma_cong_mod(-(x as int), p as int);
    lemma_cong_sub(0, x as int, 0, xs, p as int);
}

/// The inverse `(a0 - a1 X) / (a0^2 - w a1^2)` of `a0 + a1 X` in `F[X] / (X^2 - w)`.
pub fn qudratic_inv<F: Field>(a: &[F], w: F) -> (r: [F; 2])
    requires
        a@.len() >= 2,
        quadratic_norm(to_nats(a@.take(2)), w.to_nat()) % (F::order() as int) != 0,
    ensures
        ext_mul(to_nats(a@.take(2)), to_nats(r@), w.to_nat(), F::order()) == base_embed(1, 2),
        cong(
            r@[0].to_nat() * quadratic_norm(to_nats(a@.take(2)), w.to_nat()),
            a@[0].to_nat() as int,
            F::order() as int,
        ),
        cong(
            r@[1].to_nat() * quadratic_norm(to_nats(a@.take(2)), w.to_nat()),
            -(a@[1].to_nat() as int),
            F::order() as int,
        ),
        r@ == quadratic_inv_coeffs(a@, w),
{
    let ghost p = F::order();
    let ghost pi = p as int;
    let ghost av = to_nats(a@.take(2));
    let ghost wn = w.to_nat();
    let ghost n = quadratic_norm(av, wn);
    proof {
        F::lemma_order();
    }
    let a0 = a[0];
    let a1 = a[1];
    let ghost (x0, x1) = (a0.to_nat() as int, a1.to_nat() as int);
    let a0_sq = a0.square();
    let a1_sq = a1.square();
    let w_a1_sq = w.times(a1_sq);
    let norm = a0_sq.minus(w_a1_sq);
    proof {
        assert(av[0] == a0.to_nat() && av[1] == a1.to_nat());
        lemma_times(a0_sq.to_nat(), a0.to_nat(), a0.to_nat(), x0, x0, p);
        lemma_times(a1_sq.to_nat(), a1.to_nat(), a1.to_nat(), x1, x1, p);
        lemma_times(w_a1_sq.to_nat(), wn, a1_sq.to_nat(), wn as int, x1 * x1, p);
        lemma_minus(norm.to_nat(), a0_sq.to_nat(), w_a1_sq.to_nat(), x0 * x0, wn * (x1 * x1), p);
        lemma_small_mod(norm.to_nat(), p);
    }
    let scalar = norm.inverse();
    let r0 = a0.times(scalar);
    let neg_a1 = a1.negate();
    let r1 = neg_a1.times(scalar);
    let r = [r0, r1];
    proof {
        let sv = scalar.to_nat() as int;
        let rv = to_nats(r@);
        lemma_times(r0.to_nat(), a0.to_nat(), scalar.to_nat(), x0, sv, p);
        lemma_negate(neg_a1.to_nat(), a1.to_nat(), x1, p);
        lemma_times(r1.to_nat(), neg_a1.to_nat(), scalar.to_nat(), -x1, sv, p);
        assert(rv[0] == r0.to_nat() && rv[1] == r1.to_nat());
        lemma_quadratic_inverse_product(av, rv, wn, sv, p);
        // the inverse of the norm
        lemma_cong_mul(sv, norm.to_nat() as int, sv, n, pi);
        lemma_mul_is_commutative(sv, norm.to_nat() as int);
        lemma_small_mod(1, p);
        r0.lemma_field();
        r1.lemma_field();
        lemma_cong_canonical(1, mul_coeff(av, rv, wn, 0, 2), pi);
        lemma_small_mod(0, p);
        lemma_cong_canonical(0, mul_coeff(av, rv, wn, 1, 2), pi);
        assert(ext_mul(av, rv, wn, p) =~= base_embed(1, 2));
        lemma_quotient(r0.to_nat() as int, x0, sv, n, pi);
        lemma_quotient(r1.to_nat() as int, -x1, sv, n, pi);
        assert(r@ =~= quadratic_inv_coeffs(a@, w));
    }
    r
}

/// The coefficients that `qudratic_inv` stores: `a0 s` and `(-a1) s`, with `s` the
/// inverse of the norm `a0^2 - w a1^2`.
pub open spec fn quadratic_inv_coeffs<F: Field>(a: Seq<F>, w: F) -> Seq<F> {
    let norm = a[0].times_spec(a[0]).minus_spec(w.times_spec(a[1].times_spec(a[1])));
    let scalar = norm.inverse_spec();
    seq![a[0].times_spec(scalar), a[1].negate_spec().times_spec(scalar)]
}

/// The coefficients that `cubic_inv` stores: the inverse `s` of the norm
/// `((a0^2 a0 + (w a1) a1^2) + (w a2)^2 a2) - (3 (w a2)) (a0 a1)` times each cofactor.
pub open spec fn cubic_inv_coeffs<F: Field>(a: Seq<F>, w: F) -> Seq<F> {
    let a0_square = a[0].times_spec(a[0]);
    let a1_square = a[1].times_spec(a[1]);
    let a2_w = w.times_spec(a[2]);
    let a0_a1 = a[0].times_spec(a[1]);
    let t1 = a0_square.times_spec(a[0]);
    let t2 = w.times_spec(a[1]).times_spec(a1_square);
    let t3 = a2_w.times_spec(a2_w).times_spec(a[2]);
    let three = F::one_spec().plus_spec(F::two_spec());
    let t4 = three.times_spec(a2_w).times_spec(a0_a1);
    let norm = t1.plus_spec(t2).plus_spec(t3).minus_spec(t4);
    let scalar = norm.inverse_spec();
    let c0 = a0_square.minus_spec(a[1].times_spec(a2_w));
    let c1 = a2_w.times_spec(a[2]).minus_spec(a0_a1);
    let c2 = a1_square.minus_spec(a[0].times_spec(a[2]));
    seq![scalar.times_spec(c0), scalar.times_spec(c1), scalar.times_spec(c2)]
}

/// The inverse `cofactors / norm` of `a0 + a1 X + a2 X^2` in `F[X] / (X^3 - w)`.
pub fn cubic_inv<F: Field>(a: &[F], w: F) -> (r: [F; 3])
    requires
        a@.len() >= 3,
        cubic_norm(to_nats(a@.take(3)), w.to_nat()) % (F::order() as int) != 0,
    ensures
        ext_mul(to_nats(a@.take(3)), to_nats(r@), w.to_nat(), F::order()) == base_embed(1, 3),
        forall|k: int|
            0 <= k < 3 ==> cong(
                (#[trigger] r@[k]).to_nat() * cubic_norm(to_nats(a@.take(3)), w.to_nat()),
                cubic_cofactor(to_nats(a@.take(3)), w.to_nat(), k),
                F::order() as int,
            ),
        r@ == cubic_inv_coeffs(a@, w),
{
    let ghost p = F::order();
    let ghost pi = p as int;
    let ghost av = to_nats(a@.take(3));
    let ghost wn = w.to_nat();
    let ghost wi = wn as int;
    let ghost n = cubic_norm(av, wn);
    proof {
        F::lemma_order();
    }
    let a0 = a[0];
    let a1 = a[1];
    let a2 = a[2];
    let ghost (x0, x1, x2) = (a0.to_nat() as int, a1.to_nat() as int, a2.to_nat() as int);
    proof {
        assert(av[0] == a0.to_nat() && av[1] == a1.to_nat() && av[2] == a2.to_nat());
    }
    let a0_square = a0.square();
    let a1_square = a1.square();
    let a2_w = w.times(a2);
    let a0_a1 = a0.times(a1);
    proof {
        lemma_times(a0_square.to_nat(), a0.to_nat(), a0.to_nat(), x0, x0, p);
        lemma_times(a1_square.to_nat(), a1.to_nat(), a1.to_nat(), x1, x1, p);
        lemma_times(a2_w.to_nat(), wn, a2.to_nat(), wi, x2, p);
        lemma_times(a0_a1.to_nat(), a0.to_nat(), a1.to_nat(), x0, x1, p);
    }
    // scalar = (a0^3 + w a1^3 + w^2 a2^3 - 3 w a0 a1 a2)^-1
    let t1 = a0_square.times(a0);
    let w_a1 = w.times(a1);
    let t2 = w_a1.times(a1_square);
    let a2_w_sq = a2_w.square();
    let t3 = a2_w_sq.times(a2);
    let three = F::one().plus(F::two());
    let three_a2_w = three.times(a2_w);
    let t4 = three_a2_w.times(a0_a1);
    let s12 = t1.plus(t2);
    let s123 = s12.plus(t3);
    let norm = s123.minus(t4);
    proof {
        lemma_times(t1.to_nat(), a0_square.to_nat(), a0.to_nat(), x0 * x0, x0, p);
        lemma_times(w_a1.to_nat(), wn, a1.to_nat(), wi, x1, p);
        lemma_times(t2.to_nat(), w_a1.to_nat(), a1_square.to_nat(), wi * x1, x1 * x1, p);
        lemma_times(a2_w_sq.to_nat(), a2_w.to_nat(), a2_w.to_nat(), wi * x2, wi * x2, p);
        lemma_times(t3.to_nat(), a2_w_sq.to_nat(), a2.to_nat(), (wi * x2) * (wi * x2), x2, p);
        lemma_cong_mod(2, pi);
        lemma_plus(three.to_nat(), 1, 2nat % p, 1, 2, p);
        lemma_times(three_a2_w.to_nat(), three.to_nat(), a2_w.to_nat(), 3, wi * x2, p);
        lemma_times(t4.to_nat(), three_a2_w.to_nat(), a0_a1.to_nat(), 3 * (wi * x2), x0 * x1, p);
        lemma_plus(s12.to_nat(), t1.to_nat(), t2.to_nat(), x0 * x0 * x0, wi * x1 * (x1 * x1), p);
        lemma_plus(
            s123.to_nat(),
            s12.to_nat(),
            t3.to_nat(),
            x0 * x0 * x0 + wi * x1 * (x1 * x1),
            (wi * x2) * (wi * x2) * x2,
            p,
        );
        lemma_minus(
            norm.to_nat(),
            s123.to_nat(),
            t4.to_nat(),
            x0 * x0 * x0 + wi * x1 * (x1 * x1) + (wi * x2) * (wi * x2) * x2,
            3 * (wi * x2) * (x0 * x1),
            p,
        );
        lemma_small_mod(norm.to_nat(), p);
    }
    let scalar = norm.inverse();
    // scalar * [a0^2 - w a1 a2, w a2^2 - a0 a1, a1^2 - a0 a2]
    let a1_a2_w = a1.times(a2_w);
    let c0 = a0_square.minus(a1_a2_w);
    let a2_w_a2 = a2_w.times(a2);
    let c1 = a2_w_a2.minus(a0_a1);
    let a0_a2 = a0.times(a2);
    let c2 = a1_square.minus(a0_a2);
    let r0 = scalar.times(c0);
    let r1 = scalar.times(c1);
    let r2 = scalar.times(c2);
    let r = [r0, r1, r2];
    proof {
        let sv = scalar.to_nat() as int;
        let rv = to_nats(r@);
        lemma_times(a1_a2_w.to_nat(), a1.to_nat(), a2_w.to_nat(), x1, wi * x2, p);
        lemma_minus(c0.to_nat(), a0_square.to_nat(), a1_a2_w.to_nat(), x0 * x0, x1 * (wi * x2), p);
        lemma_times(a2_w_a2.to_nat(), a2_w.to_nat(), a2.to_nat(), wi * x2, x2, p);
        lemma_minus(c1.to_nat(), a2_w_a2.to_nat(), a0_a1.to_nat(), (wi * x2) * x2, x0 * x1, p);
        lemma_times(a0_a2.to_nat(), a0.to_nat(), a2.to_nat(), x0, x2, p);
        lemma_minus(c2.to_nat(), a1_square.to_nat(), a0_a2.to_nat(), x1 * x1, x0 * x2, p);
        lemma_times(r0.to_nat(), scalar.to_nat(), c0.to_nat(), sv, cubic_cofactor(av, wn, 0), p);
        lemma_times(r1.to_nat(), scalar.to_nat(), c1.to_nat(), sv, cubic_cofactor(av, wn, 1), p);
        lemma_times(r2.to_nat(), scalar.to_nat(), c2.to_nat(), sv, cubic_cofactor(av, wn, 2), p);
        assert(rv[0] == r0.to_nat() && rv[1] == r1.to_nat() && rv[2] == r2.to_nat());
        lemma_cubic_inverse_product(av, rv, wn, sv, p);
        lemma_cong_mul(sv, norm.to_nat() as int, sv, n, pi);
        lemma_mul_is_commutative(sv, norm.to_nat() as int);
        lemma_small_mod(1, p);
        lemma_small_mod(0, p);
        lemma_cong_canonical(1, mul_coeff(av, rv, wn, 0, 3), pi);
        lemma_cong_canonical(0, mul_coeff(av, rv, wn, 1, 3), pi);
        lemma_cong_canonical(0, mul_coeff(av, rv, wn, 2, 3), pi);
        assert(ext_mul(av, rv, wn, p) =~= base_embed(1, 3));
        assert forall|k: int| 0 <= k < 3 implies cong(
            (#[trigger] r@[k]).to_nat() * n,
            cubic_cofactor(av, wn, k),
            pi,
        ) by {
            lemma_mul_is_commutative(sv, cubic_cofactor(av, wn, k));
            lemma_quotient(rv[k] as int, cubic_cofactor(av, wn, k), sv, n, pi);
        }
        assert(r@ =~= cubic_inv_coeffs(a@, w));
    }
    r
}

proof fn lemma_mul_coeff_sum(a: Seq<nat>, b: Seq<nat>, w: nat, k: int, n: nat)
    ensures
        mul_coeff(a, b, w, k, n) == sum_up(|i: int| mul_term(a, b, w, k, i), 0, n),
    decreases n,
{
    if n > 0 {
        lemma_mul_coeff_sum(a, b, w, k, (n - 1) as nat);
    }
}

/// Multiplication in `F[X] / (X^d - w)` is commutative.
pub proof fn lemma_ext_mul_commutative(a: Seq<nat>, b: Seq<nat>, w: nat, p: nat)
    requires
        a.len() == b.len(),
    ensures
        ext_mul(a, b, w, p) == ext_mul(b, a, w, p),
{
    lemma_iconv_commutative(to_ints(a), to_ints(b), w as int);
    assert forall|k: int| 0 <= k < a.len() implies #[trigger] mul_coeff(a, b, w, k, a.len())
        == mul_coeff(b, a, w, k, a.len()) by {
        lemma_mul_coeff_iconv(a, b, w, k);
        lemma_mul_coeff_iconv(b, a, w, k);
    }
    assert(ext_mul(a, b, w, p) =~= ext_mul(b, a, w, p));
}

/// The coefficients as integers.
pub open spec fn to_ints(a: Seq<nat>) -> Seq<int> {
    a.map_values(|x: nat| x as int)
}

/// Before reduction modulo `p`, coefficient `k` of the product is that of the product
/// of the same coefficients in `Z[X] / (X^d - w)`.
proof fn lemma_mul_coeff_iconv(a: Seq<nat>, b: Seq<nat>, w: nat, k: int)
    requires
        b.len() == a.len(),
        0 <= k < a.len(),
    ensures
        mul_coeff(a, b, w, k, a.len()) == iconv(to_ints(a), to_ints(b), w as int)[k],
{
    let d = a.len() as int;
    let ia = to_ints(a);
    let ib = to_ints(b);
    let h = |i: int| mul_term(a, b, w, k, i);
    let g = |i: int| ia[i] * xpow(ib, w as int, i as nat)[k];
    lemma_mul_coeff_sum(a, b, w, k, a.len());
    assert forall|t: int| 0 <= t < d implies #[trigger] h(0 + t) == g(0 + t) by {
        lemma_xpow_index(ib, w as int, t as nat, k);
        if t > k {
            lemma_mul_is_associative(w as int, a[t] as int, b[k + d - t] as int);
            lemma_mul_is_associative(a[t] as int, w as int, b[k + d - t] as int);
            lemma_mul_is_commutative(w as int, a[t] as int);
        }
    }
    lemma_sum_shift(h, g, 0, 0, a.len());
}

/// Multiplication in `F[X] / (X^d - w)` is associative: `(a * b) * c == a * (b * c)`.
pub proof fn lemma_ext_mul_associative(a: Seq<nat>, b: Seq<nat>, c: Seq<nat>, w: nat, p: nat)
    requires
        p > 1,
        b.len() == a.len(),
        c.len() == a.len(),
    ensures
        ext_mul(ext_mul(a, b, w, p), c, w, p) == ext_mul(a, ext_mul(b, c, w, p), w, p),
{
    let d = a.len() as int;
    let pi = p as int;
    let wi = w as int;
    let ab = ext_mul(a, b, w, p);
    let bc = ext_mul(b, c, w, p);
    let (ia, ib, ic) = (to_ints(a), to_ints(b), to_ints(c));
    let iab = iconv(ia, ib, wi);
    let ibc = iconv(ib, ic, wi);
    assert forall|i: int| 0 <= i < d implies cong(#[trigger] to_ints(ab)[i], iab[i], pi) by {
        lemma_mul_coeff_iconv(a, b, w, i);
        lemma_cong_mod(iab[i], pi);
    }
    assert forall|i: int| 0 <= i < d implies cong(#[trigger] to_ints(bc)[i], ibc[i], pi) by {
        lemma_mul_coeff_iconv(b, c, w, i);
        lemma_cong_mod(ibc[i], pi);
    }
    lemma_iconv_associative(ia, ib, ic, wi);
    assert forall|k: int| 0 <= k < d implies #[trigger] ext_mul(ab, c, w, p)[k] == ext_mul(
        a,
        bc,
        w,
        p,
    )[k] by {
        lemma_mul_coeff_iconv(ab, c, w, k);
        lemma_mul_coeff_iconv(a, bc, w, k);
        lemma_iconv_cong_left(to_ints(ab), iab, ic, wi, k, pi);
        lemma_iconv_cong_right(ia, to_ints(bc), ibc, wi, k, pi);
        let x = mul_coeff(ab, c, w, k, a.len());
        let y = mul_coeff(a, bc, w, k, a.len());
        assert(x == iconv_coeff(to_ints(ab), ic, wi, k));
        assert(y == iconv_coeff(ia, to_ints(bc), wi, k));
        assert(iconv_coeff(iab, ic, wi, k) == iconv_coeff(ia, ibc, wi, k)) by {
            assert(iconv(iab, ic, wi)[k] == iconv(ia, ibc, wi)[k]);
        }
        assert(x % pi == y % pi);
    }
    assert(ext_mul(ab, c, w, p) =~= ext_mul(a, bc, w, p));
}

/// `a^n` in `F[X] / (X^d - w)`, multiplying by `a` one factor at a time.
pub open spec fn ext_pow(a: Seq<nat>, n: nat, w: nat, p: nat) -> Seq<nat>
    decreases n,
{
    if n == 0 {
        base_embed(1, a.len())
    } else {
        ext_mul(ext_pow(a, (n - 1) as nat, w, p), a, w, p)
    }
}

/// Each coefficient of `a^n` is that of the unreduced power, modulo `p`.
proof fn lemma_ext_pow_ipow(a: Seq<nat>, n: nat, w: nat, p: nat, k: int)
    requires
        p > 1,
        a.len() >= 1,
        0 <= k < a.len(),
    ensures
        ext_pow(a, n, w, p).len() == a.len(),
        cong(ext_pow(a, n, w, p)[k] as int, ipow(to_ints(a), w as int, n)[k], p as int),
    decreases n,
{
    let d = a.len();
    let pi = p as int;
    let ia = to_ints(a);
    if n == 0 {
        assert(to_ints(base_embed(1, d)) =~= ione(d));
        assert(to_ints(base_embed(1, d))[k] == base_embed(1, d)[k] as int);
    } else {
        let n1 = (n - 1) as nat;
        let e = ext_pow(a, n1, w, p);
        lemma_ext_pow_ipow(a, n1, w, p, k);
        let x = ipow(ia, w as int, n1);
        lemma_ipow_len(ia, w as int, n1);
        assert forall|i: int| 0 <= i < d implies cong(#[trigger] to_ints(e)[i], x[i], pi) by {
            lemma_ext_pow_ipow(a, n1, w, p, i);
        }
        lemma_mul_coeff_iconv(e, a, w, k);
        lemma_iconv_cong_left(to_ints(e), x, ia, w as int, k, pi);
        lemma_cong_mod(mul_coeff(e, a, w, k, d), pi);
        assert(ipow(ia, w as int, n)[k] == iconv_coeff(x, ia, w as int, k));
    }
}

/// The Frobenius map is the `p`-th power map: `frobenius(a) == a^p` in `F_p[X] / (X^d - w)`,
/// when `d` divides `p - 1` and `z` is `w^((p - 1) / d)` modulo `p`.
pub proof fn lemma_frobenius_is_power(a: Seq<nat>, w: nat, z: nat, p: nat)
    requires
        is_prime(p as int),
        a.len() >= 1,
        (p - 1) % (a.len() as int) == 0,
        pow(w as int, ((p - 1) / (a.len() as int)) as nat) % (p as int) == z % p,
    ensures
        frobenius_spec(a, z, 1, p) == ext_pow(a, p, w, p),
{
    let d = a.len();
    let pi = p as int;
    let ia = to_ints(a);
    let q = ((p - 1) / (d as int)) as nat;
    lemma_fundamental_div_mod((p - 1) as int, d as int);
    assert(p == d * q + 1);
    assert(prefix(ia, d as int) =~= ia);
    assert forall|k: int| 0 <= k < d implies #[trigger] frobenius_spec(a, z, 1, p)[k] == ext_pow(
        a,
        p,
        w,
        p,
    )[k] by {
        let kn = k as nat;
        lemma_frobenius_ring(ia, w as int, p, q, d, k);
        lemma_ext_pow_ipow(a, p, w, p, k);
        let wq = pow(w as int, q);
        lemma_pow_mod_noop(wq, kn, pi);
        lemma_pow_mod_noop(z as int, kn, pi);
        lemma_cong_mul(a[k] as int, pow(wq, kn), a[k] as int, pow(z as int, kn), pi);
        assert(1 * kn == kn);
        let e = ext_pow(a, (p - 1) as nat, w, p);
        lemma_mod_bound(mul_coeff(e, a, w, k, d), pi);
        lemma_cong_canonical(ext_pow(a, p, w, p)[k] as int, a[k] * pow(z as int, kn), pi);
    }
    lemma_ext_pow_ipow(a, p, w, p, 0);
    assert(frobenius_spec(a, z, 1, p) =~= ext_pow(a, p, w, p));
}

/// The Frobenius map of the extension, with the constants of `F`, is the `p`-th power map.
pub proof fn lemma_frobenius_pow<F: BinomiallyExtendable<D>, const D: usize>(a: Seq<nat>)
    requires
        a.len() == D,
    ensures
        frobenius_spec(a, F::spec_dth_root(), 1nat % (D as nat), F::order()) == ext_pow(
            a,
            F::order(),
            F::spec_w(),
            F::order(),
        ),
{
    let p = F::order();
    let z = F::spec_dth_root();
    F::lemma_order();
    F::lemma_degree();
    F::lemma_dth_root_power();
    let q = ((p - 1) / (D as int)) as nat;
    lemma_mod_bound(pow(F::spec_w() as int, q), p as int);
    lemma_small_mod(z, p);
    lemma_frobenius_is_power(a, F::spec_w(), z, p);
    if D == 1 {
        assert(1nat % (D as nat) == 0);
        assert(0 * (0 as nat) == 0 && 1 * (0 as nat) == 0);
        assert(frobenius_spec(a, z, 0, p) =~= frobenius_spec(a, z, 1, p));
    } else {
        lemma_small_mod(1, D as nat);
    }
}

/// Powers add: `a^(m + k) == a^m * a^k`.
proof fn lemma_ext_pow_add(a: Seq<nat>, m: nat, k: nat, w: nat, p: nat)
    requires
        p > 1,
        a.len() >= 1,
    ensures
        ext_pow(a, m + k, w, p) == ext_mul(ext_pow(a, m, w, p), ext_pow(a, k, w, p), w, p),
    decreases k,
{
    let d = a.len();
    let pm = ext_pow(a, m, w, p);
    lemma_ext_pow_ipow(a, m, w, p, 0);
    if k == 0 {
        assert forall|i: int| 0 <= i < d implies #[trigger] pm[i] < p by {
            if m > 0 {
                lemma_mod_bound(mul_coeff(ext_pow(a, (m - 1) as nat, w, p), a, w, i, d), p as int);
            }
        }
        lemma_ext_mul_one(pm, w, p);
    } else {
        let k1 = (k - 1) as nat;
        lemma_ext_pow_add(a, m, k1, w, p);
        lemma_ext_pow_ipow(a, k1, w, p, 0);
        lemma_ext_mul_associative(pm, ext_pow(a, k1, w, p), a, w, p);
        assert((m + k - 1) as nat == m + k1);
    }
}

/// Powers multiply: `(a^m)^n == a^(m n)`.
proof fn lemma_ext_pow_mul(a: Seq<nat>, m: nat, n: nat, w: nat, p: nat)
    requires
        p > 1,
        a.len() >= 1,
    ensures
        ext_pow(ext_pow(a, m, w, p), n, w, p) == ext_pow(a, m * n, w, p),
    decreases n,
{
    lemma_ext_pow_ipow(a, m, w, p, 0);
    if n == 0 {
        lemma_mul_basics(m as int);
    } else {
        let n1 = (n - 1) as nat;
        lemma_ext_pow_mul(a, m, n1, w, p);
        lemma_ext_pow_add(a, m * n1, m, w, p);
        lemma_mul_is_distributive_add(m as int, n1 as int, 1);
        lemma_mul_basics(m as int);
    }
}

/// Applying the Frobenius map `c` times is the `p^c`-th power map.
pub proof fn lemma_repeated_frobenius_is_power(a: Seq<nat>, w: nat, z: nat, p: nat, c: nat)
    requires
        is_prime(p as int),
        a.len() >= 1,
        (p - 1) % (a.len() as int) == 0,
        pow(w as int, ((p - 1) / (a.len() as int)) as nat) % (p as int) == z % p,
    ensures
        frobenius_spec(a, z, c, p) == ext_pow(a, pow(p as int, c) as nat, w, p),
    decreases c,
{
    let d = a.len();
    reveal(pow);
    if c == 0 {
        lemma_ext_mul_base(ext_pow(a, 0, w, p), 1, w, p);
        lemma_ext_mul_commutative(base_embed(1, d), a, w, p);
        lemma_ext_mul_base(a, 1, w, p);
        assert forall|i: int| 0 <= i < d implies #[trigger] frobenius_spec(a, z, 0, p)[i]
            == ext_scale(a, 1, p)[i] by {
            assert(0 * (i as nat) == 0);
        }
        assert(frobenius_spec(a, z, 0, p) =~= ext_scale(a, 1, p));
    } else {
        let c1 = (c - 1) as nat;
        let b = frobenius_spec(a, z, c1, p);
        lemma_repeated_frobenius_is_power(a, w, z, p, c1);
        lemma_frobenius_compose(a, z, c1, 1, p);
        lemma_frobenius_is_power(b, w, z, p);
        lemma_pow_positive(p as int, c1);
        lemma_ext_pow_mul(a, pow(p as int, c1) as nat, p, w, p);
        lemma_mul_is_commutative(p as int, pow(p as int, c1));
    }
}

/// The Frobenius map has period `d` when `z^d == 1`: applying it `c + d j` times is
/// applying it `c` times.
proof fn lemma_frobenius_period_multiple(a: Seq<nat>, z: nat, c: nat, j: nat, p: nat)
    requires
        p > 1,
        pow(z as int, a.len()) % (p as int) == 1,
    ensures
        frobenius_spec(a, z, c + a.len() * j, p) == frobenius_spec(a, z, c, p),
    decreases j,
{
    if j > 0 {
        let j1 = (j - 1) as nat;
        lemma_frobenius_period_multiple(a, z, c, j1, p);
        lemma_frobenius_period(a, z, c + a.len() * j1, p);
        lemma_mul_is_distributive_add(a.len() as int, j1 as int, 1);
        lemma_mul_basics(a.len() as int);
        assert(c + a.len() * j1 + a.len() == c + a.len() * j);
    } else {
        lemma_mul_basics(a.len() as int);
    }
}

/// The repeated Frobenius map, as `repeated_frobenius` computes it with the constants
/// of `F`, is the `p^count`-th power map.
pub proof fn lemma_repeated_frobenius_pow<F: BinomiallyExtendable<D>, const D: usize>(
    a: Seq<nat>,
    count: nat,
)
    requires
        a.len() == D,
    ensures
        frobenius_spec(a, F::spec_dth_root(), count % (D as nat), F::order()) == ext_pow(
            a,
            pow(F::order() as int, count) as nat,
            F::spec_w(),
            F::order(),
        ),
{
    let p = F::order();
    let z = F::spec_dth_root();
    let d = D as nat;
    F::lemma_order();
    F::lemma_degree();
    F::lemma_dth_root_power();
    F::lemma_dth_root_order();
    let q = ((p - 1) / (D as int)) as nat;
    lemma_mod_bound(pow(F::spec_w() as int, q), p as int);
    lemma_small_mod(z, p);
    lemma_repeated_frobenius_is_power(a, F::spec_w(), z, p, count);
    lemma_fundamental_div_mod(count as int, d as int);
    lemma_frobenius_period_multiple(a, z, count % d, count / d, p);
}

/// The exponent of `f_n` in the Frobenius inversion: `s_0 = 0` and `s_(n+1) = (s_n + 1) p`,
/// so that `s_n = p + p^2 + ... + p^n`.
pub open spec fn chain_exponent(p: nat, n: nat) -> nat
    decreases n,
{
    if n == 0 {
        0
    } else {
        (chain_exponent(p, (n - 1) as nat) + 1) * p
    }
}

proof fn lemma_chain_exponent_step(p: nat, n: nat)
    ensures
        chain_exponent(p, n + 1) == chain_exponent(p, n) + pow(p as int, n + 1),
    decreases n,
{
    reveal_with_fuel(pow, 2);
    if n == 0 {
        reveal_with_fuel(chain_exponent, 2);
        lemma_mul_basics(p as int);
        assert(chain_exponent(p, 1) == p);
    } else {
        let n1 = (n - 1) as nat;
        lemma_chain_exponent_step(p, n1);
        let s1 = chain_exponent(p, n1) as int;
        let pn = pow(p as int, n);
        assert(chain_exponent(p, n + 1) == (s1 + 1 + pn) * p);
        lemma_mul_is_distributive_add_other_way(p as int, s1 + 1, pn);
        lemma_mul_is_commutative(pn, p as int);
    }
}

/// Each element of the Frobenius inversion chain is a power of `a`: `f_n == a^(s_n)`.
proof fn lemma_chain_is_power<F: BinomiallyExtendable<D>, const D: usize>(a: Seq<nat>, n: nat)
    requires
        a.len() == D,
    ensures
        frobenius_inv_chain(a, F::spec_w(), F::spec_dth_root(), F::order(), n) == ext_pow(
            a,
            chain_exponent(F::order(), n),
            F::spec_w(),
            F::order(),
        ),
    decreases n,
{
    let p = F::order();
    let w = F::spec_w();
    let z = F::spec_dth_root();
    F::lemma_order();
    F::lemma_degree();
    if n > 0 {
        let n1 = (n - 1) as nat;
        let s1 = chain_exponent(p, n1);
        lemma_chain_is_power::<F, D>(a, n1);
        let b = ext_pow(a, s1 + 1, w, p);
        lemma_ext_pow_ipow(a, s1 + 1, w, p, 0);
        lemma_frobenius_pow::<F, D>(b);
        lemma_ext_pow_mul(a, s1 + 1, p, w, p);
    }
}

/// The norm `g = a f_(d-1) = a^(1 + p + ... + p^(d-1))` of the Frobenius inversion lies in
/// the base field: all its coefficients but the constant one are zero.
pub proof fn lemma_frobenius_norm_in_base<F: BinomiallyExtendable<D>, const D: usize>(a: Seq<nat>)
    requires
        a.len() == D,
        forall|k: int| 0 <= k < D ==> #[trigger] a[k] < F::order(),
    ensures
        ext_mul(a, frobenius_inv_chain(a, F::spec_w(), F::spec_dth_root(), F::order(), (D - 1) as nat), F::spec_w(), F::order())
            == base_embed(frobenius_inv_norm(a, F::spec_w(), F::spec_dth_root(), F::order()), D as nat),
{
    let p = F::order();
    let pi = p as int;
    let w = F::spec_w();
    let z = F::spec_dth_root();
    let d = D as nat;
    F::lemma_order();
    F::lemma_degree();
    F::lemma_dth_root_primitive();
    let s = chain_exponent(p, (d - 1) as nat);
    let f = frobenius_inv_chain(a, w, z, p, (d - 1) as nat);
    lemma_chain_is_power::<F, D>(a, (d - 1) as nat);
    lemma_ext_pow_ipow(a, s, w, p, 0);
    let g = ext_mul(a, f, w, p);
    lemma_ext_mul_commutative(a, f, w, p);
    assert(g == ext_pow(a, s + 1, w, p));
    if d >= 2 {
        // the Frobenius map fixes g
        lemma_frobenius_pow::<F, D>(g);
        lemma_small_mod(1, d);
        lemma_ext_pow_mul(a, s + 1, p, w, p);
        assert(chain_exponent(p, d) == (s + 1) * p);
        lemma_chain_exponent_step(p, (d - 1) as nat);
        let pd = pow(pi, d);
        lemma_pow_positive(pi, d);
        lemma_ext_pow_add(a, s, pd as nat, w, p);
        lemma_repeated_frobenius_pow::<F, D>(a, d);
        lemma_mod_self_0(d as int);
        assert forall|i: int| 0 <= i < d implies #[trigger] frobenius_spec(a, z, 0, p)[i] == a[i] by {
            assert(0 * (i as nat) == 0);
            lemma_pow0(z as int);
            lemma_small_mod(a[i], p);
        }
        assert(frobenius_spec(a, z, 0, p) =~= a);
        assert(frobenius_spec(g, z, 1, p) == g);
        assert forall|k: int| 0 <= k < d implies #[trigger] g[k] == base_embed(g[0], d)[k] by {
            if k > 0 {
                let gk = g[k] as int;
                let zk = pow(z as int, k as nat);
                lemma_mod_bound(mul_coeff(a, f, w, k, d), pi);
                assert(1 * (k as nat) == k as nat);
                assert((gk * zk) % pi == gk);
                lemma_small_mod(g[k], p);
                lemma_sub_mod_noop(gk * zk, gk, pi);
                lemma_mul_is_distributive_sub(gk, zk, 1);
                lemma_small_mod(0, p);
                lemma_euclid(pi, gk, zk - 1);
                if (zk - 1) % pi == 0 {
                    lemma_add_mod_noop(zk - 1, 1, pi);
                    lemma_small_mod(1, p);
                    assert(pow(z as int, k as nat) % pi == 1);
                }
            }
        }
    }
    assert(g =~= base_embed(g[0], d));
}

/// Scaling a cofactor `f` with `a f == g` in the base field by the inverse `s` of `g`
/// gives the inverse of `a`.
proof fn lemma_scaled_cofactor_inverse(a: Seq<nat>, f: Seq<nat>, s: nat, g: nat, w: nat, p: nat)
    requires
        p > 1,
        a.len() >= 1,
        f.len() == a.len(),
        ext_mul(a, f, w, p) == base_embed(g, a.len()),
        (g * s) % p == 1,
    ensures
        ext_mul(a, ext_scale(f, s, p), w, p) == base_embed(1, a.len()),
{
    let d = a.len();
    let pi = p as int;
    let wi = w as int;
    let ia = to_ints(a);
    let fi = to_ints(f);
    let r = ext_scale(f, s, p);
    let ri = to_ints(r);
    let sf = sscale(s as int, fi);
    assert forall|i: int| 0 <= i < d implies cong(#[trigger] ri[i], sf[i], pi) by {
        lemma_cong_mod((f[i] * s) as int, pi);
        lemma_mul_is_commutative(f[i] as int, s as int);
    }
    lemma_iconv_commutative(ia, sf, wi);
    lemma_iconv_scale(s as int, fi, ia, wi);
    lemma_iconv_commutative(fi, ia, wi);
    assert forall|k: int| 0 <= k < d implies #[trigger] ext_mul(a, r, w, p)[k] == base_embed(1, d)[k] by {
        lemma_mul_coeff_iconv(a, r, w, k);
        lemma_mul_coeff_iconv(a, f, w, k);
        lemma_iconv_cong_right(ia, ri, sf, wi, k, pi);
        let m = mul_coeff(a, f, w, k, d);
        assert(iconv(ia, sf, wi)[k] == s * m);
        assert(m % pi == base_embed(g, d)[k]);
        lemma_cong_mod(m, pi);
        lemma_cong_mul(s as int, m, s as int, base_embed(g, d)[k] as int, pi);
        lemma_mul_is_commutative(s as int, g as int);
        lemma_mul_basics(s as int);
        lemma_small_mod(0, p);
        lemma_small_mod(1, p);
        lemma_mod_bound(mul_coeff(a, r, w, k, d), pi);
        lemma_cong_canonical(ext_mul(a, r, w, p)[k] as int, s * m, pi);
    }
    assert(ext_mul(a, r, w, p) =~= base_embed(1, d));
}

/// A number that is not zero modulo a prime has an inverse modulo it.
proof fn lemma_mod_inverse(n: int, p: nat) -> (s: int)
    requires
        is_prime(p as int),
        n % (p as int) != 0,
    ensures
        (n * s) % (p as int) == 1,
{
    let pi = p as int;
    let nn = n % pi;
    lemma_mod_bound(n, pi);
    lemma_mod_twice(n, pi);
    lemma_fermat(nn as nat, p);
    let s = pow(nn, (p - 2) as nat);
    reveal(pow);
    assert(pow(nn, (p - 1) as nat) == nn * s);
    lemma_mul_mod_noop_left(n, s, pi);
    s
}

/// Multiplying by zero gives zero.
proof fn lemma_ext_mul_zero(a: Seq<nat>, w: nat, p: nat)
    requires
        p > 1,
    ensures
        ext_mul(base_embed(0, a.len()), a, w, p) == base_embed(0, a.len()),
{
    let d = a.len();
    let z = base_embed(0, d);
    lemma_ext_mul_commutative(z, a, w, p);
    lemma_ext_mul_base(a, 0, w, p);
    assert forall|k: int| 0 <= k < d implies #[trigger] ext_scale(a, 0, p)[k] == z[k] by {
        lemma_mul_basics(a[k] as int);
        lemma_small_mod(0, p);
    }
    assert(ext_scale(a, 0, p) =~= z);
}

/// The coefficients of a product are canonical.
proof fn lemma_ext_mul_canonical(a: Seq<nat>, b: Seq<nat>, w: nat, p: nat)
    requires
        p > 1,
    ensures
        forall|k: int| 0 <= k < a.len() ==> #[trigger] ext_mul(a, b, w, p)[k] < p,
{
    assert forall|k: int| 0 <= k < a.len() implies #[trigger] ext_mul(a, b, w, p)[k] < p by {
        lemma_mod_bound(mul_coeff(a, b, w, k, a.len()), p as int);
    }
}

/// When `a x == 1`, also `a^n x^n == 1`.
proof fn lemma_ext_pow_inverse(a: Seq<nat>, x: Seq<nat>, n: nat, w: nat, p: nat)
    requires
        p > 1,
        a.len() >= 1,
        x.len() == a.len(),
        ext_mul(a, x, w, p) == base_embed(1, a.len()),
    ensures
        ext_mul(ext_pow(a, n, w, p), ext_pow(x, n, w, p), w, p) == base_embed(1, a.len()),
    decreases n,
{
    let d = a.len();
    let one = base_embed(1, d);
    assert forall|k: int| 0 <= k < d implies #[trigger] one[k] < p by {}
    if n == 0 {
        lemma_ext_mul_one(one, w, p);
    } else {
        let n1 = (n - 1) as nat;
        let aa = ext_pow(a, n1, w, p);
        let xx = ext_pow(x, n1, w, p);
        lemma_ext_pow_inverse(a, x, n1, w, p);
        lemma_ext_pow_ipow(a, n1, w, p, 0);
        lemma_ext_pow_ipow(x, n1, w, p, 0);
        lemma_ext_mul_associative(aa, a, ext_mul(xx, x, w, p), w, p);
        lemma_ext_mul_associative(a, xx, x, w, p);
        lemma_ext_mul_commutative(a, xx, w, p);
        lemma_ext_mul_associative(xx, a, x, w, p);
        if n1 == 0 {
            assert forall|k: int| 0 <= k < d implies #[trigger] xx[k] < p by {}
        } else {
            lemma_ext_mul_canonical(ext_pow(x, (n1 - 1) as nat, w, p), x, w, p);
        }
        lemma_ext_mul_one(xx, w, p);
    }
}

/// A nonzero element has an inverse when `D` is `2` or `3`, by the closed formulas.
proof fn lemma_small_degree_inverse<F: BinomiallyExtendable<D>, const D: usize>(a: Seq<nat>) -> (x: Seq<nat>)
    requires
        D == 2 || D == 3,
        a.len() == D,
        forall|k: int| 0 <= k < D ==> #[trigger] a[k] < F::order(),
        exists|k: int| 0 <= k < D && #[trigger] a[k] != 0,
    ensures
        x.len() == D,
        ext_mul(a, x, F::spec_w(), F::order()) == base_embed(1, D as nat),
{
    let p = F::order();
    let pi = p as int;
    let w = F::spec_w();
    F::lemma_order();
    F::lemma_inverse_defined(a);
    lemma_small_mod(0, p);
    lemma_small_mod(1, p);
    if D == 2 {
        let n = quadratic_norm(a, w);
        let s = lemma_mod_inverse(n, p);
        let x = seq![((a[0] * s) % pi) as nat, (((-(a[1] as int)) * s) % pi) as nat];
        lemma_cong_mod(a[0] * s, pi);
        lemma_cong_mod((-(a[1] as int)) * s, pi);
        lemma_quadratic_inverse_product(a, x, w, s, p);
        lemma_mul_is_commutative(s, n);
        lemma_mod_bound(mul_coeff(a, x, w, 0, 2), pi);
        lemma_mod_bound(mul_coeff(a, x, w, 1, 2), pi);
        assert(ext_mul(a, x, w, p) =~= base_embed(1, 2));
        x
    } else {
        let n = cubic_norm(a, w);
        let s = lemma_mod_inverse(n, p);
        let x = Seq::new(3, |k: int| ((s * cubic_cofactor(a, w, k)) % pi) as nat);
        assert forall|k: int| 0 <= k < 3 implies cong(#[trigger] x[k] as int, s * cubic_cofactor(a, w, k), pi) by {
            lemma_mod_bound(s * cubic_cofactor(a, w, k), pi);
            lemma_cong_mod(s * cubic_cofactor(a, w, k), pi);
        }
        lemma_cubic_inverse_product(a, x, w, s, p);
        lemma_mul_is_commutative(s, n);
        lemma_mod_bound(mul_coeff(a, x, w, 0, 3), pi);
        lemma_mod_bound(mul_coeff(a, x, w, 1, 3), pi);
        lemma_mod_bound(mul_coeff(a, x, w, 2, 3), pi);
        assert(ext_mul(a, x, w, p) =~= base_embed(1, 3));
        x
    }
}

/// The norm of a nonzero element is not zero.
pub proof fn lemma_frobenius_norm_nonzero<F: BinomiallyExtendable<D>, const D: usize>(a: Seq<nat>)
    requires
        a.len() == D,
        forall|k: int| 0 <= k < D ==> #[trigger] a[k] < F::order(),
        exists|k: int| 0 <= k < D && #[trigger] a[k] != 0,
    ensures
        frobenius_inv_norm(a, F::spec_w(), F::spec_dth_root(), F::order()) != 0,
{
    let p = F::order();
    let w = F::spec_w();
    let z = F::spec_dth_root();
    let d = D as nat;
    F::lemma_order();
    F::lemma_degree();
    F::lemma_inverse_defined(a);
    if D == 2 || D == 3 {
        if frobenius_inv_norm(a, w, z, p) == 0 {
            let x = lemma_small_degree_inverse::<F, D>(a);
            let f = frobenius_inv_chain(a, w, z, p, (d - 1) as nat);
            let s = chain_exponent(p, (d - 1) as nat);
            let zero = base_embed(0, d);
            let one = base_embed(1, d);
            lemma_frobenius_norm_in_base::<F, D>(a);
            lemma_chain_is_power::<F, D>(a, (d - 1) as nat);
            lemma_ext_pow_ipow(a, s, w, p, 0);
            // f == f (a x) == (a f) x == 0
            lemma_ext_mul_associative(f, a, x, w, p);
            lemma_ext_mul_commutative(f, a, w, p);
            lemma_ext_mul_zero(x, w, p);
            if s == 0 {
                assert forall|k: int| 0 <= k < d implies #[trigger] f[k] < p by {}
            } else {
                lemma_ext_mul_canonical(ext_pow(a, (s - 1) as nat, w, p), a, w, p);
            }
            lemma_ext_mul_one(f, w, p);
            assert(f == zero);
            // but a^s x^s == 1
            lemma_ext_pow_inverse(a, x, s, w, p);
            lemma_ext_pow_ipow(x, s, w, p, 0);
            lemma_ext_mul_zero(ext_pow(x, s, w, p), w, p);
            assert(zero[0] != one[0]);
        }
    }
}

/// Applying the Frobenius map `c1` times and then `c2` times applies it `c1 + c2` times.
pub proof fn lemma_frobenius_compose(a: Seq<nat>, z: nat, c1: nat, c2: nat, p: nat)
    requires
        p > 1,
    ensures
        frobenius_spec(frobenius_spec(a, z, c1, p), z, c2, p) == frobenius_spec(a, z, c1 + c2, p),
{
    assert forall|i: int| 0 <= i < a.len() implies #[trigger] frobenius_spec(
        frobenius_spec(a, z, c1, p),
        z,
        c2,
        p,
    )[i] == frobenius_spec(a, z, c1 + c2, p)[i] by {
        let pi = p as int;
        let e1 = c1 * (i as nat);
        let e2 = c2 * (i as nat);
        let x = a[i] * pow(z as int, e1);
        assert(x % pi >= 0) by {
            lemma_mod_bound(x, pi);
        }
        lemma_mul_mod_noop_left(x, pow(z as int, e2), pi);
        lemma_mul_is_associative(a[i] as int, pow(z as int, e1), pow(z as int, e2));
        lemma_pow_adds(z as int, e1, e2);
        lemma_mul_is_distributive_add_other_way(i, c1 as int, c2 as int);
    }
    assert(frobenius_spec(frobenius_spec(a, z, c1, p), z, c2, p) =~= frobenius_spec(
        a,
        z,
        c1 + c2,
        p,
    ));
}

/// When `z^d = 1`, the Frobenius map applied `d` more times changes nothing.
pub proof fn lemma_frobenius_period(a: Seq<nat>, z: nat, c: nat, p: nat)
    requires
        p > 1,
        pow(z as int, a.len()) % (p as int) == 1,
    ensures
        frobenius_spec(a, z, c + a.len(), p) == frobenius_spec(a, z, c, p),
{
    let d = a.len();
    assert forall|i: int| 0 <= i < d implies #[trigger] frobenius_spec(a, z, c + d, p)[i]
        == frobenius_spec(a, z, c, p)[i] by {
        let pi = p as int;
        let ni = i as nat;
        lemma_mul_is_distributive_add_other_way(i, c as int, d as int);
        lemma_pow_adds(z as int, c * ni, d * ni);
        lemma_pow_multiplies(z as int, d, ni);
        // (z^d)^i is congruent to 1^i = 1
        lemma_pow_mod_noop(pow(z as int, d), ni, pi);
        lemma1_pow(ni);
        lemma_small_mod(1, p);
        lemma_mul_mod_noop_right(pow(z as int, c * ni), pow(pow(z as int, d), ni), pi);
        lemma_mul_is_associative(a[i] as int, pow(z as int, c * ni), pow(pow(z as int, d), ni));
        lemma_mul_mod_noop_right(a[i] as int, pow(z as int, c * ni) * pow(pow(z as int, d), ni), pi);
        lemma_mul_mod_noop_right(a[i] as int, pow(z as int, c * ni), pi);
    }
    assert(frobenius_spec(a, z, c + d, p) =~= frobenius_spec(a, z, c, p));
}

/// The repeated Frobenius map, as `repeated_frobenius` computes it, composes by adding counts.
pub proof fn lemma_repeated_frobenius_compose<F: BinomiallyExtendable<D>, const D: usize>(
    a: Seq<nat>,
    c1: nat,
    c2: nat,
)
    requires
        a.len() == D,
    ensures
        frobenius_spec(
            frobenius_spec(a, F::spec_dth_root(), c1 % (D as nat), F::order()),
            F::spec_dth_root(),
            c2 % (D as nat),
            F::order(),
        ) == frobenius_spec(a, F::spec_dth_root(), (c1 + c2) % (D as nat), F::order()),
{
    let z = F::spec_dth_root();
    let p = F::order();
    let d = D as nat;
    F::lemma_degree();
    F::lemma_order();
    F::lemma_dth_root_order();
    lemma_frobenius_compose(a, z, c1 % d, c2 % d, p);
    lemma_mod_bound(c1 as int, d as int);
    lemma_mod_bound(c2 as int, d as int);
    lemma_add_mod_noop(c1 as int, c2 as int, d as int);
    let s = c1 % d + c2 % d;
    if s >= d {
        lemma_mod_sub_multiples_vanish(s as int, d as int);
        lemma_small_mod((s - d) as nat, d);
        lemma_frobenius_period(a, z, (s - d) as nat, p);
    } else {
        lemma_small_mod(s, d);
    }
}

/// Adding the negation gives zero: `a + (-a) == 0`.
pub proof fn lemma_ext_add_neg(a: Seq<nat>, p: nat)
    requires
        p > 1,
    ensures
        ext_add(a, ext_neg(a, p), p) == base_embed(0, a.len()),
{
    assert forall|k: int| 0 <= k < a.len() implies #[trigger] ext_add(a, ext_neg(a, p), p)[k]
        == base_embed(0, a.len())[k] by {
        let pi = p as int;
        lemma_mod_bound(-(a[k] as int), pi);
        lemma_add_mod_noop(a[k] as int, -(a[k] as int), pi);
        lemma_mod_twice(-(a[k] as int), pi);
        lemma_add_mod_noop(a[k] as int, (-(a[k] as int)) % pi, pi);
        lemma_mod_twice(a[k] as int, pi);
        lemma_small_mod(0, p);
    }
    assert(ext_add(a, ext_neg(a, p), p) =~= base_embed(0, a.len()));
}

/// Subtracting and adding back recovers a canonical element: `(a - b) + b == a`.
pub proof fn lemma_ext_sub_add(a: Seq<nat>, b: Seq<nat>, p: nat)
    requires
        p > 1,
        b.len() == a.len(),
        forall|k: int| 0 <= k < a.len() ==> #[trigger] a[k] < p,
    ensures
        ext_add(ext_sub(a, b, p), b, p) == a,
{
    assert forall|k: int| 0 <= k < a.len() implies #[trigger] ext_add(ext_sub(a, b, p), b, p)[k]
        == a[k] by {
        let pi = p as int;
        let x = a[k] - b[k];
        lemma_mod_bound(x, pi);
        lemma_add_mod_noop(x, b[k] as int, pi);
        lemma_mod_twice(x, pi);
        lemma_add_mod_noop(x % pi, b[k] as int, pi);
        lemma_mod_twice(b[k] as int, pi);
        lemma_small_mod(a[k], p);
    }
    assert(ext_add(ext_sub(a, b, p), b, p) =~= a);
}

proof fn lemma_mul_coeff_base(a: Seq<nat>, c: nat, w: nat, k: int, n: nat)
    requires
        0 <= k < a.len(),
        n <= a.len(),
    ensures
        mul_coeff(a, base_embed(c, a.len()), w, k, n) == if k < n {
            a[k] * c
        } else {
            0
        },
    decreases n,
{
    if n > 0 {
        lemma_mul_coeff_base(a, c, w, k, (n - 1) as nat);
        let i = n - 1;
        if i > k {
            assert(mul_term(a, base_embed(c, a.len()), w, k, i) == 0) by {
                assert(base_embed(c, a.len())[k + a.len() - i] == 0);
                lemma_mul_basics((w * a[i]) as int);
            }
        } else if i < k {
            assert(mul_term(a, base_embed(c, a.len()), w, k, i) == 0) by {
                assert(base_embed(c, a.len())[k - i] == 0);
                lemma_mul_basics(a[i] as int);
            }
        }
    }
}

/// Multiplying by a base field element embedded in the extension scales every
/// coefficient: `a * from(c) == a * c`.
pub proof fn lemma_ext_mul_base(a: Seq<nat>, c: nat, w: nat, p: nat)
    requires
        p > 1,
    ensures
        ext_mul(a, base_embed(c, a.len()), w, p) == ext_scale(a, c, p),
{
    assert forall|k: int| 0 <= k < a.len() implies #[trigger] ext_mul(a, base_embed(c, a.len()), w, p)[k]
        == ext_scale(a, c, p)[k] by {
        lemma_mul_coeff_base(a, c, w, k, a.len());
    }
    assert(ext_mul(a, base_embed(c, a.len()), w, p) =~= ext_scale(a, c, p));
}

/// One is the multiplicative identity: `a * 1 == a` for a canonical `a`.
pub proof fn lemma_ext_mul_one(a: Seq<nat>, w: nat, p: nat)
    requires
        p > 1,
        forall|k: int| 0 <= k < a.len() ==> #[trigger] a[k] < p,
    ensures
        ext_mul(a, base_embed(1, a.len()), w, p) == a,
{
    assert forall|k: int| 0 <= k < a.len() implies #[trigger] ext_mul(a, base_embed(1, a.len()), w, p)[k]
        == a[k] by {
        lemma_mul_coeff_base(a, 1, w, k, a.len());
        lemma_small_mod(a[k], p);
    }
    assert(ext_mul(a, base_embed(1, a.len()), w, p) =~= a);
}

proof fn lemma_mul_coeff_distributes(a: Seq<nat>, b: Seq<nat>, c: Seq<nat>, w: nat, k: int, n: nat, p: nat)
    requires
        p > 1,
        b.len() == a.len(),
        c.len() == a.len(),
        0 <= k < a.len(),
        n <= a.len(),
    ensures
        cong(
            mul_coeff(a, ext_add(b, c, p), w, k, n),
            mul_coeff(a, b, w, k, n) + mul_coeff(a, c, w, k, n),
            p as int,
        ),
    decreases n,
{
    let pi = p as int;
    if n > 0 {
        let i = n - 1;
        lemma_mul_coeff_distributes(a, b, c, w, k, (n - 1) as nat, p);
        let j = wrap_index(a.len() as int, i, k);
        let bc = ext_add(b, c, p);
        let f = if i <= k {
            a[i] as int
        } else {
            (w * a[i]) as int
        };
        assert(mul_term(a, bc, w, k, i) == f * bc[j]) by {
            if i > k {
                lemma_mul_is_associative(w as int, a[i] as int, bc[j] as int);
            }
        }
        assert(mul_term(a, b, w, k, i) == f * b[j]) by {
            if i > k {
                lemma_mul_is_associative(w as int, a[i] as int, b[j] as int);
            }
        }
        assert(mul_term(a, c, w, k, i) == f * c[j]) by {
            if i > k {
                lemma_mul_is_associative(w as int, a[i] as int, c[j] as int);
            }
        }
        lemma_cong_mod((b[j] + c[j]) as int, pi);
        lemma_cong_mul(f, bc[j] as int, f, (b[j] + c[j]) as int, pi);
        lemma_mul_is_distributive_add(f, b[j] as int, c[j] as int);
        lemma_cong_add(
            mul_coeff(a, bc, w, k, (n - 1) as nat),
            mul_term(a, bc, w, k, i),
            mul_coeff(a, b, w, k, (n - 1) as nat) + mul_coeff(a, c, w, k, (n - 1) as nat),
            f * b[j] + f * c[j],
            pi,
        );
    }
}

/// Multiplication distributes over addition: `a * (b + c) == a * b + a * c`.
pub proof fn lemma_ext_mul_distributes(a: Seq<nat>, b: Seq<nat>, c: Seq<nat>, w: nat, p: nat)
    requires
        p > 1,
        b.len() == a.len(),
        c.len() == a.len(),
    ensures
        ext_mul(a, ext_add(b, c, p), w, p) == ext_add(ext_mul(a, b, w, p), ext_mul(a, c, w, p), p),
{
    let pi = p as int;
    assert forall|k: int| 0 <= k < a.len() implies #[trigger] ext_mul(a, ext_add(b, c, p), w, p)[k]
        == ext_add(ext_mul(a, b, w, p), ext_mul(a, c, w, p), p)[k] by {
        let mb = mul_coeff(a, b, w, k, a.len());
        let mc = mul_coeff(a, c, w, k, a.len());
        lemma_mul_coeff_distributes(a, b, c, w, k, a.len(), p);
        lemma_mod_bound(mb, pi);
        lemma_mod_bound(mc, pi);
        lemma_add_mod_noop(mb, mc, pi);
        lemma_mod_bound(mul_coeff(a, ext_add(b, c, p), w, k, a.len()), pi);
    }
    assert(ext_mul(a, ext_add(b, c, p), w, p) =~= ext_add(ext_mul(a, b, w, p), ext_mul(a, c, w, p), p));
}

} // verus!
