//! Elementary number theory behind the prime field: primality of `2^31 - 1`,
//! Euclid's lemma and Fermat's little theorem.
use vstd::arithmetic::div_mod::*;
use vstd::arithmetic::mul::*;
use vstd::arithmetic::power::*;
use vstd::prelude::*;

verus! {

/// `p` is prime: it exceeds one and no integer strictly between one and `p` divides it.
pub open spec fn is_prime(p: int) -> bool {
    p > 1 && forall|d: int| 1 < d < p ==> #[trigger] (p % d) != 0
}

/// No product of a factor below `46341` (just above the square root of `2^31 - 1`)
/// and a factor below `2^31`, both at least two, equals `2^31 - 1`.
#[verifier::rlimit(100)]
proof fn lemma_m31_no_small_factor()
    by (bit_vector)
    ensures
        forall|a: u64, b: u64|
            2 <= a < 46341 && 2 <= b < 2147483648 ==> #[trigger] (a * b) != 2147483647u64,
{
}

/// `2^31 - 1` is prime.
pub proof fn lemma_m31_is_prime()
    ensures
        is_prime(2147483647),
{
    let p: int = 2147483647;
    assert forall|d: int| 1 < d < p implies #[trigger] (p % d) != 0 by {
        if p % d == 0 {
            let q = p / d;
            lemma_fundamental_div_mod(p, d);
            assert(p == d * q);
            assert(q >= 2) by {
                if q <= 1 {
                    assert(d * q <= d) by (nonlinear_arith)
                        requires
                            q <= 1,
                            d > 1,
                    ;
                }
            }
            assert(q < 2147483648) by {
                assert(d * q >= 2 * q) by (nonlinear_arith)
                    requires
                        d >= 2,
                        q >= 2,
                ;
            }
            let s = if d <= q {
                d
            } else {
                q
            };
            let t = if d <= q {
                q
            } else {
                d
            };
            assert(s * t == p) by {
                lemma_mul_is_commutative(d, q);
            }
            assert(s < 46341) by {
                if s >= 46341 {
                    assert(s * t >= 46341 * 46341) by (nonlinear_arith)
                        requires
                            s >= 46341,
                            t >= s,
                    ;
                }
            }
            lemma_m31_no_small_factor();
            let su = s as u64;
            let tu = t as u64;
            assert(su * tu != 2147483647u64);
        }
    }
}

/// Euclid's lemma for a factor already reduced below the prime.
proof fn lemma_euclid_reduced(p: int, a: int, b: int)
    requires
        is_prime(p),
        0 < a < p,
        (a * b) % p == 0,
    ensures
        b % p == 0,
    decreases a,
{
    if a == 1 {
        lemma_mul_basics(b);
    } else {
        let q = p / a;
        let r = p % a;
        lemma_fundamental_div_mod(p, a);
        lemma_mod_pos_bound(p, a);
        assert(r != 0);
        let k = (a * b) / p;
        lemma_fundamental_div_mod(a * b, p);
        assert(a * b == p * k);
        assert(r * b == (b - q * k) * p) by (nonlinear_arith)
            requires
                p == a * q + r,
                a * b == p * k,
        ;
        lemma_mod_multiples_basic(b - q * k, p);
        lemma_euclid_reduced(p, r, b);
    }
}

/// Euclid's lemma: a prime dividing a product divides one of the factors.
pub proof fn lemma_euclid(p: int, a: int, b: int)
    requires
        is_prime(p),
        (a * b) % p == 0,
    ensures
        a % p == 0 || b % p == 0,
{
    let a0 = a % p;
    lemma_mod_bound(a, p);
    if a0 != 0 {
        lemma_mul_mod_noop_left(a, b, p);
        lemma_euclid_reduced(p, a0, b);
    }
}

/// The binomial coefficient `n` choose `k`, by Pascal's rule.
pub open spec fn binom(n: nat, k: nat) -> nat
    decreases n,
{
    if k == 0 {
        1
    } else if n == 0 {
        0
    } else {
        binom((n - 1) as nat, (k - 1) as nat) + binom((n - 1) as nat, k)
    }
}

pub proof fn lemma_binom_above(n: nat, k: nat)
    requires
        k > n,
    ensures
        binom(n, k) == 0,
    decreases n,
{
    if n > 0 {
        lemma_binom_above((n - 1) as nat, (k - 1) as nat);
        lemma_binom_above((n - 1) as nat, k);
    }
}

pub proof fn lemma_binom_diag(n: nat)
    ensures
        binom(n, n) == 1,
    decreases n,
{
    if n > 0 {
        lemma_binom_diag((n - 1) as nat);
        lemma_binom_above((n - 1) as nat, n);
    }
}

proof fn lemma_binom_one(n: nat)
    ensures
        binom(n, 1) == n,
    decreases n,
{
    if n > 0 {
        lemma_binom_one((n - 1) as nat);
        assert(binom((n - 1) as nat, 0) == 1);
        assert(binom(n, 1) == binom((n - 1) as nat, 0) + binom((n - 1) as nat, 1));
    }
}

/// The absorption identity `k * C(n, k) == n * C(n - 1, k - 1)`.
proof fn lemma_binom_absorb(n: nat, k: nat)
    requires
        n >= 1,
        k >= 1,
    ensures
        k * binom(n, k) == n * binom((n - 1) as nat, (k - 1) as nat),
    decreases n,
{
    if k == 1 {
        lemma_binom_one(n);
        assert(binom((n - 1) as nat, 0) == 1);
        assert(k * binom(n, k) == n * binom((n - 1) as nat, (k - 1) as nat));
    } else if n == 1 {
        lemma_binom_above(0, (k - 1) as nat);
        lemma_binom_above(0, k);
        assert(binom(1, k) == binom(0, (k - 1) as nat) + binom(0, k));
        assert(k * binom(n, k) == n * binom((n - 1) as nat, (k - 1) as nat));
    } else {
        let b1 = binom((n - 1) as nat, (k - 1) as nat);
        let b2 = binom((n - 1) as nat, k);
        let c1 = binom((n - 2) as nat, (k - 2) as nat);
        let c2 = binom((n - 2) as nat, (k - 1) as nat);
        lemma_binom_absorb((n - 1) as nat, k);
        lemma_binom_absorb((n - 1) as nat, (k - 1) as nat);
        assert(binom(n, k) == b1 + b2);
        assert(b1 == c1 + c2);
        assert(k * b2 == (n - 1) * c2);
        assert((k - 1) * b1 == (n - 1) * c1);
        assert(k * (b1 + b2) == n * b1) by (nonlinear_arith)
            requires
                k * b2 == (n - 1) * c2,
                (k - 1) * b1 == (n - 1) * c1,
                b1 == c1 + c2,
        ;
    }
}

/// A prime `p` divides `C(p, k)` for `0 < k < p`.
pub proof fn lemma_prime_divides_binom(p: nat, k: nat)
    requires
        is_prime(p as int),
        0 < k < p,
    ensures
        (binom(p, k) as int) % (p as int) == 0,
{
    let c = binom((p - 1) as nat, (k - 1) as nat);
    lemma_binom_absorb(p, k);
    lemma_mul_is_commutative(p as int, c as int);
    lemma_mod_multiples_basic(c as int, p as int);
    assert(((k * binom(p, k)) as int) % (p as int) == 0);
    lemma_euclid(p as int, k as int, binom(p, k) as int);
    lemma_small_mod(k, p);
}

/// The first `m` terms of the binomial expansion of `(x + 1)^n`.
pub open spec fn binom_sum(x: int, n: nat, m: nat) -> int
    decreases m,
{
    if m == 0 {
        0
    } else {
        binom_sum(x, n, (m - 1) as nat) + binom(n, (m - 1) as nat) * pow(x, (m - 1) as nat)
    }
}

proof fn lemma_binom_sum_pascal(x: int, n: nat, m: nat)
    requires
        m >= 1,
    ensures
        binom_sum(x, n + 1, m) == binom_sum(x, n, m) + x * binom_sum(x, n, (m - 1) as nat),
    decreases m,
{
    reveal_with_fuel(pow, 2);
    if m == 1 {
        assert(binom_sum(x, n, 0) == 0);
        assert(x * 0 == 0);
        assert(binom(n, 0) == 1);
        assert(binom(n + 1, 0) == 1);
        assert(pow(x, 0) == 1);
        assert(binom_sum(x, n, 1) == 0 + 1 * 1);
        let n1 = (n + 1) as nat;
        assert(binom_sum(x, n1, 0) == 0);
        assert(binom_sum(x, n1, 1) == binom_sum(x, n1, 0) + binom(n1, 0) * pow(x, 0));
        assert(binom_sum(x, n1, 1) == 1);
    } else {
        lemma_binom_sum_pascal(x, n, (m - 1) as nat);
        let s1 = binom_sum(x, n, (m - 1) as nat);
        let s2 = binom_sum(x, n, (m - 2) as nat);
        let ba = binom(n, (m - 2) as nat);
        let bb = binom(n, (m - 1) as nat);
        let e = pow(x, (m - 2) as nat);
        assert(pow(x, (m - 1) as nat) == x * e);
        assert(binom((n + 1) as nat, (m - 1) as nat) == ba + bb);
        assert(binom_sum(x, n, m) == s1 + bb * (x * e));
        assert(s1 == s2 + ba * e);
        assert(binom_sum(x, n + 1, m) == s1 + x * s2 + (ba + bb) * (x * e));
        assert(s1 + x * s2 + (ba + bb) * (x * e) == (s1 + bb * (x * e)) + x * s1)
            by (nonlinear_arith)
            requires
                s1 == s2 + ba * e,
        ;
    }
}

proof fn lemma_binom_sum_tail(x: int, n: nat, m: nat)
    requires
        m >= n + 1,
    ensures
        binom_sum(x, n, m) == binom_sum(x, n, n + 1),
    decreases m,
{
    if m > n + 1 {
        lemma_binom_sum_tail(x, n, (m - 1) as nat);
        lemma_binom_above(n, (m - 1) as nat);
    }
}

/// The binomial theorem for `(x + 1)^n`.
proof fn lemma_binomial_theorem(x: int, n: nat)
    ensures
        pow(x + 1, n) == binom_sum(x, n, n + 1),
    decreases n,
{
    reveal_with_fuel(pow, 2);
    if n == 0 {
        assert(binom_sum(x, 0, 1) == binom_sum(x, 0, 0) + 1 * pow(x, 0));
    } else {
        let k = (n - 1) as nat;
        lemma_binomial_theorem(x, k);
        lemma_binom_sum_pascal(x, k, n + 1);
        lemma_binom_sum_tail(x, k, n + 1);
        let s = binom_sum(x, k, n);
        assert(pow(x + 1, n) == (x + 1) * pow(x + 1, k));
        assert((x + 1) * s == s + x * s) by (nonlinear_arith);
    }
}

/// Modulo a prime `p`, every middle term of the expansion of `(x + 1)^p` vanishes.
proof fn lemma_binom_sum_prime(x: int, p: nat, m: nat)
    requires
        is_prime(p as int),
        1 <= m <= p,
    ensures
        binom_sum(x, p, m) % (p as int) == 1,
    decreases m,
{
    let pi = p as int;
    if m == 1 {
        assert(binom_sum(x, p, 1) == binom_sum(x, p, 0) + 1 * pow(x, 0));
        reveal_with_fuel(pow, 1);
        lemma_small_mod(1, p);
    } else {
        let k = (m - 1) as nat;
        lemma_binom_sum_prime(x, p, k);
        lemma_prime_divides_binom(p, k);
        let t = binom(p, k) * pow(x, k);
        lemma_mul_mod_noop_left(binom(p, k) as int, pow(x, k), pi);
        assert(t % pi == 0) by {
            assert((0 * pow(x, k)) == 0);
            lemma_small_mod(0, p);
        }
        lemma_add_mod_noop(binom_sum(x, p, k), t, pi);
        lemma_small_mod(1, p);
    }
}

/// The freshman's dream: `(x + 1)^p == x^p + 1` modulo a prime `p`.
proof fn lemma_freshman(x: int, p: nat)
    requires
        is_prime(p as int),
    ensures
        pow(x + 1, p) % (p as int) == (pow(x, p) + 1) % (p as int),
{
    let pi = p as int;
    lemma_binomial_theorem(x, p);
    lemma_binom_sum_prime(x, p, p);
    lemma_binom_diag(p);
    assert(binom_sum(x, p, p + 1) == binom_sum(x, p, p) + 1 * pow(x, p));
    lemma_add_mod_noop(binom_sum(x, p, p), pow(x, p), pi);
    lemma_add_mod_noop(1, pow(x, p), pi);
    lemma_small_mod(1, p);
}

/// Fermat's little theorem in the form `x^p == x` modulo a prime `p`.
pub proof fn lemma_fermat_pow_p(x: nat, p: nat)
    requires
        is_prime(p as int),
    ensures
        pow(x as int, p) % (p as int) == (x as int) % (p as int),
    decreases x,
{
    let pi = p as int;
    if x == 0 {
        lemma0_pow(p);
    } else {
        let y = (x - 1) as nat;
        lemma_fermat_pow_p(y, p);
        lemma_freshman(y as int, p);
        lemma_add_mod_noop(pow(y as int, p), 1, pi);
        lemma_add_mod_noop(y as int, 1, pi);
    }
}

/// Fermat's little theorem: `a^(p - 1) == 1` modulo a prime `p` that does not divide `a`.
pub proof fn lemma_fermat(a: nat, p: nat)
    requires
        is_prime(p as int),
        (a as int) % (p as int) != 0,
    ensures
        pow(a as int, (p - 1) as nat) % (p as int) == 1,
{
    let pi = p as int;
    let e = pow(a as int, (p - 1) as nat);
    lemma_fermat_pow_p(a, p);
    assert(pow(a as int, p) == a * e) by {
        reveal_with_fuel(pow, 1);
    }
    lemma_sub_mod_noop(a * e, a as int, pi);
    lemma_small_mod(0, p);
    assert(a * e - a == a * (e - 1)) by (nonlinear_arith);
    lemma_euclid(pi, a as int, e - 1);
    lemma_add_mod_noop(e - 1, 1, pi);
    lemma_small_mod(1, p);
    lemma_small_mod(0, p);
}

/// One step of square-and-multiply: from `b^e mod m` to `b^(2e)` or `b^(2e+1)` mod `m`.
pub proof fn lemma_pow_mod_step(b: int, e: nat, m: int, r: int, odd: bool)
    requires
        m > 0,
        pow(b, e) % m == r,
    ensures
        pow(b, 2 * e + if odd {
            1nat
        } else {
            0nat
        }) % m == (r * r * if odd {
            b
        } else {
            1
        }) % m,
{
    let x = pow(b, e);
    lemma_pow_adds(b, e, e);
    lemma_mul_mod_noop(x, x, m);
    lemma_mul_mod_noop(x * x, if odd {
        b
    } else {
        1
    }, m);
    lemma_mul_mod_noop(r * r, if odd {
        b
    } else {
        1
    }, m);
    lemma_mod_twice(x * x, m);
    lemma_mul_mod_noop(r, r, m);
    lemma_mod_twice(r, m);
    if odd {
        lemma_pow_adds(b, 2 * e, 1);
        lemma_pow1(b);
    } else {
        lemma_pow0(b);
        lemma_mul_basics(x * x);
        lemma_mul_basics(r * r);
    }
}

/// Every integer above one has a prime factor.
pub proof fn lemma_prime_factor(n: int) -> (q: int)
    requires
        n > 1,
    ensures
        is_prime(q),
        n % q == 0,
        1 < q <= n,
    decreases n,
{
    if is_prime(n) {
        lemma_mod_self_0(n);
        n
    } else {
        let d = choose|d: int| 1 < d < n && #[trigger] (n % d) == 0;
        let q = lemma_prime_factor(d);
        lemma_fundamental_div_mod(n, d);
        lemma_fundamental_div_mod(d, q);
        let x = (d / q) * (n / d);
        assert(n == x * q) by (nonlinear_arith)
            requires
                n == d * (n / d) + n % d,
                n % d == 0,
                d == q * (d / q) + d % q,
                d % q == 0,
                x == (d / q) * (n / d),
        ;
        lemma_mod_multiples_basic(x, q);
        q
    }
}

/// A factor above one of a prime is that prime.
pub proof fn lemma_factor_of_prime(q: int, r: int)
    requires
        is_prime(r),
        q > 1,
        r % q == 0,
    ensures
        q == r,
{
    if q < r {
        assert(r % q != 0);
    } else if q > r {
        lemma_small_mod(r as nat, q as nat);
    }
}

} // verus!
