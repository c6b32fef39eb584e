//! Exponentiation in `Mersenne31`, by repeated squaring and by a fixed addition chain.
use vstd::arithmetic::div_mod::*;
use vstd::arithmetic::mul::*;
use vstd::arithmetic::power::*;
use vstd::arithmetic::power2::*;
use vstd::prelude::*;

use crate::mersenne_31::{
    lemma_mul_stored,
    lemma_stored_as_zero_form,
    lemma_zero_form_power,
    p_nat,
    stored_as,
    zero_form,
    Mersenne31,
    P,
};

verus! {

/// `x` is the canonical value of `a^e` modulo `p`.
pub open spec fn is_pow_of(x: nat, a: nat, e: nat, p: nat) -> bool {
    x == pow(a as int, e) % (p as int)
}

/// Multiplying powers of one base adds their exponents.
pub proof fn lemma_pow_of_mul(x: nat, y: nat, a: nat, ex: nat, ey: nat, p: nat)
    requires
        p > 0,
        is_pow_of(x, a, ex, p),
        is_pow_of(y, a, ey, p),
    ensures
        is_pow_of((x * y) % p, a, ex + ey, p),
{
    lemma_mul_mod_noop(pow(a as int, ex), pow(a as int, ey), p as int);
    lemma_pow_adds(a as int, ex, ey);
}

/// Raising a power of `a` to the `n`-th power multiplies its exponent by `n`.
pub proof fn lemma_pow_of_pow(x: nat, a: nat, e: nat, n: nat, p: nat)
    requires
        p > 0,
        is_pow_of(x, a, e, p),
    ensures
        is_pow_of((pow(x as int, n) % (p as int)) as nat, a, e * n, p),
{
    lemma_pow_mod_noop(pow(a as int, e), n, p as int);
    lemma_pow_multiplies(a as int, e, n);
    lemma_mod_bound(pow(x as int, n), p as int);
}

/// A nonnegative base has a nonnegative power.
pub proof fn lemma_pow_nonneg(a: nat, e: nat)
    ensures
        pow(a as int, e) >= 0,
{
    if a > 0 {
        lemma_pow_positive(a as int, e);
    } else if e == 0 {
        lemma_pow0(0);
    } else {
        lemma0_pow(e);
    }
}

/// `val` raised to `power`, by square-and-multiply over the bits of `power`
/// from the least significant up. The result is stored canonically, and a zero result
/// is stored as the zero `val` is.
pub fn exp_u64_by_squaring(val: Mersenne31, power: u64) -> (r: Mersenne31)
    ensures
        r@ == pow(val@ as int, power as nat) % (p_nat() as int),
        stored_as(r, zero_form(val)),
{
    let ghost a = val@;
    let ghost p = p_nat();
    let ghost z = zero_form(val);
    proof {
        use_type_invariant(&val);
        lemma_stored_as_zero_form(val);
    }
    let mut current = val;
    let mut product = Mersenne31::one();
    let mut e = power;
    proof {
        lemma_pow0(a as int);
        lemma_mul_basics(pow(a as int, power as nat));
        lemma_small_mod(1, p);
    }
    while e > 0
        invariant
            p == p_nat(),
            a == val@,
            z == 0 || z == P,
            product@ < p,
            current@ < p,
            cong_pow(product@, current@, e as nat, a, power as nat, p),
            stored_as(product, z),
            stored_as(current, z),
        decreases e,
    {
        let ghost c = current;
        let ghost pr = product;
        if e % 2 == 1 {
            product = product * current;
            proof {
                lemma_mul_stored(pr, c, z);
            }
        }
        current = current.square();
        proof {
            lemma_mul_stored(c, c, z);
            lemma_mod_bound((pr@ * c@) as int, p as int);
            lemma_mod_bound((c@ * c@) as int, p as int);
            lemma_square_and_multiply_step(pr@, c@, e as nat, a, power as nat, p);
        }
        e = e / 2;
    }
    proof {
        lemma_pow0(current@ as int);
        lemma_small_mod(product@, p);
        lemma_zero_form_power(val, product, z, power as nat);
    }
    product
}

/// The square-and-multiply invariant: `product * current^e == a^power` modulo `p`.
pub open spec fn cong_pow(product: nat, current: nat, e: nat, a: nat, power: nat, p: nat) -> bool {
    (product * pow(current as int, e)) % (p as int) == pow(a as int, power) % (p as int)
}

proof fn lemma_square_and_multiply_step(pr: nat, c: nat, e: nat, a: nat, power: nat, p: nat)
    requires
        p > 1,
        e > 0,
        cong_pow(pr, c, e, a, power, p),
    ensures
        cong_pow(
            if e % 2 == 1 {
                (pr * c) % p
            } else {
                pr
            },
            (c * c) % p,
            e / 2,
            a,
            power,
            p,
        ),
{
    let pi = p as int;
    let h = e / 2;
    let c2 = (c * c) % p;
    let q = pow(c as int, e);
    lemma_pow_nonneg(c, e);
    lemma_pow_nonneg(c2, h);
    lemma_pow_nonneg(c * c, h);
    // c2^h == (c * c)^h == c^(2h) modulo p
    lemma_pow_mod_noop((c * c) as int, h, pi);
    assert(pow((c * c) as int, h) == pow(c as int, 2 * h)) by {
        lemma_square_is_pow2(c as int);
        lemma_pow_multiplies(c as int, 2, h);
    }
    if e % 2 == 1 {
        assert(e == 2 * h + 1);
        lemma_pow_adds(c as int, 2 * h, 1);
        lemma_pow1(c as int);
        let np = (pr * c) % p;
        // np * c2^h == pr * c * c^(2h) == pr * c^e
        lemma_mul_mod_noop(np as int, pow(c2 as int, h), pi);
        lemma_mul_mod_noop((pr * c) as int, pow(c as int, 2 * h), pi);
        lemma_mod_twice((pr * c) as int, pi);
        lemma_mul_is_associative(pr as int, c as int, pow(c as int, 2 * h));
        lemma_mul_is_commutative(c as int, pow(c as int, 2 * h));
    } else {
        assert(e == 2 * h);
        lemma_mul_mod_noop(pr as int, pow(c2 as int, h), pi);
        lemma_mul_mod_noop(pr as int, pow(c as int, 2 * h), pi);
    }
}

/// `val^1717986917`: the inverse of the map `x -> x^5` on `2^31 - 1`, by a fixed
/// addition chain of 30 squarings and 7 multiplications.
pub fn exp_1717986917(val: Mersenne31) -> (r: Mersenne31)
    ensures
        r@ == pow(val@ as int, 1717986917) % (p_nat() as int),
        stored_as(r, zero_form(val)),
{
    let ghost a = val@;
    let ghost p = p_nat();
    let ghost z = zero_form(val);
    proof {
        use_type_invariant(&val);
        lemma_stored_as_zero_form(val);
        lemma_pow1(a as int);
        lemma_small_mod(a, p);
        lemma2_to64();
    }
    let p1 = val;
    let p10 = p1.square();
    proof {
        lemma_mul_stored(p1, p1, z);
        lemma_pow_of_mul(a, a, a, 1, 1, p);
    }
    let p11 = p10 * p1;
    proof {
        lemma_mul_stored(p10, p1, z);
        lemma_pow_of_mul(p10@, a, a, 2, 1, p);
    }
    let p101 = p10 * p11;
    proof {
        lemma_mul_stored(p10, p11, z);
        lemma_pow_of_mul(p10@, p11@, a, 2, 3, p);
    }
    let p110000 = p11.exp_power_of_2(4);
    proof {
        lemma_zero_form_power(p11, p110000, z, pow2(4));
        lemma_pow_of_pow(p11@, a, 3, 16, p);
    }
    let p110011 = p110000 * p11;
    proof {
        lemma_mul_stored(p110000, p11, z);
        lemma_pow_of_mul(p110000@, p11@, a, 48, 3, p);
    }
    let p11001100000000 = p110011.exp_power_of_2(8);
    proof {
        lemma_zero_form_power(p110011, p11001100000000, z, pow2(8));
        lemma_pow_of_pow(p110011@, a, 51, 256, p);
    }
    let p11001100110011 = p11001100000000 * p110011;
    proof {
        lemma_mul_stored(p11001100000000, p110011, z);
        lemma_pow_of_mul(p11001100000000@, p110011@, a, 13056, 51, p);
    }
    let p1100110000 = p110011.exp_power_of_2(4);
    proof {
        lemma_zero_form_power(p110011, p1100110000, z, pow2(4));
        lemma_pow_of_pow(p110011@, a, 51, 16, p);
    }
    let p1100110011 = p1100110000 * p11;
    proof {
        lemma_mul_stored(p1100110000, p11, z);
        lemma_pow_of_mul(p1100110000@, p11@, a, 816, 3, p);
    }
    let p11001100110011000000000000 = p11001100110011.exp_power_of_2(12);
    proof {
        lemma_zero_form_power(p11001100110011, p11001100110011000000000000, z, pow2(12));
        lemma_pow_of_pow(p11001100110011@, a, 13107, 4096, p);
    }
    let p11001100110011001100110011 = p11001100110011000000000000 * p1100110011;
    proof {
        lemma_mul_stored(p11001100110011000000000000, p1100110011, z);
        lemma_pow_of_mul(
            p11001100110011000000000000@,
            p1100110011@,
            a,
            53686272,
            819,
            p,
        );
    }
    let p1100110011001100110011001100000 = p11001100110011001100110011.exp_power_of_2(5);
    proof {
        lemma_zero_form_power(p11001100110011001100110011, p1100110011001100110011001100000, z, pow2(5));
        lemma_pow_of_pow(p11001100110011001100110011@, a, 53687091, 32, p);
    }
    let p1100110011001100110011001100101 = p1100110011001100110011001100000 * p101;
    proof {
        lemma_mul_stored(p1100110011001100110011001100000, p101, z);
        lemma_pow_of_mul(
            p1100110011001100110011001100000@,
            p101@,
            a,
            1717986912,
            5,
            p,
        );
    }
    proof {
        lemma_zero_form_power(val, p1100110011001100110011001100101, z, 1717986917);
    }
    p1100110011001100110011001100101
}

} // verus!
