//! The prime field `F_p` for the Mersenne prime `p = 2^31 - 1`.
use vstd::arithmetic::div_mod::*;
use vstd::arithmetic::mul::*;
use vstd::arithmetic::power::*;
use vstd::arithmetic::power2::*;
use vstd::bits::*;
use vstd::prelude::*;
use vstd::set_lib::{lemma_int_range, lemma_map_size, lemma_subset_equality, set_int_range};
use vstd::std_specs::cmp::PartialEqSpecImpl;
use vstd::std_specs::cmp::PartialOrdSpecImpl;
use vstd::std_specs::ops::AddSpecImpl;
use vstd::std_specs::ops::DivSpecImpl;
use vstd::std_specs::ops::MulSpecImpl;
use vstd::std_specs::ops::NegSpecImpl;
use vstd::std_specs::ops::SubSpecImpl;

use num_bigint::BigUint;

use crate::bigint::{biguint_from_u32, biguint_from_u32_result};
use crate::binomial_extension::{lemma_cubic_norm_nonzero, lemma_not_cube};
use crate::decimal::{decimal, decimal_string};
use crate::exponentiation::{
    exp_1717986917,
    exp_u64_by_squaring,
    is_pow_of,
    lemma_pow_of_mul,
    lemma_pow_of_pow,
};
use crate::field::{BinomiallyExtendable, Field, QuotientMap};
use crate::number_theory::{
    is_prime,
    lemma_euclid,
    lemma_factor_of_prime,
    lemma_fermat,
    lemma_m31_is_prime,
    lemma_pow_mod_step,
    lemma_prime_factor,
};

verus! {

/// The Mersenne prime `2^31 - 1`.
pub const P: u32 = 0x7fff_ffff;

/// `p = 2^31 - 1` as a mathematical integer.
pub open spec fn p_nat() -> nat {
    0x7fff_ffff
}

/// An element of the prime field `F_p` where `p = 2^31 - 1`.
///
/// The stored value is not necessarily canonical (`p` itself stands for zero),
/// but it always fits in 31 bits.
#[derive(Copy, Clone)]
pub struct Mersenne31 {
    pub(crate) value: u32,
}

/// Declares `core::fmt::Formatter`, the formatter that `Debug` writes to; opaque.
#[verifier::external_type_specification]
#[verifier::external_body]
pub struct ExFormatter<'a>(core::fmt::Formatter<'a>);

/// Declares `core::fmt::Error`, the error that a write to a formatter may return; opaque.
#[verifier::external_type_specification]
#[verifier::external_body]
pub struct ExFmtError(core::fmt::Error);

impl core::fmt::Debug for Mersenne31 {
    /// Hands the stored value to `<u32 as core::fmt::Debug>::fmt`, so it prints as the bare
    /// number; nothing is claimed of the text or of the formatter's result.
    #[verifier::external_body]
    fn fmt(&self, f: &mut core::fmt::Formatter<'_>) -> core::fmt::Result {
        core::fmt::Debug::fmt(&self.value, f)
    }
}

impl View for Mersenne31 {
    type V = nat;

    /// The canonical value in `[0, p)`.
    open spec fn view(&self) -> nat {
        (self.raw() % P) as nat
    }
}

/// The raw value of a sum, as `add` computes it from two 31-bit values.
pub open spec fn add_raw(a: u32, b: u32) -> u32 {
    if a + b >= 0x8000_0000 {
        (a + b - P) as u32
    } else {
        (a + b) as u32
    }
}

/// The raw value of a difference, as `sub` computes it from two 31-bit values.
pub open spec fn sub_raw(a: u32, b: u32) -> u32 {
    if a >= b {
        (a - b) as u32
    } else {
        (a - b + P) as u32
    }
}

/// The raw value `from_u62` computes: the low 31 bits plus the high bits.
pub open spec fn from_u62_raw(x: u64) -> u32 {
    add_raw((x % 0x8000_0000) as u32, (x / 0x8000_0000) as u32)
}

/// The stored value of a signed input in `[-p, p]`: the input itself, or `p` added to a
/// negative one.
pub open spec fn signed_raw(n: int) -> int {
    if n >= 0 {
        n
    } else {
        P + n
    }
}

/// Clearing the top bit of a `u32` keeps its value modulo `2^31`.
proof fn lemma_mask31(x: u32)
    ensures
        x & P == x % 0x8000_0000,
{
    assert(x & 0x7fff_ffff == x % 0x8000_0000) by (bit_vector);
}

/// Splitting a `u64` at bit 31.
proof fn lemma_split31(x: u64)
    ensures
        x & 0x7fff_ffff == x % 0x8000_0000,
        x >> 31 == x / 0x8000_0000,
{
    assert(x & 0x7fff_ffff == x % 0x8000_0000) by (bit_vector);
    assert(x >> 31 == x / 0x8000_0000) by (bit_vector);
}

/// A left rotation of a 31-bit value by `k` bits.
proof fn lemma_rotate_bits(v: u32, k: u32)
    requires
        v < 0x8000_0000,
        k <= 31,
    ensures
        ((v << k) & 0x7fff_ffff) | (v >> ((31 - k) as u32)) == ((v << k) & 0x7fff_ffff) + (v >> (
        (31 - k) as u32)),
        (((v << k) & 0x7fff_ffff) | (v >> ((31 - k) as u32))) < 0x8000_0000,
        ((v as u64) << (k as u64)) == ((v >> ((31 - k) as u32)) as u64) * 0x8000_0000 + (((v << k)
            & 0x7fff_ffff) as u64),
{
    assert(((v << k) & 0x7fff_ffff) | (v >> ((31 - k) as u32)) == ((v << k) & 0x7fff_ffff) + (v >> (
    (31 - k) as u32))) by (bit_vector)
        requires
            v < 0x8000_0000,
            k <= 31,
    ;
    assert((((v << k) & 0x7fff_ffff) | (v >> ((31 - k) as u32))) < 0x8000_0000) by (bit_vector)
        requires
            v < 0x8000_0000,
            k <= 31,
    ;
    assert(((v as u64) << (k as u64)) == ((v >> ((31 - k) as u32)) as u64) * 0x8000_0000 + (((v
        << k) & 0x7fff_ffff) as u64)) by (bit_vector)
        requires
            v < 0x8000_0000,
            k <= 31,
    ;
}

/// `2^31` is congruent to one modulo `p`, so powers of two repeat with period 31.
pub proof fn lemma_pow2_mod_p(e: nat)
    ensures
        pow2(e) % p_nat() == pow2(e % 31) % p_nat(),
{
    let q = e / 31;
    let r = e % 31;
    lemma_fundamental_div_mod(e as int, 31);
    lemma2_to64();
    lemma_pow2_adds(31 * q, r);
    lemma_pow2(31 * q);
    lemma_pow_multiplies(2, 31, q);
    lemma_pow2(31);
    // pow(2^31, q) is congruent to pow(1, q) = 1
    lemma_pow_mod_noop(pow(2, 31), q, p_nat() as int);
    assert(pow(2, 31) % (p_nat() as int) == 1);
    lemma1_pow(q);
    lemma_pow_nonneg2(q);
    lemma_mul_mod_noop_left(pow2(31 * q) as int, pow2(r) as int, p_nat() as int);
    lemma_mul_basics(pow2(r) as int);
}

proof fn lemma_pow_nonneg2(q: nat)
    ensures
        pow(pow(2, 31), q) >= 0,
{
    lemma_pow_positive(2, 31);
    lemma_pow_positive(pow(2, 31), q);
}

/// The value `hi * 2^31 + lo` is congruent to `hi + lo` modulo `p`.
proof fn lemma_fold_high_bits(x: int, hi: int, lo: int)
    requires
        x == hi * 0x8000_0000 + lo,
    ensures
        x % (p_nat() as int) == (hi + lo) % (p_nat() as int),
{
    assert(x == hi * (p_nat() as int) + (hi + lo));
    lemma_mod_multiples_vanish(hi, hi + lo, p_nat() as int);
}

impl Mersenne31 {
    #[verifier::type_invariant]
    pub(crate) open spec fn fits_31_bits(self) -> bool {
        self.value < 0x8000_0000
    }

    /// The stored representation (canonical, or `p` for zero).
    pub closed spec fn raw(self) -> u32 {
        self.value
    }

    /// The order `p = 2^31 - 1` of the field.
    pub const ORDER_U32: u32 = 0x7fff_ffff;

    /// The order `p = 2^31 - 1` of the field.
    pub const ORDER_U64: u64 = 0x7fff_ffff;

    /// An element from a value that fits in 31 bits (`p` itself stands for zero).
    pub fn new(value: u32) -> (r: Self)
        requires
            value < 0x8000_0000,
        ensures
            r.raw() == value,
            r@ == (value as nat) % p_nat(),
    {
        Self { value }
    }

    /// The stored representation, for conversions that keep it as it is.
    pub fn raw_value(&self) -> (r: u32)
        ensures
            r == self.raw(),
            r < 0x8000_0000,
    {
        proof {
            use_type_invariant(self);
        }
        self.value
    }

    pub fn zero() -> (r: Self)
        ensures
            r.raw() == 0,
            r@ == 0,
    {
        Self { value: 0 }
    }

    pub fn one() -> (r: Self)
        ensures
            r.raw() == 1,
            r@ == 1,
    {
        Self { value: 1 }
    }

    pub fn two() -> (r: Self)
        ensures
            r.raw() == 2,
            r@ == 2,
    {
        Self { value: 2 }
    }

    pub fn neg_one() -> (r: Self)
        ensures
            r.raw() == P - 1,
            r@ == p_nat() - 1,
    {
        Self { value: P - 1 }
    }

    /// The generator `7` of the multiplicative group.
    pub fn generator() -> (r: Self)
        ensures
            r.raw() == 7,
            r@ == 7,
    {
        Self { value: 7 }
    }

    /// The order `p` of the field.
    pub fn order() -> (r: BigUint)
        ensures
            r == biguint_from_u32_result(P),
    {
        biguint_from_u32(P)
    }

    /// The canonical value, as an arbitrary-precision integer.
    pub fn as_canonical_biguint(&self) -> (r: BigUint)
        ensures
            r == biguint_from_u32_result(self@ as u32),
    {
        biguint_from_u32(self.as_canonical_u32())
    }

    /// A vector of `len` zeros.
    pub fn zero_vec(len: usize) -> (r: Vec<Self>)
        ensures
            r@.len() == len,
            forall|i: int| 0 <= i < len ==> (#[trigger] r@[i])@ == 0,
            forall|i: int| 0 <= i < len ==> (#[trigger] r@[i]).raw() == 0,
    {
        let mut v: Vec<Self> = Vec::new();
        let mut i: usize = 0;
        while i < len
            invariant
                i <= len,
                v@.len() == i,
                forall|j: int| 0 <= j < i ==> (#[trigger] v@[j])@ == 0,
                forall|j: int| 0 <= j < i ==> (#[trigger] v@[j]).raw() == 0,
            decreases len - i,
        {
            v.push(Self::zero());
            i += 1;
        }
        v
    }

    /// The decimal text of the stored value, as `Display` writes it (`p` prints as itself).
    pub fn to_string(&self) -> (s: String)
        ensures
            s@ == decimal(self.raw() as nat),
    {
        proof {
            use_type_invariant(self);
        }
        decimal_string(self.value as u64)
    }

    /// The canonical value in `[0, p)`.
    pub fn as_canonical_u32(&self) -> (r: u32)
        ensures
            r == self@,
    {
        proof {
            use_type_invariant(self);
        }
        if self.value == P {
            0
        } else {
            self.value
        }
    }

    /// The canonical value in `[0, p)`.
    pub fn as_canonical_u64(&self) -> (r: u64)
        ensures
            r == self@,
    {
        self.as_canonical_u32() as u64
    }

    /// Whether the element is zero (stored as `0` or as `p`).
    pub fn is_zero(&self) -> (b: bool)
        ensures
            b == (self@ == 0),
    {
        proof {
            use_type_invariant(self);
        }
        self.value == 0 || self.value == P
    }

    /// An element of the field itself, as an element of the field.
    pub fn from_f(f: Self) -> (r: Self)
        ensures
            r == f,
    {
        f
    }

    /// An element of the prime subfield (the field itself), as an element of the field.
    pub fn from_char(f: Self) -> (r: Self)
        ensures
            r == f,
    {
        f
    }

    pub fn from_bool(b: bool) -> (r: Self)
        ensures
            r@ == (if b {
                1nat
            } else {
                0nat
            }),
            r.raw() == (if b {
                1u32
            } else {
                0u32
            }),
    {
        Self::new(if b {
            1
        } else {
            0
        })
    }

    /// Multiplication by `2^exp`, which in a Mersenne field is a left rotation
    /// of the 31 bits by `exp mod 31`.
    pub fn mul_2exp_u64(&self, exp: u64) -> (r: Self)
        ensures
            r@ == (self@ * pow2((exp % 31) as nat)) % p_nat(),
            r@ == (self@ * pow2(exp as nat)) % p_nat(),
            r.raw() == (if self.raw() == P {
                P
            } else {
                r@ as u32
            }),
    {
        proof {
            use_type_invariant(self);
        }
        let ghost exp_full = exp;
        let exp = (exp % 31) as u32;
        let left = (self.value << exp) & P;
        let right = self.value >> (31 - exp);
        let rotated = left | right;
        proof {
            let v = self.value;
            lemma_rotate_bits(v, exp);
            lemma2_to64();
            lemma_pow2_strictly_increases(exp as nat, 31);
            lemma_mul_upper_bound(v as int, 0x8000_0000, pow2(exp as nat) as int, 0x8000_0000);
            lemma_u64_shl_is_mul(v as u64, exp as u64);
            lemma_fold_high_bits(v * pow2(exp as nat), right as int, left as int);
            lemma_mul_mod_noop_left(v as int, pow2(exp as nat) as int, p_nat() as int);
            lemma_pow2_mod_p(exp_full as nat);
            lemma_mul_mod_noop_right(self@ as int, pow2(exp_full as nat) as int, p_nat() as int);
            lemma_mul_mod_noop_right(self@ as int, pow2(exp as nat) as int, p_nat() as int);
            // a rotation keeps the all-ones pattern, and no other pattern becomes it
            assert(v == 0x7fff_ffff ==> rotated == 0x7fff_ffff) by (bit_vector)
                requires
                    exp < 31,
                    rotated == ((v << exp) & 0x7fff_ffff) | (v >> ((31 - exp) as u32)),
            ;
            assert(v < 0x7fff_ffff ==> rotated < 0x7fff_ffff) by (bit_vector)
                requires
                    exp < 31,
                    rotated == ((v << exp) & 0x7fff_ffff) | (v >> ((31 - exp) as u32)),
            ;
            if v < P {
                lemma_small_mod(rotated as nat, p_nat());
            }
        }
        Self { value: rotated }
    }

    /// Division by `2^exp`, which in a Mersenne field is a right rotation
    /// of the 31 bits by `exp mod 31`.
    pub fn div_2exp_u64(&self, exp: u64) -> (r: Self)
        ensures
            r@ == (self@ * pow2((31 - exp % 31) as nat)) % p_nat(),
            (r@ * pow2(exp as nat)) % p_nat() == self@,
            r.raw() == (if self.raw() == P {
                P
            } else {
                r@ as u32
            }),
    {
        proof {
            use_type_invariant(self);
        }
        let ghost exp_full = exp;
        let exp = (exp % 31) as u32;
        let left = self.value >> exp;
        let right = (self.value << (31 - exp)) & P;
        let rotated = left | right;
        proof {
            let v = self.value;
            let k = (31 - exp) as u32;
            assert((31 - k) as u32 == exp as u32);
            lemma_rotate_bits(v, k);
            assert(left | right == right | left) by (bit_vector);
            assert(rotated == ((v << k) & 0x7fff_ffff) | (v >> ((31 - k) as u32)));
            lemma2_to64();
            if k < 31 {
                lemma_pow2_strictly_increases(k as nat, 31);
            }
            lemma_mul_upper_bound(v as int, 0x8000_0000, pow2(k as nat) as int, 0x8000_0000);
            lemma_u64_shl_is_mul(v as u64, k as u64);
            lemma_fold_high_bits(v * pow2(k as nat), left as int, right as int);
            lemma_mul_mod_noop_left(v as int, pow2(k as nat) as int, p_nat() as int);
            // multiplying back by 2^exp gives 2^31, which is one modulo p
            let pi = p_nat() as int;
            let r_nat = (rotated % P) as nat;
            lemma_pow2_mod_p(exp_full as nat);
            lemma_mul_mod_noop_right(r_nat as int, pow2(exp_full as nat) as int, pi);
            lemma_mul_mod_noop_right(r_nat as int, pow2(exp as nat) as int, pi);
            lemma_mul_mod_noop_left((self@ * pow2(k as nat)) as int, pow2(exp as nat) as int, pi);
            lemma_mul_is_associative(self@ as int, pow2(k as nat) as int, pow2(exp as nat) as int);
            lemma_pow2_adds(k as nat, exp as nat);
            assert(k + exp == 31);
            lemma_mul_mod_noop_right(self@ as int, pow2(31) as int, pi);
            lemma_small_mod(self@, p_nat());
            assert(v == 0x7fff_ffff ==> rotated == 0x7fff_ffff) by (bit_vector)
                requires
                    exp < 31,
                    rotated == (v >> exp) | ((v << ((31 - exp) as u32)) & 0x7fff_ffff),
            ;
            assert(v < 0x7fff_ffff ==> rotated < 0x7fff_ffff) by (bit_vector)
                requires
                    exp < 31,
                    rotated == (v >> exp) | ((v << ((31 - exp) as u32)) & 0x7fff_ffff),
            ;
            if v < P {
                lemma_small_mod(rotated as nat, p_nat());
            }
        }
        Self { value: rotated }
    }

    /// The element whose double is `self`: `x / 2` for even `x`, `(x + p) / 2` for odd `x`.
    pub fn halve(&self) -> (r: Self)
        ensures
            (2 * r@) % p_nat() == self@,
            r.raw() as int == (if self.raw() % 2 == 0 {
                (self.raw() / 2) as int
            } else {
                self.raw() / 2 + 0x4000_0000
            }),
    {
        proof {
            use_type_invariant(self);
        }
        let input = self.value;
        let shift: u32 = (P + 1) >> 1;
        let shr = input >> 1;
        let lo_bit = input & 1;
        proof {
            assert(0x8000_0000u32 >> 1 == 0x4000_0000) by (bit_vector);
            assert(input >> 1 == input / 2) by (bit_vector);
            assert(input & 1 == input % 2) by (bit_vector);
        }
        let shr_corr = shr + shift;
        let res = if lo_bit == 0 {
            shr
        } else {
            shr_corr
        };
        proof {
            let pi = p_nat() as int;
            if input % 2 == 0 {
                assert(2 * res == input);
            } else {
                assert(2 * res == input + pi);
                lemma_mod_add_multiples_vanish(input as int, pi);
            }
            lemma_mul_mod_noop_right(2, res as int, pi);
        }
        Self { value: res }
    }
}

impl Mersenne31 {
    /// `self * self`.
    pub fn square(&self) -> (r: Self)
        ensures
            r@ == (self@ * self@) % p_nat(),
            r.raw() == from_u62_raw((self.raw() * self.raw()) as u64),
    {
        *self * *self
    }

    /// `self + self`.
    pub fn double(&self) -> (r: Self)
        ensures
            r@ == (2 * self@) % p_nat(),
            r.raw() == add_raw(self.raw(), self.raw()),
    {
        *self + *self
    }

    /// `self` raised to `2^power_log`, by repeated squaring.
    pub fn exp_power_of_2(&self, power_log: usize) -> (r: Self)
        ensures
            r@ == pow(self@ as int, pow2(power_log as nat)) % (p_nat() as int),
            stored_as(r, zero_form(*self)),
    {
        let ghost a = self@;
        let ghost p = p_nat();
        let ghost z = zero_form(*self);
        proof {
            lemma2_to64();
            lemma_pow1(a as int);
            lemma_small_mod(a, p);
            use_type_invariant(self);
            lemma_stored_as_zero_form(*self);
        }
        let mut res = *self;
        let mut i: usize = 0;
        while i < power_log
            invariant
                i <= power_log,
                p == p_nat(),
                a == self@,
                z == 0 || z == P,
                is_pow_of(res@, a, pow2(i as nat), p),
                stored_as(res, z),
            decreases power_log - i,
        {
            let ghost prev = res;
            res = res.square();
            proof {
                lemma_pow_of_mul(prev@, prev@, a, pow2(i as nat), pow2(i as nat), p);
                lemma_pow2_unfold((i + 1) as nat);
                lemma_mul_stored(prev, prev, z);
            }
            i += 1;
        }
        res
    }

    /// `self` raised to `power`.
    pub fn exp_u64(&self, power: u64) -> (r: Self)
        ensures
            r@ == pow(self@ as int, power as nat) % (p_nat() as int),
            stored_as(r, zero_form(*self)),
    {
        match power {
            1717986917 => exp_1717986917(*self),
            _ => exp_u64_by_squaring(*self, power),
        }
    }

    /// `self` raised to the constant `POWER`.
    pub fn exp_const_u64<const POWER: u64>(&self) -> (r: Self)
        ensures
            r@ == pow(self@ as int, POWER as nat) % (p_nat() as int),
            stored_as(r, zero_form(*self)),
    {
        let ghost a = self@;
        let ghost p = p_nat();
        let ghost z = zero_form(*self);
        proof {
            reveal_with_fuel(pow, 6);
            lemma_small_mod(a, p);
            lemma_mul_is_commutative(a as int, a as int);
            use_type_invariant(self);
            lemma_stored_as_zero_form(*self);
        }
        match POWER {
            0 => {
                proof {
                    lemma_small_mod(1, p);
                }
                Self::one()
            },
            1 => *self,
            2 => {
                proof {
                    lemma_mul_stored(*self, *self, z);
                }
                self.square()
            },
            3 => {
                let x2 = self.square();
                proof {
                    lemma_pow_of_mul(a, a, a, 1, 1, p);
                    lemma_pow_of_mul(x2@, a, a, 2, 1, p);
                    lemma_mul_stored(*self, *self, z);
                    lemma_mul_stored(x2, *self, z);
                }
                x2 * *self
            },
            4 => {
                let x2 = self.square();
                proof {
                    lemma_pow_of_mul(a, a, a, 1, 1, p);
                    lemma_pow_of_mul(x2@, x2@, a, 2, 2, p);
                    lemma_mul_stored(*self, *self, z);
                    lemma_mul_stored(x2, x2, z);
                }
                x2.square()
            },
            5 => {
                let x2 = self.square();
                let x4 = x2.square();
                proof {
                    lemma_pow_of_mul(a, a, a, 1, 1, p);
                    lemma_pow_of_mul(x2@, x2@, a, 2, 2, p);
                    lemma_pow_of_mul(x4@, a, a, 4, 1, p);
                    lemma_mul_stored(*self, *self, z);
                    lemma_mul_stored(x2, x2, z);
                    lemma_mul_stored(x4, *self, z);
                }
                x4 * *self
            },
            _ => self.exp_u64(POWER),
        }
    }

    /// The multiplicative inverse `self^(p - 2)`, or `None` for zero.
    pub fn try_inverse(&self) -> (r: Option<Self>)
        ensures
            r is None <==> self@ == 0,
            r matches Some(x) ==> x@ == pow(self@ as int, (p_nat() - 2) as nat) % (p_nat() as int),
            r matches Some(x) ==> (self@ * x@) % p_nat() == 1,
            r matches Some(x) ==> x.raw() == x@,
    {
        if self.is_zero() {
            return None;
        }
        // Fermat: the inverse of `a` is `a^(p - 2)`, with p - 2 = 0b1111111111111111111111111111101.
        let ghost a = self@;
        let ghost p = p_nat();
        proof {
            lemma2_to64();
            lemma_pow1(a as int);
            lemma_small_mod(a, p);
        }
        let p1 = *self;
        let p100 = p1.exp_power_of_2(2);
        proof {
            lemma_pow_of_pow(a, a, 1, 4, p);
        }
        let p101 = p100 * p1;
        proof {
            lemma_pow_of_mul(p100@, a, a, 4, 1, p);
        }
        let p1010 = p101.square();
        proof {
            lemma_pow_of_mul(p101@, p101@, a, 5, 5, p);
        }
        let p1111 = p1010 * p101;
        proof {
            lemma_pow_of_mul(p1010@, p101@, a, 10, 5, p);
        }
        let p11110000 = p1111.exp_power_of_2(4);
        proof {
            lemma_pow_of_pow(p1111@, a, 15, 16, p);
        }
        let p11111111 = p11110000 * p1111;
        proof {
            lemma_pow_of_mul(p11110000@, p1111@, a, 240, 15, p);
        }
        let p111111110000 = p11111111.exp_power_of_2(4);
        proof {
            lemma_pow_of_pow(p11111111@, a, 255, 16, p);
        }
        let p111111111111 = p111111110000 * p1111;
        proof {
            lemma_pow_of_mul(p111111110000@, p1111@, a, 4080, 15, p);
        }
        let p1111111100000000 = p111111110000.exp_power_of_2(4);
        proof {
            lemma_pow_of_pow(p111111110000@, a, 4080, 16, p);
        }
        let p1111111111111111 = p1111111100000000 * p11111111;
        proof {
            lemma_pow_of_mul(p1111111100000000@, p11111111@, a, 65280, 255, p);
        }
        let p1111111111111111000000000000 = p1111111111111111.exp_power_of_2(12);
        proof {
            lemma_pow_of_pow(p1111111111111111@, a, 65535, 4096, p);
        }
        let p1111111111111111111111111111 = p1111111111111111000000000000 * p111111111111;
        proof {
            lemma_pow_of_mul(
                p1111111111111111000000000000@,
                p111111111111@,
                a,
                268431360,
                4095,
                p,
            );
        }
        let p1111111111111111111111111111000 = p1111111111111111111111111111.exp_power_of_2(3);
        proof {
            lemma_pow_of_pow(p1111111111111111111111111111@, a, 268435455, 8, p);
        }
        let p1111111111111111111111111111101 = p1111111111111111111111111111000 * p101;
        proof {
            lemma_pow_of_mul(
                p1111111111111111111111111111000@,
                p101@,
                a,
                2147483640,
                5,
                p,
            );
            let x = p1111111111111111111111111111101@;
            lemma_inverse_by_fermat(a, x);
            use_type_invariant(&p1111111111111111111111111111101);
            lemma_mul_basics(a as int);
            lemma_small_mod(0, p);
            lemma_nonzero_stored(p1111111111111111111111111111101);
        }
        Some(p1111111111111111111111111111101)
    }

    /// The multiplicative inverse of a nonzero element.
    pub fn inverse(&self) -> (r: Self)
        requires
            self@ != 0,
        ensures
            r@ == pow(self@ as int, (p_nat() - 2) as nat) % (p_nat() as int),
            (self@ * r@) % p_nat() == 1,
            r.raw() == r@,
    {
        match self.try_inverse() {
            Some(x) => x,
            None => Self::zero(),
        }
    }
}

/// For a nonzero `a < p`, `a^(p - 2)` is the inverse of `a`.
pub proof fn lemma_inverse_by_fermat(a: nat, x: nat)
    requires
        0 < a < p_nat(),
        is_pow_of(x, a, (p_nat() - 2) as nat, p_nat()),
    ensures
        (a * x) % p_nat() == 1,
{
    let p = p_nat();
    lemma_m31_is_prime();
    lemma_small_mod(a, p);
    lemma_fermat(a, p);
    lemma_pow1(a as int);
    lemma_pow_of_mul(a, x, a, 1, (p - 2) as nat, p);
}

/// Reduce a value below `2^62`: since `2^31 = 1` in the field, the high bits fold onto the low bits.
pub fn from_u62(input: u64) -> (r: Mersenne31)
    requires
        input < 0x4000_0000_0000_0000,
    ensures
        r.raw() == from_u62_raw(input),
        r@ == (input as nat) % p_nat(),
{
    let input_lo = (input & (P as u64)) as u32;
    let input_high = (input >> 31) as u32;
    proof {
        lemma_split31(input);
        assert(input_high < 0x8000_0000);
        lemma_fundamental_div_mod(input as int, 0x8000_0000);
        lemma_fold_high_bits(input as int, input_high as int, input_lo as int);
    }
    Mersenne31::new(input_lo) + Mersenne31::new(input_high)
}

/// The stored value that `from_u62` gives is at most `p` and congruent to the input.
proof fn lemma_from_u62_raw(x: u64)
    requires
        x < 0x4000_0000_0000_0000,
    ensures
        from_u62_raw(x) <= P,
        (from_u62_raw(x) as int) % (P as int) == (x as int) % (P as int),
{
    let lo = x % 0x8000_0000;
    let hi = x / 0x8000_0000;
    lemma_fundamental_div_mod(x as int, 0x8000_0000);
    lemma_fold_high_bits(x as int, hi as int, lo as int);
    if lo + hi >= 0x8000_0000 {
        lemma_mod_sub_multiples_vanish((lo + hi) as int, P as int);
    }
}

/// `p` times a value in `[1, p]` is stored as `p` again.
proof fn lemma_from_u62_raw_p_times(c: u32)
    requires
        1 <= c <= P,
    ensures
        from_u62_raw((P * c) as u64) == P,
{
    let x = (P * c) as int;
    assert(x == (c - 1) * 0x8000_0000 + (0x8000_0000 - c)) by (nonlinear_arith)
        requires
            x == P * c,
    ;
    lemma_fundamental_div_mod_converse(x, 0x8000_0000, c - 1, 0x8000_0000 - c);
}

/// The stored value of `x` is its canonical value, except that a zero is stored as `z`.
pub open spec fn stored_as(x: Mersenne31, z: u32) -> bool {
    x.raw() == (if x@ == 0 {
        z
    } else {
        x@ as u32
    })
}

/// How a zero computed from `x` alone is stored: as `x` is, when `x` is zero.
pub open spec fn zero_form(x: Mersenne31) -> u32 {
    if x@ == 0 {
        x.raw()
    } else {
        0
    }
}

/// Every element is stored canonically, or as zero in the form `zero_form` gives.
pub(crate) proof fn lemma_stored_as_zero_form(x: Mersenne31)
    requires
        x.fits_31_bits(),
    ensures
        stored_as(x, zero_form(x)),
        zero_form(x) == 0 || zero_form(x) == P,
{
    if x.raw() < P {
        lemma_small_mod(x.raw() as nat, p_nat());
    } else {
        lemma_mod_self_0(P as int);
    }
}

/// A product of two elements stored alike is stored alike: canonical when nonzero, and as
/// `z` when zero.
pub(crate) proof fn lemma_mul_stored(a: Mersenne31, b: Mersenne31, z: u32)
    requires
        z == 0 || z == P,
        a.raw() <= P,
        b.raw() <= P,
        stored_as(a, z),
        stored_as(b, z),
    ensures
        from_u62_raw((a.raw() * b.raw()) as u64) == (if (a@ * b@) % p_nat() == 0 {
            z
        } else {
            ((a@ * b@) % p_nat()) as u32
        }),
{
    let pi = P as int;
    let (x, y) = (a.raw(), b.raw());
    lemma_mul_upper_bound(x as int, P as int, y as int, P as int);
    let prod = (x * y) as u64;
    lemma_from_u62_raw(prod);
    lemma_mul_mod_noop(x as int, y as int, pi);
    if a@ != 0 && b@ != 0 {
        lemma_m31_is_prime();
        lemma_small_mod(a@, p_nat());
        lemma_small_mod(b@, p_nat());
        if (a@ * b@) % p_nat() == 0 {
            lemma_euclid(pi, a@ as int, b@ as int);
        }
        let r = from_u62_raw(prod);
        assert(x as int == a@ as int && y as int == b@ as int);
        assert((r as int) % pi == ((a@ * b@) % p_nat()) as int);
        if r == P {
            lemma_mod_self_0(pi);
            assert(false);
        } else {
            lemma_small_mod(r as nat, p_nat());
        }
        assert(r as int == ((a@ * b@) % p_nat()) as int);
    } else if z == 0 {
        lemma_mul_basics(x as int);
        lemma_mul_basics(y as int);
        if a@ == 0 {
            assert(x == 0);
        } else {
            assert(y == 0);
        }
        assert(x * y == 0);
        assert(from_u62_raw(0) == 0);
        lemma_small_mod(0, p_nat());
        lemma_mul_basics(a@ as int);
        lemma_mul_basics(b@ as int);
        assert((a@ * b@) % p_nat() == 0);
    } else {
        // one factor is stored as p, the other as a value in [1, p]
        lemma_mod_self_0(pi);
        lemma_small_mod(0, p_nat());
        if a@ == 0 {
            lemma_from_u62_raw_p_times(y);
            lemma_mul_is_commutative(P as int, y as int);
        } else {
            lemma_from_u62_raw_p_times(x);
            lemma_mul_is_commutative(P as int, x as int);
        }
        lemma_mul_basics(a@ as int);
        lemma_mul_basics(b@ as int);
        assert((a@ * b@) % p_nat() == 0);
        assert(from_u62_raw(prod) == P);
    }
}

/// A power of a nonzero element is nonzero.
proof fn lemma_pow_nonzero(a: nat, e: nat)
    requires
        0 < a < p_nat(),
    ensures
        pow(a as int, e) % (p_nat() as int) != 0,
    decreases e,
{
    let pi = p_nat() as int;
    reveal(pow);
    lemma_m31_is_prime();
    if e == 0 {
        lemma_small_mod(1, p_nat());
    } else {
        lemma_pow_nonzero(a, (e - 1) as nat);
        lemma_small_mod(a, p_nat());
        if pow(a as int, e) % pi == 0 {
            lemma_euclid(pi, a as int, pow(a as int, (e - 1) as nat));
        }
    }
}

/// A power of `x` stored alike with `x` in the form `z` is stored in the form that
/// `zero_form(x)` gives: the two forms differ only when `x` is not zero, and then the
/// power is not zero either.
pub(crate) proof fn lemma_zero_form_power(x: Mersenne31, r: Mersenne31, z: u32, e: nat)
    requires
        stored_as(x, z),
        r@ == pow(x@ as int, e) % (p_nat() as int),
    ensures
        stored_as(r, zero_form(x)) == stored_as(r, z),
{
    if x@ != 0 {
        lemma_pow_nonzero(x@, e);
    }
}

/// An element whose stored value is at most `p` and that is not zero is stored canonically.
proof fn lemma_nonzero_stored(x: Mersenne31)
    requires
        x.raw() <= P,
        x@ != 0,
    ensures
        x.raw() == x@,
{
    if x.raw() == P {
        lemma_mod_self_0(P as int);
    } else {
        lemma_small_mod(x.raw() as nat, p_nat());
    }
}

/// The element stored as `v`.
pub closed spec fn with_raw(v: u32) -> Mersenne31 {
    Mersenne31 { value: v }
}

/// The element stored as `v` has `v` as its stored value, and every element is the one
/// stored as its stored value.
pub proof fn lemma_with_raw(v: u32, x: Mersenne31)
    ensures
        with_raw(v).raw() == v,
        with_raw(x.raw()) == x,
{
}

impl core::ops::Add for Mersenne31 {
    type Output = Self;

    fn add(self, rhs: Self) -> (r: Self)
        ensures
            r@ == (self@ + rhs@) % p_nat(),
            r.raw() == add_raw(self.raw(), rhs.raw()),
    {
        proof {
            use_type_invariant(&self);
            use_type_invariant(&rhs);
        }
        // Both values fit in 31 bits, so the sum fits in a u32; it overflows an i32
        // exactly when it reaches 2^31, and then subtracting p brings it back to 31 bits.
        let sum_u32 = self.value + rhs.value;
        let over = sum_u32 >= 0x8000_0000;
        let sum_corr = sum_u32.wrapping_sub(P);
        let res = if over {
            sum_corr
        } else {
            sum_u32
        };
        proof {
            let pi = p_nat() as int;
            lemma_add_mod_noop(self.value as int, rhs.value as int, pi);
            lemma_mod_sub_multiples_vanish(sum_u32 as int, pi);
        }
        Self { value: res }
    }
}

impl AddSpecImpl for Mersenne31 {
    open spec fn obeys_add_spec() -> bool {
        true
    }

    open spec fn add_req(self, rhs: Self) -> bool {
        true
    }

    closed spec fn add_spec(self, rhs: Self) -> Self {
        with_raw(add_raw(self.raw(), rhs.raw()))
    }
}

impl core::ops::Sub for Mersenne31 {
    type Output = Self;

    fn sub(self, rhs: Self) -> (r: Self)
        ensures
            r@ == (self@ - rhs@) % (p_nat() as int),
            r.raw() == sub_raw(self.raw(), rhs.raw()),
    {
        proof {
            use_type_invariant(&self);
            use_type_invariant(&rhs);
        }
        let over = self.value < rhs.value;
        let mut sub = self.value.wrapping_sub(rhs.value);
        // On a borrow we added 2^32 = 2^31 + 1 (mod p): dropping the top bit and
        // subtracting one leaves the difference plus p.
        if over {
            sub -= 1;
        }
        let res = sub & P;
        proof {
            let pi = p_nat() as int;
            let a = self.value as int;
            let b = rhs.value as int;
            lemma_mask31(sub);
            if over {
                assert(sub == a - b + 0x1_0000_0000 - 1);
                assert(res == a - b + pi);
                lemma_mod_add_multiples_vanish(a - b, pi);
            } else {
                assert(res == a - b);
            }
            lemma_sub_mod_noop(a, b, pi);
        }
        Self { value: res }
    }
}

impl SubSpecImpl for Mersenne31 {
    open spec fn obeys_sub_spec() -> bool {
        true
    }

    open spec fn sub_req(self, rhs: Self) -> bool {
        true
    }

    closed spec fn sub_spec(self, rhs: Self) -> Self {
        with_raw(sub_raw(self.raw(), rhs.raw()))
    }
}

impl core::ops::Neg for Mersenne31 {
    type Output = Self;

    fn neg(self) -> (r: Self)
        ensures
            r@ == (-(self@ as int)) % (p_nat() as int),
            r.raw() == P - self.raw(),
    {
        proof {
            use_type_invariant(&self);
        }
        // The value is at most p, so this cannot underflow.
        let res = P - self.value;
        proof {
            let pi = p_nat() as int;
            lemma_mod_add_multiples_vanish(-(self.value as int), pi);
            lemma_sub_mod_noop(0, self.value as int, pi);
            lemma_small_mod(0, p_nat());
        }
        Self { value: res }
    }
}

impl NegSpecImpl for Mersenne31 {
    open spec fn obeys_neg_spec() -> bool {
        true
    }

    open spec fn neg_req(self) -> bool {
        true
    }

    closed spec fn neg_spec(self) -> Self {
        with_raw((P - self.raw()) as u32)
    }
}

impl core::ops::Mul for Mersenne31 {
    type Output = Self;

    fn mul(self, rhs: Self) -> (r: Self)
        ensures
            r@ == (self@ * rhs@) % p_nat(),
            r.raw() == from_u62_raw((self.raw() * rhs.raw()) as u64),
    {
        proof {
            use_type_invariant(&self);
            use_type_invariant(&rhs);
            lemma_mul_upper_bound(
                self.value as int,
                0x7fff_ffff,
                rhs.value as int,
                0x7fff_ffff,
            );
        }
        let prod = (self.value as u64) * (rhs.value as u64);
        proof {
            lemma_mul_mod_noop(self.value as int, rhs.value as int, p_nat() as int);
        }
        from_u62(prod)
    }
}

impl MulSpecImpl for Mersenne31 {
    open spec fn obeys_mul_spec() -> bool {
        true
    }

    open spec fn mul_req(self, rhs: Self) -> bool {
        true
    }

    closed spec fn mul_spec(self, rhs: Self) -> Self {
        with_raw(from_u62_raw((self.raw() * rhs.raw()) as u64))
    }
}

impl core::ops::Div for Mersenne31 {
    type Output = Self;

    /// Multiplication by the inverse of a nonzero divisor.
    fn div(self, rhs: Self) -> (r: Self)
        ensures
            (r@ * rhs@) % p_nat() == self@,
            r@ == (self@ * pow(rhs@ as int, (p_nat() - 2) as nat)) % (p_nat() as int),
            r.raw() == from_u62_raw(
                (self.raw() * (pow(rhs@ as int, (p_nat() - 2) as nat) % (p_nat() as int))) as u64,
            ),
    {
        let inv = Mersenne31::inverse(&rhs);
        let r = self * inv;
        proof {
            let pi = p_nat() as int;
            let e = pow(rhs@ as int, (p_nat() - 2) as nat);
            assert(inv@ == e % pi);
            assert(r@ == (self@ * inv@) % p_nat());
            lemma_mul_mod_noop_right(self@ as int, e, pi);
            assert(r@ == (self@ * e) % pi);
            // (self * inv) * rhs == self * (rhs * inv) == self (mod p)
            lemma_mul_mod_noop_left((self@ * inv@) as int, rhs@ as int, pi);
            lemma_mul_is_associative(self@ as int, inv@ as int, rhs@ as int);
            lemma_mul_is_commutative(inv@ as int, rhs@ as int);
            lemma_mul_mod_noop_right(self@ as int, (rhs@ * inv@) as int, pi);
            lemma_small_mod(self@, p_nat());
        }
        r
    }
}

impl DivSpecImpl for Mersenne31 {
    /// The quotient is pinned down up to its representation, not structurally.
    open spec fn obeys_div_spec() -> bool {
        false
    }

    open spec fn div_req(self, rhs: Self) -> bool {
        rhs@ != 0
    }

    closed spec fn div_spec(self, rhs: Self) -> Self {
        self
    }
}

impl PartialEq for Mersenne31 {
    fn eq(&self, other: &Self) -> (r: bool) {
        self.as_canonical_u32() == other.as_canonical_u32()
    }
}

impl PartialEqSpecImpl for Mersenne31 {
    open spec fn obeys_eq_spec() -> bool {
        true
    }

    open spec fn eq_spec(&self, other: &Self) -> bool {
        self@ == other@
    }
}

impl Eq for Mersenne31 {

}

/// Feeds `v` to the hasher through `Hasher::write_u32`; what that does to the
/// hasher's state is left unsaid.
#[verifier::external_body]
fn hasher_write_u32<H: core::hash::Hasher>(state: &mut H, v: u32) {
    state.write_u32(v)
}

/// Elements hash by their canonical values, so elements that compare equal hash alike.
impl core::hash::Hash for Mersenne31 {
    fn hash<H: core::hash::Hasher>(&self, state: &mut H) {
        hasher_write_u32(state, self.as_canonical_u32());
    }
}

/// Elements are ordered by their canonical values.
impl PartialOrd for Mersenne31 {
    fn partial_cmp(&self, other: &Self) -> (r: Option<core::cmp::Ordering>) {
        let a = self.as_canonical_u32();
        let b = other.as_canonical_u32();
        if a < b {
            Some(core::cmp::Ordering::Less)
        } else if a == b {
            Some(core::cmp::Ordering::Equal)
        } else {
            Some(core::cmp::Ordering::Greater)
        }
    }
}

impl PartialOrdSpecImpl for Mersenne31 {
    open spec fn obeys_partial_cmp_spec() -> bool {
        true
    }

    open spec fn partial_cmp_spec(&self, other: &Self) -> Option<core::cmp::Ordering> {
        if self@ < other@ {
            Some(core::cmp::Ordering::Less)
        } else if self@ == other@ {
            Some(core::cmp::Ordering::Equal)
        } else {
            Some(core::cmp::Ordering::Greater)
        }
    }
}

impl Default for Mersenne31 {
    fn default() -> (r: Self)
        ensures
            r@ == 0,
    {
        Self::zero()
    }
}

impl Field for Mersenne31 {
    open spec fn order() -> nat {
        p_nat()
    }

    open spec fn to_nat(self) -> nat {
        self@
    }

    proof fn lemma_order() {
        lemma_m31_is_prime();
    }

    proof fn lemma_field(self) {
        lemma_m31_is_prime();
    }

    open spec fn spec_order_biguint() -> BigUint {
        biguint_from_u32_result(P)
    }

    fn order_biguint() -> (r: BigUint) {
        Mersenne31::order()
    }

    open spec fn zero_spec() -> Self {
        with_raw(0)
    }

    open spec fn one_spec() -> Self {
        with_raw(1)
    }

    open spec fn two_spec() -> Self {
        with_raw(2)
    }

    open spec fn neg_one_spec() -> Self {
        with_raw((P - 1) as u32)
    }

    open spec fn canonical_spec(n: nat) -> Self {
        with_raw(n as u32)
    }

    open spec fn wrapped_u32_spec(n: u32) -> Self {
        with_raw(from_u62_raw(n as u64))
    }

    open spec fn wrapped_u64_spec(n: u64) -> Self {
        with_raw((n % (P as u64)) as u32)
    }

    open spec fn plus_spec(self, rhs: Self) -> Self {
        with_raw(add_raw(self.raw(), rhs.raw()))
    }

    open spec fn minus_spec(self, rhs: Self) -> Self {
        with_raw(sub_raw(self.raw(), rhs.raw()))
    }

    open spec fn negate_spec(self) -> Self {
        with_raw((P - self.raw()) as u32)
    }

    open spec fn times_spec(self, rhs: Self) -> Self {
        with_raw(from_u62_raw((self.raw() * rhs.raw()) as u64))
    }

    open spec fn halve_spec(self) -> Self {
        with_raw(
            if self.raw() % 2 == 0 {
                self.raw() / 2
            } else {
                (self.raw() / 2 + 0x4000_0000) as u32
            },
        )
    }

    open spec fn inverse_spec(self) -> Self {
        with_raw((pow(self@ as int, (p_nat() - 2) as nat) % (p_nat() as int)) as u32)
    }

    fn zero() -> (r: Self)
        ensures
            r.raw() == 0,
    {
        Mersenne31::zero()
    }

    fn one() -> (r: Self)
        ensures
            r.raw() == 1,
    {
        Mersenne31::one()
    }

    fn two() -> (r: Self)
        ensures
            r.raw() == 2,
    {
        Mersenne31::two()
    }

    fn neg_one() -> (r: Self)
        ensures
            r.raw() == P - 1,
    {
        Mersenne31::neg_one()
    }

    fn from_bool(b: bool) -> (r: Self)
        ensures
            r.raw() == (if b {
                1u32
            } else {
                0u32
            }),
    {
        Mersenne31::from_bool(b)
    }

    fn from_canonical_u32(n: u32) -> (r: Self)
        ensures
            r.raw() == n,
    {
        Mersenne31::new(n)
    }

    fn from_canonical_u64(n: u64) -> (r: Self)
        ensures
            r.raw() == n,
    {
        Mersenne31::new(n as u32)
    }

    fn from_wrapped_u32(n: u32) -> (r: Self)
        ensures
            r.raw() == from_u62_raw(n as u64),
    {
        <Mersenne31 as QuotientMap<u32>>::from_int(n)
    }

    fn from_wrapped_u64(n: u64) -> (r: Self)
        ensures
            r.raw() as int == (n as int) % (P as int),
    {
        <Mersenne31 as QuotientMap<u64>>::from_int(n)
    }

    fn plus(self, rhs: Self) -> (r: Self)
        ensures
            r.raw() == add_raw(self.raw(), rhs.raw()),
    {
        self + rhs
    }

    fn minus(self, rhs: Self) -> (r: Self)
        ensures
            r.raw() == sub_raw(self.raw(), rhs.raw()),
    {
        self - rhs
    }

    fn negate(self) -> (r: Self)
        ensures
            r.raw() == P - self.raw(),
    {
        core::ops::Neg::neg(self)
    }

    fn times(self, rhs: Self) -> (r: Self)
        ensures
            r.raw() == from_u62_raw((self.raw() * rhs.raw()) as u64),
    {
        self * rhs
    }

    fn square(self) -> (r: Self)
        ensures
            r.raw() == from_u62_raw((self.raw() * self.raw()) as u64),
    {
        Mersenne31::square(&self)
    }

    fn double(self) -> (r: Self)
        ensures
            r.raw() == add_raw(self.raw(), self.raw()),
    {
        Mersenne31::double(&self)
    }

    fn halve(self) -> (r: Self)
        ensures
            r.raw() as int == (if self.raw() % 2 == 0 {
                (self.raw() / 2) as int
            } else {
                self.raw() / 2 + 0x4000_0000
            }),
    {
        Mersenne31::halve(&self)
    }

    fn is_zero(self) -> (b: bool) {
        Mersenne31::is_zero(&self)
    }

    fn is_one(self) -> (b: bool) {
        self.as_canonical_u32() == 1
    }

    open spec fn display(self) -> Seq<char> {
        decimal(self.raw() as nat)
    }

    fn to_string(self) -> (s: String) {
        Mersenne31::to_string(&self)
    }

    fn try_inverse(self) -> (r: Option<Self>) {
        Mersenne31::try_inverse(&self)
    }

    fn inverse(self) -> (r: Self) {
        Mersenne31::inverse(&self)
    }
}

impl QuotientMap<u32> for Mersenne31 {
    open spec fn int_value(n: u32) -> int {
        n as int
    }

    /// `[0, 2^31 - 1]`: every 31-bit input.
    open spec fn checked_range(n: u32) -> bool {
        n <= P
    }

    /// `[0, 2^31 - 1]`: every 31-bit input.
    open spec fn unchecked_range(n: u32) -> bool {
        n <= P
    }

    /// Clears the top bit and adds it back in reduced form (`2^31 = 1`).
    fn from_int(n: u32) -> (r: Self)
        ensures
            r.raw() == from_u62_raw(n as u64),
    {
        let msb = n & 0x8000_0000;
        let msb_reduced = msb >> 31;
        proof {
            assert(msb == 0 || msb == 0x8000_0000) by (bit_vector)
                requires
                    msb == n & 0x8000_0000,
            ;
            assert(msb >> 31 == msb / 0x8000_0000) by (bit_vector);
            assert(n ^ msb == n - msb) by (bit_vector)
                requires
                    msb == n & 0x8000_0000,
            ;
            assert(n ^ msb < 0x8000_0000) by (bit_vector)
                requires
                    msb == n & 0x8000_0000,
            ;
            if msb != 0 {
                lemma_fold_high_bits(n as int, 1, (n ^ msb) as int);
            }
            lemma_add_mod_noop((n ^ msb) as int, msb_reduced as int, p_nat() as int);
            assert(n ^ msb == n % 0x8000_0000) by (bit_vector)
                requires
                    msb == n & 0x8000_0000,
            ;
            assert(msb >> 31 == n / 0x8000_0000) by (bit_vector)
                requires
                    msb == n & 0x8000_0000,
            ;
        }
        Self::new(n ^ msb) + Self::new(msb_reduced)
    }

    fn from_canonical_checked(n: u32) -> (r: Option<Self>)
        ensures
            r matches Some(x) ==> x.raw() == n,
    {
        if n <= P {
            Some(Self::new(n))
        } else {
            None
        }
    }

    fn from_canonical_unchecked(n: u32) -> (r: Self)
        ensures
            r.raw() == n,
    {
        Self::new(n)
    }
}

impl QuotientMap<u64> for Mersenne31 {
    open spec fn int_value(n: u64) -> int {
        n as int
    }

    open spec fn checked_range(n: u64) -> bool {
        n < P
    }

    open spec fn unchecked_range(n: u64) -> bool {
        n <= P
    }

    /// A plain modular reduction.
    fn from_int(n: u64) -> (r: Self)
        ensures
            r.raw() as int == (n as int) % (P as int),
    {
        let int_canonical = n % (P as u64);
        proof {
            lemma_mod_twice(n as int, p_nat() as int);
        }
        Self::new(int_canonical as u32)
    }

    fn from_canonical_checked(n: u64) -> (r: Option<Self>)
        ensures
            r matches Some(x) ==> x.raw() == n,
    {
        if n < P as u64 {
            proof {
                lemma_small_mod(n as nat, p_nat());
            }
            Some(Self::new(n as u32))
        } else {
            None
        }
    }

    fn from_canonical_unchecked(n: u64) -> (r: Self)
        ensures
            r.raw() == n,
    {
        Self::new(n as u32)
    }
}

impl core::ops::AddAssign for Mersenne31 {
    fn add_assign(&mut self, rhs: Self)
        ensures
            final(self)@ == (old(self)@ + rhs@) % p_nat(),
            final(self).raw() == add_raw(old(self).raw(), rhs.raw()),
    {
        *self = *self + rhs;
    }
}

impl core::ops::SubAssign for Mersenne31 {
    fn sub_assign(&mut self, rhs: Self)
        ensures
            final(self)@ == (old(self)@ - rhs@) % (p_nat() as int),
            final(self).raw() == sub_raw(old(self).raw(), rhs.raw()),
    {
        *self = *self - rhs;
    }
}

impl core::ops::MulAssign for Mersenne31 {
    fn mul_assign(&mut self, rhs: Self)
        ensures
            final(self)@ == (old(self)@ * rhs@) % p_nat(),
            final(self).raw() == from_u62_raw((old(self).raw() * rhs.raw()) as u64),
    {
        *self = *self * rhs;
    }
}

/// The sum of the canonical values of a sequence of elements.
pub open spec fn sum_of(s: Seq<Mersenne31>) -> nat
    decreases s.len(),
{
    if s.len() == 0 {
        0
    } else {
        sum_of(s.drop_last()) + s.last()@
    }
}

/// The product of the canonical values of a sequence of elements.
pub open spec fn product_of(s: Seq<Mersenne31>) -> nat
    decreases s.len(),
{
    if s.len() == 0 {
        1
    } else {
        product_of(s.drop_last()) * s.last()@
    }
}

/// The element that `product` returns: one for no elements, else the first element
/// multiplied by each of the others in turn.
pub open spec fn product_stored(s: Seq<Mersenne31>) -> Mersenne31
    decreases s.len(),
{
    if s.len() == 0 {
        Mersenne31::one_spec()
    } else if s.len() == 1 {
        s[0]
    } else {
        product_stored(s.drop_last()).times_spec(s.last())
    }
}

/// The sum of the stored representations of a sequence of elements.
pub open spec fn raw_sum(s: Seq<Mersenne31>) -> nat
    decreases s.len(),
{
    if s.len() == 0 {
        0
    } else {
        raw_sum(s.drop_last()) + (s.last().raw() as nat)
    }
}

proof fn lemma_raw_sum_cong(s: Seq<Mersenne31>)
    ensures
        raw_sum(s) % p_nat() == sum_of(s) % p_nat(),
    decreases s.len(),
{
    if s.len() > 0 {
        let pi = p_nat() as int;
        lemma_raw_sum_cong(s.drop_last());
        lemma_add_mod_noop(raw_sum(s.drop_last()) as int, s.last().raw() as int, pi);
        lemma_add_mod_noop(sum_of(s.drop_last()) as int, s.last()@ as int, pi);
        lemma_mod_twice(s.last().raw() as int, pi);
    }
}

impl Mersenne31 {
    /// The sum of a slice of fewer than `2^31` elements: the stored values are
    /// added as `u64`, which cannot overflow, and reduced once at the end.
    pub fn sum(values: &[Mersenne31]) -> (r: Mersenne31)
        requires
            values.len() < 0x8000_0000,
        ensures
            r@ == sum_of(values@) % p_nat(),
            r.raw() == from_u62_raw(raw_sum(values@) as u64),
    {
        let mut acc: u64 = 0;
        let mut i: usize = 0;
        while i < values.len()
            invariant
                i <= values.len(),
                values.len() < 0x8000_0000,
                acc == raw_sum(values@.take(i as int)),
                acc <= i * 0x7fff_ffff,
            decreases values.len() - i,
        {
            let x = values[i];
            proof {
                use_type_invariant(&x);
                assert(values@.take(i + 1).drop_last() =~= values@.take(i as int));
            }
            acc = acc + x.value as u64;
            i += 1;
        }
        proof {
            assert(values@.take(i as int) =~= values@);
            lemma_mul_upper_bound(i as int, 0x8000_0000, 0x7fff_ffff, 0x7fff_ffff);
            lemma_raw_sum_cong(values@);
        }
        from_u62(acc)
    }

    /// The product of a slice; one for an empty slice.
    pub fn product(values: &[Mersenne31]) -> (r: Mersenne31)
        ensures
            r@ == product_of(values@) % p_nat(),
            r == product_stored(values@),
    {
        if values.len() == 0 {
            let one = Mersenne31::one();
            proof {
                lemma_small_mod(1, p_nat());
                lemma_with_raw(1, one);
            }
            return one;
        }
        let mut acc = values[0];
        proof {
            assert(values@.take(1).drop_last() =~= values@.take(0));
            assert(product_of(values@.take(0)) == 1);
            assert(values@.take(1).last() == acc);
            assert(product_of(values@.take(1)) == 1 * acc@);
            lemma_small_mod(acc@, p_nat());
        }
        let mut i: usize = 1;
        while i < values.len()
            invariant
                1 <= i <= values.len(),
                acc@ == product_of(values@.take(i as int)) % p_nat(),
                acc == product_stored(values@.take(i as int)),
            decreases values.len() - i,
        {
            let x = values[i];
            proof {
                assert(values@.take(i + 1).drop_last() =~= values@.take(i as int));
                lemma_mul_mod_noop_left(
                    product_of(values@.take(i as int)) as int,
                    x@ as int,
                    p_nat() as int,
                );
            }
            acc = acc * x;
            proof {
                lemma_with_raw(acc.raw(), acc);
            }
            i += 1;
        }
        proof {
            assert(values@.take(i as int) =~= values@);
        }
        acc
    }

    /// The candidate for a uniformly random element drawn from 32 random bits:
    /// the top 31 bits, rejected when they equal `p`.
    pub fn from_sampled_u32(next: u32) -> (r: Option<Self>)
        ensures
            r is Some <==> (next >> 1) != P,
            r matches Some(x) ==> x.raw() == next >> 1 && x@ == next >> 1,
    {
        let next_u31 = next >> 1;
        proof {
            assert(next >> 1 < 0x8000_0000) by (bit_vector);
        }
        let is_canonical = next_u31 != P;
        if is_canonical {
            proof {
                lemma_small_mod(next_u31 as nat, p_nat());
            }
            Some(Mersenne31::new(next_u31))
        } else {
            None
        }
    }
}

/// Converts an array of `u32` into an array of field elements, reducing each
/// value modulo `p`.
pub fn to_mersenne31_array<const N: usize>(input: [u32; N]) -> (r: [Mersenne31; N])
    ensures
        forall|i: int| 0 <= i < N ==> (#[trigger] r@[i]).raw() == input@[i] % P,
        forall|i: int| 0 <= i < N ==> (#[trigger] r@[i])@ == (input@[i] as nat) % p_nat(),
{
    let mut output = [Mersenne31 { value: 0 }; N];
    let mut i: usize = 0;
    while i < N
        invariant
            i <= N,
            forall|j: int| 0 <= j < i ==> (#[trigger] output@[j]).raw() == input@[j] % P,
        decreases N - i,
    {
        output[i] = Mersenne31 { value: input[i] % P };
        i += 1;
    }
    proof {
        assert forall|j: int| 0 <= j < N implies (#[trigger] output@[j])@ == (input@[j] as nat) % p_nat() by {
            lemma_mod_twice(input@[j] as int, p_nat() as int);
        }
    }
    output
}

/// Every `u8` is canonical once widened to `u32`.
impl QuotientMap<u8> for Mersenne31 {
    open spec fn int_value(n: u8) -> int {
        n as int
    }

    open spec fn checked_range(n: u8) -> bool {
        true
    }

    open spec fn unchecked_range(n: u8) -> bool {
        true
    }

    fn from_int(n: u8) -> (r: Self)
        ensures
            r.raw() == n,
    {
        <Self as QuotientMap<u32>>::from_canonical_unchecked(n as u32)
    }

    fn from_canonical_checked(n: u8) -> (r: Option<Self>)
        ensures
            r matches Some(x) ==> x.raw() == n,
    {
        Some(<Self as QuotientMap<u8>>::from_int(n))
    }

    fn from_canonical_unchecked(n: u8) -> (r: Self)
        ensures
            r.raw() == n,
    {
        <Self as QuotientMap<u8>>::from_int(n)
    }
}

/// Every `u16` is canonical once widened to `u32`.
impl QuotientMap<u16> for Mersenne31 {
    open spec fn int_value(n: u16) -> int {
        n as int
    }

    open spec fn checked_range(n: u16) -> bool {
        true
    }

    open spec fn unchecked_range(n: u16) -> bool {
        true
    }

    fn from_int(n: u16) -> (r: Self)
        ensures
            r.raw() == n,
    {
        <Self as QuotientMap<u32>>::from_canonical_unchecked(n as u32)
    }

    fn from_canonical_checked(n: u16) -> (r: Option<Self>)
        ensures
            r matches Some(x) ==> x.raw() == n,
    {
        Some(<Self as QuotientMap<u16>>::from_int(n))
    }

    fn from_canonical_unchecked(n: u16) -> (r: Self)
        ensures
            r.raw() == n,
    {
        <Self as QuotientMap<u16>>::from_int(n)
    }
}

/// Every `i8` is canonical once widened to `i32`.
impl QuotientMap<i8> for Mersenne31 {
    open spec fn int_value(n: i8) -> int {
        n as int
    }

    open spec fn checked_range(n: i8) -> bool {
        true
    }

    open spec fn unchecked_range(n: i8) -> bool {
        true
    }

    fn from_int(n: i8) -> (r: Self)
        ensures
            r.raw() == signed_raw(n as int),
    {
        <Self as QuotientMap<i32>>::from_canonical_unchecked(n as i32)
    }

    fn from_canonical_checked(n: i8) -> (r: Option<Self>)
        ensures
            r matches Some(x) ==> x.raw() == signed_raw(n as int),
    {
        Some(<Self as QuotientMap<i8>>::from_int(n))
    }

    fn from_canonical_unchecked(n: i8) -> (r: Self)
        ensures
            r.raw() == signed_raw(n as int),
    {
        <Self as QuotientMap<i8>>::from_int(n)
    }
}

/// Every `i16` is canonical once widened to `i32`.
impl QuotientMap<i16> for Mersenne31 {
    open spec fn int_value(n: i16) -> int {
        n as int
    }

    open spec fn checked_range(n: i16) -> bool {
        true
    }

    open spec fn unchecked_range(n: i16) -> bool {
        true
    }

    fn from_int(n: i16) -> (r: Self)
        ensures
            r.raw() == signed_raw(n as int),
    {
        <Self as QuotientMap<i32>>::from_canonical_unchecked(n as i32)
    }

    fn from_canonical_checked(n: i16) -> (r: Option<Self>)
        ensures
            r matches Some(x) ==> x.raw() == signed_raw(n as int),
    {
        Some(<Self as QuotientMap<i16>>::from_int(n))
    }

    fn from_canonical_unchecked(n: i16) -> (r: Self)
        ensures
            r.raw() == signed_raw(n as int),
    {
        <Self as QuotientMap<i16>>::from_int(n)
    }
}

impl QuotientMap<i32> for Mersenne31 {
    open spec fn int_value(n: i32) -> int {
        n as int
    }

    /// `[-2^30, 2^30]`.
    open spec fn checked_range(n: i32) -> bool {
        -0x4000_0000 <= n <= 0x4000_0000
    }

    /// `[-(2^31 - 1), 2^31 - 1]`.
    open spec fn unchecked_range(n: i32) -> bool {
        n > i32::MIN
    }

    fn from_int(n: i32) -> (r: Self)
        ensures
            r.raw() == (if n == i32::MIN {
                P - 1
            } else {
                signed_raw(n as int)
            }),
    {
        proof {
            let pi = p_nat() as int;
            lemma_mod_add_multiples_vanish(n as int, pi);
        }
        if n >= 0 {
            Self::new(n as u32)
        } else if n > i32::MIN {
            Self::new(P.wrapping_add_signed(n))
        } else {
            // The only value left is -2^31, which is -1 modulo p.
            Self::neg_one()
        }
    }

    fn from_canonical_checked(n: i32) -> (r: Option<Self>)
        ensures
            r matches Some(x) ==> x.raw() == signed_raw(n as int),
    {
        proof {
            lemma_mod_add_multiples_vanish(n as int, p_nat() as int);
        }
        match n {
            0..=0x4000_0000 => Some(Self::new(n as u32)),
            -0x4000_0000..0 => Some(Self::new(P.wrapping_add_signed(n))),
            _ => None,
        }
    }

    fn from_canonical_unchecked(n: i32) -> (r: Self)
        ensures
            r.raw() == signed_raw(n as int),
    {
        proof {
            lemma_mod_add_multiples_vanish(n as int, p_nat() as int);
        }
        if n >= 0 {
            Self::new(n as u32)
        } else {
            Self::new(P.wrapping_add_signed(n))
        }
    }
}

/// A plain modular reduction.
impl QuotientMap<u128> for Mersenne31 {
    open spec fn int_value(n: u128) -> int {
        n as int
    }

    open spec fn checked_range(n: u128) -> bool {
        n < P
    }

    open spec fn unchecked_range(n: u128) -> bool {
        n <= P
    }

    fn from_int(n: u128) -> (r: Self)
        ensures
            r.raw() as int == (n as int) % (P as int),
    {
        let int_canonical = n % (P as u128);
        proof {
            lemma_mod_twice(n as int, p_nat() as int);
        }
        Self::new(int_canonical as u32)
    }

    fn from_canonical_checked(n: u128) -> (r: Option<Self>)
        ensures
            r matches Some(x) ==> x.raw() == n,
    {
        if n < P as u128 {
            proof {
                lemma_small_mod(n as nat, p_nat());
            }
            Some(Self::new(n as u32))
        } else {
            None
        }
    }

    fn from_canonical_unchecked(n: u128) -> (r: Self)
        ensures
            r.raw() == n,
    {
        Self::new(n as u32)
    }
}

/// A plain modular reduction.
impl QuotientMap<usize> for Mersenne31 {
    open spec fn int_value(n: usize) -> int {
        n as int
    }

    open spec fn checked_range(n: usize) -> bool {
        n < P
    }

    open spec fn unchecked_range(n: usize) -> bool {
        n <= P
    }

    fn from_int(n: usize) -> (r: Self)
        ensures
            r.raw() as int == (n as int) % (P as int),
    {
        let int_canonical = n % (P as usize);
        proof {
            lemma_mod_twice(n as int, p_nat() as int);
        }
        Self::new(int_canonical as u32)
    }

    fn from_canonical_checked(n: usize) -> (r: Option<Self>)
        ensures
            r matches Some(x) ==> x.raw() == n,
    {
        if n < P as usize {
            proof {
                lemma_small_mod(n as nat, p_nat());
            }
            Some(Self::new(n as u32))
        } else {
            None
        }
    }

    fn from_canonical_unchecked(n: usize) -> (r: Self)
        ensures
            r.raw() == n,
    {
        Self::new(n as u32)
    }
}

/// Reduce to `(-p, p)` with the remainder, then correct the sign.
impl QuotientMap<i64> for Mersenne31 {
    open spec fn int_value(n: i64) -> int {
        n as int
    }

    /// `[-2^30, 2^30]`.
    open spec fn checked_range(n: i64) -> bool {
        -0x4000_0000 <= n <= 0x4000_0000
    }

    /// `[-(2^31 - 1), 2^31 - 1]`.
    open spec fn unchecked_range(n: i64) -> bool {
        -0x7fff_ffff <= n <= 0x7fff_ffff
    }

    fn from_int(n: i64) -> (r: Self)
        ensures
            r.raw() == r@,
    {
        let int_i32 = (n % (P as i64)) as i32;
        proof {
            lemma_signed_rem_cong(n as int, (n % (P as i64)) as int);
        }
        <Self as QuotientMap<i32>>::from_canonical_unchecked(int_i32)
    }

    fn from_canonical_checked(n: i64) -> (r: Option<Self>)
        ensures
            r matches Some(x) ==> x.raw() == signed_raw(n as int),
    {
        proof {
            lemma_mod_add_multiples_vanish(n as int, p_nat() as int);
        }
        match n {
            0..=0x4000_0000 => Some(Self::new(n as u32)),
            -0x4000_0000..0 => Some(Self::new(P.wrapping_add_signed(n as i32))),
            _ => None,
        }
    }

    fn from_canonical_unchecked(n: i64) -> (r: Self)
        ensures
            r.raw() == signed_raw(n as int),
    {
        <Self as QuotientMap<i32>>::from_canonical_unchecked(n as i32)
    }
}

/// Reduce to `(-p, p)` with the remainder, then correct the sign.
impl QuotientMap<i128> for Mersenne31 {
    open spec fn int_value(n: i128) -> int {
        n as int
    }

    /// `[-2^30, 2^30]`.
    open spec fn checked_range(n: i128) -> bool {
        -0x4000_0000 <= n <= 0x4000_0000
    }

    /// `[-(2^31 - 1), 2^31 - 1]`.
    open spec fn unchecked_range(n: i128) -> bool {
        -0x7fff_ffff <= n <= 0x7fff_ffff
    }

    fn from_int(n: i128) -> (r: Self)
        ensures
            r.raw() == r@,
    {
        let int_i32 = (n % (P as i128)) as i32;
        proof {
            lemma_signed_rem_cong(n as int, (n % (P as i128)) as int);
        }
        <Self as QuotientMap<i32>>::from_canonical_unchecked(int_i32)
    }

    fn from_canonical_checked(n: i128) -> (r: Option<Self>)
        ensures
            r matches Some(x) ==> x.raw() == signed_raw(n as int),
    {
        proof {
            lemma_mod_add_multiples_vanish(n as int, p_nat() as int);
        }
        match n {
            0..=0x4000_0000 => Some(Self::new(n as u32)),
            -0x4000_0000..0 => Some(Self::new(P.wrapping_add_signed(n as i32))),
            _ => None,
        }
    }

    fn from_canonical_unchecked(n: i128) -> (r: Self)
        ensures
            r.raw() == signed_raw(n as int),
    {
        <Self as QuotientMap<i32>>::from_canonical_unchecked(n as i32)
    }
}

/// Reduce to `(-p, p)` with the remainder, then correct the sign.
impl QuotientMap<isize> for Mersenne31 {
    open spec fn int_value(n: isize) -> int {
        n as int
    }

    /// `[-2^30, 2^30]`.
    open spec fn checked_range(n: isize) -> bool {
        -0x4000_0000 <= n <= 0x4000_0000
    }

    /// `[-(2^31 - 1), 2^31 - 1]`.
    open spec fn unchecked_range(n: isize) -> bool {
        -0x7fff_ffff <= n <= 0x7fff_ffff
    }

    fn from_int(n: isize) -> (r: Self)
        ensures
            r.raw() == r@,
    {
        let int_i32 = (n % (P as isize)) as i32;
        proof {
            lemma_signed_rem_cong(n as int, (n % (P as isize)) as int);
        }
        <Self as QuotientMap<i32>>::from_canonical_unchecked(int_i32)
    }

    fn from_canonical_checked(n: isize) -> (r: Option<Self>)
        ensures
            r matches Some(x) ==> x.raw() == signed_raw(n as int),
    {
        proof {
            lemma_mod_add_multiples_vanish(n as int, p_nat() as int);
        }
        match n {
            0..=0x4000_0000 => Some(Self::new(n as u32)),
            -0x4000_0000..0 => Some(Self::new(P.wrapping_add_signed(n as i32))),
            _ => None,
        }
    }

    fn from_canonical_unchecked(n: isize) -> (r: Self)
        ensures
            r.raw() == signed_raw(n as int),
    {
        <Self as QuotientMap<i32>>::from_canonical_unchecked(n as i32)
    }
}

/// A truncated remainder by `p` lies in `[-p, p)` and is congruent to the dividend.
proof fn lemma_signed_rem_cong(n: int, x: int)
    requires
        x == n % (p_nat() as int) || x == n % (p_nat() as int) - p_nat(),
    ensures
        -(p_nat() as int) <= x < p_nat() as int,
        x % (p_nat() as int) == n % (p_nat() as int),
{
    let pi = p_nat() as int;
    lemma_mod_bound(n, pi);
    lemma_mod_twice(n, pi);
    lemma_mod_sub_multiples_vanish(n % pi, pi);
}

/// The cubic extension `F_p[X] / (X^3 - 5)`.
impl BinomiallyExtendable<3> for Mersenne31 {
    open spec fn spec_w() -> nat {
        5
    }

    open spec fn spec_dth_root() -> nat {
        1513477735
    }

    open spec fn spec_ext_generator() -> Seq<nat> {
        seq![10, 1, 0]
    }

    open spec fn w_elem() -> Self {
        with_raw(5)
    }

    open spec fn dth_root_elem() -> Self {
        with_raw(1513477735)
    }

    open spec fn ext_generator_elems() -> Seq<Self> {
        seq![with_raw(10), with_raw(1), with_raw(0)]
    }

    proof fn lemma_dth_root_order() {
        reveal_with_fuel(pow, 4);
        assert(1513477735int * 1513477735int * 1513477735int % 2147483647 == 1);
    }

    /// `5^((p - 1) / 3)`, by square-and-multiply on the bits of `(p - 1) / 3 = 715827882`.
    proof fn lemma_dth_root_power() {
        let m: int = 2147483647;
        lemma_pow1(5);
        assert(pow(5, 1) % m == 5);
        lemma_pow_mod_step(5, 1, m, 5, false);
        assert(pow(5, 2) % m == 25);
        lemma_pow_mod_step(5, 2, m, 25, true);
        assert(pow(5, 5) % m == 3125);
        lemma_pow_mod_step(5, 5, m, 3125, false);
        assert(pow(5, 10) % m == 9765625);
        lemma_pow_mod_step(5, 10, m, 9765625, true);
        assert(pow(5, 21) % m == 1299288657);
        lemma_pow_mod_step(5, 21, m, 1299288657, false);
        assert(pow(5, 42) % m == 1744668271);
        lemma_pow_mod_step(5, 42, m, 1744668271, true);
        assert(pow(5, 85) % m == 912513323);
        lemma_pow_mod_step(5, 85, m, 912513323, false);
        assert(pow(5, 170) % m == 1788377688);
        lemma_pow_mod_step(5, 170, m, 1788377688, true);
        assert(pow(5, 341) % m == 716322971);
        lemma_pow_mod_step(5, 341, m, 716322971, false);
        assert(pow(5, 682) % m == 776870692);
        lemma_pow_mod_step(5, 682, m, 776870692, true);
        assert(pow(5, 1365) % m == 1138012455);
        lemma_pow_mod_step(5, 1365, m, 1138012455, false);
        assert(pow(5, 2730) % m == 1897987793);
        lemma_pow_mod_step(5, 2730, m, 1897987793, true);
        assert(pow(5, 5461) % m == 2002679100);
        lemma_pow_mod_step(5, 5461, m, 2002679100, false);
        assert(pow(5, 10922) % m == 85052865);
        lemma_pow_mod_step(5, 10922, m, 85052865, true);
        assert(pow(5, 21845) % m == 268720710);
        lemma_pow_mod_step(5, 21845, m, 268720710, false);
        assert(pow(5, 43690) % m == 872833499);
        lemma_pow_mod_step(5, 43690, m, 872833499, true);
        assert(pow(5, 87381) % m == 1813276126);
        lemma_pow_mod_step(5, 87381, m, 1813276126, false);
        assert(pow(5, 174762) % m == 1048271787);
        lemma_pow_mod_step(5, 174762, m, 1048271787, true);
        assert(pow(5, 349525) % m == 1345907598);
        lemma_pow_mod_step(5, 349525, m, 1345907598, false);
        assert(pow(5, 699050) % m == 1495614085);
        lemma_pow_mod_step(5, 699050, m, 1495614085, true);
        assert(pow(5, 1398101) % m == 320046655);
        lemma_pow_mod_step(5, 1398101, m, 320046655, false);
        assert(pow(5, 2796202) % m == 278385238);
        lemma_pow_mod_step(5, 2796202, m, 278385238, true);
        assert(pow(5, 5592405) % m == 1377522625);
        lemma_pow_mod_step(5, 5592405, m, 1377522625, false);
        assert(pow(5, 11184810) % m == 516407462);
        lemma_pow_mod_step(5, 11184810, m, 516407462, true);
        assert(pow(5, 22369621) % m == 205872220);
        lemma_pow_mod_step(5, 22369621, m, 205872220, false);
        assert(pow(5, 44739242) % m == 202860535);
        lemma_pow_mod_step(5, 44739242, m, 202860535, true);
        assert(pow(5, 89478485) % m == 146503795);
        lemma_pow_mod_step(5, 89478485, m, 146503795, false);
        assert(pow(5, 178956970) % m == 1632011593);
        lemma_pow_mod_step(5, 178956970, m, 1632011593, true);
        assert(pow(5, 357913941) % m == 1513477736);
        lemma_pow_mod_step(5, 357913941, m, 1513477736, false);
        assert(pow(5, 715827882) % m == 1513477735);
    }

    proof fn lemma_dth_root_primitive() {
        reveal_with_fuel(pow, 3);
        assert(1513477735int * 1513477735int % 2147483647 == 634005911);
        assert forall|k: nat| 0 < k < 3 implies #[trigger] pow(1513477735int, k) % 2147483647 != 1 by {
            if k == 2 {
                assert(pow(1513477735int, 2) == 1513477735int * 1513477735int);
            }
        }
    }

    /// `X^3 - 5` is irreducible: `5` is no cube modulo `p`, since `5^((p - 1) / 3)` is not one.
    proof fn lemma_inverse_defined(a: Seq<nat>) {
        if exists|k: int| 0 <= k < 3 && #[trigger] a[k] != 0 {
            Self::lemma_dth_root_power();
            lemma_m31_is_prime();
            lemma_not_cube(5, 2147483647, 715827882);
            lemma_cubic_norm_nonzero(a, 5, 2147483647);
        }
    }

    proof fn lemma_degree() {
    }

    fn w() -> (r: Self) {
        Mersenne31::new(5)
    }

    /// `5^((p - 1) / 3)`.
    fn dth_root() -> (r: Self) {
        Mersenne31::new(1513477735)
    }

    fn ext_generator() -> (r: [Self; 3]) {
        let r = [Mersenne31::new(10), Mersenne31::one(), Mersenne31::zero()];
        proof {
            assert(r@.map_values(|x: Self| x.to_nat()) =~= seq![10nat, 1, 0]);
        }
        r
    }
}

/// Fermat's little theorem in `F_p`: every nonzero element raised to `p - 1` is one.
pub proof fn lemma_pow_p_minus_1(x: nat)
    requires
        0 < x < p_nat(),
    ensures
        pow(x as int, (p_nat() - 1) as nat) % (p_nat() as int) == 1,
{
    lemma_m31_is_prime();
    lemma_small_mod(x, p_nat());
    lemma_fermat(x, p_nat());
}

/// Raising to `1717986917` inverts raising to the fifth power:
/// `(x^1717986917)^5 == x` for every element `x`, since `5 * 1717986917 = 4 (p - 1) + 1`.
pub proof fn lemma_fifth_root(x: nat)
    requires
        x < p_nat(),
    ensures
        pow(pow(x as int, 1717986917) % (p_nat() as int), 5) % (p_nat() as int) == x,
{
    let pi = p_nat() as int;
    lemma_pow_mod_noop(pow(x as int, 1717986917), 5, pi);
    lemma_pow_multiplies(x as int, 1717986917, 5);
    assert(1717986917nat * 5 == 4 * 2147483646nat + 1);
    lemma_pow_adds(x as int, 4 * 2147483646nat, 1);
    lemma_pow1(x as int);
    lemma_small_mod(x, p_nat());
    if x == 0 {
        lemma0_pow(1717986917nat * 5);
    } else {
        lemma_pow_multiplies(x as int, 2147483646nat, 4);
        lemma_pow_p_minus_1(x);
        // (x^(p-1))^4 is congruent to 1^4 = 1
        lemma_pow_mod_noop(pow(x as int, 2147483646nat), 4, pi);
        lemma1_pow(4);
        lemma_small_mod(1, p_nat());
        lemma_mul_mod_noop_left(pow(pow(x as int, 2147483646nat), 4), x as int, pi);
        lemma_mul_basics(x as int);
    }
}

/// Addition in `F_p` is associative.
pub proof fn lemma_add_associative(a: nat, b: nat, c: nat)
    ensures
        (((a + b) % p_nat()) + c) % p_nat() == (a + ((b + c) % p_nat())) % p_nat(),
{
    let pi = p_nat() as int;
    lemma_add_mod_noop_right(c as int, (a + b) as int, pi);
    lemma_add_mod_noop_right(a as int, (b + c) as int, pi);
}

/// Multiplication in `F_p` is associative.
pub proof fn lemma_mul_associative(a: nat, b: nat, c: nat)
    ensures
        (((a * b) % p_nat()) * c) % p_nat() == (a * ((b * c) % p_nat())) % p_nat(),
{
    let pi = p_nat() as int;
    lemma_mul_mod_noop_left((a * b) as int, c as int, pi);
    lemma_mul_mod_noop_right(a as int, (b * c) as int, pi);
    lemma_mul_is_associative(a as int, b as int, c as int);
}

/// Multiplication in `F_p` distributes over addition.
pub proof fn lemma_mul_distributes(a: nat, b: nat, c: nat)
    ensures
        (a * ((b + c) % p_nat())) % p_nat() == ((a * b) % p_nat() + (a * c) % p_nat()) % p_nat(),
{
    let pi = p_nat() as int;
    lemma_mul_mod_noop_right(a as int, (b + c) as int, pi);
    lemma_mul_is_distributive_add(a as int, b as int, c as int);
    lemma_add_mod_noop((a * b) as int, (a * c) as int, pi);
}

/// Subtracting is adding the negation: `x - y == x + (-y)`.
pub proof fn lemma_sub_is_add_neg(x: nat, y: nat)
    ensures
        (x - y) % (p_nat() as int) == (x + (-(y as int)) % (p_nat() as int)) % (p_nat() as int),
{
    let pi = p_nat() as int;
    lemma_add_mod_noop(x as int, -(y as int), pi);
    lemma_mod_twice(-(y as int), pi);
    lemma_add_mod_noop(x as int, (-(y as int)) % pi, pi);
    lemma_mod_twice(x as int, pi);
}

/// A negation is an additive inverse: `x + (-x) == 0`.
pub proof fn lemma_add_neg(x: nat)
    ensures
        (x + (-(x as int)) % (p_nat() as int)) % (p_nat() as int) == 0,
{
    lemma_sub_is_add_neg(x, x);
    lemma_small_mod(0, p_nat());
}

/// Dividing by a nonzero `y` and multiplying back by it recovers `x`.
pub proof fn lemma_div_mul(x: nat, y: nat)
    requires
        x < p_nat(),
        0 < y < p_nat(),
    ensures
        (((x * pow(y as int, (p_nat() - 2) as nat)) % (p_nat() as int)) * y) % (p_nat() as int)
            == x,
{
    let pi = p_nat() as int;
    let e = pow(y as int, (p_nat() - 2) as nat);
    lemma_pow_nonneg_m31(y);
    lemma_mod_bound(e, pi);
    lemma_inverse_by_fermat(y, (e % pi) as nat);
    lemma_mul_mod_noop_left(x * e, y as int, pi);
    lemma_mul_is_associative(x as int, e, y as int);
    lemma_mul_is_commutative(e, y as int);
    lemma_mul_mod_noop_right(x as int, y * e, pi);
    lemma_mul_mod_noop_right(y as int, e, pi);
    lemma_small_mod(x, p_nat());
}

proof fn lemma_pow_nonneg_m31(y: nat)
    ensures
        pow(y as int, (p_nat() - 2) as nat) >= 0,
{
    if y > 0 {
        lemma_pow_positive(y as int, (p_nat() - 2) as nat);
    } else {
        lemma0_pow((p_nat() - 2) as nat);
    }
}

/// The prime factors `2, 3, 7, 11, 31, 151, 331` of `p - 1` are prime.
proof fn lemma_small_primes()
    ensures
        is_prime(2),
        is_prime(3),
        is_prime(7),
        is_prime(11),
        is_prime(31),
        is_prime(151),
        is_prime(331),
{
    assert(forall|d: u32| 1 < d < 3 ==> #[trigger] (3u32 % d) != 0) by (bit_vector);
    assert(forall|d: u32| 1 < d < 7 ==> #[trigger] (7u32 % d) != 0) by (bit_vector);
    assert(forall|d: u32| 1 < d < 11 ==> #[trigger] (11u32 % d) != 0) by (bit_vector);
    assert(forall|d: u32| 1 < d < 31 ==> #[trigger] (31u32 % d) != 0) by (bit_vector);
    assert(forall|d: u32| 1 < d < 151 ==> #[trigger] (151u32 % d) != 0) by (bit_vector);
    assert(forall|d: u32| 1 < d < 331 ==> #[trigger] (331u32 % d) != 0) by (bit_vector);
    assert forall|d: int| 1 < d < 3 implies #[trigger] (3int % d) != 0 by {
        assert(3u32 % (d as u32) != 0);
    }
    assert forall|d: int| 1 < d < 7 implies #[trigger] (7int % d) != 0 by {
        assert(7u32 % (d as u32) != 0);
    }
    assert forall|d: int| 1 < d < 11 implies #[trigger] (11int % d) != 0 by {
        assert(11u32 % (d as u32) != 0);
    }
    assert forall|d: int| 1 < d < 31 implies #[trigger] (31int % d) != 0 by {
        assert(31u32 % (d as u32) != 0);
    }
    assert forall|d: int| 1 < d < 151 implies #[trigger] (151int % d) != 0 by {
        assert(151u32 % (d as u32) != 0);
    }
    assert forall|d: int| 1 < d < 331 implies #[trigger] (331int % d) != 0 by {
        assert(331u32 % (d as u32) != 0);
    }
}

/// The prime factors of `p - 1 = 2 * 3^2 * 7 * 11 * 31 * 151 * 331` are those seven primes.
proof fn lemma_prime_factors_of_order(q: int)
    requires
        is_prime(q),
        2147483646int % q == 0,
    ensures
        q == 2 || q == 3 || q == 7 || q == 11 || q == 31 || q == 151 || q == 331,
{
    lemma_small_primes();
    assert(2 * 1073741823 == 2147483646int);
    lemma_euclid(q, 2, 1073741823);
    if 2int % q == 0 {
        lemma_factor_of_prime(q, 2);
    } else {
        assert(3 * 357913941 == 1073741823int);
        lemma_euclid(q, 3, 357913941);
        if 3int % q == 0 {
            lemma_factor_of_prime(q, 3);
        } else {
            assert(3 * 119304647 == 357913941int);
            lemma_euclid(q, 3, 119304647);
            if 3int % q == 0 {
                lemma_factor_of_prime(q, 3);
            } else {
                assert(7 * 17043521 == 119304647int);
                lemma_euclid(q, 7, 17043521);
                if 7int % q == 0 {
                    lemma_factor_of_prime(q, 7);
                } else {
                    assert(11 * 1549411 == 17043521int);
                    lemma_euclid(q, 11, 1549411);
                    if 11int % q == 0 {
                        lemma_factor_of_prime(q, 11);
                    } else {
                        assert(31 * 49981 == 1549411int);
                        lemma_euclid(q, 31, 49981);
                        if 31int % q == 0 {
                            lemma_factor_of_prime(q, 31);
                        } else {
                            assert(151 * 331 == 49981int);
                            lemma_euclid(q, 151, 331);
                            if 151int % q == 0 {
                                lemma_factor_of_prime(q, 151);
                            } else {
                                lemma_factor_of_prime(q, 331);
                            }
                        }
                    }
                }
            }
        }
    }
}

/// `7^((p - 1) / q)` is not one for any prime factor `q` of `p - 1 = 2 * 3^2 * 7 * 11 * 31 * 151 * 331`.
proof fn lemma_generator_cofactor_powers()
    ensures
        pow(7, 1073741823) % 2147483647 != 1,
        pow(7, 715827882) % 2147483647 != 1,
        pow(7, 306783378) % 2147483647 != 1,
        pow(7, 195225786) % 2147483647 != 1,
        pow(7, 69273666) % 2147483647 != 1,
        pow(7, 14221746) % 2147483647 != 1,
        pow(7, 6487866) % 2147483647 != 1,
{
    let m: int = 2147483647;
    assert(7int % m == 7);
    // 7^1073741823, for the prime factor 2
    lemma_pow1(7);
    lemma_pow_mod_step(7, 1, m, 7, true);
    assert(pow(7, 3) % m == 343);
    lemma_pow_mod_step(7, 3, m, 343, true);
    assert(pow(7, 7) % m == 823543);
    lemma_pow_mod_step(7, 7, m, 823543, true);
    assert(pow(7, 15) % m == 1622650073);
    lemma_pow_mod_step(7, 15, m, 1622650073, true);
    assert(pow(7, 31) % m == 1143995257);
    lemma_pow_mod_step(7, 31, m, 1143995257, true);
    assert(pow(7, 63) % m == 343201429);
    lemma_pow_mod_step(7, 63, m, 343201429, true);
    assert(pow(7, 127) % m == 992518913);
    lemma_pow_mod_step(7, 127, m, 992518913, true);
    assert(pow(7, 255) % m == 1646035001);
    lemma_pow_mod_step(7, 255, m, 1646035001, true);
    assert(pow(7, 511) % m == 591463338);
    lemma_pow_mod_step(7, 511, m, 591463338, true);
    assert(pow(7, 1023) % m == 782353259);
    lemma_pow_mod_step(7, 1023, m, 782353259, true);
    assert(pow(7, 2047) % m == 1329249609);
    lemma_pow_mod_step(7, 2047, m, 1329249609, true);
    assert(pow(7, 4095) % m == 1887985652);
    lemma_pow_mod_step(7, 4095, m, 1887985652, true);
    assert(pow(7, 8191) % m == 1460376695);
    lemma_pow_mod_step(7, 8191, m, 1460376695, true);
    assert(pow(7, 16383) % m == 1990648651);
    lemma_pow_mod_step(7, 16383, m, 1990648651, true);
    assert(pow(7, 32767) % m == 1734770806);
    lemma_pow_mod_step(7, 32767, m, 1734770806, true);
    assert(pow(7, 65535) % m == 1244035718);
    lemma_pow_mod_step(7, 65535, m, 1244035718, true);
    assert(pow(7, 131071) % m == 765703075);
    lemma_pow_mod_step(7, 131071, m, 765703075, true);
    assert(pow(7, 262143) % m == 1363469869);
    lemma_pow_mod_step(7, 262143, m, 1363469869, true);
    assert(pow(7, 524287) % m == 1597744691);
    lemma_pow_mod_step(7, 524287, m, 1597744691, true);
    assert(pow(7, 1048575) % m == 433311905);
    lemma_pow_mod_step(7, 1048575, m, 433311905, true);
    assert(pow(7, 2097151) % m == 1248782549);
    lemma_pow_mod_step(7, 2097151, m, 1248782549, true);
    assert(pow(7, 4194303) % m == 379819458);
    lemma_pow_mod_step(7, 4194303, m, 379819458, true);
    assert(pow(7, 8388607) % m == 1553672423);
    lemma_pow_mod_step(7, 8388607, m, 1553672423, true);
    assert(pow(7, 16777215) % m == 1892905794);
    lemma_pow_mod_step(7, 16777215, m, 1892905794, true);
    assert(pow(7, 33554431) % m == 1526357038);
    lemma_pow_mod_step(7, 33554431, m, 1526357038, true);
    assert(pow(7, 67108863) % m == 1508215062);
    lemma_pow_mod_step(7, 67108863, m, 1508215062, true);
    assert(pow(7, 134217727) % m == 424903933);
    lemma_pow_mod_step(7, 134217727, m, 424903933, true);
    assert(pow(7, 268435455) % m == 286198620);
    lemma_pow_mod_step(7, 268435455, m, 286198620, true);
    assert(pow(7, 536870911) % m == 1827226863);
    lemma_pow_mod_step(7, 536870911, m, 1827226863, true);
    assert(pow(7, 1073741823) % m == 2147483646);
    // 7^715827882, for the prime factor 3
    lemma_pow1(7);
    lemma_pow_mod_step(7, 1, m, 7, false);
    assert(pow(7, 2) % m == 49);
    lemma_pow_mod_step(7, 2, m, 49, true);
    assert(pow(7, 5) % m == 16807);
    lemma_pow_mod_step(7, 5, m, 16807, false);
    assert(pow(7, 10) % m == 282475249);
    lemma_pow_mod_step(7, 10, m, 282475249, true);
    assert(pow(7, 21) % m == 452154665);
    lemma_pow_mod_step(7, 21, m, 452154665, false);
    assert(pow(7, 42) % m == 567732671);
    lemma_pow_mod_step(7, 42, m, 567732671, true);
    assert(pow(7, 85) % m == 1441282327);
    lemma_pow_mod_step(7, 85, m, 1441282327, false);
    assert(pow(7, 170) % m == 101929267);
    lemma_pow_mod_step(7, 170, m, 101929267, true);
    assert(pow(7, 341) % m == 1363931856);
    lemma_pow_mod_step(7, 341, m, 1363931856, false);
    assert(pow(7, 682) % m == 2144351583);
    lemma_pow_mod_step(7, 682, m, 2144351583, true);
    assert(pow(7, 1365) % m == 837204200);
    lemma_pow_mod_step(7, 1365, m, 837204200, false);
    assert(pow(7, 2730) % m == 702715827);
    lemma_pow_mod_step(7, 2730, m, 702715827, true);
    assert(pow(7, 5461) % m == 394635849);
    lemma_pow_mod_step(7, 5461, m, 394635849, false);
    assert(pow(7, 10922) % m == 57777560);
    lemma_pow_mod_step(7, 10922, m, 57777560, true);
    assert(pow(7, 21845) % m == 2031128932);
    lemma_pow_mod_step(7, 21845, m, 2031128932, false);
    assert(pow(7, 43690) % m == 2039727126);
    lemma_pow_mod_step(7, 43690, m, 2039727126, true);
    assert(pow(7, 87381) % m == 814620268);
    lemma_pow_mod_step(7, 87381, m, 814620268, false);
    assert(pow(7, 174762) % m == 1440264748);
    lemma_pow_mod_step(7, 174762, m, 1440264748, true);
    assert(pow(7, 349525) % m == 651109724);
    lemma_pow_mod_step(7, 349525, m, 651109724, false);
    assert(pow(7, 699050) % m == 1275070073);
    lemma_pow_mod_step(7, 699050, m, 1275070073, true);
    assert(pow(7, 1398101) % m == 621115943);
    lemma_pow_mod_step(7, 1398101, m, 621115943, false);
    assert(pow(7, 2796202) % m == 1350851787);
    lemma_pow_mod_step(7, 2796202, m, 1350851787, true);
    assert(pow(7, 5592405) % m == 1197713631);
    lemma_pow_mod_step(7, 5592405, m, 1197713631, false);
    assert(pow(7, 11184810) % m == 1706053424);
    lemma_pow_mod_step(7, 11184810, m, 1706053424, true);
    assert(pow(7, 22369621) % m == 787934656);
    lemma_pow_mod_step(7, 22369621, m, 787934656, false);
    assert(pow(7, 44739242) % m == 1527277373);
    lemma_pow_mod_step(7, 44739242, m, 1527277373, true);
    assert(pow(7, 89478485) % m == 626042666);
    lemma_pow_mod_step(7, 89478485, m, 626042666, false);
    assert(pow(7, 178956970) % m == 373859930);
    lemma_pow_mod_step(7, 178956970, m, 373859930, true);
    assert(pow(7, 357913941) % m == 1513477736);
    lemma_pow_mod_step(7, 357913941, m, 1513477736, false);
    assert(pow(7, 715827882) % m == 1513477735);
    // 7^306783378, for the prime factor 7
    lemma_pow1(7);
    lemma_pow_mod_step(7, 1, m, 7, false);
    assert(pow(7, 2) % m == 49);
    lemma_pow_mod_step(7, 2, m, 49, false);
    assert(pow(7, 4) % m == 2401);
    lemma_pow_mod_step(7, 4, m, 2401, true);
    assert(pow(7, 9) % m == 40353607);
    lemma_pow_mod_step(7, 9, m, 40353607, false);
    assert(pow(7, 18) % m == 370710466);
    lemma_pow_mod_step(7, 18, m, 370710466, false);
    assert(pow(7, 36) % m == 707192808);
    lemma_pow_mod_step(7, 36, m, 707192808, true);
    assert(pow(7, 73) % m == 1843043289);
    lemma_pow_mod_step(7, 73, m, 1843043289, false);
    assert(pow(7, 146) % m == 1958495418);
    lemma_pow_mod_step(7, 146, m, 1958495418, false);
    assert(pow(7, 292) % m == 2115610783);
    lemma_pow_mod_step(7, 292, m, 2115610783, true);
    assert(pow(7, 585) % m == 343098142);
    lemma_pow_mod_step(7, 585, m, 343098142, false);
    assert(pow(7, 1170) % m == 298918984);
    lemma_pow_mod_step(7, 1170, m, 298918984, false);
    assert(pow(7, 2340) % m == 1429157787);
    lemma_pow_mod_step(7, 2340, m, 1429157787, true);
    assert(pow(7, 4681) % m == 1338456531);
    lemma_pow_mod_step(7, 4681, m, 1338456531, false);
    assert(pow(7, 9362) % m == 1590871391);
    lemma_pow_mod_step(7, 9362, m, 1590871391, false);
    assert(pow(7, 18724) % m == 1917208117);
    lemma_pow_mod_step(7, 18724, m, 1917208117, true);
    assert(pow(7, 37449) % m == 2144369227);
    lemma_pow_mod_step(7, 37449, m, 2144369227, false);
    assert(pow(7, 74898) % m == 1575786548);
    lemma_pow_mod_step(7, 74898, m, 1575786548, false);
    assert(pow(7, 149796) % m == 122244366);
    lemma_pow_mod_step(7, 149796, m, 122244366, true);
    assert(pow(7, 299593) % m == 522534449);
    lemma_pow_mod_step(7, 299593, m, 522534449, false);
    assert(pow(7, 599186) % m == 1859770966);
    lemma_pow_mod_step(7, 599186, m, 1859770966, false);
    assert(pow(7, 1198372) % m == 671250160);
    lemma_pow_mod_step(7, 1198372, m, 671250160, true);
    assert(pow(7, 2396745) % m == 1553575855);
    lemma_pow_mod_step(7, 2396745, m, 1553575855, false);
    assert(pow(7, 4793490) % m == 45899444);
    lemma_pow_mod_step(7, 4793490, m, 45899444, false);
    assert(pow(7, 9586980) % m == 192390844);
    lemma_pow_mod_step(7, 9586980, m, 192390844, true);
    assert(pow(7, 19173961) % m == 718502392);
    lemma_pow_mod_step(7, 19173961, m, 718502392, false);
    assert(pow(7, 38347922) % m == 926975407);
    lemma_pow_mod_step(7, 38347922, m, 926975407, false);
    assert(pow(7, 76695844) % m == 1730732297);
    lemma_pow_mod_step(7, 76695844, m, 1730732297, true);
    assert(pow(7, 153391689) % m == 610312904);
    lemma_pow_mod_step(7, 153391689, m, 610312904, false);
    assert(pow(7, 306783378) % m == 1205362885);
    // 7^195225786, for the prime factor 11
    lemma_pow1(7);
    lemma_pow_mod_step(7, 1, m, 7, false);
    assert(pow(7, 2) % m == 49);
    lemma_pow_mod_step(7, 2, m, 49, true);
    assert(pow(7, 5) % m == 16807);
    lemma_pow_mod_step(7, 5, m, 16807, true);
    assert(pow(7, 11) % m == 1977326743);
    lemma_pow_mod_step(7, 11, m, 1977326743, true);
    assert(pow(7, 23) % m == 680742115);
    lemma_pow_mod_step(7, 23, m, 680742115, false);
    assert(pow(7, 46) % m == 1621510873);
    lemma_pow_mod_step(7, 46, m, 1621510873, true);
    assert(pow(7, 93) % m == 1375415753);
    lemma_pow_mod_step(7, 93, m, 1375415753, false);
    assert(pow(7, 186) % m == 920132265);
    lemma_pow_mod_step(7, 186, m, 920132265, false);
    assert(pow(7, 372) % m == 1668712169);
    lemma_pow_mod_step(7, 372, m, 1668712169, false);
    assert(pow(7, 744) % m == 690914947);
    lemma_pow_mod_step(7, 744, m, 690914947, true);
    assert(pow(7, 1489) % m == 1728637651);
    lemma_pow_mod_step(7, 1489, m, 1728637651, false);
    assert(pow(7, 2978) % m == 562480244);
    lemma_pow_mod_step(7, 2978, m, 562480244, true);
    assert(pow(7, 5957) % m == 1456807490);
    lemma_pow_mod_step(7, 5957, m, 1456807490, true);
    assert(pow(7, 11915) % m == 304813979);
    lemma_pow_mod_step(7, 11915, m, 304813979, true);
    assert(pow(7, 23831) % m == 935838453);
    lemma_pow_mod_step(7, 23831, m, 935838453, false);
    assert(pow(7, 47662) % m == 195895749);
    lemma_pow_mod_step(7, 47662, m, 195895749, true);
    assert(pow(7, 95325) % m == 644964109);
    lemma_pow_mod_step(7, 95325, m, 644964109, false);
    assert(pow(7, 190650) % m == 1951423362);
    lemma_pow_mod_step(7, 190650, m, 1951423362, false);
    assert(pow(7, 381300) % m == 195528275);
    lemma_pow_mod_step(7, 381300, m, 195528275, false);
    assert(pow(7, 762600) % m == 701801792);
    lemma_pow_mod_step(7, 762600, m, 701801792, true);
    assert(pow(7, 1525201) % m == 677522921);
    lemma_pow_mod_step(7, 1525201, m, 677522921, false);
    assert(pow(7, 3050402) % m == 190670353);
    lemma_pow_mod_step(7, 3050402, m, 190670353, true);
    assert(pow(7, 6100805) % m == 2019628993);
    lemma_pow_mod_step(7, 6100805, m, 2019628993, true);
    assert(pow(7, 12201611) % m == 968366044);
    lemma_pow_mod_step(7, 12201611, m, 968366044, true);
    assert(pow(7, 24403223) % m == 595711377);
    lemma_pow_mod_step(7, 24403223, m, 595711377, false);
    assert(pow(7, 48806446) % m == 505815198);
    lemma_pow_mod_step(7, 48806446, m, 505815198, true);
    assert(pow(7, 97612893) % m == 1327797538);
    lemma_pow_mod_step(7, 97612893, m, 1327797538, false);
    assert(pow(7, 195225786) % m == 1969212174);
    // 7^69273666, for the prime factor 31
    lemma_pow1(7);
    lemma_pow_mod_step(7, 1, m, 7, false);
    assert(pow(7, 2) % m == 49);
    lemma_pow_mod_step(7, 2, m, 49, false);
    assert(pow(7, 4) % m == 2401);
    lemma_pow_mod_step(7, 4, m, 2401, false);
    assert(pow(7, 8) % m == 5764801);
    lemma_pow_mod_step(7, 8, m, 5764801, false);
    assert(pow(7, 16) % m == 621132276);
    lemma_pow_mod_step(7, 16, m, 621132276, true);
    assert(pow(7, 33) % m == 221192771);
    lemma_pow_mod_step(7, 33, m, 221192771, false);
    assert(pow(7, 66) % m == 1753973209);
    lemma_pow_mod_step(7, 66, m, 1753973209, false);
    assert(pow(7, 132) % m == 1759884542);
    lemma_pow_mod_step(7, 132, m, 1759884542, false);
    assert(pow(7, 264) % m == 72945244);
    lemma_pow_mod_step(7, 264, m, 72945244, false);
    assert(pow(7, 528) % m == 1558970347);
    lemma_pow_mod_step(7, 528, m, 1558970347, true);
    assert(pow(7, 1057) % m == 556445981);
    lemma_pow_mod_step(7, 1057, m, 556445981, false);
    assert(pow(7, 2114) % m == 447033049);
    lemma_pow_mod_step(7, 2114, m, 447033049, false);
    assert(pow(7, 4228) % m == 98083876);
    lemma_pow_mod_step(7, 4228, m, 98083876, false);
    assert(pow(7, 8456) % m == 1312981133);
    lemma_pow_mod_step(7, 8456, m, 1312981133, false);
    assert(pow(7, 16912) % m == 622492898);
    lemma_pow_mod_step(7, 16912, m, 622492898, true);
    assert(pow(7, 33825) % m == 1393777757);
    lemma_pow_mod_step(7, 33825, m, 1393777757, false);
    assert(pow(7, 67650) % m == 1527519359);
    lemma_pow_mod_step(7, 67650, m, 1527519359, false);
    assert(pow(7, 135300) % m == 1493385978);
    lemma_pow_mod_step(7, 135300, m, 1493385978, false);
    assert(pow(7, 270600) % m == 893936989);
    lemma_pow_mod_step(7, 270600, m, 893936989, false);
    assert(pow(7, 541200) % m == 1151377580);
    lemma_pow_mod_step(7, 541200, m, 1151377580, true);
    assert(pow(7, 1082401) % m == 1148475122);
    lemma_pow_mod_step(7, 1082401, m, 1148475122, false);
    assert(pow(7, 2164802) % m == 494109411);
    lemma_pow_mod_step(7, 2164802, m, 494109411, false);
    assert(pow(7, 4329604) % m == 1336153301);
    lemma_pow_mod_step(7, 4329604, m, 1336153301, false);
    assert(pow(7, 8659208) % m == 1512527173);
    lemma_pow_mod_step(7, 8659208, m, 1512527173, false);
    assert(pow(7, 17318416) % m == 1525432472);
    lemma_pow_mod_step(7, 17318416, m, 1525432472, true);
    assert(pow(7, 34636833) % m == 2146435071);
    lemma_pow_mod_step(7, 34636833, m, 2146435071, false);
    assert(pow(7, 69273666) % m == 512);
    // 7^14221746, for the prime factor 151
    lemma_pow1(7);
    lemma_pow_mod_step(7, 1, m, 7, true);
    assert(pow(7, 3) % m == 343);
    lemma_pow_mod_step(7, 3, m, 343, false);
    assert(pow(7, 6) % m == 117649);
    lemma_pow_mod_step(7, 6, m, 117649, true);
    assert(pow(7, 13) % m == 252246292);
    lemma_pow_mod_step(7, 13, m, 252246292, true);
    assert(pow(7, 27) % m == 226762748);
    lemma_pow_mod_step(7, 27, m, 226762748, false);
    assert(pow(7, 54) % m == 424435441);
    lemma_pow_mod_step(7, 54, m, 424435441, false);
    assert(pow(7, 108) % m == 424534408);
    lemma_pow_mod_step(7, 108, m, 424534408, true);
    assert(pow(7, 217) % m == 881240612);
    lemma_pow_mod_step(7, 217, m, 881240612, false);
    assert(pow(7, 434) % m == 1146211578);
    lemma_pow_mod_step(7, 434, m, 1146211578, false);
    assert(pow(7, 868) % m == 1321894452);
    lemma_pow_mod_step(7, 868, m, 1321894452, false);
    assert(pow(7, 1736) % m == 482929059);
    lemma_pow_mod_step(7, 1736, m, 482929059, false);
    assert(pow(7, 3472) % m == 308494172);
    lemma_pow_mod_step(7, 3472, m, 308494172, false);
    assert(pow(7, 6944) % m == 58367958);
    lemma_pow_mod_step(7, 6944, m, 58367958, false);
    assert(pow(7, 13888) % m == 1071365083);
    lemma_pow_mod_step(7, 13888, m, 1071365083, false);
    assert(pow(7, 27776) % m == 1550283642);
    lemma_pow_mod_step(7, 27776, m, 1550283642, true);
    assert(pow(7, 55553) % m == 80158273);
    lemma_pow_mod_step(7, 55553, m, 80158273, true);
    assert(pow(7, 111107) % m == 296267012);
    lemma_pow_mod_step(7, 111107, m, 296267012, false);
    assert(pow(7, 222214) % m == 345904204);
    lemma_pow_mod_step(7, 222214, m, 345904204, true);
    assert(pow(7, 444429) % m == 590536941);
    lemma_pow_mod_step(7, 444429, m, 590536941, true);
    assert(pow(7, 888859) % m == 1428853371);
    lemma_pow_mod_step(7, 888859, m, 1428853371, false);
    assert(pow(7, 1777718) % m == 1255612365);
    lemma_pow_mod_step(7, 1777718, m, 1255612365, false);
    assert(pow(7, 3555436) % m == 504066171);
    lemma_pow_mod_step(7, 3555436, m, 504066171, true);
    assert(pow(7, 7110873) % m == 21925355);
    lemma_pow_mod_step(7, 7110873, m, 21925355, false);
    assert(pow(7, 14221746) % m == 535044134);
    // 7^6487866, for the prime factor 331
    lemma_pow1(7);
    lemma_pow_mod_step(7, 1, m, 7, true);
    assert(pow(7, 3) % m == 343);
    lemma_pow_mod_step(7, 3, m, 343, false);
    assert(pow(7, 6) % m == 117649);
    lemma_pow_mod_step(7, 6, m, 117649, false);
    assert(pow(7, 12) % m == 956385319);
    lemma_pow_mod_step(7, 12, m, 956385319, false);
    assert(pow(7, 24) % m == 470227511);
    lemma_pow_mod_step(7, 24, m, 470227511, true);
    assert(pow(7, 49) % m == 2127448513);
    lemma_pow_mod_step(7, 49, m, 2127448513, false);
    assert(pow(7, 98) % m == 1098584363);
    lemma_pow_mod_step(7, 98, m, 1098584363, true);
    assert(pow(7, 197) % m == 1204377315);
    lemma_pow_mod_step(7, 197, m, 1204377315, true);
    assert(pow(7, 395) % m == 1635339425);
    lemma_pow_mod_step(7, 395, m, 1635339425, true);
    assert(pow(7, 791) % m == 1199962732);
    lemma_pow_mod_step(7, 791, m, 1199962732, true);
    assert(pow(7, 1583) % m == 269226311);
    lemma_pow_mod_step(7, 1583, m, 269226311, true);
    assert(pow(7, 3167) % m == 215396874);
    lemma_pow_mod_step(7, 3167, m, 215396874, true);
    assert(pow(7, 6335) % m == 415825199);
    lemma_pow_mod_step(7, 6335, m, 415825199, true);
    assert(pow(7, 12671) % m == 1550958642);
    lemma_pow_mod_step(7, 12671, m, 1550958642, true);
    assert(pow(7, 25343) % m == 174368244);
    lemma_pow_mod_step(7, 25343, m, 174368244, false);
    assert(pow(7, 50686) % m == 588020130);
    lemma_pow_mod_step(7, 50686, m, 588020130, false);
    assert(pow(7, 101372) % m == 1989369407);
    lemma_pow_mod_step(7, 101372, m, 1989369407, true);
    assert(pow(7, 202745) % m == 641787029);
    lemma_pow_mod_step(7, 202745, m, 641787029, true);
    assert(pow(7, 405491) % m == 305845094);
    lemma_pow_mod_step(7, 405491, m, 305845094, true);
    assert(pow(7, 810983) % m == 1202562539);
    lemma_pow_mod_step(7, 810983, m, 1202562539, false);
    assert(pow(7, 1621966) % m == 759846237);
    lemma_pow_mod_step(7, 1621966, m, 759846237, true);
    assert(pow(7, 3243933) % m == 164185298);
    lemma_pow_mod_step(7, 3243933, m, 164185298, false);
    assert(pow(7, 6487866) % m == 1761855083);
}

/// The least positive power of `7` that is one, below a given one.
proof fn lemma_least_unit_power(k: nat) -> (m: nat)
    requires
        k > 0,
        pow(7, k) % 2147483647 == 1,
    ensures
        0 < m <= k,
        pow(7, m) % 2147483647 == 1,
        forall|j: nat| 0 < j < m ==> #[trigger] pow(7, j) % 2147483647 != 1,
    decreases k,
{
    if exists|j: nat| 0 < j < k && #[trigger] pow(7, j) % 2147483647 == 1 {
        let j = choose|j: nat| 0 < j < k && #[trigger] pow(7, j) % 2147483647 == 1;
        lemma_least_unit_power(j)
    } else {
        k
    }
}

/// `(7^m)^t` is one when `7^m` is.
proof fn lemma_unit_power_multiple(m: nat, t: nat)
    requires
        pow(7, m) % 2147483647 == 1,
    ensures
        pow(7, m * t) % 2147483647 == 1,
{
    lemma_pow_multiplies(7, m, t);
    lemma_pow_mod_noop(pow(7, m), t, 2147483647);
    lemma1_pow(t);
}

/// `7` generates the multiplicative group: no power `7^k` with `0 < k < p - 1` is one,
/// so `7` has order `p - 1`.
pub proof fn lemma_generator_order(k: nat)
    requires
        0 < k < p_nat() - 1,
    ensures
        pow(7, k) % (p_nat() as int) != 1,
{
    let pi: int = 2147483647;
    let n: nat = 2147483646;
    if pow(7, k) % pi == 1 {
        let m = lemma_least_unit_power(k);
        // m divides p - 1: the remainder r of (p - 1) / m gives 7^r == 1
        lemma_fundamental_div_mod(n as int, m as int);
        let t = n / m;
        let r = n % m;
        lemma_m31_is_prime();
        lemma_fermat(7, 2147483647);
        lemma_pow_adds(7, m * t, r);
        lemma_unit_power_multiple(m, t);
        lemma_mul_mod_noop(pow(7, m * t), pow(7, r), pi);
        lemma_mod_bound(pow(7, r), pi);
        lemma_mod_twice(pow(7, r), pi);
        assert(m * t + r == n);
        assert(pow(7, r) % pi == 1);
        assert(r == 0);
        // (p - 1) / m has a prime factor q, which divides p - 1
        assert(t > 1) by (nonlinear_arith)
            requires
                m * t == n,
                0 < m < n,
        ;
        let q = lemma_prime_factor(t as int);
        lemma_fundamental_div_mod(t as int, q);
        let t2 = t as int / q;
        let ti = t as int;
        assert(n == (m * t2) * q) by (nonlinear_arith)
            requires
                n == m * ti,
                ti == q * t2 + ti % q,
                ti % q == 0,
        ;
        lemma_mod_multiples_basic(m * t2, q);
        lemma_prime_factors_of_order(q);
        // so 7^((p - 1) / q) == (7^m)^t2 == 1, which it is not
        lemma_div_multiples_vanish(m * t2, q);
        lemma_mul_is_commutative(m * t2, q);
        assert(0 <= t2);
        lemma_unit_power_multiple(m, t2 as nat);
        lemma_generator_cofactor_powers();
        assert((n as int) / q == m * t2);
        if q == 2 {
            assert(false);
        } else if q == 3 {
            assert(false);
        } else if q == 7 {
            assert(false);
        } else if q == 11 {
            assert(false);
        } else if q == 31 {
            assert(false);
        } else if q == 151 {
            assert(false);
        } else {
            assert(false);
        }
    }
}

/// No power of `7` is zero modulo `p`, since `7^k 7^(p-1-k) == 7^(p-1) == 1`.
proof fn lemma_generator_power_nonzero(k: nat)
    requires
        k < p_nat() - 1,
    ensures
        pow(7, k) % (p_nat() as int) != 0,
{
    let pi: int = 2147483647;
    lemma_m31_is_prime();
    lemma_fermat(7, 2147483647);
    lemma_pow_adds(7, k, (2147483646 - k) as nat);
    lemma_mul_mod_noop_left(pow(7, k), pow(7, (2147483646 - k) as nat), pi);
    if pow(7, k) % pi == 0 {
        lemma_mul_basics(pow(7, (2147483646 - k) as nat));
        lemma_small_mod(0, 2147483647);
    }
}

/// Distinct exponents below `p - 1` give distinct powers of `7`.
proof fn lemma_generator_powers_distinct(i: nat, j: nat)
    requires
        i < j < p_nat() - 1,
    ensures
        pow(7, i) % (p_nat() as int) != pow(7, j) % (p_nat() as int),
{
    let pi: int = 2147483647;
    let e = (j - i) as nat;
    if pow(7, i) % pi == pow(7, j) % pi {
        let a = pow(7, i);
        let b = pow(7, e);
        lemma_pow_adds(7, i, e);
        assert(pow(7, j) == a * b);
        // a (b - 1) is zero modulo p
        lemma_sub_mod_noop(a * b, a, pi);
        lemma_mul_is_distributive_sub(a, b, 1);
        lemma_mul_basics(a);
        lemma_small_mod(0, 2147483647);
        assert((a * (b - 1)) % pi == 0);
        lemma_m31_is_prime();
        lemma_euclid(pi, a, b - 1);
        lemma_generator_power_nonzero(i);
        lemma_generator_order(e);
        // so b == 1 modulo p, which the order of 7 rules out
        lemma_mod_bound(b, pi);
        lemma_add_mod_noop(b - 1, 1, pi);
        lemma_small_mod(1, 2147483647);
    }
}

/// Every nonzero element of `F_p` is a power of the generator: `x == 7^k` for some `k < p - 1`.
pub proof fn lemma_generator_generates(x: nat)
    requires
        0 < x < p_nat(),
    ensures
        exists|k: nat| k < p_nat() - 1 && #[trigger] pow(7, k) % (p_nat() as int) == x,
{
    let pi: int = 2147483647;
    let f = |k: int| pow(7, k as nat) % pi;
    let dom = set_int_range(0, pi - 1);
    let powers = dom.map(f);
    let units = set_int_range(1, pi);
    lemma_int_range(0, pi - 1);
    lemma_int_range(1, pi);
    assert forall|i: int, j: int|
        dom.contains(i) && dom.contains(j) && #[trigger] f(i) == #[trigger] f(j) implies i == j by {
        if i < j {
            lemma_generator_powers_distinct(i as nat, j as nat);
        } else if j < i {
            lemma_generator_powers_distinct(j as nat, i as nat);
        }
    }
    lemma_map_size(dom, powers, f);
    assert forall|y: int| powers.contains(y) implies units.contains(y) by {
        let k = choose|k: int| dom.contains(k) && y == f(k);
        lemma_generator_power_nonzero(k as nat);
        lemma_mod_bound(pow(7, k as nat), pi);
    }
    lemma_subset_equality(powers, units);
    assert(units.contains(x as int));
    let k = choose|k: int| dom.contains(k) && x == f(k);
    assert(pow(7, k as nat) % pi == x);
}

/// Checked conversion from `u64`, `u128` and `usize` accepts exactly the inputs below
/// `p = 2^31 - 1`, and an accepted input stands for itself.
pub proof fn lemma_checked_conversion_wide_unsigned()
    ensures
        forall|n: u64|
            #[trigger] <Mersenne31 as QuotientMap<u64>>::checked_range(n) <==> n < 0x7fff_ffff,
        forall|n: u128|
            #[trigger] <Mersenne31 as QuotientMap<u128>>::checked_range(n) <==> n < 0x7fff_ffff,
        forall|n: usize|
            #[trigger] <Mersenne31 as QuotientMap<usize>>::checked_range(n) <==> n < 0x7fff_ffff,
        forall|n: u64| #[trigger] <Mersenne31 as QuotientMap<u64>>::int_value(n) == n as int,
        forall|n: u128| #[trigger] <Mersenne31 as QuotientMap<u128>>::int_value(n) == n as int,
        forall|n: usize| #[trigger] <Mersenne31 as QuotientMap<usize>>::int_value(n) == n as int,
{
}

/// Checked conversion from `u32` accepts exactly the 31-bit inputs, `0` to `2^31 - 1`,
/// and an accepted input stands for itself.
pub proof fn lemma_checked_conversion_u32()
    ensures
        forall|n: u32|
            #[trigger] <Mersenne31 as QuotientMap<u32>>::checked_range(n) <==> n <= 0x7fff_ffff,
        forall|n: u32| #[trigger] <Mersenne31 as QuotientMap<u32>>::int_value(n) == n as int,
{
}

/// Every `u8`, `u16`, `i8` and `i16` is canonical: checked conversion accepts all of
/// them, and each stands for itself.
pub proof fn lemma_checked_conversion_small()
    ensures
        forall|n: u8| #[trigger] <Mersenne31 as QuotientMap<u8>>::checked_range(n),
        forall|n: u16| #[trigger] <Mersenne31 as QuotientMap<u16>>::checked_range(n),
        forall|n: i8| #[trigger] <Mersenne31 as QuotientMap<i8>>::checked_range(n),
        forall|n: i16| #[trigger] <Mersenne31 as QuotientMap<i16>>::checked_range(n),
        forall|n: u8| #[trigger] <Mersenne31 as QuotientMap<u8>>::int_value(n) == n as int,
        forall|n: u16| #[trigger] <Mersenne31 as QuotientMap<u16>>::int_value(n) == n as int,
        forall|n: i8| #[trigger] <Mersenne31 as QuotientMap<i8>>::int_value(n) == n as int,
        forall|n: i16| #[trigger] <Mersenne31 as QuotientMap<i16>>::int_value(n) == n as int,
{
}

/// Checked conversion from `i32`, `i64`, `i128` and `isize` accepts exactly the inputs
/// from `-2^30` to `2^30`, negative ones included, and an accepted input stands for
/// itself, so a negative `n` becomes `p + n`.
pub proof fn lemma_checked_conversion_signed()
    ensures
        forall|n: i32|
            #[trigger] <Mersenne31 as QuotientMap<i32>>::checked_range(n) <==> -0x4000_0000 <= n
                <= 0x4000_0000,
        forall|n: i64|
            #[trigger] <Mersenne31 as QuotientMap<i64>>::checked_range(n) <==> -0x4000_0000 <= n
                <= 0x4000_0000,
        forall|n: i128|
            #[trigger] <Mersenne31 as QuotientMap<i128>>::checked_range(n) <==> -0x4000_0000 <= n
                <= 0x4000_0000,
        forall|n: isize|
            #[trigger] <Mersenne31 as QuotientMap<isize>>::checked_range(n) <==> -0x4000_0000 <= n
                <= 0x4000_0000,
        forall|n: i32| #[trigger] <Mersenne31 as QuotientMap<i32>>::int_value(n) == n as int,
        forall|n: i64| #[trigger] <Mersenne31 as QuotientMap<i64>>::int_value(n) == n as int,
        forall|n: i128| #[trigger] <Mersenne31 as QuotientMap<i128>>::int_value(n) == n as int,
        forall|n: isize| #[trigger] <Mersenne31 as QuotientMap<isize>>::int_value(n) == n as int,
{
}

} // verus!
