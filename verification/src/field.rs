//! The interface of a prime field, its binomial extensions, and the modular
//! arithmetic in which their contracts are stated.
use vstd::arithmetic::div_mod::*;
use vstd::arithmetic::power::pow;
use vstd::prelude::*;

use num_bigint::BigUint;

use crate::binomial_extension::inverse_defined;
use crate::number_theory::is_prime;

verus! {

/// `x` and `y` are congruent modulo `m`.
pub open spec fn cong(x: int, y: int, m: int) -> bool {
    x % m == y % m
}

pub proof fn lemma_cong_mod(x: int, m: int)
    requires
        m > 0,
    ensures
        cong(x % m, x, m),
{
    lemma_mod_twice(x, m);
}

pub proof fn lemma_cong_add(x: int, y: int, x2: int, y2: int, m: int)
    requires
        m > 0,
        cong(x, x2, m),
        cong(y, y2, m),
    ensures
        cong(x + y, x2 + y2, m),
{
    lemma_add_mod_noop(x, y, m);
    lemma_add_mod_noop(x2, y2, m);
}

pub proof fn lemma_cong_sub(x: int, y: int, x2: int, y2: int, m: int)
    requires
        m > 0,
        cong(x, x2, m),
        cong(y, y2, m),
    ensures
        cong(x - y, x2 - y2, m),
{
    lemma_sub_mod_noop(x, y, m);
    lemma_sub_mod_noop(x2, y2, m);
}

pub proof fn lemma_cong_mul(x: int, y: int, x2: int, y2: int, m: int)
    requires
        m > 0,
        cong(x, x2, m),
        cong(y, y2, m),
    ensures
        cong(x * y, x2 * y2, m),
{
    lemma_mul_mod_noop(x, y, m);
    lemma_mul_mod_noop(x2, y2, m);
}

/// A value below the modulus is its own remainder.
pub proof fn lemma_cong_canonical(x: int, y: int, m: int)
    requires
        m > 0,
        0 <= x < m,
        cong(x, y, m),
    ensures
        x == y % m,
{
    lemma_small_mod(x as nat, m as nat);
}

/// A prime field `F_p`. Each element stands for its canonical value in `[0, p)`.
pub trait Field: Copy + Sized {
    /// The prime order `p` of the field.
    spec fn order() -> nat;

    /// The canonical value of an element, in `[0, p)`.
    spec fn to_nat(self) -> nat;

    proof fn lemma_order()
        ensures
            is_prime(Self::order() as int),
    ;

    proof fn lemma_field(self)
        ensures
            is_prime(Self::order() as int),
            self.to_nat() < Self::order(),
    ;

    /// The order as num-bigint builds it.
    spec fn spec_order_biguint() -> BigUint;

    /// The order of the field, as an arbitrary-precision integer.
    fn order_biguint() -> (r: BigUint)
        ensures
            r == Self::spec_order_biguint(),
    ;

    // The values the operations return, stored form included: each operation is a
    // function of the stored forms of its arguments.

    /// The zero element as `zero` returns it.
    spec fn zero_spec() -> Self;

    /// The one element as `one` returns it.
    spec fn one_spec() -> Self;

    /// The element two as `two` returns it.
    spec fn two_spec() -> Self;

    /// The element `-1` as `neg_one` returns it.
    spec fn neg_one_spec() -> Self;

    /// The element `n`, for `n` below the order, as `from_canonical_u32` and
    /// `from_canonical_u64` return it.
    spec fn canonical_spec(n: nat) -> Self;

    /// The element `n mod p` as `from_wrapped_u32` returns it.
    spec fn wrapped_u32_spec(n: u32) -> Self;

    /// The element `n mod p` as `from_wrapped_u64` returns it.
    spec fn wrapped_u64_spec(n: u64) -> Self;

    /// The sum as `plus` returns it.
    spec fn plus_spec(self, rhs: Self) -> Self;

    /// The difference as `minus` returns it.
    spec fn minus_spec(self, rhs: Self) -> Self;

    /// The negation as `negate` returns it.
    spec fn negate_spec(self) -> Self;

    /// The product as `times` returns it.
    spec fn times_spec(self, rhs: Self) -> Self;

    /// The half as `halve` returns it.
    spec fn halve_spec(self) -> Self;

    /// The inverse of a nonzero element as `inverse` returns it.
    spec fn inverse_spec(self) -> Self;

    fn zero() -> (r: Self)
        ensures
            r.to_nat() == 0,
            r == Self::zero_spec(),
    ;

    fn one() -> (r: Self)
        ensures
            r.to_nat() == 1,
            r == Self::one_spec(),
    ;

    fn two() -> (r: Self)
        ensures
            r.to_nat() == 2nat % Self::order(),
            r == Self::two_spec(),
    ;

    fn neg_one() -> (r: Self)
        ensures
            r.to_nat() == Self::order() - 1,
            r == Self::neg_one_spec(),
    ;

    /// The element `1` for `true` and `0` for `false`.
    fn from_bool(b: bool) -> (r: Self)
        ensures
            r.to_nat() == (if b {
                1nat
            } else {
                0nat
            }),
            r == (if b {
                Self::one_spec()
            } else {
                Self::zero_spec()
            }),
    ;

    /// The element `n`, for `n` below the order.
    fn from_canonical_u32(n: u32) -> (r: Self)
        requires
            n < Self::order(),
        ensures
            r.to_nat() == n,
            r == Self::canonical_spec(n as nat),
    ;

    /// The element `n`, for `n` below the order.
    fn from_canonical_u64(n: u64) -> (r: Self)
        requires
            n < Self::order(),
        ensures
            r.to_nat() == n,
            r == Self::canonical_spec(n as nat),
    ;

    /// The element `n mod p`.
    fn from_wrapped_u32(n: u32) -> (r: Self)
        ensures
            r.to_nat() == (n as nat) % Self::order(),
            r == Self::wrapped_u32_spec(n),
    ;

    /// The element `n mod p`.
    fn from_wrapped_u64(n: u64) -> (r: Self)
        ensures
            r.to_nat() == (n as nat) % Self::order(),
            r == Self::wrapped_u64_spec(n),
    ;

    fn plus(self, rhs: Self) -> (r: Self)
        ensures
            r.to_nat() == (self.to_nat() + rhs.to_nat()) % Self::order(),
            r == self.plus_spec(rhs),
    ;

    fn minus(self, rhs: Self) -> (r: Self)
        ensures
            r.to_nat() == (self.to_nat() - rhs.to_nat()) % (Self::order() as int),
            r == self.minus_spec(rhs),
    ;

    fn negate(self) -> (r: Self)
        ensures
            r.to_nat() == (-self.to_nat()) % (Self::order() as int),
            r == self.negate_spec(),
    ;

    fn times(self, rhs: Self) -> (r: Self)
        ensures
            r.to_nat() == (self.to_nat() * rhs.to_nat()) % Self::order(),
            r == self.times_spec(rhs),
    ;

    fn square(self) -> (r: Self)
        ensures
            r.to_nat() == (self.to_nat() * self.to_nat()) % Self::order(),
            r == self.times_spec(self),
    ;

    fn double(self) -> (r: Self)
        ensures
            r.to_nat() == (2 * self.to_nat()) % Self::order(),
            r == self.plus_spec(self),
    ;

    /// The element whose double is `self`.
    fn halve(self) -> (r: Self)
        ensures
            (2 * r.to_nat()) % Self::order() == self.to_nat(),
            r == self.halve_spec(),
    ;

    fn is_zero(self) -> (b: bool)
        ensures
            b == (self.to_nat() == 0),
    ;

    fn is_one(self) -> (b: bool)
        ensures
            b == (self.to_nat() == 1),
    ;

    /// The text of an element, as its `Display` writes it.
    spec fn display(self) -> Seq<char>;

    /// The text of an element.
    fn to_string(self) -> (s: String)
        ensures
            s@ == self.display(),
    ;

    /// The multiplicative inverse, or `None` for zero.
    fn try_inverse(self) -> (r: Option<Self>)
        ensures
            r is None <==> self.to_nat() == 0,
            r matches Some(x) ==> (self.to_nat() * x.to_nat()) % Self::order() == 1,
            r matches Some(x) ==> x == self.inverse_spec(),
    ;

    /// The multiplicative inverse of a nonzero element.
    fn inverse(self) -> (r: Self)
        requires
            self.to_nat() != 0,
        ensures
            (self.to_nat() * r.to_nat()) % Self::order() == 1,
            r == self.inverse_spec(),
    ;
}

/// A field `F` with a chosen `W` such that `X^D - W` is irreducible over `F`,
/// which defines the extension `F[X] / (X^D - W)`.
pub trait BinomiallyExtendable<const D: usize>: Field {
    spec fn spec_w() -> nat;

    spec fn spec_dth_root() -> nat;

    spec fn spec_ext_generator() -> Seq<nat>;

    /// The constant `W` as `w` returns it.
    spec fn w_elem() -> Self;

    /// The root of unity as `dth_root` returns it.
    spec fn dth_root_elem() -> Self;

    /// The generator's coefficients as `ext_generator` returns them.
    spec fn ext_generator_elems() -> Seq<Self>;

    /// The `D`-th root of unity has order dividing `D`.
    proof fn lemma_dth_root_order()
        ensures
            pow(Self::spec_dth_root() as int, D as nat) % (Self::order() as int) == 1,
    ;

    /// `D` divides `p - 1`, and the `D`-th root of unity is `W^((p - 1) / D)`.
    proof fn lemma_dth_root_power()
        ensures
            (Self::order() - 1) % (D as int) == 0,
            pow(Self::spec_w() as int, ((Self::order() - 1) / (D as int)) as nat) % (
            Self::order() as int) == Self::spec_dth_root(),
    ;

    /// The `D`-th root of unity is primitive: no smaller positive power of it is one.
    proof fn lemma_dth_root_primitive()
        ensures
            forall|k: nat|
                0 < k < D ==> #[trigger] pow(Self::spec_dth_root() as int, k) % (Self::order() as int)
                    != 1,
    ;

    /// `X^D - W` is irreducible over `F`, so every element of the extension is zero or has
    /// a norm that is not zero, and inversion is defined on it.
    proof fn lemma_inverse_defined(a: Seq<nat>)
        requires
            a.len() == D,
            forall|k: int| 0 <= k < D ==> #[trigger] a[k] < Self::order(),
        ensures
            inverse_defined(a, Self::spec_w(), Self::spec_dth_root(), Self::order()),
    ;

    /// The extension has positive degree.
    proof fn lemma_degree()
        ensures
            D >= 1,
    ;

    /// The constant `W`.
    fn w() -> (r: Self)
        ensures
            r.to_nat() == Self::spec_w(),
            r == Self::w_elem(),
    ;

    /// `W^((p - 1) / D)`, a primitive `D`-th root of unity.
    fn dth_root() -> (r: Self)
        ensures
            r.to_nat() == Self::spec_dth_root(),
            r == Self::dth_root_elem(),
    ;

    /// The coefficients of a generator of the multiplicative group of the extension.
    fn ext_generator() -> (r: [Self; D])
        ensures
            r@.map_values(|x: Self| x.to_nat()) == Self::spec_ext_generator(),
            r@ == Self::ext_generator_elems(),
    ;
}

/// The quotient map from an integer type onto a prime field.
pub trait QuotientMap<Int>: Field {
    /// The value of `int` as a mathematical integer.
    spec fn int_value(n: Int) -> int;

    /// The inputs that `from_canonical_checked` accepts.
    spec fn checked_range(n: Int) -> bool;

    /// The inputs that `from_canonical_unchecked` is defined on.
    spec fn unchecked_range(n: Int) -> bool;

    /// The image of `int` in the field: its value modulo `p`.
    fn from_int(n: Int) -> (r: Self)
        ensures
            r.to_nat() == Self::int_value(n) % (Self::order() as int),
    ;

    /// The image of `int`, for the inputs of `checked_range` only.
    fn from_canonical_checked(n: Int) -> (r: Option<Self>)
        ensures
            r is Some <==> Self::checked_range(n),
            r matches Some(x) ==> x.to_nat() == Self::int_value(n) % (Self::order() as int),
    ;

    /// The image of `int`, for an input already within `unchecked_range`.
    fn from_canonical_unchecked(n: Int) -> (r: Self)
        requires
            Self::unchecked_range(n),
        ensures
            r.to_nat() == Self::int_value(n) % (Self::order() as int),
    ;
}

} // verus!
