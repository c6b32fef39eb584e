# mersenne_31

The prime field `F_p` for the Mersenne prime `p = 2^31 - 1`, and binomial
extension fields `F[X] / (X^D - W)` over a prime field, with every operation
specified and proved in Verus.

Layout:

- `src/number_theory.rs`: primality of `2^31 - 1`, Euclid's lemma, the
  binomial theorem and Fermat's little theorem.
- `src/field.rs`: the `Field`, `BinomiallyExtendable` and `QuotientMap`
  traits, stated over canonical values modulo the field's order, and
  congruence lemmas.
- `src/exponentiation.rs`: square-and-multiply and fixed addition chains.
- `src/mersenne_31.rs`: the field `Mersenne31` (31-bit representation in which
  `p` stands for zero), its conversions from every integer type, the order
  `p - 1` of its generator `7`, and its cubic extension constants: `W = 5`,
  which is no cube, and the cube root of unity `5^((p - 1) / 3)`.
- `src/convolution.rs`: finite sums, and the ring `Z[X] / (X^d - w)` computed
  without reduction: associativity, commutativity, distributivity, the
  binomial theorem and, modulo a prime `p`, the freshman's dream
  `(u + v)^p == u^p + v^p` and the Frobenius map as the `p`-th power.
- `src/binomial_extension.rs`: `BinomialExtensionField`, with multiplication
  (closed forms for degrees 2 and 3, schoolbook otherwise), inversion (closed
  forms, or through the Frobenius map and the norm), the Frobenius map, and the
  ring and field laws: every nonzero element is invertible, the Frobenius map is
  `x -> x^p`, and the norm lies in the base field. Besides canonical values, each
  operation states the stored form of every coefficient it returns.
- `src/decimal.rs`, `src/bigint.rs`: decimal text and num-bigint orders.
- `app/lib.rs`: serde, `Display`, ordering and rand sampling for copies of the
  library's types.
