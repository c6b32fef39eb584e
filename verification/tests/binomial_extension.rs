use mersenne_31::binomial_extension::{cubic_inv, cubic_mul, cubic_square, qudratic_inv};
use mersenne_31::{BinomialExtensionField, Mersenne31};

type F = Mersenne31;
type EF = BinomialExtensionField<Mersenne31, 3>;

const P: u32 = 0x7fff_ffff;

fn ext(a: u32, b: u32, c: u32) -> EF {
    EF::from_base_slice(&[F::new(a), F::new(b), F::new(c)])
}

fn coeffs(x: &EF) -> Vec<u32> {
    x.as_base_slice().iter().map(|c| c.as_canonical_u32()).collect()
}

#[test]
fn ext_add_sub_neg() {
    let a = ext(1, 2, 3);
    let b = ext(4, 5, P - 1);
    assert_eq!(coeffs(&(a + b)), vec![5, 7, 2]);
    assert_eq!(coeffs(&(a - b)), vec![P - 3, P - 3, 4]);
    assert_eq!(coeffs(&(-a)), vec![P - 1, P - 2, P - 3]);
    assert_eq!(a + (-a), EF::zero());
    assert_eq!((a - b) + b, a);
}

#[test]
fn ext_mul_values() {
    let a = ext(1, 2, 3);
    let b = ext(4, 5, 6);
    // (1 + 2X + 3X^2)(4 + 5X + 6X^2) modulo X^3 - 5
    assert_eq!(coeffs(&(a * b)), vec![139, 103, 28]);
    assert_eq!(a * b, b * a);
    assert_eq!(coeffs(&a.square()), vec![61, 49, 10]);
    assert_eq!(a.square(), a * a);
    // X^3 = W = 5
    let x = ext(0, 1, 0);
    assert_eq!(coeffs(&(x * x * x)), vec![5, 0, 0]);
}

#[test]
fn ext_mul_associative_values() {
    let a = ext(1, 2, 3);
    let b = ext(P - 4, 5, 1 << 30);
    let c = ext(7, P - 1, 11);
    assert_eq!((a * b) * c, a * (b * c));
    assert_eq!((b * c) * a, b * (c * a));
}

#[test]
fn ext_base_operations() {
    let a = ext(1, 2, 3);
    assert_eq!(coeffs(&(a + F::new(10))), vec![11, 2, 3]);
    assert_eq!(coeffs(&(a - F::new(2))), vec![P - 1, 2, 3]);
    assert_eq!(coeffs(&(a * F::new(3))), vec![3, 6, 9]);
    let mut b = a;
    b += F::new(1);
    b -= F::new(2);
    b *= F::new(2);
    assert_eq!(coeffs(&b), vec![0, 4, 6]);
    let mut c = a;
    c += a;
    c *= a;
    c -= a;
    assert_eq!(c, (a + a) * a - a);
}

#[test]
fn ext_inverse() {
    let a = ext(1, 2, 3);
    let inv = a.inverse();
    assert_eq!(coeffs(&inv), vec![1279570927, 2027416670, 696388467]);
    assert_eq!(a * inv, EF::one());
    assert_eq!(EF::zero().try_inverse(), None);
    assert_eq!(ext(7, 0, 0).inverse(), ext(7, 0, 0).try_inverse().unwrap());
    assert_eq!(ext(7, 0, 0) * ext(7, 0, 0).inverse(), EF::one());
    let b = ext(4, 5, 6);
    assert_eq!((b / a) * a, b);
    // every nonzero element is invertible, whatever its zero coefficients
    for x in [ext(3, 4, 0), ext(0, 0, 9), ext(0, 1, 0), ext(P - 1, 0, P - 1), ext(5, 0, 0)] {
        assert_eq!(x * x.inverse(), EF::one());
        assert_eq!(x * x.frobenius_inv(), EF::one());
    }
}

#[test]
fn ext_frobenius() {
    let a = ext(1, 2, 3);
    // x -> x^p
    assert_eq!(coeffs(&a.frobenius()), vec![1, 879471823, 1902017733]);
    assert_eq!(coeffs(&a.repeated_frobenius(2)), vec![1, 1268011822, 245465911]);
    assert_eq!(a.repeated_frobenius(0), a);
    assert_eq!(a.repeated_frobenius(3), a);
    assert_eq!(a.repeated_frobenius(7), a.frobenius());
    assert_eq!(a.frobenius().frobenius().frobenius(), a);
    // the Frobenius inversion gives the same inverse as the cubic formula
    assert_eq!(a.frobenius_inv(), a.inverse());
    assert_eq!(a * a.frobenius_inv(), EF::one());
}

fn power(x: EF, mut e: u64) -> EF {
    let mut base = x;
    let mut acc = EF::one();
    while e > 0 {
        if e & 1 == 1 {
            acc = acc * base;
        }
        base = base * base;
        e >>= 1;
    }
    acc
}

#[test]
fn ext_frobenius_is_pth_power() {
    let p = P as u64;
    for a in [ext(1, 2, 3), ext(P - 1, 7, 1 << 29), ext(0, 0, 9)] {
        assert_eq!(a.frobenius(), power(a, p));
        assert_eq!(a.repeated_frobenius(2), power(power(a, p), p));
    }
}

#[test]
fn ext_frobenius_norm_is_base() {
    // a^(1 + p + p^2) lies in the base field
    let a = ext(3, 1, 4);
    let n = a * a.frobenius() * a.repeated_frobenius(2);
    let c = coeffs(&n);
    assert_eq!(c[1], 0);
    assert_eq!(c[2], 0);
    assert_eq!(a * (a.frobenius() * a.repeated_frobenius(2) * F::new(c[0]).inverse()), EF::one());
}

#[test]
fn ext_constructors() {
    assert_eq!(coeffs(&EF::one()), vec![1, 0, 0]);
    assert_eq!(coeffs(&EF::two()), vec![2, 0, 0]);
    assert_eq!(coeffs(&EF::neg_one()), vec![P - 1, 0, 0]);
    assert_eq!(coeffs(&EF::generator()), vec![10, 1, 0]);
    assert_eq!(coeffs(&EF::from_base(F::new(9))), vec![9, 0, 0]);
    assert_eq!(coeffs(&EF::from(F::new(9))), vec![9, 0, 0]);
    assert_eq!(EF::default(), EF::zero());
    assert_eq!(coeffs(&EF::from_bool(true)), vec![1, 0, 0]);
    assert_eq!(coeffs(&EF::from_canonical_u8(200)), vec![200, 0, 0]);
    assert_eq!(coeffs(&EF::from_canonical_u16(60000)), vec![60000, 0, 0]);
    assert_eq!(coeffs(&EF::from_canonical_u32(P - 1)), vec![P - 1, 0, 0]);
    assert_eq!(coeffs(&EF::from_canonical_u64(12)), vec![12, 0, 0]);
    assert_eq!(coeffs(&EF::from_canonical_usize(13)), vec![13, 0, 0]);
    assert_eq!(coeffs(&EF::from_wrapped_u32(u32::MAX)), vec![1, 0, 0]);
    assert_eq!(coeffs(&EF::from_wrapped_u64(u64::MAX)), vec![(u64::MAX % P as u64) as u32, 0, 0]);
    assert_eq!(coeffs(&EF::from_base_iter(&[F::new(4), F::new(5)])), vec![4, 5, 0]);
    assert_eq!(coeffs(&EF::from_base_slice(&[F::new(1), F::new(2), F::new(3), F::new(4)])), vec![1, 2, 3]);
    let zeros = EF::zero_vec(4);
    assert_eq!(zeros.len(), 4);
    assert!(zeros.iter().all(|z| z.is_zero()));
}

#[test]
fn ext_halve_is_zero() {
    let a = ext(1, 2, 3);
    assert_eq!(coeffs(&a.halve()), vec![1073741824, 1, 1073741825]);
    assert_eq!(a.halve() + a.halve(), a);
    assert!(EF::zero().is_zero());
    assert!(ext(P, P, 0).is_zero());
    assert!(!a.is_zero());
}

#[test]
fn ext_sum_product() {
    let values = [ext(1, 2, 3), ext(4, 5, 6), ext(P - 5, 0, 1)];
    assert_eq!(coeffs(&EF::sum(&values)), vec![0, 7, 10]);
    assert_eq!(EF::sum(&[]), EF::zero());
    assert_eq!(EF::product(&values), ext(1, 2, 3) * ext(4, 5, 6) * ext(P - 5, 0, 1));
    assert_eq!(EF::product(&[]), EF::one());
}

#[test]
fn ext_helper_functions() {
    let a = [F::new(1), F::new(2), F::new(3)];
    let b = [F::new(4), F::new(5), F::new(6)];
    let w = F::new(5);
    let mut res = [F::zero(); 3];
    cubic_mul(&a, &b, &mut res, w);
    assert_eq!(res.map(|x| x.as_canonical_u32()), [139, 103, 28]);
    cubic_square(&a, &mut res, w);
    assert_eq!(res.map(|x| x.as_canonical_u32()), [61, 49, 10]);
    let inv = cubic_inv(&a, w);
    assert_eq!(inv.map(|x| x.as_canonical_u32()), [1279570927, 2027416670, 696388467]);
    // quadratic extension with W = -1 (p = 3 mod 4, so -1 is not a square)
    let q = qudratic_inv(&[F::new(3), F::new(4)], F::neg_one());
    // (3 + 4i)^-1 = (3 - 4i) / 25
    let inv25 = F::new(25).inverse();
    assert_eq!(q, [F::new(3) * inv25, -F::new(4) * inv25]);
}

#[test]
fn ext_to_string() {
    assert_eq!(EF::zero().to_string(), "0");
    assert_eq!(ext(1, 2, 3).to_string(), "1 + 2 X + 3 X^2");
    assert_eq!(ext(0, 1, 1).to_string(), "X + X^2");
    assert_eq!(ext(5, 0, 0).to_string(), "5");
    assert_eq!(ext(0, 0, 7).to_string(), "7 X^2");
    assert_eq!(ext(P, 4, 0).to_string(), "4 X");
}

#[test]
fn ext_order() {
    let p = num_bigint::BigUint::from(P);
    assert_eq!(EF::order(), p.pow(3));
}

#[test]
fn ext_from_base_fn() {
    let x = EF::from_base_fn(|i| F::new(i as u32 + 1));
    assert_eq!(coeffs(&x), vec![1, 2, 3]);
}

#[test]
fn ext_ring_laws_on_values() {
    let a = ext(11, 22, 33);
    let b = ext(P - 4, 5, 123456);
    let c = ext(7, P - 1, 0);
    // distributivity, commutativity, identity
    assert_eq!(a * (b + c), a * b + a * c);
    assert_eq!(a * b, b * a);
    assert_eq!(a * EF::one(), a);
    assert_eq!(a * EF::from(F::new(9)), a * F::new(9));
    // associativity holds on these values too
    assert_eq!((a * b) * c, a * (b * c));
    // x^(p^3) = x, so three Frobenius steps are the identity
    assert_eq!(b.repeated_frobenius(1).repeated_frobenius(2), b);
    assert_eq!(b.repeated_frobenius(2).repeated_frobenius(2), b.repeated_frobenius(1));
}

fn raw(x: &EF) -> Vec<u32> {
    x.as_base_slice().iter().map(|c| c.raw_value()).collect()
}

#[test]
fn ext_stored_forms_follow_base_field() {
    let z = ext(0, 0, 0);
    assert_eq!(raw(&(-z)), vec![P, P, P]);
    assert_eq!(raw(&(ext(1, 0, 0) + ext(P - 1, 0, 0))), vec![P, 0, 0]);
    assert_eq!(raw(&(ext(P, 0, 0) * ext(1, 0, 0))), vec![P, 0, 0]);
    assert_eq!(raw(&(ext(P, 0, 0) - z)), vec![P, 0, 0]);
    assert_eq!(raw(&ext(P, 0, 0).square()), vec![P, 0, 0]);
    assert_eq!(raw(&EF::sum(&[ext(1, 0, 0), ext(P - 1, 0, 0)])), vec![P, 0, 0]);
    assert_eq!(raw(&ext(5, 0, 0).frobenius()), vec![5, 0, 0]);
    assert_eq!(raw(&ext(P, 0, 0).repeated_frobenius(3)), vec![P, 0, 0]);
    assert_eq!(coeffs(&(-z)), vec![0, 0, 0]);
}

#[test]
fn ext_debug_shows_stored_coefficients() {
    assert_eq!(format!("{:?}", ext(1, 2, P)), "BinomialExtensionField { value: [1, 2, 2147483647] }");
}
