use std::hash::{Hash, Hasher};

use mersenne_31::field::QuotientMap;
use mersenne_31::mersenne_31::from_u62;
use mersenne_31::{to_mersenne31_array, Mersenne31};

type F = Mersenne31;

const P: u32 = 0x7fff_ffff;

#[test]
fn add() {
    assert_eq!(F::one() + F::one(), F::two());
    assert_eq!(F::neg_one() + F::one(), F::zero());
    assert_eq!(F::neg_one() + F::two(), F::one());
    assert_eq!(F::neg_one() + F::neg_one(), F::new(F::ORDER_U32 - 2));
}

#[test]
fn sub() {
    assert_eq!(F::one() - F::one(), F::zero());
    assert_eq!(F::two() - F::two(), F::zero());
    assert_eq!(F::neg_one() - F::neg_one(), F::zero());
    assert_eq!(F::two() - F::one(), F::one());
    assert_eq!(F::neg_one() - F::zero(), F::neg_one());
}

#[test]
fn mul_2exp_u64() {
    // 1 * 2^0 = 1.
    assert_eq!(F::one().mul_2exp_u64(0), F::one());
    // 2 * 2^30 = 2^31 = 1.
    assert_eq!(F::two().mul_2exp_u64(30), F::one());
    // 5 * 2^2 = 20.
    assert_eq!(F::new(5).mul_2exp_u64(2), F::new(20));
}

#[test]
fn div_2exp_u64() {
    // 1 / 2^0 = 1.
    assert_eq!(F::one().div_2exp_u64(0), F::one());
    // 2 / 2^0 = 2.
    assert_eq!(F::two().div_2exp_u64(0), F::two());
    // 32 / 2^5 = 1.
    assert_eq!(F::new(32).div_2exp_u64(5), F::new(1));
}

#[test]
fn exp_root() {
    // Confirm that (x^{1/5})^5 = x
    let m1 = <F as QuotientMap<u32>>::from_int(0x34167c58);
    let m2 = <F as QuotientMap<u32>>::from_int(0x61f3207b);

    assert_eq!(m1.exp_u64(1717986917).exp_const_u64::<5>(), m1);
    assert_eq!(m2.exp_u64(1717986917).exp_const_u64::<5>(), m2);
    assert_eq!(F::two().exp_u64(1717986917).exp_const_u64::<5>(), F::two());
}

#[test]
fn order_itself_is_zero() {
    let p = F::new(P);
    assert_eq!(p, F::zero());
    assert!(p.is_zero());
    assert_eq!(p.as_canonical_u32(), 0);
    assert_eq!(p.as_canonical_u64(), 0);
    assert_eq!(p.raw_value(), P);
    assert_eq!(F::new(P - 1).as_canonical_u32(), P - 1);
    assert!(!F::one().is_zero());
}

#[test]
fn add_wraps_past_p() {
    // (p - 1) + (p - 1) = 2p - 2 = p - 2
    assert_eq!((F::neg_one() + F::neg_one()).as_canonical_u32(), P - 2);
    // p + 5 = 5
    assert_eq!((F::new(P) + F::new(5)).as_canonical_u32(), 5);
    assert_eq!((F::new(0x4000_0000) + F::new(0x4000_0000)).as_canonical_u32(), 1);
}

#[test]
fn sub_borrows() {
    assert_eq!((F::zero() - F::one()).as_canonical_u32(), P - 1);
    assert_eq!((F::new(3) - F::new(10)).as_canonical_u32(), P - 7);
    assert_eq!((F::new(10) - F::new(3)).as_canonical_u32(), 7);
    assert_eq!((F::zero() - F::new(P)).as_canonical_u32(), 0);
}

#[test]
fn neg_values() {
    assert_eq!((-F::one()).as_canonical_u32(), P - 1);
    assert_eq!(-F::zero(), F::zero());
    assert_eq!((-F::new(P)).as_canonical_u32(), 0);
    // x + (-x) = 0
    let x = F::new(123_456_789);
    assert_eq!(x + (-x), F::zero());
    // x - y = x + (-y)
    let y = F::new(987_654_321);
    assert_eq!(x - y, x + (-y));
}

#[test]
fn mul_values() {
    assert_eq!((F::new(3) * F::new(7)).as_canonical_u32(), 21);
    // (p - 1)^2 = 1
    assert_eq!(F::neg_one() * F::neg_one(), F::one());
    // 2^16 * 2^15 = 2^31 = 1
    assert_eq!(F::new(1 << 16) * F::new(1 << 15), F::one());
    let a = F::new(0x1234_5678);
    let b = F::new(0x7654_3210);
    let expected = ((0x1234_5678u64 * 0x7654_3210u64) % (P as u64)) as u32;
    assert_eq!((a * b).as_canonical_u32(), expected);
}

#[test]
fn assign_operators() {
    let mut x = F::new(10);
    x += F::new(5);
    assert_eq!(x.as_canonical_u32(), 15);
    x -= F::new(20);
    assert_eq!(x.as_canonical_u32(), P - 5);
    x *= F::new(2);
    assert_eq!(x.as_canonical_u32(), P - 10);
}

#[test]
fn from_u62_folds_high_bits() {
    assert_eq!(from_u62(0).as_canonical_u32(), 0);
    assert_eq!(from_u62(1u64 << 31).as_canonical_u32(), 1);
    assert_eq!(from_u62((1u64 << 62) - 1).as_canonical_u32(), (((1u64 << 62) - 1) % P as u64) as u32);
    assert_eq!(from_u62(P as u64).as_canonical_u32(), 0);
}

#[test]
fn mul_2exp_matches_mul() {
    let x = F::new(0x2345_6789);
    for e in [0u64, 1, 5, 30, 31, 32, 62, 100, u64::MAX] {
        let pow2 = F::two().exp_u64(e);
        assert_eq!(x.mul_2exp_u64(e), x * pow2);
        // dividing by 2^e undoes multiplying by it
        assert_eq!(x.mul_2exp_u64(e).div_2exp_u64(e), x);
        assert_eq!(x.div_2exp_u64(e) * pow2, x);
    }
}

#[test]
fn halve_then_double() {
    assert_eq!(F::new(4).halve(), F::new(2));
    assert_eq!(F::new(1).halve().as_canonical_u32(), 0x4000_0000);
    for v in [0u32, 1, 2, 3, 12345, P - 1, P] {
        let x = F::new(v);
        assert_eq!(x.halve().double(), x);
        assert_eq!(x.halve() + x.halve(), x);
    }
}

#[test]
fn inverse_values() {
    assert_eq!(F::zero().try_inverse(), None);
    assert_eq!(F::new(P).try_inverse(), None);
    assert_eq!(F::one().try_inverse(), Some(F::one()));
    // 2 * 2^30 = 1
    assert_eq!(F::two().inverse(), F::new(1 << 30));
    for v in [3u32, 7, 0x1234_5678, P - 1] {
        let x = F::new(v);
        assert_eq!(x * x.inverse(), F::one());
        assert_eq!(x.try_inverse().unwrap(), x.exp_u64((P - 2) as u64));
    }
}

#[test]
fn division() {
    let x = F::new(1000);
    let y = F::new(7);
    assert_eq!((x / y) * y, x);
    assert_eq!(F::new(21) / F::new(7), F::new(3));
}

#[test]
fn fermat_little_theorem() {
    for v in [1u32, 2, 7, 0x7fff_fffe, 0x1357_9bdf] {
        assert_eq!(F::new(v).exp_u64((P - 1) as u64), F::one());
    }
    assert_eq!(F::generator().exp_u64((P - 1) as u64), F::one());
    assert_eq!(F::zero().exp_u64(5), F::zero());
}

#[test]
fn exponentiation_values() {
    let x = F::new(3);
    assert_eq!(x.exp_u64(0), F::one());
    assert_eq!(x.exp_u64(1), x);
    assert_eq!(x.exp_u64(5).as_canonical_u32(), 243);
    assert_eq!(x.exp_power_of_2(3).as_canonical_u32(), 6561);
    assert_eq!(x.exp_const_u64::<0>(), F::one());
    assert_eq!(x.exp_const_u64::<3>().as_canonical_u32(), 27);
    assert_eq!(x.exp_const_u64::<4>().as_canonical_u32(), 81);
    assert_eq!(x.exp_const_u64::<7>().as_canonical_u32(), 2187);
    assert_eq!(x.square().as_canonical_u32(), 9);
    let m1 = <F as QuotientMap<u32>>::from_int(0x34167c58);
    assert_eq!(m1.exp_u64(1717986917).as_canonical_u32(), 579945751);
}

#[test]
fn sum_and_product() {
    let values = [F::new(1), F::new(2), F::new(P - 1), F::new(P)];
    assert_eq!(F::sum(&values).as_canonical_u32(), 2);
    assert_eq!(F::sum(&[]), F::zero());
    assert_eq!(F::product(&[F::new(2), F::new(3), F::new(7)]).as_canonical_u32(), 42);
    assert_eq!(F::product(&[]), F::one());
    assert_eq!(F::product(&values), F::zero());
}

#[test]
fn to_mersenne31_array_reduces() {
    let out = to_mersenne31_array([0, 1, P, P + 1, u32::MAX]);
    assert_eq!(out[0].as_canonical_u32(), 0);
    assert_eq!(out[1].as_canonical_u32(), 1);
    assert_eq!(out[2].raw_value(), 0);
    assert_eq!(out[3].as_canonical_u32(), 1);
    assert_eq!(out[4].as_canonical_u32(), 1);
}

#[test]
fn sampling_rejects_p() {
    assert_eq!(F::from_sampled_u32(u32::MAX), None);
    assert_eq!(F::from_sampled_u32(u32::MAX - 1), None);
    assert_eq!(F::from_sampled_u32(10), Some(F::new(5)));
    assert_eq!(F::from_sampled_u32(u32::MAX - 2).map(|x| x.as_canonical_u32()), Some(P - 1));
}

#[test]
fn from_bool_and_constants() {
    assert_eq!(F::from_bool(true), F::one());
    assert_eq!(F::from_bool(false), F::zero());
    assert_eq!(F::generator().as_canonical_u32(), 7);
    assert_eq!(F::default(), F::zero());
    assert_eq!(F::ORDER_U64, P as u64);
}

#[test]
fn quotient_map_unsigned() {
    assert_eq!(<F as QuotientMap<u32>>::from_int(u32::MAX).as_canonical_u32(), 1);
    assert_eq!(<F as QuotientMap<u32>>::from_int(P).as_canonical_u32(), 0);
    assert_eq!(<F as QuotientMap<u32>>::from_int(1 << 31).as_canonical_u32(), 1);
    assert_eq!(<F as QuotientMap<u32>>::from_canonical_checked(P), Some(F::zero()));
    assert_eq!(<F as QuotientMap<u32>>::from_canonical_checked(P).map(|x| x.to_string()), Some("2147483647".to_string()));
    assert_eq!(<F as QuotientMap<u32>>::from_canonical_checked(P + 1), None);
    assert_eq!(<F as QuotientMap<u32>>::from_canonical_checked(P - 1), Some(F::neg_one()));
    assert_eq!(<F as QuotientMap<u8>>::from_int(255).as_canonical_u32(), 255);
    assert_eq!(<F as QuotientMap<u16>>::from_canonical_checked(65535), Some(F::new(65535)));
    assert_eq!(<F as QuotientMap<u64>>::from_int(u64::MAX).as_canonical_u32(), (u64::MAX % P as u64) as u32);
    assert_eq!(<F as QuotientMap<u64>>::from_canonical_checked(P as u64), None);
    assert_eq!(<F as QuotientMap<u64>>::from_canonical_unchecked(P as u64), F::zero());
    assert_eq!(<F as QuotientMap<u128>>::from_int(u128::MAX).as_canonical_u32(), (u128::MAX % P as u128) as u32);
    assert_eq!(<F as QuotientMap<usize>>::from_int(usize::MAX).as_canonical_u32(), (usize::MAX as u128 % P as u128) as u32);
    assert_eq!(<F as QuotientMap<u128>>::from_canonical_checked(5), Some(F::new(5)));
}

#[test]
fn quotient_map_signed() {
    assert_eq!(<F as QuotientMap<i32>>::from_int(-1), F::neg_one());
    assert_eq!(<F as QuotientMap<i32>>::from_int(i32::MIN), F::neg_one());
    assert_eq!(<F as QuotientMap<i32>>::from_int(i32::MAX), F::zero());
    assert_eq!(<F as QuotientMap<i32>>::from_canonical_checked(1 << 30), Some(F::new(1 << 30)));
    assert_eq!(<F as QuotientMap<i32>>::from_canonical_checked((1 << 30) + 1), None);
    assert_eq!(<F as QuotientMap<i32>>::from_canonical_checked(-(1 << 30)).map(|x| x.as_canonical_u32()), Some(P - (1 << 30)));
    assert_eq!(<F as QuotientMap<i32>>::from_canonical_checked(-(1 << 30) - 1), None);
    assert_eq!(<F as QuotientMap<i32>>::from_canonical_unchecked(-5).as_canonical_u32(), P - 5);
    assert_eq!(<F as QuotientMap<i8>>::from_int(-128).as_canonical_u32(), P - 128);
    assert_eq!(<F as QuotientMap<i16>>::from_canonical_checked(-3).map(|x| x.as_canonical_u32()), Some(P - 3));
    assert_eq!(<F as QuotientMap<i64>>::from_int(-1), F::neg_one());
    assert_eq!(<F as QuotientMap<i64>>::from_int(i64::MIN).as_canonical_u32(), (i64::MIN as i128).rem_euclid(P as i128) as u32);
    assert_eq!(<F as QuotientMap<i64>>::from_int(3 * P as i64 + 4).as_canonical_u32(), 4);
    assert_eq!(<F as QuotientMap<i64>>::from_canonical_checked(1 << 31), None);
    assert_eq!(<F as QuotientMap<i64>>::from_canonical_unchecked(-(P as i64)), F::zero());
    assert_eq!(<F as QuotientMap<i128>>::from_int(i128::MIN).as_canonical_u32(), i128::MIN.rem_euclid(P as i128) as u32);
    assert_eq!(<F as QuotientMap<isize>>::from_int(-7).as_canonical_u32(), P - 7);
    assert_eq!(<F as QuotientMap<isize>>::from_canonical_checked(-7).map(|x| x.as_canonical_u32()), Some(P - 7));
}

#[test]
fn field_laws_on_values() {
    let a = F::new(0x1122_3344);
    let b = F::new(0x5566_7788 & P);
    let c = F::new(0x0abc_def0);
    assert_eq!((a + b) + c, a + (b + c));
    assert_eq!((a * b) * c, a * (b * c));
    assert_eq!(a * (b + c), a * b + a * c);
    assert_eq!(a + b, b + a);
    assert_eq!(a * b, b * a);
}

#[test]
fn text_and_orders() {
    assert_eq!(F::new(5).to_string(), "5");
    assert_eq!(F::new(0).to_string(), "0");
    assert_eq!(F::new(P).to_string(), "2147483647");
    assert_eq!(F::order(), num_bigint::BigUint::from(P));
    assert_eq!(F::new(P).as_canonical_biguint(), num_bigint::BigUint::from(0u32));
    assert_eq!(F::new(17).as_canonical_biguint(), num_bigint::BigUint::from(17u32));
}

#[test]
fn zero_vec_is_zeros() {
    let v = F::zero_vec(5);
    assert_eq!(v.len(), 5);
    assert!(v.iter().all(|x| x.is_zero()));
    assert!(F::zero_vec(0).is_empty());
}

#[test]
fn ordering_by_canonical_value() {
    assert!(F::new(3) < F::new(5));
    assert!(F::new(P) < F::new(1));
    assert!(F::new(P - 1) > F::new(P));
    assert_eq!(F::new(P).partial_cmp(&F::new(0)), Some(std::cmp::Ordering::Equal));
    assert!(F::new(7) >= F::new(7));
}

#[test]
fn generator_has_full_order() {
    let g = F::generator();
    let n = (P - 1) as u64;
    assert_eq!(g.exp_u64(n), F::one());
    for q in [2u64, 3, 7, 11, 31, 151, 331] {
        assert_eq!(n % q, 0);
        assert_ne!(g.exp_u64(n / q), F::one());
    }
}

#[test]
fn from_f_and_char_are_identities() {
    assert_eq!(F::from_f(F::new(12)), F::new(12));
    assert_eq!(F::from_char(F::new(P)), F::new(0));
}

#[test]
fn stored_forms_are_kept() {
    // zero stored as p stays so under rotations and powers; canonical values stay canonical
    let zp = F::new(P);
    assert_eq!(zp.mul_2exp_u64(5).to_string(), "2147483647");
    assert_eq!(zp.div_2exp_u64(7).to_string(), "2147483647");
    assert_eq!(F::new(0).mul_2exp_u64(5).to_string(), "0");
    assert_eq!(zp.exp_u64(3).to_string(), "2147483647");
    assert_eq!(zp.exp_u64(1717986917).to_string(), "2147483647");
    assert_eq!(zp.exp_u64(0).to_string(), "1");
    assert_eq!(F::new(0).exp_u64(9).to_string(), "0");
    assert_eq!(zp.exp_power_of_2(3).to_string(), "2147483647");
    assert_eq!(F::new(3).mul_2exp_u64(31).to_string(), "3");
    assert_eq!(F::new(3).inverse().to_string(), "1431655765");
    assert_eq!(<F as QuotientMap<u64>>::from_canonical_checked(0).map(|x| x.to_string()), Some("0".to_string()));
    assert_eq!(<F as QuotientMap<u64>>::from_int(P as u64).to_string(), "0");
    assert_eq!(<F as QuotientMap<u32>>::from_int(P).to_string(), "2147483647");
    assert_eq!(<F as QuotientMap<u32>>::from_canonical_unchecked(P).to_string(), "2147483647");
    assert_eq!(<F as QuotientMap<i32>>::from_int(i32::MIN).to_string(), "2147483646");
    assert_eq!(<F as QuotientMap<i64>>::from_canonical_unchecked(-(P as i64)).to_string(), "0");
    assert_eq!(<F as QuotientMap<i64>>::from_canonical_unchecked(P as i64).to_string(), "2147483647");
    assert_eq!(<F as QuotientMap<i64>>::from_int(-(P as i64)).to_string(), "0");
}

#[test]
fn debug_shows_stored_value() {
    assert_eq!(format!("{:?}", F::new(5)), "5");
    assert_eq!(format!("{:?}", F::new(P)), "2147483647");
}

fn hash_of(x: &F) -> u64 {
    let mut s = std::collections::hash_map::DefaultHasher::new();
    x.hash(&mut s);
    s.finish()
}

#[test]
fn hash_by_canonical_value() {
    assert_eq!(hash_of(&F::new(0)), hash_of(&F::new(P)));
    let mut s = std::collections::hash_map::DefaultHasher::new();
    s.write_u32(7);
    assert_eq!(hash_of(&F::new(7)), s.finish());
}

#[test]
fn stored_forms_of_sums_products_and_assignments() {
    assert_eq!(F::sum(&[F::new(1), F::new(P - 1)]).raw_value(), P);
    assert_eq!(F::product(&[F::new(P), F::new(1)]).raw_value(), P);
    assert_eq!(F::product(&[]).raw_value(), 1);
    assert_eq!((F::new(P) / F::new(1)).raw_value(), P);
    let mut x = F::new(1);
    x += F::new(P - 1);
    assert_eq!(x.raw_value(), P);
    x -= F::new(0);
    assert_eq!(x.raw_value(), P);
    x *= F::new(1);
    assert_eq!(x.raw_value(), P);
    assert!(F::zero_vec(3).iter().all(|z| z.raw_value() == 0));
}
