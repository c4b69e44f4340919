use random_rank::bigint::BigInt;
use random_rank::bignat::BigNat;

fn natural(x: u64) -> BigNat {
    BigNat::from_u64(x)
}

#[test]
fn nat_round_trip_through_u64() {
    for x in [0u64, 1, 2, 4294967295, 4294967296, 4294967297, u64::MAX] {
        assert_eq!(natural(x).to_u64(), Some(x));
    }
}

#[test]
fn nat_zero_is_zero() {
    assert!(BigNat::zero().is_zero());
    assert!(natural(0).is_zero());
    assert!(!natural(1).is_zero());
    assert_eq!(BigNat::zero().to_u64(), Some(0));
}

#[test]
fn nat_addition_carries_across_limbs() {
    assert_eq!(natural(4294967295).add(&natural(1)).to_u64(), Some(4294967296));
    assert_eq!(natural(123456789012).add(&natural(987654321098)).to_u64(), Some(1111111110110));
    let big = natural(u64::MAX).add(&natural(1));
    assert_eq!(big.to_u64(), None);
    assert_eq!(big.sub(&natural(1)).to_u64(), Some(u64::MAX));
}

#[test]
fn nat_subtraction_borrows_across_limbs() {
    assert_eq!(natural(4294967296).sub(&natural(1)).to_u64(), Some(4294967295));
    assert_eq!(natural(1000).sub(&natural(1000)).to_u64(), Some(0));
    assert_eq!(natural(1111111110110).sub(&natural(987654321098)).to_u64(), Some(123456789012));
}

#[test]
fn nat_order() {
    assert!(natural(3).lt(&natural(5)));
    assert!(!natural(5).lt(&natural(3)));
    assert!(!natural(5).lt(&natural(5)));
    assert!(natural(4294967295).lt(&natural(4294967296)));
    assert!(natural(5).equals(&natural(5)));
    assert!(!natural(5).equals(&natural(6)));
    let big = natural(u64::MAX).mul(&natural(u64::MAX));
    assert!(natural(u64::MAX).lt(&big));
    assert!(!big.lt(&natural(u64::MAX)));
}

#[test]
fn nat_multiplication() {
    assert_eq!(natural(0).mul(&natural(12345)).to_u64(), Some(0));
    assert_eq!(natural(12345).mul(&natural(0)).to_u64(), Some(0));
    assert_eq!(natural(123456).mul(&natural(654321)).to_u64(), Some(80779853376));
    assert_eq!(natural(4294967296).mul(&natural(4294967295)).to_u64(), Some(18446744069414584320));
}

#[test]
fn nat_multiplication_beyond_u64_divides_back() {
    let a = natural(u64::MAX);
    let b = natural(1_000_000_007);
    let product = a.mul(&b).mul(&a);
    assert_eq!(product.to_u64(), None);
    let (q, r) = product.div_rem(&a);
    assert!(r.is_zero());
    let (q2, r2) = q.div_rem(&a);
    assert!(r2.is_zero());
    assert_eq!(q2.to_u64(), Some(1_000_000_007));
}

#[test]
fn nat_division_with_remainder() {
    let (q, r) = natural(100).div_rem(&natural(7));
    assert_eq!((q.to_u64(), r.to_u64()), (Some(14), Some(2)));
    let (q, r) = natural(6).div_rem(&natural(7));
    assert_eq!((q.to_u64(), r.to_u64()), (Some(0), Some(6)));
    let (q, r) = natural(0).div_rem(&natural(7));
    assert_eq!((q.to_u64(), r.to_u64()), (Some(0), Some(0)));
    let (q, r) = natural(u64::MAX).div_rem(&natural(4294967296));
    assert_eq!((q.to_u64(), r.to_u64()), (Some(4294967295), Some(4294967295)));
    let (q, r) = natural(81).div_rem(&natural(81));
    assert_eq!((q.to_u64(), r.to_u64()), (Some(1), Some(0)));
}

#[test]
fn nat_greatest_common_divisor() {
    assert_eq!(natural(48).gcd(&natural(18)).to_u64(), Some(6));
    assert_eq!(natural(18).gcd(&natural(48)).to_u64(), Some(6));
    assert_eq!(natural(17).gcd(&natural(5)).to_u64(), Some(1));
    assert_eq!(natural(0).gcd(&natural(9)).to_u64(), Some(9));
    assert_eq!(natural(9).gcd(&natural(0)).to_u64(), Some(9));
    assert_eq!(natural(0).gcd(&natural(0)).to_u64(), Some(0));
    let a = natural(1_000_000_007).mul(&natural(u64::MAX));
    let b = natural(998_244_353).mul(&natural(u64::MAX));
    assert_eq!(a.gcd(&b).to_u64(), Some(u64::MAX));
}

#[test]
fn nat_clone_keeps_the_value() {
    let a = natural(u64::MAX).mul(&natural(3));
    let b = a.clone();
    assert!(a.equals(&b));
}

fn integer(x: i64) -> BigInt {
    BigInt::from_i64(x)
}

#[test]
fn int_signs() {
    assert!(integer(0).is_zero());
    assert!(!integer(0).is_negative());
    assert!(integer(-5).is_negative());
    assert!(!integer(5).is_negative());
    assert_eq!(integer(-5).magnitude().to_u64(), Some(5));
    assert_eq!(integer(i64::MIN).magnitude().to_u64(), Some(9223372036854775808));
    assert_eq!(integer(i64::MAX).magnitude().to_u64(), Some(9223372036854775807));
    assert!(integer(-5).neg().equals(&integer(5)));
    assert!(integer(0).neg().equals(&integer(0)));
    assert!(!integer(0).neg().is_negative());
}

#[test]
fn int_products() {
    assert!(integer(-3).mul(&integer(4)).equals(&integer(-12)));
    assert!(integer(-3).mul(&integer(-4)).equals(&integer(12)));
    assert!(integer(3).mul(&integer(-4)).equals(&integer(-12)));
    assert!(integer(0).mul(&integer(-4)).equals(&integer(0)));
    assert!(!integer(0).mul(&integer(-4)).is_negative());
}

#[test]
fn int_differences() {
    assert!(integer(3).sub(&integer(5)).equals(&integer(-2)));
    assert!(integer(5).sub(&integer(3)).equals(&integer(2)));
    assert!(integer(-3).sub(&integer(5)).equals(&integer(-8)));
    assert!(integer(-3).sub(&integer(-5)).equals(&integer(2)));
    assert!(integer(-5).sub(&integer(-3)).equals(&integer(-2)));
    assert!(integer(3).sub(&integer(-5)).equals(&integer(8)));
    assert!(integer(7).sub(&integer(7)).equals(&integer(0)));
    assert!(!integer(-7).sub(&integer(-7)).is_negative());
}

#[test]
fn int_exact_division() {
    assert!(integer(-12).div_exact(&natural(4)).equals(&integer(-3)));
    assert!(integer(12).div_exact(&natural(4)).equals(&integer(3)));
    assert!(integer(0).div_exact(&natural(4)).equals(&integer(0)));
    assert!(BigInt::from_nat(natural(42)).equals(&integer(42)));
}
