use zoda_rs::babybear::{BabyBear, BABYBEAR_PRIME};
use zoda_rs::field::babybear::{BabyBear as Bb32, BABYBEAR_PRIME as P32};

#[test]
fn babybear_test_basic_arithmetic() {
    let a = BabyBear::new(100);
    let b = BabyBear::new(200);

    let sum = a + b;
    assert_eq!(sum.value, 300);

    let diff = b - a;
    assert_eq!(diff.value, 100);

    let prod = a * b;
    assert_eq!(prod.value, 20000);

    let a = Bb32::new(100);
    let b = Bb32::new(200);

    assert_eq!((a + b).value, 300);
    assert_eq!((b - a).value, 100);
    assert_eq!((a - b).value, P32 - 100);
    assert_eq!((a * b).value, 20000);
}

#[test]
fn babybear_test_modular_reduction() {
    let a = BabyBear::new(BABYBEAR_PRIME + 5);
    assert_eq!(a.value, 5);

    assert_eq!(Bb32::new(P32 as u64 + 5).value, 5);
    assert_eq!((Bb32::new(P32 as u64 - 1) + Bb32::one()).value, 0);
}

#[test]
fn test_inverse() {
    let a = BabyBear::new(7);
    let inv = a.inverse();
    let prod = a * inv;
    assert_eq!(prod.value, 1);
}

#[test]
fn test_pow() {
    let a = BabyBear::new(3);
    let result = a.pow(4);
    assert_eq!(result.value, 81);
}

#[test]
fn test_root_of_unity() {
    for log_n in 1..=10 {
        let omega = BabyBear::get_root_of_unity(log_n);
        let n = 1u64 << log_n;
        let result = omega.pow(n);
        assert_eq!(result.value, 1, "omega^n should equal 1 for log_n={}", log_n);
    }
}

#[test]
fn babybear_test_negation() {
    let a = BabyBear::new(100);
    let neg_a = -a;
    let sum = a + neg_a;
    assert_eq!(sum.value, 0);
}

#[test]
fn test_mul_wraps() {
    let a = Bb32::new(P32 as u64 - 1);
    assert_eq!((a * a).value, 1);
}

#[test]
fn bytes_round_trip_and_reduction() {
    let a = BabyBear::from_u32(u32::MAX);
    assert_eq!(a.value, (u32::MAX as u64) % BABYBEAR_PRIME);
    let b = BabyBear::new(0x0102_0304);
    let bytes = b.to_bytes();
    assert_eq!(bytes, [4, 3, 2, 1, 0, 0, 0, 0]);
    assert_eq!(BabyBear::from_bytes(&bytes).value, 0x0102_0304);
    let big = u64::MAX.to_le_bytes();
    assert_eq!(BabyBear::from_bytes(&big).value, u64::MAX % BABYBEAR_PRIME);
}

#[test]
fn compound_assignment() {
    let mut a = BabyBear::new(5);
    a -= BabyBear::new(7);
    assert_eq!(a.value, BABYBEAR_PRIME - 2);
    a += BabyBear::new(3);
    assert_eq!(a.value, 1);
    a *= BabyBear::new(2);
    assert_eq!(a.value, 2);
}
