use interval_kit::math::{triangle_numbers, AbsoluteValue, Gcd, One, Zero};

#[test]
fn test_triangle_numbers() {
    assert_eq!(triangle_numbers(1), 1);
    assert_eq!(triangle_numbers(2), 3);
    assert_eq!(triangle_numbers(3), 6);
    assert_eq!(triangle_numbers(4), 10);
    assert_eq!(triangle_numbers(5), 15);
    assert_eq!(triangle_numbers(6), 21);
    assert_eq!(triangle_numbers(7), 28);
    assert_eq!(triangle_numbers(8), 36);
    assert_eq!(triangle_numbers(9), 45);
    assert_eq!(triangle_numbers(10), 55);
}

#[test]
fn triangle_numbers_at_zero_negative_and_large() {
    assert_eq!(triangle_numbers(0), 0);
    assert_eq!(triangle_numbers(-1), 0);
    assert_eq!(triangle_numbers(-3), 3);
    assert_eq!(triangle_numbers(65535), 2147450880);
}

#[test]
fn absolute_values() {
    assert_eq!(AbsoluteValue::abs(&-5i32), Some(5));
    assert_eq!(AbsoluteValue::abs(&7i32), Some(7));
    assert_eq!(AbsoluteValue::abs(&i32::MIN), None);
    assert_eq!(AbsoluteValue::abs(&9usize), Some(9));
}

#[test]
fn identities() {
    assert_eq!(<i32 as Zero>::zero(), 0);
    assert_eq!(<i64 as One>::one(), 1);
    assert_eq!(<usize as Zero>::zero(), 0);
}

#[test]
fn greatest_common_divisors_and_least_common_multiples() {
    assert_eq!(<usize as Gcd>::gcd(12, 18), 6);
    assert_eq!(<usize as Gcd>::gcd(0, 5), 5);
    assert_eq!(<usize as Gcd>::gcd(0, 0), 0);
    assert_eq!(<i32 as Gcd>::gcd(17, 5), 1);
    assert_eq!(<i64 as Gcd>::gcd(1 << 40, 1 << 20), 1 << 20);
    assert_eq!(<usize as Gcd>::lcm(4, 6), 12);
    assert_eq!(<i32 as Gcd>::lcm(0, 7), 0);
    assert_eq!(<i64 as Gcd>::lcm(21, 6), 42);
}
