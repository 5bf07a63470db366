use qlion::numfmt::{i64_to_dec, money_to_dec, u64_to_dec};

#[test]
fn test_u64_to_dec() {
    assert_eq!(u64_to_dec(0), "0");
    assert_eq!(u64_to_dec(7), "7");
    assert_eq!(u64_to_dec(10), "10");
    assert_eq!(u64_to_dec(90210), "90210");
    assert_eq!(u64_to_dec(u64::MAX), "18446744073709551615");
}

#[test]
fn test_i64_to_dec() {
    assert_eq!(i64_to_dec(0), "0");
    assert_eq!(i64_to_dec(42), "42");
    assert_eq!(i64_to_dec(-42), "-42");
    assert_eq!(i64_to_dec(i64::MIN), "-9223372036854775808");
}

#[test]
fn test_money_to_dec() {
    assert_eq!(money_to_dec(0), "0.00");
    assert_eq!(money_to_dec(5), "0.05");
    assert_eq!(money_to_dec(50), "0.50");
    assert_eq!(money_to_dec(1234), "12.34");
    assert_eq!(money_to_dec(100000), "1000.00");
    assert_eq!(money_to_dec(-1), "-0.01");
    assert_eq!(money_to_dec(-987654), "-9876.54");
}
