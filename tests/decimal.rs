use kvwire::decimal::{parse_decimal, write_decimal};

#[test]
fn decimal_spelling() {
    let mut out = b"x".to_vec();
    write_decimal(&mut out, 0);
    write_decimal(&mut out, 907);
    write_decimal(&mut out, u64::MAX);
    assert_eq!(out, b"x090718446744073709551615".to_vec());
}

#[test]
fn decimal_reading() {
    assert_eq!(parse_decimal(b"0042"), Some(42));
    assert_eq!(parse_decimal(b"18446744073709551615"), Some(u64::MAX));
    assert_eq!(parse_decimal(b"18446744073709551616"), None);
    assert_eq!(parse_decimal(b""), None);
    assert_eq!(parse_decimal(b"+1"), None);
    assert_eq!(parse_decimal(b"1a"), None);
}
