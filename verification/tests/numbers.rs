use swsplrs::fmt::{
    format_decimal, format_decimal_signed, format_hex, format_hex_lower_padded, format_hex_padded,
};

#[test]
fn numbers_in_decimal() {
    assert_eq!(format_decimal(0), "0");
    assert_eq!(format_decimal(18446744073709551615), "18446744073709551615");
    assert_eq!(format_decimal_signed(-1), "-1");
    assert_eq!(format_decimal_signed(i64::MIN), "-9223372036854775808");
}

#[test]
fn numbers_in_hexadecimal() {
    assert_eq!(format_hex(0), "0");
    assert_eq!(format_hex(0x188B848), "188B848");
    assert_eq!(format_hex_padded(0xA, 2), "0A");
    assert_eq!(format_hex_padded(0x123, 2), "123");
    assert_eq!(format_hex_lower_padded(0xBEEF, 6), "00beef");
}
