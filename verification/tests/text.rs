use fan_control::text::{pad_left_spaces, pad_right_spaces, u64_to_dec};

#[test]
fn decimal_rendering() {
    assert_eq!(u64_to_dec(0), "0");
    assert_eq!(u64_to_dec(7), "7");
    assert_eq!(u64_to_dec(10), "10");
    assert_eq!(u64_to_dec(1234), "1234");
    assert_eq!(u64_to_dec(u64::MAX), "18446744073709551615");
}

#[test]
fn padding() {
    assert_eq!(pad_left_spaces(String::from("42"), 4), "  42");
    assert_eq!(pad_right_spaces(String::from("42"), 4), "42  ");
    // Already at or past the width: unchanged.
    assert_eq!(pad_left_spaces(String::from("abcdef"), 4), "abcdef");
    assert_eq!(pad_right_spaces(String::from("abcd"), 4), "abcd");
    assert_eq!(pad_left_spaces(String::new(), 3), "   ");
}
