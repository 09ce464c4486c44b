use temprix::fmt::{to_decimal, to_lower_hex, to_padded_decimal};
use temprix::text::{lex_less, str_eq};

#[test]
fn numbers_as_text() {
    assert_eq!(to_lower_hex(0), "0");
    assert_eq!(to_lower_hex(0xffff), "ffff");
    assert_eq!(to_lower_hex(0x940d), "940d");
    assert_eq!(to_decimal(0), "0");
    assert_eq!(to_decimal(4294967295), "4294967295");
    assert_eq!(to_padded_decimal(7, 2), "07");
    assert_eq!(to_padded_decimal(123, 2), "123");
    assert_eq!(to_padded_decimal(0, 4), "0000");
}

#[test]
fn text_comparisons() {
    assert!(str_eq("abc", "abc"));
    assert!(!str_eq("abc", "abd"));
    assert!(lex_less("20250101000000", "20260101000000"));
    assert!(!lex_less("b", "a"));
    assert!(lex_less("a", "ab"));
    assert!(!lex_less("a", "a"));
}
