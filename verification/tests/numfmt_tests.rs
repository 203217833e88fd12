use linetools::numfmt::{right_justified, to_decimal};

#[test]
fn decimal_spelling() {
    assert_eq!(to_decimal(0), "0");
    assert_eq!(to_decimal(7), "7");
    assert_eq!(to_decimal(907), "907");
    assert_eq!(to_decimal(1000000), "1000000");
}

#[test]
fn right_justify_pads_short_and_keeps_long() {
    assert_eq!(right_justified("ab", 4), "  ab");
    assert_eq!(right_justified("", 3), "   ");
    assert_eq!(right_justified("abcdef", 4), "abcdef");
    assert_eq!(right_justified("abcd", 4), "abcd");
}
