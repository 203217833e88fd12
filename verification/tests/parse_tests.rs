use linetools::parse::parse_positive_int;

#[test]
fn parse_plain_number() {
    assert_eq!(parse_positive_int("3"), Ok(3));
    assert_eq!(parse_positive_int("10"), Ok(10));
    assert_eq!(parse_positive_int("007"), Ok(7));
}

#[test]
fn parse_accepts_leading_plus() {
    assert_eq!(parse_positive_int("+5"), Ok(5));
}

#[test]
fn parse_rejects_text() {
    assert_eq!(parse_positive_int("foo"), Err("foo".to_string()));
    assert_eq!(parse_positive_int("12a"), Err("12a".to_string()));
    assert_eq!(parse_positive_int(" 3"), Err(" 3".to_string()));
}

#[test]
fn parse_rejects_zero_and_empty() {
    assert_eq!(parse_positive_int("0"), Err("0".to_string()));
    assert_eq!(parse_positive_int("000"), Err("000".to_string()));
    assert_eq!(parse_positive_int(""), Err("".to_string()));
    assert_eq!(parse_positive_int("+"), Err("+".to_string()));
}

#[test]
fn parse_rejects_negative_and_overflow() {
    assert_eq!(parse_positive_int("-4"), Err("-4".to_string()));
    let huge = "99999999999999999999999999";
    assert_eq!(parse_positive_int(huge), Err(huge.to_string()));
}
