use baltree::parse_keys;

#[test]
fn parse_commas_and_spaces() {
    assert_eq!(parse_keys("1, 2 3,4"), (vec![1, 2, 3, 4], false));
}

#[test]
fn parse_empty_and_blank() {
    assert_eq!(parse_keys(""), (vec![], false));
    assert_eq!(parse_keys("  ,, \n"), (vec![], false));
}

#[test]
fn parse_invalid_entries_are_skipped() {
    assert_eq!(parse_keys("a,5,x7 9"), (vec![5, 9], true));
    assert_eq!(parse_keys("-"), (vec![], true));
    assert_eq!(parse_keys("3.5"), (vec![], true));
}

#[test]
fn parse_signs() {
    assert_eq!(parse_keys("+7 -8 -0"), (vec![7, -8, 0], false));
}

#[test]
fn parse_range_limits() {
    assert_eq!(parse_keys("2147483647 -2147483648"), (vec![i32::MAX, i32::MIN], false));
    assert_eq!(parse_keys("2147483648"), (vec![], true));
    assert_eq!(parse_keys("-2147483649,1"), (vec![1], true));
    assert_eq!(parse_keys("99999999999999999999"), (vec![], true));
}

#[test]
fn parse_unicode_white_space() {
    assert_eq!(parse_keys("1\u{3000}2\t3\u{a0}4"), (vec![1, 2, 3, 4], false));
}

#[test]
fn parse_trailing_newline() {
    assert_eq!(parse_keys("10 20\n"), (vec![10, 20], false));
}
