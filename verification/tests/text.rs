use terminal_svg::text::{parse_usize, str_eq};

#[test]
fn decimal_parsing_follows_the_standard_reading() {
    assert_eq!(parse_usize(&['4', '2']), Some(42));
    assert_eq!(parse_usize(&['+', '7']), Some(7));
    assert_eq!(parse_usize(&[]), None);
    assert_eq!(parse_usize(&['-', '1']), None);
    assert_eq!(parse_usize(&['+']), None);
    assert!(str_eq("abc", "abc"));
    assert!(!str_eq("abc", "abd"));
}
