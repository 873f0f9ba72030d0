use conference_scheduler::text::{
    contains_text, i32_text, parse_i32, parse_usize, split_trimmed, trim_text, usize_text,
};

#[test]
fn parse_i32_accepts_signed_decimals() {
    assert_eq!(parse_i32("42"), Some(42));
    assert_eq!(parse_i32("-7"), Some(-7));
    assert_eq!(parse_i32("+3"), Some(3));
    assert_eq!(parse_i32("007"), Some(7));
    assert_eq!(parse_i32("2147483647"), Some(i32::MAX));
    assert_eq!(parse_i32("-2147483648"), Some(i32::MIN));
}

#[test]
fn parse_i32_refuses_what_from_str_refuses() {
    assert_eq!(parse_i32(""), None);
    assert_eq!(parse_i32("-"), None);
    assert_eq!(parse_i32("+"), None);
    assert_eq!(parse_i32(" 5"), None);
    assert_eq!(parse_i32("5.0"), None);
    assert_eq!(parse_i32("2147483648"), None);
    assert_eq!(parse_i32("-2147483649"), None);
}

#[test]
fn parse_usize_cases() {
    assert_eq!(parse_usize("12"), Some(12));
    assert_eq!(parse_usize("+12"), Some(12));
    assert_eq!(parse_usize("-1"), None);
    assert_eq!(parse_usize("x"), None);
}

#[test]
fn split_trimmed_drops_empty_pieces() {
    assert_eq!(split_trimmed(" a , b ,, c ", ','), vec!["a".to_string(), "b".to_string(), "c".to_string()]);
    assert_eq!(split_trimmed("", ';'), Vec::<String>::new());
}

#[test]
fn trim_and_contains() {
    assert_eq!(trim_text("\t x y \n"), "x y");
    assert!(contains_text("TUE First Period", "First"));
    assert!(!contains_text("TUE", "TUES"));
    assert!(contains_text("abc", ""));
}

#[test]
fn integer_texts() {
    assert_eq!(i32_text(-305), "-305");
    assert_eq!(i32_text(0), "0");
    assert_eq!(i32_text(i32::MIN), "-2147483648");
    assert_eq!(usize_text(1024), "1024");
}
