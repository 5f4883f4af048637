use rchan::chars::{
    chars_of, extend_value, is_decimal_digit, is_name_char, is_space, push_decimal, push_natural,
    string_of, value_of_digit,
};

#[test]
fn character_classes() {
    assert!(is_space(' ') && is_space('\t') && is_space('\n'));
    assert!(!is_space('\r') && !is_space('a'));
    assert!(is_decimal_digit('0') && is_decimal_digit('9'));
    assert!(!is_decimal_digit('a') && !is_decimal_digit('/') && !is_decimal_digit(':'));
    assert!(is_name_char('a') && is_name_char('Z') && is_name_char('_') && is_name_char('5'));
    assert!(!is_name_char('-') && !is_name_char(' ') && !is_name_char('\u{e9}'));
}

#[test]
fn digits_accumulate_with_wrapping() {
    assert_eq!(value_of_digit('0'), 0);
    assert_eq!(value_of_digit('7'), 7);
    assert_eq!(extend_value(12, '3'), 123);
    assert_eq!(extend_value(0, '0'), 0);
    assert_eq!(extend_value(922337203685477580, '7'), i64::MAX);
    assert_eq!(extend_value(922337203685477580, '8'), i64::MIN);
    assert_eq!(extend_value(i64::MAX, '0'), -10);
}

#[test]
fn decimal_numerals() {
    let mut out = String::from("x");
    push_natural(&mut out, 0);
    push_natural(&mut out, 905);
    push_natural(&mut out, u64::MAX);
    assert_eq!(out, "x090518446744073709551615");
    let mut out = String::new();
    push_decimal(&mut out, -1);
    push_decimal(&mut out, 20);
    push_decimal(&mut out, i64::MIN);
    assert_eq!(out, "-120-9223372036854775808");
}

#[test]
fn strings_and_characters() {
    assert_eq!(string_of('q'), "q");
    assert_eq!(chars_of("a\u{e9}1"), vec!['a', '\u{e9}', '1']);
    assert_eq!(chars_of(""), Vec::<char>::new());
}
