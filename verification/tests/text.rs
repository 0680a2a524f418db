use codingame_snakebyte::text::{is_whitespace, push_decimal, text_to_i32, text_to_u8, trim_range};

fn chars(s: &str) -> Vec<char> {
    s.chars().collect()
}

#[test]
fn decimal_numbers() {
    let mut s = String::new();
    push_decimal(&mut s, 0);
    s.push(' ');
    push_decimal(&mut s, 1203);
    s.push(' ');
    push_decimal(&mut s, -2147483648);
    s.push(' ');
    push_decimal(&mut s, 2147483647);
    assert_eq!(s, "0 1203 -2147483648 2147483647");
}

#[test]
fn decimal_reads_back() {
    for n in [0i32, 7, -7, 10, 99, -100, i32::MAX, i32::MIN] {
        let mut s = String::new();
        push_decimal(&mut s, n);
        let v = chars(&s);
        assert_eq!(text_to_i32(&v, 0, v.len()), Some(n));
    }
}

#[test]
fn integers_as_str_parse_reads_them() {
    let v = chars("+12-0x 007");
    assert_eq!(text_to_i32(&v, 0, 3), Some(12));
    assert_eq!(text_to_i32(&v, 3, 5), Some(0));
    assert_eq!(text_to_i32(&v, 3, 4), None);
    assert_eq!(text_to_i32(&v, 0, 0), None);
    assert_eq!(text_to_i32(&v, 4, 6), None);
    assert_eq!(text_to_i32(&v, 7, 10), Some(7));
    assert_eq!(text_to_u8(&v, 3, 5), None);
    assert_eq!(text_to_u8(&v, 0, 3), Some(12));
    let big = chars("99999999999999999999");
    assert_eq!(text_to_i32(&big, 0, big.len()), None);
}

#[test]
fn trimming_removes_unicode_white_space() {
    let v = chars("\u{3000} a b\t\r\u{85}");
    assert_eq!(trim_range(&v, 0, v.len()), (2, 5));
    assert!(is_whitespace('\u{2009}'));
    assert!(!is_whitespace('\u{200B}'));
}
