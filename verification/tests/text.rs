use soma::text::{chars_of, digit_of, find_last, hex_digit_of, parse_decimal, split};

fn chars(s: &str) -> Vec<char> {
    s.chars().collect()
}

fn fields(s: &str, sep: char) -> Vec<String> {
    split(&chars(s), sep).into_iter().map(|f| f.into_iter().collect()).collect()
}

#[test]
fn characters_in_order() {
    assert_eq!(chars_of(""), Vec::<char>::new());
    assert_eq!(chars_of("a-b"), vec!['a', '-', 'b']);
    assert_eq!(chars_of("h\u{f6}st\u{1f600}"), vec!['h', '\u{f6}', 's', 't', '\u{1f600}']);
}

#[test]
fn digits() {
    assert_eq!(digit_of('0'), Some(0));
    assert_eq!(digit_of('7'), Some(7));
    assert_eq!(digit_of('9'), Some(9));
    assert_eq!(digit_of('a'), None);
    assert_eq!(digit_of('/'), None);
    assert_eq!(digit_of(':'), None);
    assert_eq!(digit_of('\u{661}'), None);
    assert_eq!(hex_digit_of('0'), Some(0));
    assert_eq!(hex_digit_of('9'), Some(9));
    assert_eq!(hex_digit_of('a'), Some(10));
    assert_eq!(hex_digit_of('f'), Some(15));
    assert_eq!(hex_digit_of('A'), Some(10));
    assert_eq!(hex_digit_of('F'), Some(15));
    assert_eq!(hex_digit_of('g'), None);
    assert_eq!(hex_digit_of('G'), None);
    assert_eq!(hex_digit_of('@'), None);
    assert_eq!(hex_digit_of('`'), None);
}

#[test]
fn bounded_numerals() {
    assert_eq!(parse_decimal(&chars("0"), 255), Some(0));
    assert_eq!(parse_decimal(&chars("255"), 255), Some(255));
    assert_eq!(parse_decimal(&chars("256"), 255), None);
    assert_eq!(parse_decimal(&chars("000255"), 255), Some(255));
    assert_eq!(parse_decimal(&chars("65535"), u16::MAX), Some(65535));
    assert_eq!(parse_decimal(&chars("65536"), u16::MAX), None);
    assert_eq!(parse_decimal(&chars("99999999999999999999999"), u16::MAX), None);
    assert_eq!(parse_decimal(&chars(""), 255), None);
    assert_eq!(parse_decimal(&chars("+1"), 255), None);
    assert_eq!(parse_decimal(&chars("-1"), 255), None);
    assert_eq!(parse_decimal(&chars("1 "), 255), None);
    assert_eq!(parse_decimal(&chars("12a"), 255), None);
    assert_eq!(parse_decimal(&chars("999x"), 255), None);
    assert_eq!(parse_decimal(&chars("0"), 0), Some(0));
    assert_eq!(parse_decimal(&chars("1"), 0), None);
}

#[test]
fn splitting_keeps_empty_fields() {
    assert_eq!(fields("", '.'), vec![""]);
    assert_eq!(fields("abc", '.'), vec!["abc"]);
    assert_eq!(fields("a.b.c", '.'), vec!["a", "b", "c"]);
    assert_eq!(fields(".", '.'), vec!["", ""]);
    assert_eq!(fields("a..b", '.'), vec!["a", "", "b"]);
    assert_eq!(fields(".a.", '.'), vec!["", "a", ""]);
    assert_eq!(fields("::1", ':'), vec!["", "", "1"]);
    assert_eq!(fields("a.b", ':'), vec!["a.b"]);
}

#[test]
fn joining_the_fields_gives_the_text_back() {
    for text in ["", "a", "a.b", "..", ".a..b.", "192.168.1.10", "x.y.z."] {
        let parts = fields(text, '.');
        assert_eq!(parts.join("."), text);
        assert!(parts.iter().all(|p| !p.contains('.')));
    }
}

#[test]
fn last_occurrence() {
    assert_eq!(find_last(&chars(""), ':'), None);
    assert_eq!(find_last(&chars("abc"), ':'), None);
    assert_eq!(find_last(&chars(":"), ':'), Some(0));
    assert_eq!(find_last(&chars("a:b:c"), ':'), Some(3));
    assert_eq!(find_last(&chars("a:b:"), ':'), Some(3));
    assert_eq!(find_last(&chars(":ab"), ':'), Some(0));
}
