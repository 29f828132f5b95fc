use library::io::{FromInput, StdinSource, TokenStep};

fn token(step: TokenStep) -> Option<String> {
    match step {
        TokenStep::Token(s) => Some(s),
        _ => None,
    }
}

#[test]
fn tokens_split_on_ascii_whitespace() {
    let mut src = StdinSource::new();
    assert!(matches!(src.next_token(), TokenStep::NeedLine));
    src.refill(b"  12 abc\t-7\r\n".to_vec());
    assert_eq!(token(src.next_token()), Some("12".to_string()));
    assert_eq!(token(src.next_token()), Some("abc".to_string()));
    assert_eq!(token(src.next_token()), Some("-7".to_string()));
    assert!(matches!(src.next_token(), TokenStep::NeedLine));
    assert!(matches!(src.next_token(), TokenStep::NeedLine));
}

#[test]
fn refill_starts_a_new_line() {
    let mut src = StdinSource::default();
    src.refill(b"x".to_vec());
    assert_eq!(token(src.next_token()), Some("x".to_string()));
    src.refill(b"\x0cy z\n".to_vec());
    assert_eq!(token(src.next_token()), Some("y".to_string()));
    assert_eq!(token(src.next_token()), Some("z".to_string()));
    assert!(matches!(src.next_token(), TokenStep::NeedLine));
}

#[test]
fn multibyte_tokens_and_invalid_bytes() {
    let mut src = StdinSource::new();
    src.refill("あい b".as_bytes().to_vec());
    assert_eq!(token(src.next_token()), Some("あい".to_string()));
    assert_eq!(token(src.next_token()), Some("b".to_string()));
    src.refill(vec![0x20, 0xff, 0xfe, 0x20, b'k']);
    assert!(matches!(src.next_token(), TokenStep::NotUtf8));
    assert_eq!(token(src.next_token()), Some("k".to_string()));
}

#[test]
fn integers_read_as_str_parse_does() {
    assert_eq!(i32::read_from("42"), Some(42));
    assert_eq!(i32::read_from("-2147483648"), Some(i32::MIN));
    assert_eq!(i32::read_from("2147483647"), Some(i32::MAX));
    assert_eq!(i32::read_from("2147483648"), None);
    assert_eq!(i32::read_from("+15"), Some(15));
    assert_eq!(i32::read_from("-"), None);
    assert_eq!(i32::read_from(""), None);
    assert_eq!(i32::read_from("1x"), None);
    assert_eq!(u8::read_from("255"), Some(255));
    assert_eq!(u8::read_from("256"), None);
    assert_eq!(u8::read_from("-0"), None);
    assert_eq!(u8::read_from("+0"), Some(0));
    assert_eq!(i8::read_from("-128"), Some(-128));
    assert_eq!(i8::read_from("-129"), None);
    assert_eq!(i64::read_from("-0"), Some(0));
    assert_eq!(u64::read_from("18446744073709551615"), Some(u64::MAX));
    assert_eq!(u128::read_from("340282366920938463463374607431768211455"), Some(u128::MAX));
    assert_eq!(u128::read_from("340282366920938463463374607431768211456"), None);
    assert_eq!(i128::read_from("-170141183460469231731687303715884105728"), Some(i128::MIN));
    assert_eq!(usize::read_from("007"), Some(7));
    assert_eq!(isize::read_from("-12"), Some(-12));
    assert_eq!(u16::read_from("65535"), Some(65535));
    assert_eq!(i16::read_from("-32769"), None);
    assert_eq!(u32::read_from("4294967295"), Some(u32::MAX));
}

#[test]
fn other_values_read_as_str_parse_does() {
    for t in ["true", "false", "True", "", "truee", "0"] {
        assert_eq!(bool::read_from(t), t.parse::<bool>().ok());
    }
    for t in ["x", "あ", "xy", ""] {
        assert_eq!(char::read_from(t), t.parse::<char>().ok());
    }
    assert_eq!(String::read_from("hello"), Some("hello".to_string()));
    for t in ["0", "-1", "+1", "99999999999", "-99999999999", "1_000", " 1", "12a"] {
        assert_eq!(i64::read_from(t), t.parse::<i64>().ok());
        assert_eq!(u32::read_from(t), t.parse::<u32>().ok());
    }
}

#[test]
fn tokens_of_lines_are_tokens_of_the_whole_input() {
    let input = "3 1\n\n  4 1\t5\n9 26\n";
    let expected: Vec<String> = input.split_ascii_whitespace().map(|t| t.to_string()).collect();
    let mut src = StdinSource::new();
    let mut got: Vec<String> = Vec::new();
    let mut lines = input.split_inclusive('\n');
    loop {
        match src.next_token() {
            TokenStep::Token(s) => got.push(s),
            TokenStep::NotUtf8 => panic!("input is UTF-8"),
            TokenStep::NeedLine => match lines.next() {
                Some(line) => src.refill(line.as_bytes().to_vec()),
                None => break,
            },
        }
    }
    assert_eq!(got, expected);
}
