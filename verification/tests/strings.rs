use sweeper::strings::{chars_of, is_whitespace, lines, parse_i32, split_fields};

const SAMPLES: [&str; 16] = [
    "",
    " ",
    "abc",
    "  a b  ",
    "a  b",
    " 1 2 3 ",
    "\t\r\n x \u{3000}",
    "\u{a0}word\u{2009}",
    "one\ntwo\r\nthree",
    "end with newline\n",
    "bare\rreturn",
    "trailing return\r",
    "\n\n",
    "\r\n",
    "x\u{85}y",
    "é ü",
];

#[test]
fn chars_of_keeps_every_char() {
    for s in SAMPLES.iter() {
        assert_eq!(chars_of(s), s.chars().collect::<Vec<char>>());
    }
}

#[test]
fn whitespace_agrees_with_std() {
    for u in 0u32..0x3100 {
        if let Some(c) = char::from_u32(u) {
            assert_eq!(is_whitespace(c), c.is_whitespace(), "char {:#x}", u);
        }
    }
    assert!(!is_whitespace('\u{200B}'));
    assert!(!is_whitespace('\u{FEFF}'));
}

#[test]
fn split_fields_agrees_with_std() {
    for s in SAMPLES.iter() {
        let expected: Vec<&str> = s.split(' ').collect();
        assert_eq!(split_fields(s), expected);
    }
}

#[test]
fn split_fields_examples() {
    assert_eq!(split_fields("1 2 3"), vec!["1", "2", "3"]);
    assert_eq!(split_fields(""), vec![""]);
    assert_eq!(split_fields("1  2"), vec!["1", "", "2"]);
    assert_eq!(split_fields(" 7 "), vec!["", "7", ""]);
}

#[test]
fn split_and_join_round_trip() {
    for s in SAMPLES.iter() {
        assert_eq!(split_fields(s).join(" "), *s);
    }
}

#[test]
fn lines_agrees_with_std() {
    for s in SAMPLES.iter() {
        let expected: Vec<&str> = s.lines().collect();
        assert_eq!(lines(s), expected, "text {:?}", s);
    }
}

#[test]
fn lines_examples() {
    assert_eq!(lines("a\r\nb\nc"), vec!["a", "b", "c"]);
    assert_eq!(lines("a\n"), vec!["a"]);
    assert_eq!(lines(""), Vec::<&str>::new());
    assert_eq!(lines("\n"), vec![""]);
    assert_eq!(lines("a\rb"), vec!["a\rb"]);
}

#[test]
fn parse_i32_agrees_with_std() {
    let inputs = [
        "0", "7", "-7", "+7", "007", "-0", "", "-", "+", "+-1", "1 ", " 1", "12a", "a",
        "2147483647", "2147483648", "-2147483648", "-2147483649", "99999999999999999999",
        "-99999999999999999999", "٣", "1_000", "0x10",
    ];
    for s in inputs.iter() {
        assert_eq!(parse_i32(s), s.parse::<i32>().ok(), "input {:?}", s);
    }
}

#[test]
fn parse_i32_examples() {
    assert_eq!(parse_i32("42"), Some(42));
    assert_eq!(parse_i32("-2147483648"), Some(i32::MIN));
    assert_eq!(parse_i32("2147483648"), None);
    assert_eq!(parse_i32("4 2"), None);
}
