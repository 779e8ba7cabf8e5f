use termfix::text::{
    chars_of, parse_u32, push_decimal, push_words, string_from_chars, trim, trim_output,
    white_space, IntParseFailure,
};

#[test]
fn chars_of_unicode() {
    assert_eq!(chars_of("aé☃"), vec!['a', 'é', '☃']);
}

#[test]
fn string_from_char_range() {
    let v = vec!['x', 'y', 'z', 'w'];
    assert_eq!(string_from_chars(&v, 1, 3), "yz");
    assert_eq!(string_from_chars(&v, 2, 2), "");
}

#[test]
fn white_space_set() {
    for c in ['\t', '\n', '\u{b}', '\u{c}', '\r', ' ', '\u{85}', '\u{a0}', '\u{1680}', '\u{2000}', '\u{200a}', '\u{2028}', '\u{2029}', '\u{202f}', '\u{205f}', '\u{3000}'] {
        assert!(white_space(c), "{:?}", c);
        assert!(c.is_whitespace());
    }
    for c in ['a', '\u{200b}', '\u{feff}', '_', '\u{1}'] {
        assert!(!white_space(c), "{:?}", c);
        assert!(!c.is_whitespace());
    }
}

#[test]
fn trim_matches_std() {
    for s in ["  a b  ", "\u{3000}x\u{a0}", "", "   ", "q"] {
        assert_eq!(trim(s), s.trim());
    }
}

#[test]
fn trim_output_matches_std() {
    for s in ["\r\n\n  out  \n", "\n", " x", "\r\rline\r\n"] {
        assert_eq!(trim_output(s), s.trim_start_matches(['\r', '\n']).trim_end());
    }
}

#[test]
fn words_match_split_whitespace() {
    let mut out = vec!["first".to_string()];
    push_words(&mut out, " a  bc\u{2028}d ");
    assert_eq!(out, vec!["first", "a", "bc", "d"]);
}

#[test]
fn decimal_text() {
    let mut s = String::from("n=");
    push_decimal(&mut s, 0);
    assert_eq!(s, "n=0");
    let mut s = String::new();
    push_decimal(&mut s, 4294967295);
    assert_eq!(s, "4294967295");
}

fn parse(s: &str) -> Result<u32, IntParseFailure> {
    parse_u32(&chars_of(s))
}

#[test]
fn parse_u32_values() {
    assert_eq!(parse("0"), Ok(0));
    assert_eq!(parse("+42"), Ok(42));
    assert_eq!(parse("007"), Ok(7));
    assert_eq!(parse("4294967295"), Ok(u32::MAX));
}

#[test]
fn parse_u32_errors() {
    assert_eq!(parse(""), Err(IntParseFailure::Empty));
    assert_eq!(parse("+"), Err(IntParseFailure::InvalidDigit));
    assert_eq!(parse("-"), Err(IntParseFailure::InvalidDigit));
    assert_eq!(parse("-5"), Err(IntParseFailure::InvalidDigit));
    assert_eq!(parse("12a"), Err(IntParseFailure::InvalidDigit));
    assert_eq!(parse("4294967296"), Err(IntParseFailure::PosOverflow));
    assert_eq!(parse("99999999999x"), Err(IntParseFailure::PosOverflow));
}

#[test]
fn parse_u32_agrees_with_std() {
    for s in ["", "+", "-", "-0", "+0", "12", "4294967295", "4294967296", "1 2", "٣"] {
        let std_res = s.parse::<u32>();
        let mine = parse(s);
        match (std_res, mine) {
            (Ok(a), Ok(b)) => assert_eq!(a, b),
            (Err(e), Err(k)) => {
                let expected = match e.kind() {
                    std::num::IntErrorKind::Empty => IntParseFailure::Empty,
                    std::num::IntErrorKind::InvalidDigit => IntParseFailure::InvalidDigit,
                    std::num::IntErrorKind::PosOverflow => IntParseFailure::PosOverflow,
                    _ => panic!("unexpected kind"),
                };
                assert_eq!(k, expected, "{:?}", s);
            }
            (a, b) => panic!("{:?}: {:?} vs {:?}", s, a, b),
        }
    }
}
