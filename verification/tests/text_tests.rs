use sysmon::text::{
    chars_of, is_digit_char, is_space_char, concat3, decimal_chars, lex_le_chars, parse_u64_chars, split_lines, split_words,
    trimmed,
};

fn parse(s: &str) -> Option<u64> {
    parse_u64_chars(&chars_of(s))
}

fn lines_of(s: &str) -> Vec<String> {
    split_lines(&chars_of(s)).iter().map(|l| l.iter().collect()).collect()
}

fn words_of(s: &str) -> Vec<String> {
    split_words(&chars_of(s)).iter().map(|l| l.iter().collect()).collect()
}

#[test]
fn parse_u64_matches_std() {
    for s in [
        "0", "42", "+7", "", "+", "-1", "12a", " 1", "18446744073709551615",
        "18446744073709551616", "99999999999999999999", "007", "++1", "١٢",
    ] {
        assert_eq!(parse(s), s.parse::<u64>().ok(), "input {:?}", s);
    }
}

#[test]
fn lines_match_std() {
    for s in ["", "a", "a\n", "a\nb", "a\r\nb\r\n", "\n\n", "x\r", "a\rb\nc", "\r\n"] {
        let expected: Vec<String> = s.lines().map(|l| l.to_string()).collect();
        assert_eq!(lines_of(s), expected, "input {:?}", s);
    }
}

#[test]
fn words_match_std() {
    for s in ["", "  ", "a b  c", "\tx\ny\u{3000}z ", "   8       0 sda 1 2"] {
        let expected: Vec<String> = s.split_whitespace().map(|l| l.to_string()).collect();
        assert_eq!(words_of(s), expected, "input {:?}", s);
    }
}

#[test]
fn trim_matches_std() {
    for s in ["", "  x  ", "\n12\n", "a b", "\u{2003}m\u{a0}"] {
        assert_eq!(trimmed(s), s.trim(), "input {:?}", s);
    }
}

#[test]
fn decimal_digits() {
    for n in [0u64, 7, 10, 128, 18446744073709551615] {
        let s: String = decimal_chars(n).iter().collect();
        assert_eq!(s, n.to_string());
    }
}

#[test]
fn concatenation() {
    assert_eq!(concat3("/a/", &chars_of("b"), "/c"), "/a/b/c");
}

#[test]
fn lexicographic_order_matches_string_order() {
    let names = ["", "a", "ab", "b", "sda", "sdb", "nvme0n1", "nvme10n1", "é", "z"];
    for a in names {
        for b in names {
            assert_eq!(lex_le_chars(&chars_of(a), &chars_of(b)), a <= b, "{:?} {:?}", a, b);
        }
    }
}

#[test]
fn whitespace_and_digits_match_std() {
    for u in 0u32..0x3100 {
        if let Some(c) = char::from_u32(u) {
            assert_eq!(is_space_char(c), c.is_whitespace(), "U+{:04X}", u);
            assert_eq!(is_digit_char(c), c.is_ascii_digit(), "U+{:04X}", u);
        }
    }
    for c in ['\u{feff}', '\u{180e}', '\u{10ffff}'] {
        assert_eq!(is_space_char(c), c.is_whitespace());
    }
}
