use advent::text::{
    chars_of, ends_with, find_from, is_space_char, numbers_of, occurs_at, parse_i64_chars,
    slice_of, split_chars, split_on_chars, starts_with, string_of, trim_chars,
};

fn chars(s: &str) -> Vec<char> {
    s.chars().collect()
}

fn strings(pieces: &[Vec<char>]) -> Vec<String> {
    pieces.iter().map(|p| p.iter().collect()).collect()
}

#[test]
fn chars_and_strings_round_trip() {
    assert_eq!(chars_of("héllo"), chars("héllo"));
    assert_eq!(chars_of(""), chars(""));
    assert_eq!(string_of(&chars("wörld")), "wörld");
    assert_eq!(slice_of(&chars("abcdef"), 2, 4), chars("cd"));
    assert_eq!(slice_of(&chars("abcdef"), 3, 3), chars(""));
}

#[test]
fn split_matches_std() {
    for text in ["a b c", "", " ", "a  b", " a", "a ", "abc", "  "] {
        let expected: Vec<String> = text.split(' ').map(|s| s.to_string()).collect();
        assert_eq!(strings(&split_chars(&chars(text), ' ')), expected, "{:?}", text);
    }
}

#[test]
fn split_on_matches_std() {
    for text in ["a\n\nb", "", "\n\n", "a\n\n\nb", "\n\n\n\n", "a\nb", "x\n\n", "\n\ny\n"] {
        let expected: Vec<String> = text.split("\n\n").map(|s| s.to_string()).collect();
        assert_eq!(strings(&split_on_chars(&chars(text), &chars("\n\n"))), expected, "{:?}", text);
    }
    assert_eq!(strings(&split_on_chars(&chars("abc"), &chars(""))), vec!["abc"]);
    assert_eq!(strings(&split_on_chars(&chars("aaa"), &chars("aa"))), vec!["", "a"]);
}

#[test]
fn trim_matches_std() {
    for text in ["  a b  ", "", "   ", "\n\ta\r\n", "a", "\u{a0}x\u{3000}", "\u{200b}x", "\u{85}y\u{2028}"] {
        assert_eq!(string_of(&trim_chars(&chars(text))), text.trim(), "{:?}", text);
    }
}

#[test]
fn white_space_matches_std() {
    for code in 0..0x3100u32 {
        if let Some(c) = char::from_u32(code) {
            assert_eq!(is_space_char(c), c.is_whitespace(), "{:x}", code);
        }
    }
    assert!(!is_space_char('\u{feff}'));
}

#[test]
fn prefixes_and_suffixes() {
    assert!(starts_with(&chars("seeds: 1"), &chars("seeds: ")));
    assert!(!starts_with(&chars("seed"), &chars("seeds: ")));
    assert!(starts_with(&chars("abc"), &chars("")));
    assert!(ends_with(&chars("a-b map:"), &chars(" map:")));
    assert!(!ends_with(&chars("map:"), &chars(" map:")));
    assert!(ends_with(&chars(""), &chars("")));
    assert!(occurs_at(&chars("abcabc"), &chars("bc"), 4));
    assert!(!occurs_at(&chars("abcabc"), &chars("bc"), 3));
}

#[test]
fn find_matches_std() {
    for (text, pattern) in [("abcabc", "bc"), ("abc", "x"), ("", ""), ("abc", ""), ("aab", "ab"), ("ab", "abc")] {
        let expected = text.find(pattern);
        assert_eq!(find_from(&chars(text), &chars(pattern), 0), expected, "{:?} {:?}", text, pattern);
    }
    assert_eq!(find_from(&chars("abcabc"), &chars("bc"), 2), Some(4));
    assert_eq!(find_from(&chars("abcabc"), &chars("bc"), 5), None);
    assert_eq!(find_from(&chars("abc"), &chars(""), 3), Some(3));
}

#[test]
fn parse_i64_matches_std() {
    for text in [
        "0", "-0", "+0", "42", "-42", "+42", "007", "", "+", "-", "--1", "+-1", "1 ", " 1", "1.0",
        "１", "x", "9223372036854775807", "9223372036854775808", "-9223372036854775808",
        "-9223372036854775809", "99999999999999999999999999", "1_000",
    ] {
        assert_eq!(parse_i64_chars(&chars(text)), text.parse::<i64>().ok(), "{:?}", text);
    }
}

#[test]
fn numbers_pass_over_what_is_no_number() {
    let tokens: Vec<Vec<char>> = ["12", "", "x", "-3", "4\n"].iter().map(|t| chars(t)).collect();
    assert_eq!(numbers_of(&tokens), vec![12, -3]);
    assert_eq!(numbers_of(&vec![]), vec![]);
}
