use advent::trebuchet::{
    calibration_sum_of, calibration_value_of, first_digit_of, replace_leftmost, reversed,
    with_keys_reversed,
};

fn words() -> Vec<(String, String)> {
    [
        ("zero", "0"),
        ("one", "1"),
        ("two", "2"),
        ("three", "3"),
        ("four", "4"),
        ("five", "5"),
        ("six", "6"),
        ("seven", "7"),
        ("eight", "8"),
        ("nine", "9"),
    ]
    .iter()
    .map(|(k, v)| (k.to_string(), v.to_string()))
    .collect()
}

fn pairs(list: &[(&str, &str)]) -> Vec<(String, String)> {
    list.iter().map(|(k, v)| (k.to_string(), v.to_string())).collect()
}

#[test]
fn replace_leftmost_replaces_the_leftmost_key_once() {
    assert_eq!(replace_leftmost("eightwothree", &words()), "8wothree");
    assert_eq!(replace_leftmost("xtwone3four", &words()), "x2ne3four");
    assert_eq!(replace_leftmost("oneone", &words()), "1one");
    assert_eq!(replace_leftmost("7pqrstsixteen", &words()), "7pqrst6teen");
}

#[test]
fn replace_leftmost_without_a_key_leaves_the_line() {
    assert_eq!(replace_leftmost("abc123", &words()), "abc123");
    assert_eq!(replace_leftmost("", &words()), "");
    assert_eq!(replace_leftmost("one", &vec![]), "one");
}

#[test]
fn replace_leftmost_first_listed_wins_a_tie() {
    assert_eq!(replace_leftmost("abcd", &pairs(&[("ab", "1"), ("abc", "2")])), "1cd");
    assert_eq!(replace_leftmost("abcd", &pairs(&[("abc", "2"), ("ab", "1")])), "2d");
    assert_eq!(replace_leftmost("abcd", &pairs(&[("cd", "1"), ("bc", "2")])), "a2d");
}

#[test]
fn replace_leftmost_with_empty_key_inserts_at_the_start() {
    assert_eq!(replace_leftmost("abc", &pairs(&[("", "X")])), "Xabc");
    assert_eq!(replace_leftmost("", &pairs(&[("", "X")])), "");
    assert_eq!(replace_leftmost("abc", &pairs(&[("a", "1"), ("", "X")])), "1bc");
}

#[test]
fn replace_leftmost_can_grow_and_shrink_the_line() {
    assert_eq!(replace_leftmost("a-b", &pairs(&[("-", " minus ")])), "a minus b");
    assert_eq!(replace_leftmost("héllo wörld", &pairs(&[("llo", "")])), "hé wörld");
}

#[test]
fn first_digit_is_found() {
    let chars = |s: &str| s.chars().collect::<Vec<char>>();
    assert_eq!(first_digit_of(&chars("ab3c4")), Some(3));
    assert_eq!(first_digit_of(&chars("abc")), None);
    assert_eq!(first_digit_of(&chars("0")), Some(0));
    assert_eq!(first_digit_of(&chars("x९9")), Some(9));
}

#[test]
fn reversed_turns_the_characters_round() {
    let chars = |s: &str| s.chars().collect::<Vec<char>>();
    assert_eq!(reversed(&chars("abc")), chars("cba"));
    assert_eq!(reversed(&chars("")), chars(""));
}

#[test]
fn keys_are_reversed() {
    let back = with_keys_reversed(&pairs(&[("one", "1"), ("three", "3")]));
    assert_eq!(back, pairs(&[("eno", "1"), ("eerht", "3")]));
}

#[test]
fn calibration_values_of_the_example() {
    let trans = words();
    let rtrans = with_keys_reversed(&trans);
    let expected = [
        ("two1nine", 29),
        ("eightwothree", 83),
        ("abcone2threexyz", 13),
        ("xtwone3four", 24),
        ("4nineeightseven2", 42),
        ("zoneight234", 14),
        ("7pqrstsixteen", 76),
    ];
    for (line, value) in expected {
        assert_eq!(calibration_value_of(line, &trans, &rtrans), Some(value), "{}", line);
    }
    assert_eq!(calibration_value_of("no digits", &trans, &rtrans), None);
    assert_eq!(calibration_value_of("", &trans, &rtrans), None);
    assert_eq!(calibration_value_of("oneight", &trans, &rtrans), Some(18));
    assert_eq!(calibration_value_of("5", &trans, &rtrans), Some(55));
}

#[test]
fn calibration_sum_of_the_example_is_281() {
    let lines: Vec<String> = [
        "two1nine",
        "eightwothree",
        "abcone2threexyz",
        "xtwone3four",
        "4nineeightseven2",
        "zoneight234",
        "7pqrstsixteen",
        "",
    ]
    .iter()
    .map(|l| l.to_string())
    .collect();
    assert_eq!(calibration_sum_of(&lines, &words()), Some(281));
    assert_eq!(calibration_sum_of(&vec![], &words()), Some(0));
}

#[test]
fn calibration_sum_of_plain_digits_is_142() {
    let lines: Vec<String> =
        ["1abc2", "pqr3stu8vwx", "a1b2c3d4e5f", "treb7uchet"].iter().map(|l| l.to_string()).collect();
    assert_eq!(calibration_sum_of(&lines, &vec![]), Some(142));
}
