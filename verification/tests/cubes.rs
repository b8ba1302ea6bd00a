use advent::cubes::{
    add_score, are_all_possible, game_id, parse_i32_chars, score_game, score_line, tally_games,
    Hand,
};

const GAMES: [&str; 5] = [
    "Game 1: 3 blue, 4 red; 1 red, 2 green, 6 blue; 2 green",
    "Game 2: 1 blue, 2 green; 3 green, 4 blue, 1 red; 1 green, 1 blue",
    "Game 3: 8 green, 6 blue, 20 red; 5 blue, 4 red, 13 green; 5 green, 1 red",
    "Game 4: 1 green, 3 red, 6 blue; 3 green, 6 red; 3 green, 15 blue, 14 red",
    "Game 5: 6 red, 1 blue, 3 green; 2 blue, 1 red, 2 green",
];

fn id_pattern() -> String {
    r"^Game (?<id>\d+):".to_string()
}

fn hand_pattern() -> String {
    let r = r"\s*((?<red>\d+) red)\s*";
    let g = r"\s*((?<green>\d+) green)\s*";
    let b = r"\s*((?<blue>\d+) blue)\s*";
    format!(r"(?<hand>({}|{}|{}),?)+(;|$)", r, g, b)
}

fn hand(red: i32, green: i32, blue: i32) -> Hand {
    Hand { red, green, blue }
}

#[test]
fn hand_is_possible_within_the_bag() {
    assert!(hand(12, 13, 14).is_possible());
    assert!(hand(0, 0, 0).is_possible());
    assert!(!hand(13, 0, 0).is_possible());
    assert!(!hand(0, 14, 0).is_possible());
    assert!(!hand(0, 0, 15).is_possible());
    assert!(hand(-1, -1, -1).is_possible());
}

#[test]
fn requirements_are_the_greatest_of_each_colour() {
    let hands = vec![hand(4, 0, 3), hand(1, 2, 6), hand(0, 2, 0)];
    assert_eq!(Hand::get_requirements(&hands), hand(4, 2, 6));
    assert_eq!(Hand::get_requirements(&vec![]), hand(0, 0, 0));
    assert_eq!(Hand::get_requirements(&vec![hand(-3, 5, -1)]), hand(0, 5, 0));
}

#[test]
fn collect_from_game_reads_each_hand() {
    let hands = Hand::collect_from_game(&hand_pattern(), GAMES[0]).unwrap();
    assert_eq!(hands, vec![hand(4, 0, 3), hand(1, 2, 6), hand(0, 2, 0)]);
    let hands = Hand::collect_from_game(&hand_pattern(), GAMES[2]).unwrap();
    assert_eq!(hands, vec![hand(20, 8, 6), hand(4, 13, 5), hand(1, 5, 0)]);
}

#[test]
fn collect_from_game_without_hands_is_empty() {
    assert_eq!(Hand::collect_from_game(&hand_pattern(), "nothing here"), Some(vec![]));
}

#[test]
fn collect_from_game_refuses_bad_pattern_and_big_numbers() {
    assert_eq!(Hand::collect_from_game("(", GAMES[0]), None);
    assert_eq!(Hand::collect_from_game(&hand_pattern(), "Game 1: 99999999999 red"), None);
    assert_eq!(
        Hand::collect_from_game(&hand_pattern(), "Game 1: 2147483647 red"),
        Some(vec![hand(2147483647, 0, 0)])
    );
    assert_eq!(Hand::collect_from_game(&hand_pattern(), "Game 1: 2147483648 red"), None);
}

#[test]
fn collect_from_game_with_pattern_without_colours_gives_empty_hands() {
    assert_eq!(Hand::collect_from_game(r"\d+", "1 2"), Some(vec![hand(0, 0, 0), hand(0, 0, 0)]));
}

#[test]
fn game_id_reads_the_number() {
    assert_eq!(game_id(&id_pattern(), GAMES[3]), Some(4));
    assert_eq!(game_id(&id_pattern(), "Game 100: 1 red"), Some(100));
    assert_eq!(game_id(&id_pattern(), "game 1: 1 red"), None);
    assert_eq!(game_id(&id_pattern(), ""), None);
    assert_eq!(game_id(&id_pattern(), "Game 99999999999: 1 red"), None);
    assert_eq!(game_id(r"^Game (\d+):", GAMES[3]), None);
}

#[test]
fn parse_i32_limits() {
    let chars = |s: &str| s.chars().collect::<Vec<char>>();
    assert_eq!(parse_i32_chars(&chars("2147483647")), Some(i32::MAX));
    assert_eq!(parse_i32_chars(&chars("-2147483648")), Some(i32::MIN));
    assert_eq!(parse_i32_chars(&chars("2147483648")), None);
    assert_eq!(parse_i32_chars(&chars("-2147483649")), None);
    assert_eq!(parse_i32_chars(&chars("+7")), Some(7));
    assert_eq!(parse_i32_chars(&chars("")), None);
}

#[test]
fn all_possible_hands() {
    assert!(are_all_possible(&vec![]));
    assert!(are_all_possible(&vec![hand(1, 1, 1), hand(12, 13, 14)]));
    assert!(!are_all_possible(&vec![hand(1, 1, 1), hand(20, 8, 6)]));
}

#[test]
fn score_of_one_game() {
    let hands = vec![hand(4, 0, 3), hand(1, 2, 6), hand(0, 2, 0)];
    assert_eq!(score_game(1, &hands), Some((1, 48)));
    let hands = vec![hand(20, 8, 6), hand(4, 13, 5), hand(1, 5, 0)];
    assert_eq!(score_game(3, &hands), Some((0, 1560)));
    assert_eq!(score_game(9, &vec![]), Some((9, 0)));
    assert_eq!(score_game(1, &vec![hand(100000, 100000, 1)]), None);
    assert_eq!(score_game(1, &vec![hand(40000, 40000, 2)]), None);
}

#[test]
fn add_score_checks_both_sums() {
    assert_eq!(add_score((1, 2), Some((3, 4))), Some((4, 6)));
    assert_eq!(add_score((1, 2), None), None);
    assert_eq!(add_score((i32::MAX, 0), Some((1, 0))), None);
    assert_eq!(add_score((0, i32::MAX), Some((0, 1))), None);
}

#[test]
fn score_of_lines() {
    assert_eq!(score_line(&id_pattern(), &hand_pattern(), GAMES[1]), Some((2, 12)));
    assert_eq!(score_line(&id_pattern(), &hand_pattern(), GAMES[3]), Some((0, 630)));
    assert_eq!(score_line(&id_pattern(), &hand_pattern(), ""), Some((0, 0)));
    assert_eq!(score_line(&id_pattern(), "(", GAMES[1]), None);
}

#[test]
fn example_games_sum_to_8_and_2286() {
    let lines: Vec<String> = GAMES.iter().map(|l| l.to_string()).collect();
    assert_eq!(tally_games(&id_pattern(), &hand_pattern(), &lines), Some((8, 2286)));
    assert_eq!(tally_games(&id_pattern(), &hand_pattern(), &vec![]), Some((0, 0)));
}
