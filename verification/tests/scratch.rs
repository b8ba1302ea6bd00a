use advent::scratch::{count_cards, numbers_in_text, parse_usize_chars, Card, Pile};

const PATTERN: &str = r"^Card\s*(?<c>\d+):(?<w>[\s\d]+)\|(?<o>[\s\d]+)$";

const EXAMPLE: [&str; 6] = [
    "Card 1: 41 48 83 86 17 | 83 86  6 31 17  9 48 53",
    "Card 2: 13 32 20 16 61 | 61 30 68 82 17 32 24 19",
    "Card 3:  1 21 53 59 44 | 69 82 63 72 16 21 14  1",
    "Card 4: 41 92 73 84 69 | 59 84 76 51 58  5 54 83",
    "Card 5: 87 83 26 28 32 | 88 30 70 12 93 22 82 36",
    "Card 6: 31 18 13 56 72 | 74 77 10 23 35 67 36 11",
];

fn card(number: usize, winning: &[i32], owned: &[i32]) -> Card {
    Card { number, winning: winning.to_vec(), owned: owned.to_vec() }
}

#[test]
fn card_is_read_from_a_line() {
    let c = Card::read(PATTERN, EXAMPLE[2]).unwrap();
    assert_eq!(c.number, 3);
    assert_eq!(c.winning, vec![1, 21, 53, 59, 44]);
    assert_eq!(c.owned, vec![69, 82, 63, 72, 16, 21, 14, 1]);
}

#[test]
fn card_read_refuses_other_lines() {
    assert!(Card::read(PATTERN, "").is_none());
    assert!(Card::read(PATTERN, "Card x: 1 | 2").is_none());
    assert!(Card::read(PATTERN, "Card 1: 1 2").is_none());
    assert!(Card::read(PATTERN, "Card 99999999999999999999: 1 | 2").is_none());
    assert!(Card::read("(", EXAMPLE[0]).is_none());
    assert!(Card::read(r"^Card\s*(?<c>\d+):", EXAMPLE[0]).is_none());
}

#[test]
fn numbers_in_a_text() {
    assert_eq!(numbers_in_text(" 83 86  6 31 "), vec![83, 86, 6, 31]);
    assert_eq!(numbers_in_text(""), vec![]);
    assert_eq!(numbers_in_text("1 x 2 99999999999 -3"), vec![1, 2, -3]);
    assert_eq!(numbers_in_text("1\t2 3"), vec![3]);
}

#[test]
fn usize_is_parsed() {
    let chars = |s: &str| s.chars().collect::<Vec<char>>();
    assert_eq!(parse_usize_chars(&chars("42")), Some(42));
    assert_eq!(parse_usize_chars(&chars("+42")), Some(42));
    assert_eq!(parse_usize_chars(&chars("0")), Some(0));
    assert_eq!(parse_usize_chars(&chars("-0")), None);
    assert_eq!(parse_usize_chars(&chars("-1")), None);
    assert_eq!(parse_usize_chars(&chars("")), None);
    assert_eq!(parse_usize_chars(&chars("9223372036854775807")), Some(i64::MAX as usize));
    assert_eq!(parse_usize_chars(&chars("9223372036854775808")), None);
}

#[test]
fn matching_numbers_counts_each_winning_number_once() {
    assert_eq!(card(1, &[41, 48, 83, 86, 17], &[83, 86, 6, 31, 17, 9, 48, 53]).matching_numbers(), 4);
    assert_eq!(card(1, &[1, 1, 1], &[1, 1]).matching_numbers(), 1);
    assert_eq!(card(1, &[1, 2, 3], &[]).matching_numbers(), 0);
    assert_eq!(card(1, &[], &[1, 2]).matching_numbers(), 0);
    assert_eq!(card(1, &[5, 2, 5, 2], &[2, 5, 7]).matching_numbers(), 2);
}

#[test]
fn pile_counts_copies() {
    let mut pile = Pile::new();
    assert_eq!(pile.total(), 0);
    assert_eq!(pile.copies(1), 0);
    assert!(pile.add_card(1, 2));
    assert_eq!((pile.copies(1), pile.copies(2), pile.copies(3), pile.copies(4)), (1, 1, 1, 0));
    assert_eq!(pile.total(), 3);
    assert!(pile.add_card(2, 1));
    assert_eq!((pile.copies(1), pile.copies(2), pile.copies(3)), (1, 2, 3));
    assert_eq!(pile.total(), 6);
    assert!(pile.add_card(3, 0));
    assert_eq!(pile.copies(3), 4);
    assert_eq!(pile.total(), 7);
}

#[test]
fn pile_reports_what_cannot_be_held() {
    let mut pile = Pile::new();
    assert!(pile.add_card(usize::MAX, 0));
    assert!(!pile.add_card(usize::MAX, 1));
    let mut pile = Pile::new();
    assert!(pile.add_card(usize::MAX - 1, 1));
    assert!(!pile.add_card(usize::MAX - 1, 2));
    let mut pile = Pile::new();
    let mut failed_at = None;
    for card in 1..100 {
        if !pile.add_card(card, 2) {
            failed_at = Some(card);
            break;
        }
    }
    assert_eq!(failed_at, Some(41));
}

#[test]
fn example_pile_holds_30_cards() {
    let cards: Vec<Card> = EXAMPLE.iter().map(|l| Card::read(PATTERN, l).unwrap()).collect();
    assert_eq!(
        cards.iter().map(|c| c.matching_numbers()).collect::<Vec<_>>(),
        vec![4, 2, 2, 1, 0, 0]
    );
    assert_eq!(count_cards(&cards), Some(30));
    assert_eq!(count_cards(&vec![]), Some(0));
}

#[test]
fn cards_beyond_the_table_still_count() {
    let cards = vec![card(1, &[1, 2, 3], &[1, 2, 3])];
    assert_eq!(count_cards(&cards), Some(4));
}
