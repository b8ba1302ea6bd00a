use advent::camel::{
    card_value_of, first_difference_of, has_joker, highest, highest_pair, replace_jokers,
    type_from_counts, winnings, Hand, HandType,
};
use std::cmp::Ordering;

fn hand(cards: &str, bid: usize) -> Hand {
    Hand::read(&format!("{} {}", cards, bid)).unwrap()
}

fn kind(cards: &str) -> HandType {
    hand(cards, 0).get_type()
}

fn improved(cards: &str) -> HandType {
    hand(cards, 0).improve().get_type()
}

#[test]
fn card_values_run_from_joker_to_ace() {
    let cards: Vec<char> = "J23456789TQKA".chars().collect();
    for (i, c) in cards.iter().enumerate() {
        assert_eq!(card_value_of(*c), Some(i));
    }
    assert_eq!(card_value_of('1'), None);
    assert_eq!(card_value_of('0'), None);
    assert_eq!(card_value_of('j'), None);
    assert_eq!(card_value_of(' '), None);
}

#[test]
fn hand_is_read_from_a_line() {
    let h = Hand::read("32T3K 765").unwrap();
    assert_eq!(h.values, vec![2, 1, 9, 2, 11]);
    assert_eq!(h.bid, 765);
    assert_eq!(Hand::read("KTJJT 220").unwrap().values, vec![11, 9, 0, 0, 9]);
}

#[test]
fn hand_read_refuses_other_shapes() {
    assert!(Hand::read("32T3K").is_none());
    assert!(Hand::read("32T3K 765 1").is_none());
    assert!(Hand::read("32T3K  765").is_none());
    assert!(Hand::read("32X3K 765").is_none());
    assert!(Hand::read("32T3K -765").is_none());
    assert!(Hand::read("32T3K x").is_none());
    assert!(Hand::read("").is_none());
    assert_eq!(Hand::read(" 7").unwrap().values, Vec::<usize>::new());
}

#[test]
fn types_of_hands() {
    assert_eq!(kind("23456"), HandType::HighCard);
    assert_eq!(kind("A23A4"), HandType::OnePair);
    assert_eq!(kind("23432"), HandType::TwoPairs);
    assert_eq!(kind("TTT98"), HandType::ThreeOfAKind);
    assert_eq!(kind("23332"), HandType::FullHouse);
    assert_eq!(kind("AA8AA"), HandType::FourOfAKind);
    assert_eq!(kind("AAAAA"), HandType::FiveOfAKind);
    assert_eq!(kind("JJJJJ"), HandType::FiveOfAKind);
    assert_eq!(kind("KTJJT"), HandType::TwoPairs);
}

#[test]
fn type_ranks_grow_with_strength() {
    let kinds = [
        HandType::HighCard,
        HandType::OnePair,
        HandType::TwoPairs,
        HandType::ThreeOfAKind,
        HandType::FullHouse,
        HandType::FourOfAKind,
        HandType::FiveOfAKind,
    ];
    for (i, k) in kinds.iter().enumerate() {
        assert_eq!(k.rank() as usize, i);
    }
    assert!(HandType::HighCard < HandType::FiveOfAKind);
}

#[test]
fn type_from_counts_follows_the_frequencies() {
    assert_eq!(type_from_counts(5, &vec![]), Some(HandType::HighCard));
    assert_eq!(type_from_counts(4, &vec![]), Some(HandType::OnePair));
    assert_eq!(type_from_counts(3, &vec![(1, 2), (2, 2), (3, 1)]), Some(HandType::TwoPairs));
    assert_eq!(type_from_counts(3, &vec![(1, 3), (2, 1), (3, 1)]), Some(HandType::ThreeOfAKind));
    assert_eq!(type_from_counts(2, &vec![(1, 3), (2, 2)]), Some(HandType::FullHouse));
    assert_eq!(type_from_counts(2, &vec![(1, 4), (2, 1)]), Some(HandType::FourOfAKind));
    assert_eq!(type_from_counts(1, &vec![(1, 5)]), Some(HandType::FiveOfAKind));
    assert_eq!(type_from_counts(3, &vec![]), None);
    assert_eq!(type_from_counts(1, &vec![(1, 2)]), None);
    assert_eq!(type_from_counts(1, &vec![(1, 3)]), None);
    assert_eq!(type_from_counts(2, &vec![(1, 5), (2, 1)]), None);
    assert_eq!(type_from_counts(1, &vec![(1, 2), (2, 1)]), Some(HandType::FiveOfAKind));
    assert_eq!(type_from_counts(1, &vec![(1, 4)]), Some(HandType::FourOfAKind));
}

#[test]
fn hand_without_jokers_stays() {
    let h = hand("32T3K", 765);
    let better = h.improve();
    assert_eq!(better.values, h.values);
    assert_eq!(better.bid, 765);
}

#[test]
fn jokers_take_the_best_value() {
    assert_eq!(hand("T55J5", 1).improve().values, vec![9, 4, 4, 4, 4]);
    assert_eq!(hand("KTJJT", 1).improve().values, vec![11, 9, 9, 9, 9]);
    assert_eq!(hand("QQQJA", 1).improve().values, vec![10, 10, 10, 10, 12]);
    assert_eq!(hand("JJJJJ", 9).improve().values, vec![12, 12, 12, 12, 12]);
    assert_eq!(hand("2345J", 1).improve().values, vec![1, 2, 3, 4, 4]);
    assert_eq!(hand("22J33", 1).improve().values, vec![1, 1, 2, 2, 2]);
    assert_eq!(hand("JJ332", 1).improve().values, vec![2, 2, 2, 2, 1]);
    assert_eq!(hand("JJJJ7", 1).improve().values, vec![6, 6, 6, 6, 6]);
    assert_eq!(hand("JJJ88", 1).improve().values, vec![7, 7, 7, 7, 7]);
    assert_eq!(hand("T55J5", 684).improve().bid, 684);
}

#[test]
fn jokers_among_equally_frequent_cards_take_one_of_them() {
    let better = hand("JJ234", 1).improve().values;
    assert!(better == vec![1, 1, 1, 2, 3] || better == vec![2, 2, 1, 2, 3] || better == vec![3, 3, 1, 2, 3]);
    let better = hand("JJJ23", 1).improve().values;
    assert!(better == vec![1, 1, 1, 1, 2] || better == vec![2, 2, 2, 1, 2]);
}

#[test]
fn improved_types() {
    assert_eq!(improved("32T3K"), HandType::OnePair);
    assert_eq!(improved("T55J5"), HandType::FourOfAKind);
    assert_eq!(improved("KK677"), HandType::TwoPairs);
    assert_eq!(improved("KTJJT"), HandType::FourOfAKind);
    assert_eq!(improved("QQQJA"), HandType::FourOfAKind);
    assert_eq!(improved("JJJJJ"), HandType::FiveOfAKind);
    assert_eq!(improved("2345J"), HandType::OnePair);
    assert_eq!(improved("22J33"), HandType::FullHouse);
    assert_eq!(improved("JJ234"), HandType::ThreeOfAKind);
    assert_eq!(improved("JJJ23"), HandType::FourOfAKind);
    assert_eq!(improved("JJJ22"), HandType::FiveOfAKind);
    assert_eq!(improved("JJJJ2"), HandType::FiveOfAKind);
}

#[test]
fn helpers_of_improve() {
    assert!(has_joker(&vec![3, 0, 1]));
    assert!(!has_joker(&vec![3, 2, 1]));
    assert!(!has_joker(&vec![]));
    assert_eq!(highest(&vec![3, 9, 1]), 9);
    assert_eq!(highest_pair(&vec![(4, 2), (7, 2), (9, 1)]), 7);
    assert_eq!(highest_pair(&vec![(9, 3)]), 0);
    assert_eq!(replace_jokers(&vec![0, 3, 0], 8), vec![8, 3, 8]);
}

#[test]
fn first_difference_of_cards() {
    assert_eq!(first_difference_of(&vec![1, 2, 3], &vec![1, 2, 4]), Some(2));
    assert_eq!(first_difference_of(&vec![1, 2, 3], &vec![1, 2, 3]), None);
    assert_eq!(first_difference_of(&vec![1, 2], &vec![1, 2, 3]), None);
    assert_eq!(first_difference_of(&vec![5], &vec![4, 5]), Some(0));
}

#[test]
fn order_of_hands() {
    assert_eq!(hand("32T3K", 0).cmp(&hand("KK677", 0)), Ordering::Less);
    assert_eq!(hand("KK677", 0).cmp(&hand("T55J5", 0)), Ordering::Less);
    assert_eq!(hand("T55J5", 0).cmp(&hand("QQQJA", 0)), Ordering::Less);
    assert_eq!(hand("QQQJA", 0).cmp(&hand("KTJJT", 0)), Ordering::Less);
    assert_eq!(hand("KTJJT", 0).cmp(&hand("QQQJA", 0)), Ordering::Greater);
    assert_eq!(hand("KTJJT", 1).cmp(&hand("KTJJT", 2)), Ordering::Equal);
    assert_eq!(hand("JKKK2", 0).cmp(&hand("QQQQ2", 0)), Ordering::Less);
    assert_eq!(hand("JJJJJ", 0).cmp(&hand("AAAAA", 0)), Ordering::Less);
    assert_eq!(hand("22222", 0).cmp(&hand("JJJJJ", 0)), Ordering::Greater);
    assert_eq!(hand("KTJJT", 0).partial_cmp(&hand("QQQJA", 0)), Some(Ordering::Greater));
}

#[test]
fn winnings_multiply_bids_by_ranks() {
    let hands = vec![hand("32T3K", 765), hand("KK677", 28), hand("T55J5", 684)];
    assert_eq!(winnings(&hands), Some(765 + 2 * 28 + 3 * 684));
    assert_eq!(winnings(&vec![]), Some(0));
    let bid = |bid: usize| Hand { values: vec![1, 1, 1, 1, 1], bid };
    assert_eq!(winnings(&vec![bid(usize::MAX)]), Some(usize::MAX));
    assert_eq!(winnings(&vec![bid(1), bid(usize::MAX)]), None);
    assert_eq!(winnings(&vec![bid(1), bid(usize::MAX / 2)]), Some(usize::MAX));
    assert_eq!(winnings(&vec![bid(2), bid(usize::MAX / 2)]), None);
    assert_eq!(winnings(&vec![bid(0), bid(usize::MAX / 2 + 1)]), None);
}

#[test]
fn example_wins_5905() {
    let mut hands: Vec<Hand> = ["32T3K 765", "T55J5 684", "KK677 28", "KTJJT 220", "QQQJA 483"]
        .iter()
        .map(|l| Hand::read(l).unwrap())
        .collect();
    hands.sort_by(|a, b| a.cmp(b));
    assert_eq!(
        hands.iter().map(|h| h.bid).collect::<Vec<_>>(),
        vec![765, 28, 684, 483, 220]
    );
    assert_eq!(winnings(&hands), Some(5905));
}
