//! Hands of five cards: their type, what jokers make of them, and their
//! order.
use crate::scratch::{parse_usize, parse_usize_chars};
use crate::tally::{count_values, distinct_values, is_ranking, most_common, tally};
use crate::text::{chars_of, split, split_chars, views};
use vstd::multiset::Multiset;
use vstd::prelude::*;

verus! {

broadcast use vstd::seq_lib::group_to_multiset_ensures;

/// The type of a hand, from the weakest to the strongest.
#[derive(Clone, Copy, Debug, PartialEq, Eq, PartialOrd, Ord, Structural)]
pub enum HandType {
    HighCard,
    OnePair,
    TwoPairs,
    ThreeOfAKind,
    FullHouse,
    FourOfAKind,
    FiveOfAKind,
}

/// The cards of a hand, each by its value, and the bid. The value 0 is the
/// joker.
#[derive(Clone, Debug)]
pub struct Hand {
    pub values: Vec<usize>,
    pub bid: usize,
}

impl HandType {
    /// The strength of the type: 0 for the weakest, 6 for the strongest.
    pub open spec fn strength(self) -> int {
        match self {
            HandType::HighCard => 0,
            HandType::OnePair => 1,
            HandType::TwoPairs => 2,
            HandType::ThreeOfAKind => 3,
            HandType::FullHouse => 4,
            HandType::FourOfAKind => 5,
            HandType::FiveOfAKind => 6,
        }
    }

    /// The strength of the type: 0 for the weakest, 6 for the strongest.
    pub fn rank(&self) -> (rank: u8)
        ensures
            rank == self.strength(),
    {
        match self {
            HandType::HighCard => 0,
            HandType::OnePair => 1,
            HandType::TwoPairs => 2,
            HandType::ThreeOfAKind => 3,
            HandType::FullHouse => 4,
            HandType::FourOfAKind => 5,
            HandType::FiveOfAKind => 6,
        }
    }
}

/// The type of the five cards `values`: it goes by the number of different
/// values among them and by how often the most frequent one occurs.
pub open spec fn hand_type(values: Seq<usize>) -> HandType {
    let cards = values.to_multiset();
    let different = cards.dom().len();
    if different == 5 {
        HandType::HighCard
    } else if different == 4 {
        HandType::OnePair
    } else if different == 3 {
        if exists|v: usize| cards.count(v) == 3 {
            HandType::ThreeOfAKind
        } else {
            HandType::TwoPairs
        }
    } else if different == 2 {
        if exists|v: usize| cards.count(v) == 4 {
            HandType::FourOfAKind
        } else {
            HandType::FullHouse
        }
    } else {
        HandType::FiveOfAKind
    }
}

/// The type that the number `n` of different values and their frequencies
/// `ranking`, the greatest first, tell; `None` where they fit no type.
pub open spec fn type_told(n: usize, ranking: Seq<(usize, usize)>) -> Option<HandType> {
    if n == 5 {
        Some(HandType::HighCard)
    } else if n == 4 {
        Some(HandType::OnePair)
    } else if ranking.len() == 0 {
        None
    } else if (ranking[0].1 == 2 || ranking[0].1 == 3) && ranking.len() < 2 {
        None
    } else if ranking[0].1 == 2 && ranking[1].1 == 2 {
        Some(HandType::TwoPairs)
    } else if ranking[0].1 == 3 && ranking[1].1 == 1 {
        Some(HandType::ThreeOfAKind)
    } else if ranking[0].1 == 3 && ranking[1].1 == 2 {
        Some(HandType::FullHouse)
    } else if ranking[0].1 == 4 {
        Some(HandType::FourOfAKind)
    } else if n == 1 {
        Some(HandType::FiveOfAKind)
    } else {
        None
    }
}

/// The type that the number `n` of different values and their frequencies
/// `ranking`, the greatest first, tell.
pub fn type_from_counts(n: usize, ranking: &Vec<(usize, usize)>) -> (told: Option<HandType>)
    ensures
        told == type_told(n, ranking@),
{
    if n == 5 {
        return Some(HandType::HighCard);
    }
    if n == 4 {
        return Some(HandType::OnePair);
    }
    if ranking.len() == 0 {
        return None;
    }
    let first: usize = ranking[0].1;
    if first == 2 || first == 3 {
        if ranking.len() < 2 {
            return None;
        }
        let second: usize = ranking[1].1;
        if first == 2 && second == 2 {
            return Some(HandType::TwoPairs);
        }
        if first == 3 && second == 1 {
            return Some(HandType::ThreeOfAKind);
        }
        if first == 3 && second == 2 {
            return Some(HandType::FullHouse);
        }
    }
    if first == 4 {
        return Some(HandType::FourOfAKind);
    }
    if n == 1 {
        return Some(HandType::FiveOfAKind);
    }
    None
}

/// The value of the card that the character `c` names: the cards are, from
/// the lowest, `J23456789TQKA`, and the joker `J` has the value 0.
pub open spec fn card_value(c: char) -> Option<usize> {
    if c == 'J' {
        Some(0usize)
    } else if '2' <= c <= '9' {
        Some((c as u32 - '1' as u32) as usize)
    } else if c == 'T' {
        Some(9usize)
    } else if c == 'Q' {
        Some(10usize)
    } else if c == 'K' {
        Some(11usize)
    } else if c == 'A' {
        Some(12usize)
    } else {
        None
    }
}

/// The value of the card that the character `c` names, if it names one.
pub fn card_value_of(c: char) -> (value: Option<usize>)
    ensures
        value == card_value(c),
{
    if c == 'J' {
        Some(0)
    } else if c >= '2' && c <= '9' {
        Some((c as u32 - '1' as u32) as usize)
    } else if c == 'T' {
        Some(9)
    } else if c == 'Q' {
        Some(10)
    } else if c == 'K' {
        Some(11)
    } else if c == 'A' {
        Some(12)
    } else {
        None
    }
}

/// The values of the cards that the characters `cards` name, where each of
/// them names one.
pub open spec fn card_values(cards: Seq<char>) -> Option<Seq<usize>>
    decreases cards.len(),
{
    if cards.len() == 0 {
        Some(Seq::empty())
    } else {
        match (card_values(cards.drop_last()), card_value(cards.last())) {
            (Some(values), Some(value)) => Some(values.push(value)),
            _ => None,
        }
    }
}

/// One character that names no card leaves the characters without values.
pub proof fn lemma_card_values_fails(cards: Seq<char>, k: int)
    requires
        0 <= k < cards.len(),
        card_value(cards[k]) is None,
    ensures
        card_values(cards) is None,
    decreases cards.len(),
{
    if k < cards.len() - 1 {
        assert(cards.drop_last()[k] == cards[k]);
        lemma_card_values_fails(cards.drop_last(), k);
    }
}

/// The hand that the line `line` tells: two words parted by one space, the
/// cards and the bid. There is none where the line has another shape, where
/// a character names no card, and where the bid is no number.
pub open spec fn hand_of(line: Seq<char>) -> Option<(Seq<usize>, usize)> {
    let parts = split(line, ' ');
    if parts.len() != 2 {
        None
    } else {
        match (card_values(parts[0]), parse_usize(parts[1])) {
            (Some(values), Some(bid)) => Some((values, bid)),
            _ => None,
        }
    }
}

/// What the hands win: each bid times the rank of its hand, the first hand
/// having the rank 1. `None` where a `usize` cannot hold it on the way.
pub open spec fn winnings_of(bids: Seq<usize>, upto: int) -> Option<usize>
    decreases upto,
{
    if upto <= 0 {
        Some(0usize)
    } else {
        match winnings_of(bids, upto - 1) {
            Some(sum) => if upto * bids[upto - 1] <= usize::MAX && sum + upto * bids[upto - 1]
                <= usize::MAX {
                Some((sum + upto * bids[upto - 1]) as usize)
            } else {
                None
            },
            None => None,
        }
    }
}

/// Winnings that cannot be held stay so.
pub proof fn lemma_winnings_fail(bids: Seq<usize>, k: int, upto: int)
    requires
        k <= upto,
        winnings_of(bids, k) is None,
    ensures
        winnings_of(bids, upto) is None,
    decreases upto - k,
{
    if k < upto {
        lemma_winnings_fail(bids, k, upto - 1);
    }
}

/// What the hands `hands` win, taken in their order: each bid times the
/// rank of its hand, the first hand having the rank 1. The result is `None`
/// where a `usize` cannot hold it on the way.
#[verifier::loop_isolation(false)]
pub fn winnings(hands: &Vec<Hand>) -> (sum: Option<usize>)
    ensures
        sum == winnings_of(Seq::new(hands.len() as nat, |i: int| hands[i].bid), hands.len() as int),
{
    let ghost bids = Seq::new(hands.len() as nat, |i: int| hands[i].bid);
    let mut sum: usize = 0;
    let mut i: usize = 0;
    while i < hands.len()
        invariant
            i <= hands.len(),
            winnings_of(bids, i as int) == Some(sum),
        decreases hands.len() - i,
    {
        proof {
            assert(bids[i as int] == hands@[i as int].bid);
        }
        let won = match (i + 1).checked_mul(hands[i].bid) {
            Some(prize) => sum.checked_add(prize),
            None => None,
        };
        match won {
            Some(more) => {
                sum = more;
            },
            None => {
                proof {
                    lemma_winnings_fail(bids, i + 1, hands.len() as int);
                }
                return None;
            },
        }
        i += 1;
    }
    Some(sum)
}

/// The sum of the numbers of `ranking`.
pub open spec fn total(ranking: Seq<(usize, usize)>) -> int
    decreases ranking.len(),
{
    if ranking.len() == 0 {
        0
    } else {
        total(ranking.drop_last()) + ranking.last().1
    }
}

/// The multiset that holds `n` times the value `v` and nothing else.
pub open spec fn copies(v: usize, n: nat) -> Multiset<usize>
    decreases n,
{
    if n == 0 {
        Multiset::empty()
    } else {
        copies(v, (n - 1) as nat).insert(v)
    }
}

/// The multiset that holds each value of `ranking` as often as its number
/// tells.
pub open spec fn spread(ranking: Seq<(usize, usize)>) -> Multiset<usize>
    decreases ranking.len(),
{
    if ranking.len() == 0 {
        Multiset::empty()
    } else {
        spread(ranking.drop_last()).add(copies(ranking.last().0, ranking.last().1 as nat))
    }
}

/// `copies(v, n)` has `n` members, all of them `v`.
pub proof fn lemma_copies(v: usize, n: nat)
    ensures
        copies(v, n).len() == n,
        copies(v, n).count(v) == n,
        forall|w: usize| w != v ==> copies(v, n).count(w) == 0,
    decreases n,
{
    broadcast use vstd::multiset::group_multiset_axioms;

    if n > 0 {
        lemma_copies(v, (n - 1) as nat);
    }
}

/// `spread` has as many members as the numbers of the ranking add up to.
pub proof fn lemma_spread_len(ranking: Seq<(usize, usize)>)
    ensures
        spread(ranking).len() == total(ranking),
    decreases ranking.len(),
{
    broadcast use vstd::multiset::group_multiset_axioms;

    if ranking.len() > 0 {
        lemma_spread_len(ranking.drop_last());
        lemma_copies(ranking.last().0, ranking.last().1 as nat);
    }
}

/// Where no value is listed twice, `spread` holds each listed value as often
/// as its number tells, and no other value.
pub proof fn lemma_spread_count(ranking: Seq<(usize, usize)>, x: usize)
    requires
        forall|i: int, j: int|
            0 <= i < j < ranking.len() ==> (#[trigger] ranking[i]).0 != (#[trigger] ranking[j]).0,
    ensures
        forall|i: int|
            0 <= i < ranking.len() && (#[trigger] ranking[i]).0 == x ==> spread(ranking).count(x)
                == ranking[i].1,
        (forall|i: int| 0 <= i < ranking.len() ==> (#[trigger] ranking[i]).0 != x) ==> spread(
            ranking,
        ).count(x) == 0,
    decreases ranking.len(),
{
    broadcast use vstd::multiset::group_multiset_axioms;

    if ranking.len() > 0 {
        let head = ranking.drop_last();
        let last = ranking.last();
        assert forall|i: int, j: int| 0 <= i < j < head.len() implies (#[trigger] head[i]).0 != (
        #[trigger] head[j]).0 by {
            assert(head[i] == ranking[i] && head[j] == ranking[j]);
        }
        lemma_spread_count(head, x);
        lemma_copies(last.0, last.1 as nat);
        assert forall|i: int| 0 <= i < head.len() implies (#[trigger] head[i]) == ranking[i] by {}
        if last.0 == x {
            assert forall|i: int| 0 <= i < head.len() implies (#[trigger] head[i]).0 != x by {
                assert(head[i] == ranking[i]);
                assert(ranking[i].0 != ranking[ranking.len() - 1].0);
            }
        }
        assert forall|i: int|
            0 <= i < ranking.len() && (#[trigger] ranking[i]).0 == x implies spread(ranking).count(x)
            == ranking[i].1 by {
            if i < head.len() {
                assert(head[i] == ranking[i]);
                assert(ranking[i].0 != ranking[ranking.len() - 1].0);
            }
        }
        if forall|i: int| 0 <= i < ranking.len() ==> (#[trigger] ranking[i]).0 != x {
            assert(ranking[ranking.len() - 1].0 != x);
            assert forall|i: int| 0 <= i < head.len() implies (#[trigger] head[i]).0 != x by {
                assert(head[i] == ranking[i]);
            }
        }
    }
}

/// A ranking of the values of `values` has one entry for each different
/// value, each with a number above zero, and its numbers add up to the
/// number of the values.
pub proof fn lemma_ranking(values: Seq<usize>, ranking: Seq<(usize, usize)>)
    requires
        is_ranking(ranking, tally(values)),
        values.len() <= usize::MAX,
    ensures
        values.to_multiset().dom().finite(),
        tally(values).dom() == values.to_multiset().dom(),
        ranking.len() == values.to_multiset().dom().len(),
        total(ranking) == values.len(),
        forall|i: int|
            0 <= i < ranking.len() ==> (#[trigger] ranking[i]).1 > 0 && ranking[i].1
                == values.to_multiset().count(ranking[i].0),
        forall|v: usize|
            values.to_multiset().count(v) > 0 ==> exists|i: int|
                0 <= i < ranking.len() && (#[trigger] ranking[i]).0 == v,
{
    broadcast use vstd::multiset::group_multiset_axioms;

    let cards = values.to_multiset();
    let counts = tally(values);
    assert(counts.dom() =~= cards.dom());
    let keys = Seq::new(ranking.len(), |i: int| ranking[i].0);
    assert(keys.no_duplicates()) by {
        assert forall|i: int, j: int|
            0 <= i < keys.len() && 0 <= j < keys.len() && i != j implies keys[i] != keys[j] by {
            if i < j {
                assert(ranking[i].0 != ranking[j].0);
            } else {
                assert(ranking[j].0 != ranking[i].0);
            }
        }
    }
    keys.unique_seq_to_set();
    assert(keys.to_set() =~= counts.dom()) by {
        assert forall|v: usize| keys.to_set().contains(v) == counts.dom().contains(v) by {
            if keys.to_set().contains(v) {
                let i = choose|i: int| 0 <= i < keys.len() && keys[i] == v;
                assert(counts.contains_key(ranking[i].0));
            }
            if counts.contains_key(v) {
                let i = choose|i: int| 0 <= i < ranking.len() && (#[trigger] ranking[i]).0 == v;
                assert(keys[i] == v);
            }
        }
    }
    assert forall|i: int| 0 <= i < ranking.len() implies (#[trigger] ranking[i]).1 > 0
        && ranking[i].1 == cards.count(ranking[i].0) by {
        assert(counts.contains_key(ranking[i].0));
        assert(values.contains(ranking[i].0));
        vstd::multiset::axiom_count_le_len(cards, ranking[i].0);
        assert(cards.len() == values.len());
    }
    assert forall|v: usize| cards.count(v) > 0 implies exists|i: int|
        0 <= i < ranking.len() && (#[trigger] ranking[i]).0 == v by {
        assert(counts.contains_key(v));
    }
    assert(spread(ranking) =~= cards) by {
        assert forall|x: usize| spread(ranking).count(x) == cards.count(x) by {
            lemma_spread_count(ranking, x);
            if cards.count(x) > 0 {
                let i = choose|i: int| 0 <= i < ranking.len() && (#[trigger] ranking[i]).0 == x;
                assert(ranking[i].1 == cards.count(ranking[i].0));
            } else {
                assert forall|i: int| 0 <= i < ranking.len() implies (#[trigger] ranking[i]).0
                    != x by {
                    assert(ranking[i].1 > 0);
                }
            }
        }
    }
    lemma_spread_len(ranking);
}

/// `values` with each joker replaced by `joker`.
pub open spec fn with_jokers_as(values: Seq<usize>, joker: usize) -> Seq<usize> {
    Seq::new(
        values.len(),
        |i: int|
            if values[i] == 0 {
                joker
            } else {
                values[i]
            },
    )
}

/// Whether `joker` is a value that the jokers of the hand `values` may take.
///
/// Five jokers become the highest card. In a hand of two pairs the jokers
/// join the higher of the pairs that are no jokers; in a hand of five
/// different cards the joker joins the highest. In any other hand the jokers
/// join a value that occurs most often among the cards that are no jokers.
pub open spec fn is_joker_choice(values: Seq<usize>, joker: usize) -> bool {
    let cards = values.to_multiset();
    match hand_type(values) {
        HandType::FiveOfAKind => joker == 12,
        HandType::TwoPairs => {
            &&& joker != 0
            &&& cards.count(joker) == 2
            &&& forall|v: usize| v != 0 && #[trigger] cards.count(v) == 2 ==> v <= joker
        },
        HandType::HighCard => {
            &&& values.contains(joker)
            &&& forall|i: int| 0 <= i < values.len() ==> values[i] <= joker
        },
        _ => {
            &&& joker != 0
            &&& cards.count(joker) > 0
            &&& forall|v: usize| v != 0 ==> #[trigger] cards.count(v) <= cards.count(joker)
        },
    }
}

/// Whether `better` is what the jokers can make of the hand `values`: the
/// hand itself where it holds no joker, else the hand with each joker
/// replaced by a value that the jokers may take.
pub open spec fn is_improved(values: Seq<usize>, better: Seq<usize>) -> bool {
    if values.contains(0usize) {
        exists|joker: usize| is_joker_choice(values, joker) && better == with_jokers_as(values, joker)
    } else {
        better == values
    }
}

/// The cards of `values` that are no jokers.
fn without_jokers(values: &Vec<usize>) -> (rest: Vec<usize>)
    ensures
        is_rest(values@, rest@),
{
    let mut rest: Vec<usize> = Vec::new();
    let mut i: usize = 0;
    proof {
        assert(values@.take(0) =~= Seq::<usize>::empty());
    }
    while i < values.len()
        invariant
            i <= values.len(),
            rest.len() <= i,
            rest@.to_multiset().count(0) == 0,
            forall|v: usize|
                v != 0 ==> #[trigger] rest@.to_multiset().count(v) == values@.take(
                    i as int,
                ).to_multiset().count(v),
        decreases values.len() - i,
    {
        proof {
            broadcast use vstd::multiset::group_multiset_axioms;

            assert(values@.take(i + 1) =~= values@.take(i as int).push(values@[i as int]));
            vstd::seq_lib::to_multiset_build(values@.take(i as int), values@[i as int]);
            vstd::seq_lib::to_multiset_build(rest@, values@[i as int]);
        }
        if values[i] != 0 {
            rest.push(values[i]);
        }
        i += 1;
    }
    proof {
        assert(values@.take(values.len() as int) =~= values@);
    }
    rest
}

/// A ranking of the values of `values` has an entry for each value that
/// occurs among them, with the number of times that it occurs: the result is
/// the place of the entry for `v`.
pub proof fn lemma_ranking_holds(values: Seq<usize>, ranking: Seq<(usize, usize)>, v: usize) -> (i:
    int)
    requires
        is_ranking(ranking, tally(values)),
        values.len() <= usize::MAX,
        values.to_multiset().count(v) > 0,
    ensures
        0 <= i < ranking.len(),
        ranking[i].0 == v,
        ranking[i].1 == values.to_multiset().count(v),
{
    lemma_ranking(values, ranking);
    assert(tally(values).contains_key(v));
    let i = choose|i: int| 0 <= i < ranking.len() && (#[trigger] ranking[i]).0 == v;
    i
}

/// The first place at which `a` and `b` both have a card and the cards
/// differ, if there is one.
pub open spec fn first_difference(a: Seq<usize>, b: Seq<usize>) -> Option<int> {
    if exists|i: int| 0 <= i < a.len() && i < b.len() && a[i] != b[i] {
        Some(
            choose|i: int|
                0 <= i < a.len() && i < b.len() && a[i] != b[i] && forall|j: int|
                    0 <= j < i ==> a[j] == b[j],
        )
    } else {
        None
    }
}

/// The first place at which `a` and `b` both have a card and the cards
/// differ, if there is one.
pub fn first_difference_of(a: &Vec<usize>, b: &Vec<usize>) -> (place: Option<usize>)
    ensures
        match place {
            Some(i) => first_difference(a@, b@) == Some(i as int) && i < a.len() && i < b.len()
                && a@[i as int] != b@[i as int],
            None => first_difference(a@, b@) is None,
        },
{
    let mut i: usize = 0;
    while i < a.len() && i < b.len()
        invariant
            forall|j: int| 0 <= j < i && j < a.len() && j < b.len() ==> a@[j] == b@[j],
        decreases a.len() - i,
    {
        if a[i] != b[i] {
            proof {
                let k = choose|k: int|
                    0 <= k < a@.len() && k < b@.len() && a@[k] != b@[k] && forall|j: int|
                        0 <= j < k ==> a@[j] == b@[j];
                assert(k == i);
            }
            return Some(i);
        }
        i += 1;
    }
    None
}

impl Hand {
    /// The hand that the line `line` tells: its cards, then a space, then
    /// its bid.
    #[verifier::loop_isolation(false)]
    pub fn read(line: &str) -> (hand: Option<Hand>)
        ensures
            match hand {
                Some(h) => hand_of(line@) == Some((h.values@, h.bid)),
                None => hand_of(line@) is None,
            },
    {
        let chars = chars_of(line);
        let parts = split_chars(&chars, ' ');
        if parts.len() != 2 {
            return None;
        }
        proof {
            assert(views(parts@)[0] == parts@[0]@);
            assert(views(parts@)[1] == parts@[1]@);
        }
        let cards = &parts[0];
        let mut values: Vec<usize> = Vec::new();
        let mut i: usize = 0;
        proof {
            assert(cards@.take(0) == Seq::<char>::empty());
        }
        while i < cards.len()
            invariant
                i <= cards.len(),
                card_values(cards@.take(i as int)) == Some(values@),
            decreases cards.len() - i,
        {
            proof {
                assert(cards@.take(i + 1).drop_last() == cards@.take(i as int));
                assert(cards@.take(i + 1).last() == cards@[i as int]);
            }
            match card_value_of(cards[i]) {
                Some(v) => {
                    values.push(v);
                },
                None => {
                    proof {
                        lemma_card_values_fails(cards@, i as int);
                    }
                    return None;
                },
            }
            i += 1;
        }
        proof {
            assert(cards@.take(cards.len() as int) == cards@);
        }
        match parse_usize_chars(&parts[1]) {
            Some(bid) => Some(Hand { values, bid }),
            None => None,
        }
    }

    /// The type of the hand, with the frequencies that tell it.
    fn typed(&self) -> (told: (HandType, Ghost<Seq<(usize, usize)>>))
        requires
            self.values.len() == 5,
        ensures
            told.0 == hand_type(self.values@),
            is_ranking(told.1@, tally(self.values@)),
            type_told(told.1@.len() as usize, told.1@) == Some(told.0),
    {
        let counter = count_values(&self.values);
        let n: usize = distinct_values(&counter);
        let mc: Vec<(usize, usize)> = most_common(&counter);
        proof {
            lemma_ranking(self.values@, mc@);
            lemma_five_cards(self.values@, mc@);
        }
        match type_from_counts(n, &mc) {
            Some(kind) => (kind, Ghost(mc@)),
            None => (HandType::FiveOfAKind, Ghost(mc@)),
        }
    }

    /// The type of the hand. The hand must hold five cards.
    pub fn get_type(&self) -> (kind: HandType)
        requires
            self.values.len() == 5,
        ensures
            kind == hand_type(self.values@),
    {
        let (kind, _) = self.typed();
        kind
    }

    /// What the jokers make of the hand: each joker takes the value that
    /// serves the hand best, and the other cards and the bid stay. A hand
    /// without jokers stays as it is. The hand must hold five cards.
    pub fn improve(&self) -> (better: Hand)
        requires
            self.values.len() == 5,
        ensures
            better.bid == self.bid,
            better.values.len() == 5,
            is_improved(self.values@, better.values@),
    {
        if !has_joker(&self.values) {
            return Hand { values: self.values.clone(), bid: self.bid };
        }
        let rest = without_jokers(&self.values);
        let counter = count_values(&rest);
        let mc: Vec<(usize, usize)> = most_common(&counter);
        let (kind, Ghost(all)) = self.typed();
        let joker: usize = match kind {
            HandType::FiveOfAKind => 12,
            HandType::TwoPairs => {
                proof {
                    lemma_pair_without_joker(self.values@, rest@, all, mc@);
                }
                highest_pair(&mc)
            },
            HandType::HighCard => highest(&self.values),
            _ => {
                proof {
                    lemma_most_common_without_joker(self.values@, rest@, all, mc@);
                }
                mc[0].0
            },
        };
        Hand { values: replace_jokers(&self.values, joker), bid: self.bid }
    }
}

/// Whether one of `values` is a joker.
pub fn has_joker(values: &Vec<usize>) -> (found: bool)
    ensures
        found == values@.contains(0usize),
{
    let mut i: usize = 0;
    while i < values.len()
        invariant
            i <= values.len(),
            forall|k: int| 0 <= k < i ==> values@[k] != 0,
        decreases values.len() - i,
    {
        if values[i] == 0 {
            return true;
        }
        i += 1;
    }
    false
}

/// The greatest of `values`, of which there must be one.
pub fn highest(values: &Vec<usize>) -> (best: usize)
    requires
        values.len() > 0,
    ensures
        values@.contains(best),
        forall|i: int| 0 <= i < values.len() ==> values@[i] <= best,
{
    let mut best: usize = values[0];
    let mut k: usize = 1;
    while k < values.len()
        invariant
            1 <= k <= values.len(),
            forall|c: int| 0 <= c < k ==> values@[c] <= best,
            exists|c: int| 0 <= c < k && values@[c] == best,
        decreases values.len() - k,
    {
        if values[k] > best {
            best = values[k];
        }
        k += 1;
    }
    best
}

/// The greatest value that the ranking lists with the number 2, or 0 where
/// it lists none.
pub fn highest_pair(ranking: &Vec<(usize, usize)>) -> (best: usize)
    ensures
        forall|c: int| 0 <= c < ranking.len() && (#[trigger] ranking@[c]).1 == 2 ==> ranking@[c].0 <= best,
        best == 0 || exists|c: int|
            0 <= c < ranking.len() && (#[trigger] ranking@[c]).1 == 2 && ranking@[c].0 == best,
{
    let mut best: usize = 0;
    let mut k: usize = 0;
    while k < ranking.len()
        invariant
            k <= ranking.len(),
            forall|c: int| 0 <= c < k && (#[trigger] ranking@[c]).1 == 2 ==> ranking@[c].0 <= best,
            best == 0 || exists|c: int|
                0 <= c < k && (#[trigger] ranking@[c]).1 == 2 && ranking@[c].0 == best,
        decreases ranking.len() - k,
    {
        if ranking[k].1 == 2 && ranking[k].0 > best {
            best = ranking[k].0;
        }
        k += 1;
    }
    best
}

/// `values` with each joker replaced by `joker`.
pub fn replace_jokers(values: &Vec<usize>, joker: usize) -> (replaced: Vec<usize>)
    ensures
        replaced@ == with_jokers_as(values@, joker),
{
    let mut replaced: Vec<usize> = Vec::new();
    let mut k: usize = 0;
    while k < values.len()
        invariant
            k <= values.len(),
            replaced.len() == k,
            forall|c: int|
                0 <= c < k ==> replaced@[c] == (if values@[c] == 0 {
                    joker
                } else {
                    values@[c]
                }),
        decreases values.len() - k,
    {
        let v: usize = if values[k] == 0 {
            joker
        } else {
            values[k]
        };
        replaced.push(v);
        k += 1;
    }
    proof {
        assert(replaced@ =~= with_jokers_as(values@, joker));
    }
    replaced
}

/// Whether `rest` holds the cards of `values` that are no jokers.
pub open spec fn is_rest(values: Seq<usize>, rest: Seq<usize>) -> bool {
    &&& rest.to_multiset().count(0) == 0
    &&& forall|v: usize|
        v != 0 ==> #[trigger] rest.to_multiset().count(v) == values.to_multiset().count(v)
    &&& rest.len() <= values.len()
}

/// In a hand of two pairs with a joker, a pair that is no joker is ranked
/// among the cards that are no jokers, and the highest such pair is a value
/// that the jokers may take.
pub proof fn lemma_pair_without_joker(
    values: Seq<usize>,
    rest: Seq<usize>,
    all: Seq<(usize, usize)>,
    ranking: Seq<(usize, usize)>,
)
    requires
        values.len() == 5,
        values.contains(0usize),
        is_rest(values, rest),
        is_ranking(all, tally(values)),
        is_ranking(ranking, tally(rest)),
        hand_type(values) == HandType::TwoPairs,
    ensures
        forall|best: usize|
            {
                &&& forall|c: int|
                    0 <= c < ranking.len() && (#[trigger] ranking[c]).1 == 2 ==> ranking[c].0
                        <= best
                &&& best == 0 || exists|c: int|
                    0 <= c < ranking.len() && (#[trigger] ranking[c]).1 == 2 && ranking[c].0 == best
            } ==> is_joker_choice(values, best),
{
    let cards = values.to_multiset();
    let others = rest.to_multiset();
    lemma_ranking(rest, ranking);
    lemma_ranking(values, all);
    lemma_five_cards(values, all);
    lemma_total_five(all);
    assert(all.len() == 3 && all[0].1 == 2 && all[1].1 == 2) by {
        if all.len() >= 2 {
            assert(all[0].1 >= all[1].1);
        }
        if all.len() >= 3 {
            assert(all[1].1 >= all[2].1);
        }
    }
    assert(all[0].0 != all[1].0);
    let pair = if all[0].0 != 0 {
        all[0].0
    } else {
        all[1].0
    };
    assert(cards.count(pair) == 2);
    assert(others.count(pair) == cards.count(pair));
    let p = lemma_ranking_holds(rest, ranking, pair);
    assert forall|best: usize|
        {
            &&& forall|c: int|
                0 <= c < ranking.len() && (#[trigger] ranking[c]).1 == 2 ==> ranking[c].0 <= best
            &&& best == 0 || exists|c: int|
                0 <= c < ranking.len() && (#[trigger] ranking[c]).1 == 2 && ranking[c].0 == best
        } implies is_joker_choice(values, best) by {
        assert(ranking[p].1 == 2);
        assert(pair <= best);
        assert(best != 0);
        let w = choose|w: int|
            0 <= w < ranking.len() && (#[trigger] ranking[w]).1 == 2 && ranking[w].0 == best;
        assert(others.count(ranking[w].0) == cards.count(ranking[w].0));
        assert(cards.count(best) == 2);
        assert forall|v: usize| v != 0 && #[trigger] cards.count(v) == 2 implies v <= best by {
            assert(others.count(v) == cards.count(v));
            let d = lemma_ranking_holds(rest, ranking, v);
            assert(ranking[d].1 == 2);
        }
    }
}

/// In a hand with a joker that is neither five of a kind, two pairs nor five
/// different cards, the first of the ranking of the cards that are no jokers
/// is a value that the jokers may take.
pub proof fn lemma_most_common_without_joker(
    values: Seq<usize>,
    rest: Seq<usize>,
    all: Seq<(usize, usize)>,
    ranking: Seq<(usize, usize)>,
)
    requires
        values.len() == 5,
        values.contains(0usize),
        is_rest(values, rest),
        is_ranking(all, tally(values)),
        is_ranking(ranking, tally(rest)),
        hand_type(values) != HandType::FiveOfAKind,
        hand_type(values) != HandType::TwoPairs,
        hand_type(values) != HandType::HighCard,
    ensures
        ranking.len() > 0,
        is_joker_choice(values, ranking[0].0),
{
    let cards = values.to_multiset();
    let others = rest.to_multiset();
    lemma_ranking(rest, ranking);
    lemma_ranking(values, all);
    lemma_five_cards(values, all);
    lemma_total_five(all);
    assert(all.len() >= 2);
    assert(all[0].0 != all[1].0);
    let other = if all[0].0 != 0 {
        all[0].0
    } else {
        all[1].0
    };
    assert(cards.count(other) > 0);
    assert(others.count(other) == cards.count(other));
    let c = lemma_ranking_holds(rest, ranking, other);
    assert(ranking[0].1 == others.count(ranking[0].0));
    assert(ranking[0].0 != 0);
    assert(others.count(ranking[0].0) == cards.count(ranking[0].0));
    assert forall|v: usize| v != 0 implies #[trigger] cards.count(v) <= cards.count(
        ranking[0].0,
    ) by {
        if cards.count(v) > 0 {
            assert(others.count(v) == cards.count(v));
            let d = lemma_ranking_holds(rest, ranking, v);
            if d > 0 {
                assert(ranking[0].1 >= ranking[d].1);
            }
        }
    }
}

/// The frequencies of five cards tell their type.
pub proof fn lemma_five_cards(values: Seq<usize>, ranking: Seq<(usize, usize)>)
    requires
        values.len() == 5,
        is_ranking(ranking, tally(values)),
    ensures
        type_told(ranking.len() as usize, ranking) == Some(hand_type(values)),
        1 <= ranking.len() <= 5,
{
    lemma_ranking(values, ranking);
    let cards = values.to_multiset();
    let n = ranking.len();
    reveal_with_fuel(total, 7);
    assert(n >= 1) by {
        if n == 0 {
            assert(total(ranking) == 0);
        }
    }
    assert(ranking[0].1 > 0);
    if n >= 2 {
        assert(ranking[1].1 > 0);
        assert(ranking[0].1 >= ranking[1].1);
    }
    if n >= 3 {
        assert(ranking[2].1 > 0);
        assert(ranking[1].1 >= ranking[2].1);
    }
    if n >= 4 {
        assert(ranking[3].1 > 0);
    }
    if n >= 5 {
        assert(ranking[4].1 > 0);
    }
    if n >= 6 {
        assert(ranking[5].1 > 0);
        lemma_total_grows(ranking, 6);
        assert(ranking.take(6).drop_last() == ranking.take(5));
        lemma_total_five(ranking.take(6));
        assert(false);
    }
    lemma_total_five(ranking);
    if n == 3 {
        if exists|v: usize| cards.count(v) == 3 {
            let v = choose|v: usize| cards.count(v) == 3;
            let i = choose|i: int| 0 <= i < ranking.len() && (#[trigger] ranking[i]).0 == v;
            assert(ranking[i].1 == 3);
            assert(ranking[0].1 >= ranking[i].1) by {
                if i > 0 {
                    assert(ranking[0].1 >= ranking[i].1);
                }
            }
        } else {
            assert(cards.count(ranking[0].0) != 3);
        }
    }
    if n == 2 {
        if exists|v: usize| cards.count(v) == 4 {
            let v = choose|v: usize| cards.count(v) == 4;
            let i = choose|i: int| 0 <= i < ranking.len() && (#[trigger] ranking[i]).0 == v;
            assert(ranking[i].1 == 4);
            assert(ranking[0].1 >= ranking[i].1) by {
                if i > 0 {
                    assert(ranking[0].1 >= ranking[i].1);
                }
            }
        } else {
            assert(cards.count(ranking[0].0) != 4);
        }
    }
}

/// The numbers of the first entries of a ranking add up to no more than
/// those of all.
pub proof fn lemma_total_grows(ranking: Seq<(usize, usize)>, k: int)
    requires
        0 <= k <= ranking.len(),
    ensures
        total(ranking.take(k)) <= total(ranking),
    decreases ranking.len() - k,
{
    if k < ranking.len() {
        assert(ranking.take(k + 1).drop_last() == ranking.take(k));
        lemma_total_grows(ranking, k + 1);
    } else {
        assert(ranking.take(k) == ranking);
    }
}

/// The sum of up to six numbers, written out.
pub proof fn lemma_total_five(ranking: Seq<(usize, usize)>)
    requires
        ranking.len() <= 6,
    ensures
        ranking.len() == 1 ==> total(ranking) == ranking[0].1,
        ranking.len() == 2 ==> total(ranking) == ranking[0].1 + ranking[1].1,
        ranking.len() == 3 ==> total(ranking) == ranking[0].1 + ranking[1].1 + ranking[2].1,
        ranking.len() == 4 ==> total(ranking) == ranking[0].1 + ranking[1].1 + ranking[2].1
            + ranking[3].1,
        ranking.len() == 5 ==> total(ranking) == ranking[0].1 + ranking[1].1 + ranking[2].1
            + ranking[3].1 + ranking[4].1,
        ranking.len() == 6 ==> total(ranking) == ranking[0].1 + ranking[1].1 + ranking[2].1
            + ranking[3].1 + ranking[4].1 + ranking[5].1,
    decreases ranking.len(),
{
    if ranking.len() > 0 {
        let head = ranking.drop_last();
        lemma_total_five(head);
        if head.len() == 0 {
            assert(total(head) == 0);
        }
        assert forall|i: int| 0 <= i < head.len() implies head[i] == ranking[i] by {}
        if head.len() >= 1 {
            assert(head[0] == ranking[0]);
        }
        if head.len() >= 2 {
            assert(head[1] == ranking[1]);
        }
        if head.len() >= 3 {
            assert(head[2] == ranking[2]);
        }
        if head.len() >= 4 {
            assert(head[3] == ranking[3]);
        }
        if head.len() >= 5 {
            assert(head[4] == ranking[4]);
        }
    }
}

} // verus!
