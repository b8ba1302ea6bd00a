//! Scratch cards: a card wins copies of the cards that follow it, one for
//! each of its numbers that is a winning number.
use crate::cubes::{parse_i32, parse_i32_chars};
use crate::pattern::{
    find_captures, find_group_names, match_model, matches_model, named_text, names_model,
    regex_captures, regex_group_names, text_of, Group,
};
use crate::text::{chars_of, parse_i64, parse_i64_chars, split, split_chars, views};
use std::collections::HashMap;
use vstd::prelude::*;

verus! {

broadcast use vstd::std_specs::hash::group_hash_axioms;

/// One card: its number, its winning numbers and the numbers on it.
#[derive(Clone, Debug)]
pub struct Card {
    pub number: usize,
    pub winning: Vec<i32>,
    pub owned: Vec<i32>,
}

/// How many different numbers of `winning` are among `owned`.
pub open spec fn hits(winning: Seq<i32>, owned: Seq<i32>) -> nat
    decreases winning.len(),
{
    if winning.len() == 0 {
        0
    } else if !winning.drop_last().contains(winning.last()) && owned.contains(winning.last()) {
        hits(winning.drop_last(), owned) + 1
    } else {
        hits(winning.drop_last(), owned)
    }
}

/// Whether `values` holds `v` among its first `upto` items.
fn holds(values: &Vec<i32>, upto: usize, v: i32) -> (found: bool)
    requires
        upto <= values.len(),
    ensures
        found == values@.take(upto as int).contains(v),
{
    let mut i: usize = 0;
    while i < upto
        invariant
            i <= upto <= values.len(),
            forall|k: int| 0 <= k < i ==> values@[k] != v,
        decreases upto - i,
    {
        if values[i] == v {
            proof {
                assert(values@.take(upto as int)[i as int] == v);
            }
            return true;
        }
        i += 1;
    }
    false
}

/// The numbers that the words of `text`, parted by single spaces, write;
/// what is no number within the range of `i32` is passed over.
pub open spec fn numbers_in(text: Seq<char>) -> Seq<i32> {
    small_numbers(split(text, ' '))
}

/// The numbers within the range of `i32` among `tokens`, in order.
pub open spec fn small_numbers(tokens: Seq<Seq<char>>) -> Seq<i32>
    decreases tokens.len(),
{
    if tokens.len() == 0 {
        Seq::empty()
    } else {
        match parse_i32(tokens.last()) {
            Some(n) => small_numbers(tokens.drop_last()).push(n),
            None => small_numbers(tokens.drop_last()),
        }
    }
}

/// The numbers that the words of `text` write.
pub fn numbers_in_text(text: &str) -> (found: Vec<i32>)
    ensures
        found@ == numbers_in(text@),
{
    let chars = chars_of(text);
    let tokens = split_chars(&chars, ' ');
    let mut found: Vec<i32> = Vec::new();
    let mut i: usize = 0;
    proof {
        assert(views(tokens@).take(0) == Seq::<Seq<char>>::empty());
    }
    while i < tokens.len()
        invariant
            i <= tokens.len(),
            found@ == small_numbers(views(tokens@).take(i as int)),
        decreases tokens.len() - i,
    {
        proof {
            assert(views(tokens@).take(i + 1).drop_last() == views(tokens@).take(i as int));
            assert(views(tokens@).take(i + 1).last() == tokens@[i as int]@);
        }
        match parse_i32_chars(&tokens[i]) {
            Some(n) => {
                found.push(n);
            },
            None => {},
        }
        i += 1;
    }
    proof {
        assert(views(tokens@).take(tokens.len() as int) == views(tokens@));
    }
    found
}

/// The number that `text` writes, where it has no minus sign and an `i64`
/// and a `usize` can hold it.
pub open spec fn parse_usize(text: Seq<char>) -> Option<usize> {
    match parse_i64(text) {
        Some(n) => if 0 <= n <= usize::MAX && text.len() > 0 && text[0] != '-' {
            Some(n as usize)
        } else {
            None
        },
        None => None,
    }
}

/// Reads `text` as a number that a `usize` can hold.
pub fn parse_usize_chars(text: &Vec<char>) -> (number: Option<usize>)
    ensures
        number == parse_usize(text@),
{
    match parse_i64_chars(text) {
        Some(n) => {
            if n < 0 || text.len() == 0 || text[0] == '-' {
                return None;
            }
            if n as u64 > usize::MAX as u64 {
                return None;
            }
            Some(n as usize)
        },
        None => None,
    }
}

/// The card that the first of the matches `found` tells by its groups `c`,
/// `w` and `o`: the number of the card, its winning numbers and the numbers
/// on it. There is none where there is no match, where a group is absent,
/// and where the number of the card is no number that a `usize` can hold.
pub open spec fn card_told(
    names: Seq<Option<Seq<char>>>,
    found: Seq<Seq<Option<(int, int, Seq<char>)>>>,
) -> Option<(usize, Seq<i32>, Seq<i32>)> {
    if found.len() == 0 {
        None
    } else {
        match (
            named_text(names, found[0], "c"@),
            named_text(names, found[0], "w"@),
            named_text(names, found[0], "o"@),
        ) {
            (Some(c), Some(w), Some(o)) => match parse_usize(c) {
                Some(number) => Some((number, numbers_in(w), numbers_in(o))),
                None => None,
            },
            _ => None,
        }
    }
}

/// The card that the pattern `re` finds in `line`.
pub open spec fn card_of(re: Seq<char>, line: Seq<char>) -> Option<(usize, Seq<i32>, Seq<i32>)> {
    match (regex_group_names(re), regex_captures(re, line)) {
        (Some(names), Some(found)) => card_told(names, found),
        _ => None,
    }
}

impl Card {
    /// The card as plain values.
    pub open spec fn model(self) -> (usize, Seq<i32>, Seq<i32>) {
        (self.number, self.winning@, self.owned@)
    }

    /// The card that the first of the matches `found` tells.
    pub fn from_captures(names: &Vec<Option<String>>, found: &Vec<Vec<Option<Group>>>) -> (card:
        Option<Card>)
        ensures
            match card {
                Some(c) => card_told(names_model(names@), matches_model(found@)) == Some(c.model()),
                None => card_told(names_model(names@), matches_model(found@)) is None,
            },
    {
        if found.len() == 0 {
            return None;
        }
        proof {
            assert(matches_model(found@)[0] == match_model(found@[0]@));
        }
        let c = text_of(names, &found[0], "c");
        let w = text_of(names, &found[0], "w");
        let o = text_of(names, &found[0], "o");
        match (c, w, o) {
            (Some(c), Some(w), Some(o)) => {
                let digits = chars_of(c.as_str());
                let number: usize = match parse_usize_chars(&digits) {
                    Some(n) => n,
                    None => {
                        return None;
                    },
                };
                Some(
                    Card {
                        number,
                        winning: numbers_in_text(w.as_str()),
                        owned: numbers_in_text(o.as_str()),
                    },
                )
            },
            _ => None,
        }
    }

    /// The card that the pattern `re` finds in `line`, by its groups `c`,
    /// `w` and `o`.
    pub fn read(re: &str, line: &str) -> (card: Option<Card>)
        ensures
            match card {
                Some(c) => card_of(re@, line@) == Some(c.model()),
                None => card_of(re@, line@) is None,
            },
    {
        let names = match find_group_names(re) {
            Some(names) => names,
            None => {
                return None;
            },
        };
        let found = match find_captures(re, line) {
            Some(found) => found,
            None => {
                return None;
            },
        };
        Card::from_captures(&names, &found)
    }

    /// How many different winning numbers are on the card.
    pub fn matching_numbers(&self) -> (count: usize)
        ensures
            count == hits(self.winning@, self.owned@),
    {
        let mut count: usize = 0;
        let mut i: usize = 0;
        proof {
            assert(self.winning@.take(0) == Seq::<i32>::empty());
        }
        while i < self.winning.len()
            invariant
                i <= self.winning.len(),
                count == hits(self.winning@.take(i as int), self.owned@),
                count <= i,
            decreases self.winning.len() - i,
        {
            let v: i32 = self.winning[i];
            proof {
                assert(self.winning@.take(i + 1).drop_last() == self.winning@.take(i as int));
                assert(self.winning@.take(i + 1).last() == v);
                assert(self.owned@.take(self.owned.len() as int) == self.owned@);
            }
            if !holds(&self.winning, i, v) && holds(&self.owned, self.owned.len(), v) {
                count += 1;
            }
            i += 1;
        }
        proof {
            assert(self.winning@.take(self.winning.len() as int) == self.winning@);
        }
        count
    }
}

/// The copies of each card and the number of all cards.
pub ghost struct PileModel {
    pub copies: Map<usize, i32>,
    pub total: i32,
}

/// The copies of the card `card`: none where the pile does not know it.
pub open spec fn copies_of(copies: Map<usize, i32>, card: usize) -> i32 {
    if copies.contains_key(card) {
        copies[card]
    } else {
        0
    }
}

/// The pile after each of the `count` cards from `from` on has got `more`
/// copies; `None` where a number cannot be held.
pub open spec fn with_copies(pile: PileModel, from: int, count: nat, more: i32) -> Option<PileModel>
    decreases count,
{
    if count == 0 {
        Some(pile)
    } else if from > usize::MAX {
        None
    } else {
        match (
            more.checked_add(copies_of(pile.copies, from as usize)),
            pile.total.checked_add(more),
        ) {
            (Some(copies), Some(total)) => with_copies(
                PileModel { copies: pile.copies.insert(from as usize, copies), total },
                from + 1,
                (count - 1) as nat,
                more,
            ),
            _ => None,
        }
    }
}

/// The pile after the card `card` with `matching` winning numbers has been
/// scratched: the card itself joins its copies, and each of the `matching`
/// cards after it gets as many copies as the card now has.
pub open spec fn with_card(pile: PileModel, card: usize, matching: nat) -> Option<PileModel> {
    match (copies_of(pile.copies, card).checked_add(1i32), pile.total.checked_add(1i32)) {
        (Some(copies), Some(total)) => with_copies(
            PileModel { copies: pile.copies.insert(card, copies), total },
            card + 1,
            matching,
            copies,
        ),
        _ => None,
    }
}

/// The pile after the first `upto` of the cards `cards` have been scratched,
/// in order.
pub open spec fn pile_after(cards: Seq<(usize, Seq<i32>, Seq<i32>)>, upto: int) -> Option<PileModel>
    decreases upto,
{
    if upto <= 0 {
        Some(PileModel { copies: Map::empty(), total: 0 })
    } else {
        match pile_after(cards, upto - 1) {
            Some(pile) => with_card(pile, cards[upto - 1].0, hits(cards[upto - 1].1, cards[upto - 1].2)),
            None => None,
        }
    }
}

/// A pile that cannot be held stays so.
pub proof fn lemma_pile_fails(cards: Seq<(usize, Seq<i32>, Seq<i32>)>, k: int, upto: int)
    requires
        k <= upto,
        pile_after(cards, k) is None,
    ensures
        pile_after(cards, upto) is None,
    decreases upto - k,
{
    if k < upto {
        lemma_pile_fails(cards, k, upto - 1);
    }
}

/// The cards as plain values.
pub open spec fn card_models(cards: Seq<Card>) -> Seq<(usize, Seq<i32>, Seq<i32>)> {
    Seq::new(cards.len(), |i: int| cards[i].model())
}

/// The pile of cards: how many copies there are of each card, and how many
/// cards in all.
pub struct Pile {
    copies: HashMap<usize, i32>,
    total: i32,
}

impl View for Pile {
    type V = PileModel;

    closed spec fn view(&self) -> PileModel {
        PileModel { copies: self.copies@, total: self.total }
    }
}

impl Pile {
    /// A pile without cards.
    pub fn new() -> (pile: Pile)
        ensures
            pile@ == (PileModel { copies: Map::empty(), total: 0 }),
    {
        Pile { copies: HashMap::new(), total: 0 }
    }

    /// The number of cards in the pile.
    pub fn total(&self) -> (total: i32)
        ensures
            total == self@.total,
    {
        self.total
    }

    /// The copies of the card `card`.
    pub fn copies(&self, card: usize) -> (copies: i32)
        ensures
            copies == copies_of(self@.copies, card),
    {
        match self.copies.get(&card) {
            Some(n) => *n,
            None => 0,
        }
    }

    /// Gives `more` copies to each of the `count` cards from `from` on.
    /// Where a number cannot be held, the result is `false` and the pile is
    /// of no use any more.
    fn add_copies(&mut self, from: usize, count: usize, more: i32) -> (done: bool)
        ensures
            match with_copies(old(self)@, from as int, count as nat, more) {
                Some(pile) => done && final(self)@ == pile,
                None => !done,
            },
    {
        let mut next: usize = from;
        let mut left: usize = count;
        while left > 0
            invariant
                with_copies(old(self)@, from as int, count as nat, more) == with_copies(
                    self@,
                    next as int,
                    left as nat,
                    more,
                ),
            decreases left,
        {
            let ghost before = self@;
            let copies = more.checked_add(self.copies(next));
            let total = self.total.checked_add(more);
            match (copies, total) {
                (Some(copies), Some(total)) => {
                    self.copies.insert(next, copies);
                    self.total = total;
                    proof {
                        assert(self@ == (PileModel {
                            copies: before.copies.insert(next, copies),
                            total,
                        }));
                        assert(with_copies(before, next as int, left as nat, more) == with_copies(
                            self@,
                            next + 1,
                            (left - 1) as nat,
                            more,
                        ));
                    }
                },
                _ => {
                    proof {
                        assert(with_copies(before, next as int, left as nat, more) is None);
                    }
                    return false;
                },
            }
            left -= 1;
            if left > 0 {
                if next == usize::MAX {
                    proof {
                        assert(with_copies(self@, next + 1, left as nat, more) is None);
                    }
                    return false;
                }
                next += 1;
            } else {
                proof {
                    assert(with_copies(self@, next + 1, 0, more) == Some(self@));
                    assert(with_copies(self@, next as int, 0, more) == Some(self@));
                }
            }
        }
        proof {
            assert(with_copies(self@, next as int, 0, more) == Some(self@));
        }
        true
    }

    /// Scratches the card `card` with `matching` winning numbers. Where a
    /// number cannot be held, the result is `false` and the pile is of no use
    /// any more.
    pub fn add_card(&mut self, card: usize, matching: usize) -> (done: bool)
        ensures
            match with_card(old(self)@, card, matching as nat) {
                Some(pile) => done && final(self)@ == pile,
                None => !done,
            },
    {
        let copies = self.copies(card).checked_add(1);
        let total = self.total.checked_add(1);
        match (copies, total) {
            (Some(copies), Some(total)) => {
                self.copies.insert(card, copies);
                self.total = total;
                if matching == 0 {
                    return true;
                }
                if card == usize::MAX {
                    return false;
                }
                self.add_copies(card + 1, matching, copies)
            },
            _ => false,
        }
    }
}

/// The number of cards in the pile after each of `cards` has been scratched,
/// in order; `None` where a number cannot be held on the way.
#[verifier::loop_isolation(false)]
pub fn count_cards(cards: &Vec<Card>) -> (total: Option<i32>)
    ensures
        match total {
            Some(n) => pile_after(card_models(cards@), cards.len() as int) is Some && pile_after(
                card_models(cards@),
                cards.len() as int,
            )->0.total == n,
            None => pile_after(card_models(cards@), cards.len() as int) is None,
        },
{
    let ghost all = card_models(cards@);
    let mut pile = Pile::new();
    let mut i: usize = 0;
    while i < cards.len()
        invariant
            i <= cards.len(),
            pile_after(all, i as int) == Some(pile@),
        decreases cards.len() - i,
    {
        proof {
            assert(all[i as int] == cards@[i as int].model());
        }
        let matching = cards[i].matching_numbers();
        if !pile.add_card(cards[i].number, matching) {
            proof {
                lemma_pile_fails(all, i + 1, cards.len() as int);
            }
            return None;
        }
        i += 1;
    }
    Some(pile.total())
}

} // verus!
