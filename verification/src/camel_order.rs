//! The order of hands: first by what the jokers make of them, then card by
//! card.
use crate::camel::{first_difference, first_difference_of, Hand, HandType};
use crate::jokers::{improved_type, lemma_improved_type};
use std::cmp::Ordering;
use vstd::prelude::*;

verus! {

/// How the cards `a` stand to the cards `b`: the first place at which they
/// differ decides, and where they differ nowhere they are equal.
pub open spec fn cards_order(a: Seq<usize>, b: Seq<usize>) -> Ordering {
    match first_difference(a, b) {
        Some(i) => if a[i] < b[i] {
            Ordering::Less
        } else {
            Ordering::Greater
        },
        None => Ordering::Equal,
    }
}

/// How a hand of the type `kind` with the cards `cards` stands to one of the
/// type `other_kind` with the cards `other_cards`: the stronger type wins,
/// and between hands of one type the cards decide.
pub open spec fn hands_order(
    kind: HandType,
    other_kind: HandType,
    cards: Seq<usize>,
    other_cards: Seq<usize>,
) -> Ordering {
    if kind.strength() < other_kind.strength() {
        Ordering::Less
    } else if kind.strength() > other_kind.strength() {
        Ordering::Greater
    } else {
        cards_order(cards, other_cards)
    }
}

impl Hand {
    /// How the hand stands to `other`. The types decide that the jokers make
    /// of the two hands; between hands whose types are the same, the cards
    /// decide as they were dealt, jokers counting least. Both hands must
    /// hold five cards.
    pub fn cmp(&self, other: &Self) -> (order: Ordering)
        requires
            self.values.len() == 5,
            other.values.len() == 5,
        ensures
            order == hands_order(
                improved_type(self.values@),
                improved_type(other.values@),
                self.values@,
                other.values@,
            ),
    {
        let mine = self.improve();
        let theirs = other.improve();
        let kind = mine.get_type();
        let other_kind = theirs.get_type();
        proof {
            lemma_improved_type(self.values@, mine.values@);
            lemma_improved_type(other.values@, theirs.values@);
        }
        if kind.rank() < other_kind.rank() {
            Ordering::Less
        } else if kind.rank() > other_kind.rank() {
            Ordering::Greater
        } else {
            match first_difference_of(&self.values, &other.values) {
                Some(i) => {
                    if self.values[i] < other.values[i] {
                        Ordering::Less
                    } else {
                        Ordering::Greater
                    }
                },
                None => Ordering::Equal,
            }
        }
    }

    /// How the hand stands to `other`: hands of five cards are always
    /// comparable.
    pub fn partial_cmp(&self, other: &Self) -> (order: Option<Ordering>)
        requires
            self.values.len() == 5,
            other.values.len() == 5,
        ensures
            order == Some(
                hands_order(
                    improved_type(self.values@),
                    improved_type(other.values@),
                    self.values@,
                    other.values@,
                ),
            ),
    {
        Some(self.cmp(other))
    }
}

} // verus!
