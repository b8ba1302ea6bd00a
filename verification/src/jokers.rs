//! Whatever value the jokers of a hand take among those that they may take,
//! the type of the hand comes out the same.
use crate::camel::{hand_type, is_improved, is_joker_choice, with_jokers_as, HandType};
use vstd::multiset::Multiset;
use vstd::prelude::*;
use vstd::set_lib::lemma_map_size;

verus! {

broadcast use vstd::seq_lib::group_to_multiset_ensures;

/// The type that the jokers make of the hand `values`: the type of the hand
/// with each joker replaced by a value that the jokers may take, and the
/// type of the hand itself where it holds no joker.
pub open spec fn improved_type(values: Seq<usize>) -> HandType {
    if values.contains(0usize) {
        hand_type(with_jokers_as(values, choose|joker: usize| is_joker_choice(values, joker)))
    } else {
        hand_type(values)
    }
}

/// How often each value occurs once the jokers have taken the value `joker`:
/// the jokers are gone, `joker` occurs as often as it did and the jokers
/// together, and each other value as often as before.
pub proof fn lemma_jokers_replaced(values: Seq<usize>, joker: usize)
    requires
        joker != 0,
    ensures
        with_jokers_as(values, joker).to_multiset().count(0) == 0,
        with_jokers_as(values, joker).to_multiset().count(joker) == values.to_multiset().count(
            joker,
        ) + values.to_multiset().count(0),
        forall|v: usize|
            v != 0 && v != joker ==> #[trigger] with_jokers_as(values, joker).to_multiset().count(v)
                == values.to_multiset().count(v),
    decreases values.len(),
{
    broadcast use vstd::multiset::group_multiset_axioms;

    if values.len() == 0 {
        assert(with_jokers_as(values, joker) =~= values);
        assert(values.to_multiset() =~= Multiset::<usize>::empty());
    } else {
        let head = values.drop_last();
        let last = values.last();
        let card = if last == 0 {
            joker
        } else {
            last
        };
        lemma_jokers_replaced(head, joker);
        assert(values == head.push(last));
        assert(with_jokers_as(values, joker) =~= with_jokers_as(head, joker).push(card));
        vstd::seq_lib::to_multiset_build(head, last);
        vstd::seq_lib::to_multiset_build(with_jokers_as(head, joker), card);
        assert forall|v: usize| v != 0 && v != joker implies #[trigger] with_jokers_as(
            values,
            joker,
        ).to_multiset().count(v) == values.to_multiset().count(v) by {
            assert(with_jokers_as(head, joker).to_multiset().count(v) == head.to_multiset().count(
                v,
            ));
        }
    }
}

/// `a` with `b` in its place and `b` with `a`; any other value stays.
pub open spec fn swapped(a: usize, b: usize, v: usize) -> usize {
    if v == a {
        b
    } else if v == b {
        a
    } else {
        v
    }
}

/// Two hands in which the same frequencies occur, under other names of the
/// cards, are of the same type.
pub proof fn lemma_type_under_swap(one: Seq<usize>, other: Seq<usize>, a: usize, b: usize)
    requires
        forall|v: usize|
            other.to_multiset().count(swapped(a, b, v)) == #[trigger] one.to_multiset().count(v),
    ensures
        hand_type(one) == hand_type(other),
{
    let m = one.to_multiset();
    let n = other.to_multiset();
    let f = |v: usize| swapped(a, b, v);
    assert(m.dom().map(f) =~= n.dom()) by {
        assert forall|w: usize| m.dom().map(f).contains(w) == n.dom().contains(w) by {
            if m.dom().map(f).contains(w) {
                let v = choose|v: usize| m.dom().contains(v) && f(v) == w;
                assert(n.count(swapped(a, b, v)) == m.count(v));
            }
            if n.dom().contains(w) {
                let v = swapped(a, b, w);
                assert(swapped(a, b, v) == w);
                assert(n.count(swapped(a, b, v)) == m.count(v));
                assert(m.dom().contains(v) && f(v) == w);
            }
        }
    }
    assert(vstd::relations::injective_on(f, m.dom())) by {
        assert forall|x1: usize, x2: usize|
            m.dom().contains(x1) && m.dom().contains(x2) && #[trigger] f(x1) == #[trigger] f(
                x2,
            ) implies x1 == x2 by {}
    }
    lemma_map_size(m.dom(), n.dom(), f);
    assert((exists|v: usize| m.count(v) == 3) == (exists|v: usize| n.count(v) == 3)) by {
        if exists|v: usize| m.count(v) == 3 {
            let v = choose|v: usize| m.count(v) == 3;
            assert(n.count(swapped(a, b, v)) == m.count(v));
        }
        if exists|v: usize| n.count(v) == 3 {
            let w = choose|v: usize| n.count(v) == 3;
            let v = swapped(a, b, w);
            assert(swapped(a, b, v) == w);
            assert(n.count(swapped(a, b, v)) == m.count(v));
        }
    }
    assert((exists|v: usize| m.count(v) == 4) == (exists|v: usize| n.count(v) == 4)) by {
        if exists|v: usize| m.count(v) == 4 {
            let v = choose|v: usize| m.count(v) == 4;
            assert(n.count(swapped(a, b, v)) == m.count(v));
        }
        if exists|v: usize| n.count(v) == 4 {
            let w = choose|v: usize| n.count(v) == 4;
            let v = swapped(a, b, w);
            assert(swapped(a, b, v) == w);
            assert(n.count(swapped(a, b, v)) == m.count(v));
        }
    }
}

/// Whatever value the jokers take among those that they may take, the type
/// of the hand comes out the same.
pub proof fn lemma_joker_choice_is_free(values: Seq<usize>, a: usize, b: usize)
    requires
        values.contains(0usize),
        is_joker_choice(values, a),
        is_joker_choice(values, b),
    ensures
        hand_type(with_jokers_as(values, a)) == hand_type(with_jokers_as(values, b)),
{
    let cards = values.to_multiset();
    match hand_type(values) {
        HandType::FiveOfAKind => {},
        HandType::TwoPairs => {
            assert(a <= b && b <= a);
        },
        HandType::HighCard => {
            let i = choose|i: int| 0 <= i < values.len() && values[i] == a;
            let j = choose|j: int| 0 <= j < values.len() && values[j] == b;
            assert(values[i] <= b && values[j] <= a);
        },
        _ => {
            if a != b {
                assert(cards.count(a) <= cards.count(b));
                assert(cards.count(b) <= cards.count(a));
                lemma_jokers_replaced(values, a);
                lemma_jokers_replaced(values, b);
                let one = with_jokers_as(values, a).to_multiset();
                let other = with_jokers_as(values, b).to_multiset();
                assert forall|v: usize| other.count(swapped(a, b, v)) == #[trigger] one.count(
                    v,
                ) by {
                    if v != 0 && v != a && v != b {
                        assert(one.count(v) == cards.count(v));
                        assert(other.count(v) == cards.count(v));
                    } else if v == a {
                        assert(other.count(b) == cards.count(b) + cards.count(0));
                    } else if v == b {
                        assert(other.count(a) == cards.count(a));
                        assert(one.count(b) == cards.count(b));
                    }
                }
                lemma_type_under_swap(with_jokers_as(values, a), with_jokers_as(values, b), a, b);
            }
        },
    }
}

/// Whatever the jokers make of a hand, its type is the one that
/// `improved_type` tells.
pub proof fn lemma_improved_type(values: Seq<usize>, better: Seq<usize>)
    requires
        is_improved(values, better),
    ensures
        hand_type(better) == improved_type(values),
{
    if values.contains(0usize) {
        let taken = choose|joker: usize|
            is_joker_choice(values, joker) && better == with_jokers_as(values, joker);
        let named = choose|joker: usize| is_joker_choice(values, joker);
        lemma_joker_choice_is_free(values, taken, named);
    }
}

} // verus!
