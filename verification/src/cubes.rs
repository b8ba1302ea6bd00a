//! The game of coloured cubes: hands shown from a bag, whether they are
//! possible, and what a bag must hold at least.
use crate::pattern::{
    find_captures, find_group_names, match_model, matches_model, named_text, names_model,
    regex_captures, regex_group_names, text_of, Group,
};
use crate::text::{chars_of, parse_i64, parse_i64_chars};
use vstd::prelude::*;

verus! {

/// The red cubes in the bag.
pub const MAX_RED: i32 = 12;

/// The green cubes in the bag.
pub const MAX_GREEN: i32 = 13;

/// The blue cubes in the bag.
pub const MAX_BLUE: i32 = 14;

/// The cubes of one hand, by colour.
#[derive(Clone, Copy, Debug, PartialEq, Eq, Structural)]
pub struct Hand {
    pub red: i32,
    pub green: i32,
    pub blue: i32,
}

/// Whether `m` is the least number that is not negative and not below any of
/// `values`.
pub open spec fn is_least_cover(values: Seq<int>, m: int) -> bool {
    &&& 0 <= m
    &&& forall|i: int| 0 <= i < values.len() ==> values[i] <= m
    &&& m == 0 || exists|i: int| 0 <= i < values.len() && values[i] == m
}

/// The integer that `s` writes in decimal, where it is within the range of
/// `i32`.
pub open spec fn parse_i32(s: Seq<char>) -> Option<i32> {
    match parse_i64(s) {
        Some(n) => if i32::MIN <= n <= i32::MAX {
            Some(n as i32)
        } else {
            None
        },
        None => None,
    }
}

/// The number of cubes that a group of a match tells: none where the group
/// is absent, else the number that its text writes.
pub open spec fn cubes_told(text: Option<Seq<char>>) -> Option<i32> {
    match text {
        Some(t) => parse_i32(t),
        None => Some(0i32),
    }
}

/// The hand that one match tells, by its groups `red`, `green` and `blue`.
/// There is none where the text of one of them is no number.
pub open spec fn hand_told(
    names: Seq<Option<Seq<char>>>,
    groups: Seq<Option<(int, int, Seq<char>)>>,
) -> Option<Hand> {
    match (
        cubes_told(named_text(names, groups, "red"@)),
        cubes_told(named_text(names, groups, "green"@)),
        cubes_told(named_text(names, groups, "blue"@)),
    ) {
        (Some(red), Some(green), Some(blue)) => Some(Hand { red, green, blue }),
        _ => None,
    }
}

/// The hands that the matches `found` tell, in order, where each of them
/// tells one.
pub open spec fn hands_told(
    names: Seq<Option<Seq<char>>>,
    found: Seq<Seq<Option<(int, int, Seq<char>)>>>,
) -> Option<Seq<Hand>>
    decreases found.len(),
{
    if found.len() == 0 {
        Some(Seq::empty())
    } else {
        match (hands_told(names, found.drop_last()), hand_told(names, found.last())) {
            (Some(hands), Some(hand)) => Some(hands.push(hand)),
            _ => None,
        }
    }
}

/// The hands of the game `line`, as the pattern `re_hand` finds them.
pub open spec fn hands_of_game(re_hand: Seq<char>, line: Seq<char>) -> Option<Seq<Hand>> {
    match (regex_group_names(re_hand), regex_captures(re_hand, line)) {
        (Some(names), Some(found)) => hands_told(names, found),
        _ => None,
    }
}

/// One match that tells no hand leaves the matches without hands.
pub proof fn lemma_hands_told_fails(
    names: Seq<Option<Seq<char>>>,
    found: Seq<Seq<Option<(int, int, Seq<char>)>>>,
    k: int,
)
    requires
        0 <= k < found.len(),
        hand_told(names, found[k]) is None,
    ensures
        hands_told(names, found) is None,
    decreases found.len(),
{
    if k < found.len() - 1 {
        assert(found.drop_last()[k] == found[k]);
        lemma_hands_told_fails(names, found.drop_last(), k);
    }
}

/// Reads `text` as an integer in decimal within the range of `i32`.
pub fn parse_i32_chars(text: &Vec<char>) -> (number: Option<i32>)
    ensures
        number == parse_i32(text@),
{
    match parse_i64_chars(text) {
        Some(n) => {
            if -0x8000_0000 <= n && n <= 0x7fff_ffff {
                Some(n as i32)
            } else {
                None
            }
        },
        None => None,
    }
}

/// The number of cubes that the group `name` of a match tells.
fn cubes_in(names: &Vec<Option<String>>, groups: &Vec<Option<Group>>, name: &str) -> (cubes: Option<
    i32,
>)
    ensures
        cubes == cubes_told(named_text(names_model(names@), match_model(groups@), name@)),
{
    match text_of(names, groups, name) {
        Some(text) => {
            let chars = chars_of(text.as_str());
            parse_i32_chars(&chars)
        },
        None => Some(0),
    }
}

/// The hand that one match tells.
fn hand_in(names: &Vec<Option<String>>, groups: &Vec<Option<Group>>) -> (hand: Option<Hand>)
    ensures
        hand == hand_told(names_model(names@), match_model(groups@)),
{
    let red = cubes_in(names, groups, "red");
    let green = cubes_in(names, groups, "green");
    let blue = cubes_in(names, groups, "blue");
    match (red, green, blue) {
        (Some(red), Some(green), Some(blue)) => Some(Hand { red, green, blue }),
        _ => None,
    }
}

impl Hand {
    /// Whether the bag holds the cubes of the hand.
    pub open spec fn possible(self) -> bool {
        self.red <= MAX_RED && self.green <= MAX_GREEN && self.blue <= MAX_BLUE
    }

    /// Whether the bag holds the cubes of the hand.
    pub fn is_possible(&self) -> (possible: bool)
        ensures
            possible == self.possible(),
    {
        self.red <= MAX_RED && self.green <= MAX_GREEN && self.blue <= MAX_BLUE
    }

    /// The hands that the matches `found` of a pattern with the group names
    /// `names` tell: the groups `red`, `green` and `blue` of each match give
    /// the cubes of one hand, and a colour whose group is absent has none.
    /// The result is `None` where the text of such a group is no number
    /// within the range of `i32`.
    #[verifier::loop_isolation(false)]
    pub fn from_captures(names: &Vec<Option<String>>, found: &Vec<Vec<Option<Group>>>) -> (hands:
        Option<Vec<Hand>>)
        ensures
            match hands {
                Some(list) => hands_told(names_model(names@), matches_model(found@)) == Some(
                    list@,
                ),
                None => hands_told(names_model(names@), matches_model(found@)) is None,
            },
    {
        let ghost all = matches_model(found@);
        let mut hands: Vec<Hand> = Vec::new();
        let mut i: usize = 0;
        proof {
            assert(all.take(0) == Seq::<Seq<Option<(int, int, Seq<char>)>>>::empty());
        }
        while i < found.len()
            invariant
                i <= found.len(),
                hands_told(names_model(names@), all.take(i as int)) == Some(hands@),
            decreases found.len() - i,
        {
            proof {
                assert(all.take(i + 1).drop_last() == all.take(i as int));
                assert(all.take(i + 1).last() == match_model(found@[i as int]@));
                assert(all[i as int] == match_model(found@[i as int]@));
            }
            match hand_in(names, &found[i]) {
                Some(hand) => {
                    hands.push(hand);
                },
                None => {
                    proof {
                        lemma_hands_told_fails(names_model(names@), all, i as int);
                    }
                    return None;
                },
            }
            i += 1;
        }
        proof {
            assert(all.take(found.len() as int) == all);
        }
        Some(hands)
    }

    /// The hands of the game `line`, as the pattern `re_hand` finds them:
    /// one hand for each match, told by the groups `red`, `green` and `blue`.
    /// The result is `None` where the pattern is refused and where a group
    /// holds no number within the range of `i32`.
    pub fn collect_from_game(re_hand: &str, line: &str) -> (hands: Option<Vec<Hand>>)
        ensures
            match hands {
                Some(list) => hands_of_game(re_hand@, line@) == Some(list@),
                None => hands_of_game(re_hand@, line@) is None,
            },
    {
        let names = match find_group_names(re_hand) {
            Some(names) => names,
            None => {
                return None;
            },
        };
        let found = match find_captures(re_hand, line) {
            Some(found) => found,
            None => {
                return None;
            },
        };
        Hand::from_captures(&names, &found)
    }

    /// What a bag must hold at least for each of `hands` to be possible: of
    /// each colour the most that a hand shows, and none where there is no
    /// hand.
    pub fn get_requirements(hands: &Vec<Hand>) -> (required: Hand)
        ensures
            required == required_of(hands@),
    {
        let mut required = Hand { red: 0, green: 0, blue: 0 };
        let mut i: usize = 0;
        proof {
            assert(hands@.take(0) == Seq::<Hand>::empty());
        }
        while i < hands.len()
            invariant
                i <= hands.len(),
                required == required_of(hands@.take(i as int)),
            decreases hands.len() - i,
        {
            let hand = hands[i];
            proof {
                assert(hands@.take(i + 1).drop_last() == hands@.take(i as int));
                assert(hands@.take(i + 1).last() == hand);
            }
            if hand.red > required.red {
                required.red = hand.red;
            }
            if hand.green > required.green {
                required.green = hand.green;
            }
            if hand.blue > required.blue {
                required.blue = hand.blue;
            }
            i += 1;
        }
        proof {
            assert(hands@.take(hands.len() as int) == hands@);
        }
        required
    }
}

/// The greater of two numbers.
pub open spec fn greater(a: i32, b: i32) -> i32 {
    if a > b {
        a
    } else {
        b
    }
}

/// What a bag must hold at least for each of `hands` to be possible: of each
/// colour the most that a hand shows, and none where there is no hand.
pub open spec fn required_of(hands: Seq<Hand>) -> Hand
    decreases hands.len(),
{
    if hands.len() == 0 {
        Hand { red: 0, green: 0, blue: 0 }
    } else {
        let before = required_of(hands.drop_last());
        Hand {
            red: greater(hands.last().red, before.red),
            green: greater(hands.last().green, before.green),
            blue: greater(hands.last().blue, before.blue),
        }
    }
}

/// What `required_of` asks for is enough for each hand, and no less would
/// do: of each colour it is the least number that is not negative and not
/// below what a hand shows.
pub proof fn lemma_required_is_least(hands: Seq<Hand>)
    ensures
        is_least_cover(hands.map_values(|h: Hand| h.red as int), required_of(hands).red as int),
        is_least_cover(hands.map_values(|h: Hand| h.green as int), required_of(hands).green as int),
        is_least_cover(hands.map_values(|h: Hand| h.blue as int), required_of(hands).blue as int),
    decreases hands.len(),
{
    if hands.len() > 0 {
        let head = hands.drop_last();
        lemma_required_is_least(head);
        let reds = hands.map_values(|h: Hand| h.red as int);
        let greens = hands.map_values(|h: Hand| h.green as int);
        let blues = hands.map_values(|h: Hand| h.blue as int);
        assert(reds.take(hands.len() - 1) =~= head.map_values(|h: Hand| h.red as int));
        assert(greens.take(hands.len() - 1) =~= head.map_values(|h: Hand| h.green as int));
        assert(blues.take(hands.len() - 1) =~= head.map_values(|h: Hand| h.blue as int));
        lemma_least_cover_grows(reds, hands.len() - 1, required_of(head).red as int);
        lemma_least_cover_grows(greens, hands.len() - 1, required_of(head).green as int);
        lemma_least_cover_grows(blues, hands.len() - 1, required_of(head).blue as int);
        assert(reds.take(hands.len() as int) == reds);
        assert(greens.take(hands.len() as int) == greens);
        assert(blues.take(hands.len() as int) == blues);
    }
}

/// The number of the game `line`, as the pattern `re_id` finds it in its
/// group `id`; `None` where the pattern finds nothing, and where what it
/// finds is no number within the range of `i32`.
pub open spec fn id_of_game(re_id: Seq<char>, line: Seq<char>) -> Option<i32> {
    match (regex_group_names(re_id), regex_captures(re_id, line)) {
        (Some(names), Some(found)) => if found.len() > 0 {
            match named_text(names, found[0], "id"@) {
                Some(text) => parse_i32(text),
                None => None,
            }
        } else {
            None
        },
        _ => None,
    }
}

/// The number of the game `line`, as the pattern `re_id` finds it in its
/// group `id`.
pub fn game_id(re_id: &str, line: &str) -> (id: Option<i32>)
    ensures
        id == id_of_game(re_id@, line@),
{
    let names = match find_group_names(re_id) {
        Some(names) => names,
        None => {
            return None;
        },
    };
    let found = match find_captures(re_id, line) {
        Some(found) => found,
        None => {
            return None;
        },
    };
    if found.len() == 0 {
        return None;
    }
    proof {
        assert(matches_model(found@)[0] == match_model(found@[0]@));
    }
    match text_of(&names, &found[0], "id") {
        Some(text) => parse_i32_chars(&chars_of(text.as_str())),
        None => None,
    }
}

/// Whether the bag holds the cubes of each of `hands`.
pub open spec fn all_possible(hands: Seq<Hand>) -> bool {
    forall|i: int| 0 <= i < hands.len() ==> (#[trigger] hands[i]).possible()
}

/// Whether the bag holds the cubes of each of `hands`.
pub fn are_all_possible(hands: &Vec<Hand>) -> (possible: bool)
    ensures
        possible == all_possible(hands@),
{
    let mut i: usize = 0;
    while i < hands.len()
        invariant
            i <= hands.len(),
            forall|k: int| 0 <= k < i ==> (#[trigger] hands@[k]).possible(),
        decreases hands.len() - i,
    {
        if !hands[i].is_possible() {
            return false;
        }
        i += 1;
    }
    true
}

/// What one game adds to the two sums: its number where all its hands are
/// possible, and the power of the least bag that makes them possible.
/// `None` where an `i32` cannot hold the power.
pub open spec fn game_score(id: i32, required: Hand, possible: bool) -> Option<(i32, i32)> {
    match required.red.checked_mul(required.green) {
        Some(rg) => match rg.checked_mul(required.blue) {
            Some(power) => Some(
                (
                    if possible {
                        id
                    } else {
                        0i32
                    },
                    power,
                ),
            ),
            None => None,
        },
        None => None,
    }
}

/// What the game with the number `id` and the hands `hands` adds to the two
/// sums.
pub fn score_game(id: i32, hands: &Vec<Hand>) -> (score: Option<(i32, i32)>)
    ensures
        score == game_score(id, required_of(hands@), all_possible(hands@)),
{
    let possible = are_all_possible(hands);
    let required = Hand::get_requirements(hands);
    match required.red.checked_mul(required.green) {
        Some(rg) => match rg.checked_mul(required.blue) {
            Some(power) => Some(
                (
                    if possible {
                        id
                    } else {
                        0
                    },
                    power,
                ),
            ),
            None => None,
        },
        None => None,
    }
}

/// What the line `line` adds to the two sums: nothing where it names no
/// game. The inner `None` tells that the line cannot be read or an `i32`
/// cannot hold its power.
pub open spec fn line_score(re_id: Seq<char>, re_hand: Seq<char>, line: Seq<char>) -> Option<
    (i32, i32),
> {
    match id_of_game(re_id, line) {
        None => Some((0i32, 0i32)),
        Some(id) => match hands_of_game(re_hand, line) {
            Some(hands) => game_score(id, required_of(hands), all_possible(hands)),
            None => None,
        },
    }
}

/// The two sums over the first `upto` of the lines `lines`: the numbers of
/// the possible games, and the powers of all games. `None` where a line
/// cannot be read or an `i32` cannot hold a sum on the way.
pub open spec fn games_tally(
    re_id: Seq<char>,
    re_hand: Seq<char>,
    lines: Seq<Seq<char>>,
    upto: int,
) -> Option<(i32, i32)>
    decreases upto,
{
    if upto <= 0 {
        Some((0i32, 0i32))
    } else {
        match games_tally(re_id, re_hand, lines, upto - 1) {
            Some(sums) => with_score(sums, line_score(re_id, re_hand, lines[upto - 1])),
            None => None,
        }
    }
}

/// The two sums `sums` with the score `score` added; `None` where there is
/// no score or an `i32` cannot hold a sum.
pub open spec fn with_score(sums: (i32, i32), score: Option<(i32, i32)>) -> Option<(i32, i32)> {
    match score {
        Some(score) => match (sums.0.checked_add(score.0), sums.1.checked_add(score.1)) {
            (Some(ids), Some(powers)) => Some((ids, powers)),
            _ => None,
        },
        None => None,
    }
}

/// The two sums `sums` with the score `score` added.
pub fn add_score(sums: (i32, i32), score: Option<(i32, i32)>) -> (more: Option<(i32, i32)>)
    ensures
        more == with_score(sums, score),
{
    match score {
        Some(score) => match (sums.0.checked_add(score.0), sums.1.checked_add(score.1)) {
            (Some(ids), Some(powers)) => Some((ids, powers)),
            _ => None,
        },
        None => None,
    }
}

/// A tally that has failed stays failed.
pub proof fn lemma_games_tally_fails(
    re_id: Seq<char>,
    re_hand: Seq<char>,
    lines: Seq<Seq<char>>,
    k: int,
    upto: int,
)
    requires
        k <= upto,
        games_tally(re_id, re_hand, lines, k) is None,
    ensures
        games_tally(re_id, re_hand, lines, upto) is None,
    decreases upto - k,
{
    if k < upto {
        lemma_games_tally_fails(re_id, re_hand, lines, k, upto - 1);
    }
}

/// What the line `line` adds to the two sums.
pub fn score_line(re_id: &str, re_hand: &str, line: &str) -> (score: Option<(i32, i32)>)
    ensures
        score == line_score(re_id@, re_hand@, line@),
{
    match game_id(re_id, line) {
        None => Some((0, 0)),
        Some(id) => match Hand::collect_from_game(re_hand, line) {
            Some(hands) => score_game(id, &hands),
            None => None,
        },
    }
}

/// The two sums over the lines `lines`: the numbers of the games whose
/// hands are all possible, and the powers of the least bags of all games.
/// The result is `None` where a line cannot be read or an `i32` cannot hold
/// a sum on the way.
#[verifier::loop_isolation(false)]
pub fn tally_games(re_id: &str, re_hand: &str, lines: &Vec<String>) -> (sums: Option<(i32, i32)>)
    ensures
        sums == games_tally(
            re_id@,
            re_hand@,
            Seq::new(lines.len() as nat, |i: int| lines[i]@),
            lines.len() as int,
        ),
{
    let ghost all = Seq::new(lines.len() as nat, |i: int| lines[i]@);
    let mut sums: (i32, i32) = (0, 0);
    let mut i: usize = 0;
    while i < lines.len()
        invariant
            i <= lines.len(),
            games_tally(re_id@, re_hand@, all, i as int) == Some(sums),
        decreases lines.len() - i,
    {
        proof {
            assert(all[i as int] == lines@[i as int]@);
        }
        let score = score_line(re_id, re_hand, lines[i].as_str());
        match add_score(sums, score) {
            Some(more) => {
                sums = more;
            },
            None => {
                proof {
                    lemma_games_tally_fails(re_id@, re_hand@, all, i + 1, lines.len() as int);
                }
                return None;
            },
        }
        i += 1;
    }
    Some(sums)
}

/// The least cover of one value more is the greater of the value and the
/// least cover so far.
pub proof fn lemma_least_cover_grows(values: Seq<int>, i: int, m: int)
    requires
        0 <= i < values.len(),
        is_least_cover(values.take(i), m),
    ensures
        is_least_cover(
            values.take(i + 1),
            if values[i] > m {
                values[i]
            } else {
                m
            },
        ),
{
    let more = values.take(i + 1);
    let best = if values[i] > m {
        values[i]
    } else {
        m
    };
    assert forall|k: int| 0 <= k < more.len() implies more[k] <= best by {
        if k < i {
            assert(values.take(i)[k] == more[k]);
        }
    }
    if best != 0 {
        if values[i] > m {
            assert(more[i] == best);
        } else {
            let k = choose|k: int| 0 <= k < values.take(i).len() && values.take(i)[k] == m;
            assert(more[k] == best);
        }
    }
}

} // verus!
