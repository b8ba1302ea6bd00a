//! Calibration values: the first and the last digit of a line, where a
//! digit may be spelled out as a word.
use crate::text::{chars_of, find_from, first_occurrence, is_digit, slice_of, string_of};
use vstd::prelude::*;

verus! {

/// `line` with the `len` characters at place `at` replaced by `new`.
pub open spec fn spliced(line: Seq<char>, at: int, len: int, new: Seq<char>) -> Seq<char> {
    line.take(at) + new + line.skip(at + len)
}

/// Where the key of the pair `pair` first stands in `line`, if it does so
/// before the end of `line`.
pub open spec fn place_in(line: Seq<char>, pair: (Seq<char>, Seq<char>)) -> Option<int> {
    match first_occurrence(line, pair.0, 0) {
        Some(r) => if r < line.len() {
            Some(r)
        } else {
            None
        },
        None => None,
    }
}

/// The place, among `trans`, of the pair whose key stands leftmost in
/// `line`; of several that stand at the same place, the one that is listed
/// first. There is none where no key stands in `line`.
pub open spec fn leftmost(line: Seq<char>, trans: Seq<(Seq<char>, Seq<char>)>) -> Option<int>
    decreases trans.len(),
{
    if trans.len() == 0 {
        None
    } else {
        let before = leftmost(line, trans.drop_last());
        match (before, place_in(line, trans.last())) {
            (None, Some(_)) => Some(trans.len() - 1),
            (Some(k), Some(r)) => if r < place_in(line, trans[k])->0 {
                Some(trans.len() - 1)
            } else {
                before
            },
            (_, None) => before,
        }
    }
}

/// `line` with the leftmost key of `trans` replaced by its value, once; or
/// `line` itself where no key stands in it.
pub open spec fn with_leftmost_replaced(line: Seq<char>, trans: Seq<(Seq<char>, Seq<char>)>) -> Seq<
    char,
> {
    match leftmost(line, trans) {
        Some(k) => spliced(
            line,
            place_in(line, trans[k])->0,
            trans[k].0.len() as int,
            trans[k].1,
        ),
        None => line,
    }
}

/// The pair that `leftmost` names is one whose key stands in `line`; no key
/// stands further left, and none that is listed before it stands at the
/// same place. Where `leftmost` names none, no key stands in `line`.
pub proof fn lemma_leftmost(line: Seq<char>, trans: Seq<(Seq<char>, Seq<char>)>)
    ensures
        match leftmost(line, trans) {
            Some(k) => {
                &&& 0 <= k < trans.len()
                &&& place_in(line, trans[k]) is Some
                &&& forall|j: int|
                    0 <= j < trans.len() && place_in(line, #[trigger] trans[j]) is Some
                        ==> place_in(line, trans[k])->0 <= place_in(line, trans[j])->0
                &&& forall|j: int|
                    0 <= j < k && place_in(line, #[trigger] trans[j]) is Some ==> place_in(
                        line,
                        trans[k],
                    )->0 < place_in(line, trans[j])->0
            },
            None => forall|j: int| 0 <= j < trans.len() ==> place_in(line, #[trigger] trans[j]) is None,
        },
    decreases trans.len(),
{
    if trans.len() > 0 {
        let head = trans.drop_last();
        lemma_leftmost(line, head);
        assert forall|j: int| 0 <= j < head.len() implies head[j] == trans[j] by {}
        match leftmost(line, trans) {
            Some(k) => {
                assert forall|j: int|
                    0 <= j < trans.len() && place_in(line, #[trigger] trans[j]) is Some implies place_in(
                    line,
                    trans[k],
                )->0 <= place_in(line, trans[j])->0 by {
                    if j < head.len() {
                        assert(head[j] == trans[j]);
                    }
                }
                assert forall|j: int|
                    0 <= j < k && place_in(line, #[trigger] trans[j]) is Some implies place_in(
                    line,
                    trans[k],
                )->0 < place_in(line, trans[j])->0 by {
                    assert(head[j] == trans[j]);
                }
            },
            None => {
                assert forall|j: int| 0 <= j < trans.len() implies place_in(
                    line,
                    #[trigger] trans[j],
                ) is None by {
                    if j < head.len() {
                        assert(head[j] == trans[j]);
                    }
                }
            },
        }
    }
}

/// What each of the pairs holds.
pub open spec fn pair_views(trans: Seq<(String, String)>) -> Seq<(Seq<char>, Seq<char>)> {
    Seq::new(trans.len(), |i: int| (trans[i].0@, trans[i].1@))
}

/// The characters `a`, then `b`, then `c`.
fn joined(a: &Vec<char>, b: &Vec<char>, c: &Vec<char>) -> (all: Vec<char>)
    ensures
        all@ == a@ + b@ + c@,
{
    let mut all: Vec<char> = Vec::new();
    let mut i: usize = 0;
    while i < a.len()
        invariant
            i <= a.len(),
            all@ == a@.take(i as int),
        decreases a.len() - i,
    {
        all.push(a[i]);
        proof {
            assert(a@.take(i + 1) == a@.take(i as int).push(a@[i as int]));
        }
        i += 1;
    }
    proof {
        assert(a@.take(a.len() as int) == a@);
    }
    i = 0;
    while i < b.len()
        invariant
            i <= b.len(),
            all@ == a@ + b@.take(i as int),
        decreases b.len() - i,
    {
        all.push(b[i]);
        proof {
            assert(b@.take(i + 1) == b@.take(i as int).push(b@[i as int]));
            assert((a@ + b@.take(i as int)).push(b@[i as int]) == a@ + b@.take(i + 1));
        }
        i += 1;
    }
    proof {
        assert(b@.take(b.len() as int) == b@);
    }
    i = 0;
    while i < c.len()
        invariant
            i <= c.len(),
            all@ == a@ + b@ + c@.take(i as int),
        decreases c.len() - i,
    {
        all.push(c[i]);
        proof {
            assert(c@.take(i + 1) == c@.take(i as int).push(c@[i as int]));
            assert((a@ + b@ + c@.take(i as int)).push(c@[i as int]) == a@ + b@ + c@.take(i + 1));
        }
        i += 1;
    }
    proof {
        assert(c@.take(c.len() as int) == c@);
    }
    all
}

/// Replaces in `line` the leftmost of the keys of `trans` by its value, once.
/// Of several keys that stand leftmost at the same place the one listed
/// first is replaced; where no key stands in `line`, the line is returned as
/// it is.
pub fn replace_leftmost_chars(line: &Vec<char>, trans: &Vec<(String, String)>) -> (replaced: Vec<
    char,
>)
    ensures
        replaced@ == with_leftmost_replaced(line@, pair_views(trans@)),
{
    let ghost pairs = pair_views(trans@);
    let mut running_idx: usize = line.len();
    let mut best: Option<usize> = None;
    let mut i: usize = 0;
    proof {
        assert(pairs.take(0) == Seq::<(Seq<char>, Seq<char>)>::empty());
    }
    while i < trans.len()
        invariant
            i <= trans.len(),
            pairs == pair_views(trans@),
            running_idx <= line.len(),
            match best {
                Some(k) => leftmost(line@, pairs.take(i as int)) == Some(k as int) && k < i
                    && place_in(line@, pairs[k as int]) == Some(running_idx as int),
                None => leftmost(line@, pairs.take(i as int)) is None && running_idx
                    == line.len(),
            },
        decreases trans.len() - i,
    {
        let old = chars_of(trans[i].0.as_str());
        proof {
            assert(pairs.take(i + 1).drop_last() == pairs.take(i as int));
            assert(pairs.take(i + 1).last() == pairs[i as int]);
            assert(pairs[i as int].0 == old@);
            match best {
                Some(k) => {
                    assert(pairs.take(i as int)[k as int] == pairs[k as int]);
                    assert(pairs.take(i + 1)[k as int] == pairs[k as int]);
                },
                None => {},
            }
        }
        match find_from(line, &old, 0) {
            Some(r) => {
                if r < running_idx {
                    running_idx = r;
                    best = Some(i);
                }
            },
            None => {},
        }
        i += 1;
    }
    proof {
        assert(pairs.take(trans.len() as int) == pairs);
    }
    match best {
        Some(k) => {
            let old = chars_of(trans[k].0.as_str());
            let new = chars_of(trans[k].1.as_str());
            let head = slice_of(line, 0, running_idx);
            proof {
                assert(pairs[k as int] == (old@, new@));
                assert(first_occurrence(line@, old@, 0) == Some(running_idx as int));
                lemma_occurrence_fits(line@, old@, 0);
            }
            let tail = slice_of(line, running_idx + old.len(), line.len());
            proof {
                assert(head@ == line@.take(running_idx as int));
                assert(tail@ == line@.skip(running_idx + old.len()));
            }
            joined(&head, &new, &tail)
        },
        None => slice_of(line, 0, line.len()),
    }
}

/// Where a pattern stands, it stands within the text.
pub proof fn lemma_occurrence_fits(s: Seq<char>, pattern: Seq<char>, from: int)
    requires
        first_occurrence(s, pattern, from) is Some,
    ensures
        from <= first_occurrence(s, pattern, from)->0,
        first_occurrence(s, pattern, from)->0 + pattern.len() <= s.len(),
    decreases s.len() + 1 - from,
{
    if from >= 0 && from + pattern.len() <= s.len() && s.subrange(from, from + pattern.len())
        != pattern {
        lemma_occurrence_fits(s, pattern, from + 1);
    }
}

/// Replaces in `line` the leftmost of the keys of `trans` by its value, once.
/// Of several keys that stand leftmost at the same place the one listed
/// first is replaced; where no key stands in `line`, the line is returned as
/// it is.
pub fn replace_leftmost(line: &str, trans: &Vec<(String, String)>) -> (replaced: String)
    ensures
        replaced@ == with_leftmost_replaced(line@, pair_views(trans@)),
{
    let chars = chars_of(line);
    let replaced = replace_leftmost_chars(&chars, trans);
    string_of(&replaced)
}

/// The value of the first decimal digit in `s`, if it holds one.
pub open spec fn first_digit(s: Seq<char>) -> Option<u32>
    decreases s.len(),
{
    if s.len() == 0 {
        None
    } else if is_digit(s[0]) {
        Some((s[0] as u32 - '0' as u32) as u32)
    } else {
        first_digit(s.drop_first())
    }
}

/// The value of the first decimal digit in `chars`, if it holds one.
pub fn first_digit_of(chars: &Vec<char>) -> (digit: Option<u32>)
    ensures
        digit == first_digit(chars@),
{
    let mut i: usize = 0;
    proof {
        assert(chars@.skip(0) == chars@);
    }
    while i < chars.len()
        invariant
            i <= chars.len(),
            first_digit(chars@) == first_digit(chars@.skip(i as int)),
        decreases chars.len() - i,
    {
        let c: char = chars[i];
        proof {
            assert(chars@.skip(i as int)[0] == c);
            assert(chars@.skip(i as int).drop_first() == chars@.skip(i + 1));
        }
        if c >= '0' && c <= '9' {
            return Some(c as u32 - '0' as u32);
        }
        i += 1;
    }
    None
}

/// The characters of `chars` in the opposite order.
pub fn reversed(chars: &Vec<char>) -> (back: Vec<char>)
    ensures
        back@ == chars@.reverse(),
{
    let mut back: Vec<char> = Vec::new();
    let mut i: usize = chars.len();
    while i > 0
        invariant
            i <= chars.len(),
            back.len() == chars.len() - i,
            forall|k: int| 0 <= k < back.len() ==> back@[k] == chars@[chars.len() - 1 - k],
        decreases i,
    {
        i -= 1;
        back.push(chars[i]);
    }
    proof {
        assert(back@ =~= chars@.reverse());
    }
    back
}

/// Each pair of `trans` with its key written backwards.
pub open spec fn keys_reversed(trans: Seq<(Seq<char>, Seq<char>)>) -> Seq<(Seq<char>, Seq<char>)> {
    Seq::new(trans.len(), |i: int| (trans[i].0.reverse(), trans[i].1))
}

/// The calibration value of `line`: ten times its first digit plus its last
/// digit. For the first digit the leftmost key of `trans` in `line` counts
/// as its value; for the last digit the rightmost key does, found by
/// reading the line and the keys backwards. There is no value where the line
/// holds no digit.
pub open spec fn calibration_value(line: Seq<char>, trans: Seq<(Seq<char>, Seq<char>)>) -> Option<
    u32,
> {
    let forward = with_leftmost_replaced(line, trans);
    let backward = with_leftmost_replaced(line.reverse(), keys_reversed(trans));
    match (first_digit(forward), first_digit(backward)) {
        (Some(first), Some(last)) => Some((first * 10 + last) as u32),
        _ => None,
    }
}

/// Each pair of `trans` with its key written backwards.
pub fn with_keys_reversed(trans: &Vec<(String, String)>) -> (back: Vec<(String, String)>)
    ensures
        pair_views(back@) == keys_reversed(pair_views(trans@)),
{
    let mut back: Vec<(String, String)> = Vec::new();
    let mut i: usize = 0;
    while i < trans.len()
        invariant
            i <= trans.len(),
            back.len() == i,
            forall|k: int|
                0 <= k < i ==> (#[trigger] back@[k]).0@ == trans@[k].0@.reverse() && back@[k].1@
                    == trans@[k].1@,
        decreases trans.len() - i,
    {
        let key = string_of(&reversed(&chars_of(trans[i].0.as_str())));
        let value = trans[i].1.clone();
        back.push((key, value));
        i += 1;
    }
    proof {
        assert(pair_views(back@) =~= keys_reversed(pair_views(trans@)));
    }
    back
}

/// The calibration value of `line`, where the keys of `trans` count as
/// digits and `rtrans` holds the same pairs with their keys written
/// backwards.
pub fn calibration_value_of(
    line: &str,
    trans: &Vec<(String, String)>,
    rtrans: &Vec<(String, String)>,
) -> (value: Option<u32>)
    requires
        pair_views(rtrans@) == keys_reversed(pair_views(trans@)),
    ensures
        value == calibration_value(line@, pair_views(trans@)),
{
    let chars = chars_of(line);
    let forward = replace_leftmost_chars(&chars, trans);
    let first = match first_digit_of(&forward) {
        Some(d) => d,
        None => {
            return None;
        },
    };
    let back = reversed(&chars);
    let backward = replace_leftmost_chars(&back, rtrans);
    let last = match first_digit_of(&backward) {
        Some(d) => d,
        None => {
            return None;
        },
    };
    proof {
        lemma_digit_is_small(forward@);
        lemma_digit_is_small(backward@);
    }
    Some(first * 10 + last)
}

/// A digit is no more than nine.
pub proof fn lemma_digit_is_small(s: Seq<char>)
    ensures
        first_digit(s) is Some ==> first_digit(s)->0 <= 9,
    decreases s.len(),
{
    if s.len() > 0 && !is_digit(s[0]) {
        lemma_digit_is_small(s.drop_first());
    }
}

/// The sum of the calibration values of `lines`; a line without a value adds
/// nothing.
pub open spec fn calibration_sum(lines: Seq<Seq<char>>, trans: Seq<(Seq<char>, Seq<char>)>) -> int
    decreases lines.len(),
{
    if lines.len() == 0 {
        0
    } else {
        calibration_sum(lines.drop_last(), trans) + match calibration_value(lines.last(), trans) {
            Some(v) => v as int,
            None => 0,
        }
    }
}

/// What each of the lines holds.
pub open spec fn string_views(lines: Seq<String>) -> Seq<Seq<char>> {
    Seq::new(lines.len(), |i: int| lines[i]@)
}

/// The sum of the calibration values of `lines`, or `None` where a `u32`
/// cannot hold it.
#[verifier::loop_isolation(false)]
pub fn calibration_sum_of(lines: &Vec<String>, trans: &Vec<(String, String)>) -> (sum: Option<u32>)
    ensures
        match sum {
            Some(total) => calibration_sum(string_views(lines@), pair_views(trans@)) == total,
            None => calibration_sum(string_views(lines@), pair_views(trans@)) > u32::MAX,
        },
{
    let rtrans = with_keys_reversed(trans);
    let ghost all = string_views(lines@);
    let ghost pairs = pair_views(trans@);
    let mut sum: u32 = 0;
    let mut i: usize = 0;
    proof {
        assert(all.take(0) == Seq::<Seq<char>>::empty());
    }
    while i < lines.len()
        invariant
            i <= lines.len(),
            sum == calibration_sum(all.take(i as int), pairs),
        decreases lines.len() - i,
    {
        proof {
            assert(all.take(i + 1).drop_last() == all.take(i as int));
            assert(all.take(i + 1).last() == lines@[i as int]@);
        }
        match calibration_value_of(lines[i].as_str(), trans, &rtrans) {
            Some(v) => {
                match sum.checked_add(v) {
                    Some(more) => {
                        sum = more;
                    },
                    None => {
                        proof {
                            lemma_calibration_sum_grows(all, pairs, i + 1);
                        }
                        return None;
                    },
                }
            },
            None => {},
        }
        i += 1;
    }
    proof {
        assert(all.take(lines.len() as int) == all);
    }
    Some(sum)
}

/// The sum of the values of the first lines is no more than the sum of all.
pub proof fn lemma_calibration_sum_grows(
    lines: Seq<Seq<char>>,
    trans: Seq<(Seq<char>, Seq<char>)>,
    k: int,
)
    requires
        0 <= k <= lines.len(),
    ensures
        calibration_sum(lines.take(k), trans) <= calibration_sum(lines, trans),
    decreases lines.len() - k,
{
    if k < lines.len() {
        assert(lines.take(k + 1).drop_last() == lines.take(k));
        lemma_calibration_sum_grows(lines, trans, k + 1);
    } else {
        assert(lines.take(k) == lines);
    }
}

} // verus!
