//! Regular expressions: what the `regex` crate finds in a text, handed on
//! as plain values.
use vstd::prelude::*;

verus! {

/// One capture group of one match: where it stands in the text, counted in
/// bytes, and the text that it holds.
#[derive(Clone, Debug, PartialEq, Eq)]
pub struct Group {
    pub start: usize,
    pub end: usize,
    pub text: String,
}

impl Group {
    /// The group as plain values: its start, its end and its text.
    pub open spec fn model(self) -> (int, int, Seq<char>) {
        (self.start as int, self.end as int, self.text@)
    }
}

/// The groups of one match as plain values.
pub open spec fn match_model(groups: Seq<Option<Group>>) -> Seq<Option<(int, int, Seq<char>)>> {
    Seq::new(
        groups.len(),
        |i: int|
            match groups[i] {
                Some(g) => Some(g.model()),
                None => None,
            },
    )
}

/// The matches of one search as plain values.
pub open spec fn matches_model(found: Seq<Vec<Option<Group>>>) -> Seq<
    Seq<Option<(int, int, Seq<char>)>>,
> {
    Seq::new(found.len(), |i: int| match_model(found[i]@))
}

/// The names of the groups as plain values.
pub open spec fn names_model(names: Seq<Option<String>>) -> Seq<Option<Seq<char>>> {
    Seq::new(
        names.len(),
        |i: int|
            match names[i] {
                Some(n) => Some(n@),
                None => None,
            },
    )
}

/// What the `regex` crate finds of `pattern` in `haystack`: `None` where it
/// refuses the pattern, else the matches that do not overlap, from the left,
/// each with its capture groups in the order of their opening parentheses,
/// the whole match first. A group that took no part in the match is `None`.
pub uninterp spec fn regex_captures(pattern: Seq<char>, haystack: Seq<char>) -> Option<
    Seq<Seq<Option<(int, int, Seq<char>)>>>,
>;

/// The names that `pattern` gives to its capture groups, in the order of
/// the groups: `None` where the `regex` crate refuses the pattern, and `None`
/// for a group without a name, as the whole match is.
pub uninterp spec fn regex_group_names(pattern: Seq<char>) -> Option<Seq<Option<Seq<char>>>>;

/// Compiles `pattern` with `Regex::new` and walks `Regex::captures_iter`
/// over `haystack`. Each match is handed on with all its groups, as
/// `Captures::iter` yields them, each with `Match::start`, `Match::end` and
/// the text of `Match::as_str`. The contract gives the result its name and
/// claims nothing else of it.
#[verifier::external_body]
pub(crate) fn find_captures(pattern: &str, haystack: &str) -> (found: Option<
    Vec<Vec<Option<Group>>>,
>)
    ensures
        match found {
            Some(matches) => regex_captures(pattern@, haystack@) == Some(matches_model(matches@)),
            None => regex_captures(pattern@, haystack@) is None,
        },
{
    let re = regex::Regex::new(pattern).ok()?;
    let group = |m: regex::Match| {
        Group { start: m.start(), end: m.end(), text: m.as_str().to_string() }
    };
    Some(re.captures_iter(haystack).map(|c| c.iter().map(|g| g.map(group)).collect()).collect())
}

/// Compiles `pattern` with `Regex::new` and hands on what
/// `Regex::capture_names` yields. The contract gives the result its name and
/// claims nothing else of it.
#[verifier::external_body]
pub(crate) fn find_group_names(pattern: &str) -> (names: Option<Vec<Option<String>>>)
    ensures
        match names {
            Some(list) => regex_group_names(pattern@) == Some(names_model(list@)),
            None => regex_group_names(pattern@) is None,
        },
{
    let re = regex::Regex::new(pattern).ok()?;
    Some(re.capture_names().map(|n| n.map(|s| s.to_string())).collect())
}

/// The place of the group that `names` calls `name`, if there is one.
pub open spec fn group_place(names: Seq<Option<Seq<char>>>, name: Seq<char>) -> Option<int> {
    if exists|i: int| 0 <= i < names.len() && names[i] == Some(name) {
        Some(choose|i: int| 0 <= i < names.len() && names[i] == Some(name) && forall|j: int|
            0 <= j < i ==> names[j] != Some(name))
    } else {
        None
    }
}

/// The text of the group of the match `groups` that `names` calls `name`:
/// `None` where no group has that name and where the group took no part in
/// the match.
pub open spec fn named_text(
    names: Seq<Option<Seq<char>>>,
    groups: Seq<Option<(int, int, Seq<char>)>>,
    name: Seq<char>,
) -> Option<Seq<char>> {
    match group_place(names, name) {
        Some(i) => if i < groups.len() {
            match groups[i] {
                Some(g) => Some(g.2),
                None => None,
            }
        } else {
            None
        },
        None => None,
    }
}

/// The first place at which `names` holds `name`, if there is one.
pub fn place_of(names: &Vec<Option<String>>, name: &str) -> (place: Option<usize>)
    ensures
        match place {
            Some(i) => group_place(names_model(names@), name@) == Some(i as int) && i
                < names.len(),
            None => group_place(names_model(names@), name@) is None,
        },
{
    let wanted: String = name.to_owned();
    let ghost model = names_model(names@);
    let mut i: usize = 0;
    while i < names.len()
        invariant
            i <= names.len(),
            wanted@ == name@,
            model == names_model(names@),
            forall|j: int| 0 <= j < i ==> model[j] != Some(name@),
        decreases names.len() - i,
    {
        let hit = match &names[i] {
            Some(n) => *n == wanted,
            None => false,
        };
        if hit {
            proof {
                assert(model[i as int] == Some(name@));
                let k = choose|k: int|
                    0 <= k < model.len() && model[k] == Some(name@) && forall|j: int|
                        0 <= j < k ==> model[j] != Some(name@);
                assert(k == i);
            }
            return Some(i);
        }
        i += 1;
    }
    None
}

/// The text of the group of the match `groups` that `names` calls `name`.
pub fn text_of<'a>(names: &Vec<Option<String>>, groups: &'a Vec<Option<Group>>, name: &str) -> (text:
    Option<&'a String>)
    ensures
        match text {
            Some(t) => named_text(names_model(names@), match_model(groups@), name@) == Some(t@),
            None => named_text(names_model(names@), match_model(groups@), name@) is None,
        },
{
    match place_of(names, name) {
        Some(i) => {
            if i < groups.len() {
                match &groups[i] {
                    Some(g) => Some(&g.text),
                    None => None,
                }
            } else {
                None
            }
        },
        None => None,
    }
}

} // verus!
