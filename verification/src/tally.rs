//! Counting how often each value occurs, with the `counter` crate.
use vstd::prelude::*;

verus! {

/// The counter of the `counter` crate. What it holds is seen through
/// `counted` only.
#[verifier::external_type_specification]
#[verifier::external_body]
#[verifier::reject_recursive_types(T)]
#[verifier::reject_recursive_types(N)]
#[verifier::reject_recursive_types(S)]
pub struct ExCounter<T, N, S>(counter::Counter<T, N, S>);

/// What a counter holds: for each value that it has an entry for, the
/// number that it keeps for it.
pub uninterp spec fn counted(c: counter::Counter<usize, usize, std::hash::RandomState>) -> Map<
    usize,
    usize,
>;

/// How often each value of `values` occurs in it.
pub open spec fn tally(values: Seq<usize>) -> Map<usize, usize> {
    Map::new(|v: usize| values.contains(v), |v: usize| values.to_multiset().count(v) as usize)
}

/// Whether `ranking` lists the entries of `counts`, each once, the greater
/// numbers first. The order of entries with the same number is open.
pub open spec fn is_ranking(ranking: Seq<(usize, usize)>, counts: Map<usize, usize>) -> bool {
    &&& forall|i: int|
        0 <= i < ranking.len() ==> counts.contains_key((#[trigger] ranking[i]).0)
            && counts[ranking[i].0] == ranking[i].1
    &&& forall|i: int, j: int|
        0 <= i < j < ranking.len() ==> (#[trigger] ranking[i]).0 != (#[trigger] ranking[j]).0
    &&& forall|i: int, j: int|
        0 <= i < j < ranking.len() ==> (#[trigger] ranking[i]).1 >= (#[trigger] ranking[j]).1
    &&& forall|v: usize| #[trigger]
        counts.contains_key(v) ==> exists|i: int|
            0 <= i < ranking.len() && (#[trigger] ranking[i]).0 == v
}

/// Collects `values` into a counter, which is `Counter::from_iter` of the
/// `counter` crate: it starts empty and adds one to the entry of each item,
/// so it has an entry for each value that occurs, with the number of times
/// that it does.
#[verifier::external_body]
pub(crate) fn count_values(values: &Vec<usize>) -> (c: counter::Counter<usize>)
    ensures
        counted(c) == tally(values@),
{
    values.iter().copied().collect()
}

/// The number of entries of the counter: `HashMap::len` of the map that a
/// `Counter` dereferences to.
#[verifier::external_body]
pub(crate) fn distinct_values(c: &counter::Counter<usize>) -> (n: usize)
    ensures
        n == counted(*c).dom().len(),
{
    c.len()
}

/// `Counter::most_common` of the `counter` crate: the entries as pairs of
/// value and number, sorted by the number, the greatest first. The crate
/// leaves the order of entries with the same number open, and so does the
/// contract.
#[verifier::external_body]
pub(crate) fn most_common(c: &counter::Counter<usize>) -> (ranking: Vec<(usize, usize)>)
    ensures
        is_ranking(ranking@, counted(*c)),
{
    c.most_common()
}

} // verus!
