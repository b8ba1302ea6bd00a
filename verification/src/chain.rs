//! The chain of categories: each category has at most one successor, and a
//! translation table leads to it.
use crate::error::AlmanacError;
use crate::range::AlmanacRange;
use crate::stage::{
    all_nonempty, all_rules_valid, all_valid, apply_rules, lemma_apply_conserves,
    lemma_apply_nonempty, lemma_apply_valid, lemma_total_count_concat,
    lemma_total_count_present, total_count, AlmanacMap, AlmanacMapRange,
};
use vstd::prelude::*;

verus! {

/// What leaves a category: the name of the category that follows it and the
/// rules of the table that leads there.
pub ghost struct Successor {
    pub next: Seq<char>,
    pub rules: Seq<AlmanacMapRange>,
}

/// One edge of the chain.
struct Edge {
    src: String,
    dst: String,
    map: AlmanacMap,
}

impl Edge {
    spec fn successor(self) -> Successor {
        Successor { next: self.dst@, rules: self.map@ }
    }
}

/// The chain as a map, built edge by edge.
spec fn edges_map(edges: Seq<Edge>) -> Map<Seq<char>, Successor>
    decreases edges.len(),
{
    if edges.len() == 0 {
        Map::empty()
    } else {
        edges_map(edges.drop_last()).insert(edges.last().src@, edges.last().successor())
    }
}

/// Whether no two edges leave the same category.
spec fn distinct_sources(edges: Seq<Edge>) -> bool {
    forall|i: int, j: int|
        0 <= i < j < edges.len() ==> (#[trigger] edges[i]).src@ != (#[trigger] edges[j]).src@
}

/// Whether the table of each edge holds valid rules only.
spec fn valid_tables(edges: Seq<Edge>) -> bool {
    forall|i: int| 0 <= i < edges.len() ==> all_rules_valid((#[trigger] edges[i]).map@)
}

/// The chain holds exactly the edges it was built from: a category has an
/// edge where one of `edges` leaves it, and then it is that one.
proof fn lemma_edges_map(edges: Seq<Edge>)
    requires
        distinct_sources(edges),
    ensures
        edges_map(edges).dom().finite(),
        edges_map(edges).dom().len() == edges.len(),
        forall|i: int|
            0 <= i < edges.len() ==> edges_map(edges).contains_key((#[trigger] edges[i]).src@)
                && edges_map(edges)[edges[i].src@] == edges[i].successor(),
        forall|c: Seq<char>| #[trigger]
            edges_map(edges).contains_key(c) ==> exists|i: int|
                0 <= i < edges.len() && (#[trigger] edges[i]).src@ == c,
        valid_tables(edges) ==> chain_valid(edges_map(edges)),
    decreases edges.len(),
{
    if edges.len() > 0 {
        let head = edges.drop_last();
        let last = edges.last();
        assert forall|i: int, j: int| 0 <= i < j < head.len() implies (#[trigger] head[i]).src@
            != (#[trigger] head[j]).src@ by {
            assert(head[i] == edges[i]);
            assert(head[j] == edges[j]);
        }
        lemma_edges_map(head);
        if edges_map(head).contains_key(last.src@) {
            let i = choose|i: int| 0 <= i < head.len() && (#[trigger] head[i]).src@ == last.src@;
            assert(head[i] == edges[i]);
            assert(edges[i].src@ != edges[edges.len() - 1].src@);
        }
        assert forall|i: int| 0 <= i < edges.len() implies edges_map(edges).contains_key(
            (#[trigger] edges[i]).src@,
        ) && edges_map(edges)[edges[i].src@] == edges[i].successor() by {
            if i < head.len() {
                assert(head[i] == edges[i]);
                assert(edges[i].src@ != edges[edges.len() - 1].src@);
            }
        }
        assert forall|c: Seq<char>| #[trigger] edges_map(edges).contains_key(c) implies exists|
            i: int,
        |
            0 <= i < edges.len() && (#[trigger] edges[i]).src@ == c by {
            if c == last.src@ {
                assert(edges[edges.len() - 1].src@ == c);
            } else {
                let i = choose|i: int| 0 <= i < head.len() && (#[trigger] head[i]).src@ == c;
                assert(head[i] == edges[i]);
            }
        }
        if valid_tables(edges) {
            assert forall|c: Seq<char>| #[trigger] edges_map(edges).contains_key(
                c,
            ) implies all_rules_valid(edges_map(edges)[c].rules) by {
                let i = choose|i: int| 0 <= i < edges.len() && (#[trigger] edges[i]).src@ == c;
                assert(edges_map(edges)[edges[i].src@] == edges[i].successor());
            }
        }
    }
}

/// Where the walk from `src` to `dst` through `chain` takes the intervals
/// `ranges`, if it may take `fuel` steps.
///
/// At the target the walk ends and the intervals are the result. Elsewhere
/// the table of the edge that leaves the category is applied and the walk
/// goes on from its successor. It fails where a category short of the target
/// has no edge, and where the steps are used up.
pub open spec fn route(
    chain: Map<Seq<char>, Successor>,
    src: Seq<char>,
    dst: Seq<char>,
    ranges: Seq<AlmanacRange>,
    fuel: nat,
) -> Result<Seq<AlmanacRange>, AlmanacError>
    decreases fuel,
{
    if src == dst {
        Ok(ranges)
    } else if !chain.contains_key(src) {
        Err(AlmanacError::MissingEdge)
    } else if fuel == 0 {
        Err(AlmanacError::CyclicChain)
    } else {
        route(
            chain,
            chain[src].next,
            dst,
            apply_rules(chain[src].rules, ranges),
            (fuel - 1) as nat,
        )
    }
}

/// Whether every table of `chain` holds valid rules only.
pub open spec fn chain_valid(chain: Map<Seq<char>, Successor>) -> bool {
    forall|c: Seq<char>| #[trigger] chain.contains_key(c) ==> all_rules_valid(chain[c].rules)
}

/// What the tables `stages`, applied one after the other, make of the
/// intervals `ranges`: each is given what the one before it returned.
pub open spec fn apply_stages(stages: Seq<Seq<AlmanacMapRange>>, ranges: Seq<AlmanacRange>) -> Seq<
    AlmanacRange,
>
    decreases stages.len(),
{
    if stages.len() == 0 {
        ranges
    } else {
        apply_stages(stages.drop_first(), apply_rules(stages[0], ranges))
    }
}

/// The tables of the edges on the way from `src` to `dst` through `chain`,
/// in order, if the walk may take `fuel` steps. The way fails where a
/// category short of the target has no edge, and where the steps are used
/// up.
pub open spec fn stages_on_way(
    chain: Map<Seq<char>, Successor>,
    src: Seq<char>,
    dst: Seq<char>,
    fuel: nat,
) -> Result<Seq<Seq<AlmanacMapRange>>, AlmanacError>
    decreases fuel,
{
    if src == dst {
        Ok(Seq::empty())
    } else if !chain.contains_key(src) {
        Err(AlmanacError::MissingEdge)
    } else if fuel == 0 {
        Err(AlmanacError::CyclicChain)
    } else {
        match stages_on_way(chain, chain[src].next, dst, (fuel - 1) as nat) {
            Ok(stages) => Ok(seq![chain[src].rules] + stages),
            Err(e) => Err(e),
        }
    }
}

/// A walk applies the tables of the edges on its way, one after the other
/// and each to what the one before it returned: it takes as many steps as
/// the way has edges and skips none. Where there is no way, it fails as the
/// way does, whatever intervals it carries.
pub proof fn lemma_route_is_stages(
    chain: Map<Seq<char>, Successor>,
    src: Seq<char>,
    dst: Seq<char>,
    ranges: Seq<AlmanacRange>,
    fuel: nat,
)
    ensures
        route(chain, src, dst, ranges, fuel) == match stages_on_way(chain, src, dst, fuel) {
            Ok(stages) => Ok::<Seq<AlmanacRange>, AlmanacError>(apply_stages(stages, ranges)),
            Err(e) => Err::<Seq<AlmanacRange>, AlmanacError>(e),
        },
        stages_on_way(chain, src, dst, fuel) is Ok ==> stages_on_way(chain, src, dst, fuel)->Ok_0.len()
            <= fuel,
    decreases fuel,
{
    if src != dst && chain.contains_key(src) && fuel > 0 {
        let next = apply_rules(chain[src].rules, ranges);
        lemma_route_is_stages(chain, chain[src].next, dst, next, (fuel - 1) as nat);
        match stages_on_way(chain, chain[src].next, dst, (fuel - 1) as nat) {
            Ok(stages) => {
                let all = seq![chain[src].rules] + stages;
                assert(all[0] == chain[src].rules);
                assert(all.drop_first() == stages);
            },
            Err(_) => {},
        }
    }
}

/// One step of a walk: from a category short of the target, with an edge
/// and a step left, the walk applies the table of that edge and goes on from
/// its successor with one step less.
pub proof fn lemma_route_step(
    chain: Map<Seq<char>, Successor>,
    src: Seq<char>,
    dst: Seq<char>,
    ranges: Seq<AlmanacRange>,
    fuel: nat,
)
    requires
        src != dst,
        chain.contains_key(src),
        fuel > 0,
    ensures
        route(chain, src, dst, ranges, fuel) == route(
            chain,
            chain[src].next,
            dst,
            apply_rules(chain[src].rules, ranges),
            (fuel - 1) as nat,
        ),
{
}

/// Two stages in a row: where the edge from `a` leads to `b` and the edge
/// from `b` to `c`, routing from `a` to `c` is the second table applied to
/// what the first made of the intervals.
pub proof fn lemma_route_two_stages(
    chain: Map<Seq<char>, Successor>,
    a: Seq<char>,
    b: Seq<char>,
    c: Seq<char>,
    ranges: Seq<AlmanacRange>,
    fuel: nat,
)
    requires
        chain.contains_key(a),
        chain[a].next == b,
        chain.contains_key(b),
        chain[b].next == c,
        a != c,
        b != c,
        fuel >= 2,
    ensures
        route(chain, a, c, ranges, fuel) == Ok::<Seq<AlmanacRange>, AlmanacError>(
            apply_rules(chain[b].rules, apply_rules(chain[a].rules, ranges)),
        ),
{
    lemma_route_step(chain, a, c, ranges, fuel);
    lemma_route_step(chain, b, c, apply_rules(chain[a].rules, ranges), (fuel - 1) as nat);
}

/// A walk that arrives keeps what it was given: the intervals at the target
/// are valid, and their lengths add up to the lengths of those at the start.
pub proof fn lemma_route_conserves(
    chain: Map<Seq<char>, Successor>,
    src: Seq<char>,
    dst: Seq<char>,
    ranges: Seq<AlmanacRange>,
    fuel: nat,
)
    requires
        chain_valid(chain),
        all_valid(ranges),
        route(chain, src, dst, ranges, fuel) is Ok,
    ensures
        all_valid(route(chain, src, dst, ranges, fuel)->Ok_0),
        total_count(route(chain, src, dst, ranges, fuel)->Ok_0) == total_count(ranges),
        all_nonempty(ranges) ==> all_nonempty(route(chain, src, dst, ranges, fuel)->Ok_0),
    decreases fuel,
{
    if src != dst {
        let next = apply_rules(chain[src].rules, ranges);
        lemma_apply_valid(chain[src].rules, ranges);
        lemma_apply_conserves(chain[src].rules, ranges);
        if all_nonempty(ranges) {
            lemma_apply_nonempty(chain[src].rules, ranges);
        }
        lemma_route_conserves(chain, chain[src].next, dst, next, (fuel - 1) as nat);
    }
}

/// A walk that has ended, at the target or at a category without an edge,
/// ends in the same way however many more steps it is allowed.
pub proof fn lemma_route_more_fuel(
    chain: Map<Seq<char>, Successor>,
    src: Seq<char>,
    dst: Seq<char>,
    ranges: Seq<AlmanacRange>,
    fuel: nat,
    more: nat,
)
    requires
        fuel <= more,
        route(chain, src, dst, ranges, fuel) != Err::<Seq<AlmanacRange>, AlmanacError>(
            AlmanacError::CyclicChain,
        ),
    ensures
        route(chain, src, dst, ranges, more) == route(chain, src, dst, ranges, fuel),
    decreases fuel,
{
    if src != dst && chain.contains_key(src) && fuel > 0 {
        lemma_route_more_fuel(
            chain,
            chain[src].next,
            dst,
            apply_rules(chain[src].rules, ranges),
            (fuel - 1) as nat,
            (more - 1) as nat,
        );
    }
}

/// Where the walk from `src` to `dst` takes the intervals `seeds`, each
/// routed by itself: the results stand one after the other, in the order of
/// the seeds. The first failure is the result.
pub open spec fn route_each(
    chain: Map<Seq<char>, Successor>,
    src: Seq<char>,
    dst: Seq<char>,
    seeds: Seq<AlmanacRange>,
    fuel: nat,
) -> Result<Seq<AlmanacRange>, AlmanacError>
    decreases seeds.len(),
{
    if seeds.len() == 0 {
        Ok(Seq::empty())
    } else {
        match route_each(chain, src, dst, seeds.drop_last(), fuel) {
            Err(e) => Err(e),
            Ok(before) => match route(chain, src, dst, seq![seeds.last()], fuel) {
                Err(e) => Err(e),
                Ok(last) => Ok(before + last),
            },
        }
    }
}

/// Whether `m` is the least start among the intervals `ranges`.
pub open spec fn is_lowest_start(ranges: Seq<AlmanacRange>, m: i64) -> bool {
    &&& exists|i: int| 0 <= i < ranges.len() && (#[trigger] ranges[i]).start == m
    &&& forall|i: int| 0 <= i < ranges.len() ==> m <= (#[trigger] ranges[i]).start
}

/// The least start among the intervals `ranges`, or `None` where there is
/// no interval.
pub fn lowest_start(ranges: &Vec<AlmanacRange>) -> (lowest: Option<i64>)
    ensures
        match lowest {
            Some(m) => is_lowest_start(ranges@, m),
            None => ranges.len() == 0,
        },
{
    if ranges.len() == 0 {
        return None;
    }
    let mut lowest: i64 = ranges[0].start;
    let mut i: usize = 1;
    while i < ranges.len()
        invariant
            1 <= i <= ranges.len(),
            exists|k: int| 0 <= k < i && (#[trigger] ranges@[k]).start == lowest,
            forall|k: int| 0 <= k < i ==> lowest <= (#[trigger] ranges@[k]).start,
        decreases ranges.len() - i,
    {
        if ranges[i].start < lowest {
            lowest = ranges[i].start;
        }
        i += 1;
    }
    Some(lowest)
}

/// The category that follows `c`; a category without an edge is its own
/// successor.
pub open spec fn step(chain: Map<Seq<char>, Successor>, c: Seq<char>) -> Seq<char> {
    if chain.contains_key(c) {
        chain[c].next
    } else {
        c
    }
}

/// The category that is `k` steps after `src`.
pub open spec fn walk(chain: Map<Seq<char>, Successor>, src: Seq<char>, k: nat) -> Seq<char>
    decreases k,
{
    if k == 0 {
        src
    } else {
        step(chain, walk(chain, src, (k - 1) as nat))
    }
}

/// Whether the walk from `src` is, after `k` steps, still short of `dst` and
/// at a category that an edge leaves.
pub open spec fn on_way(
    chain: Map<Seq<char>, Successor>,
    src: Seq<char>,
    dst: Seq<char>,
    k: nat,
) -> bool {
    walk(chain, src, k) != dst && chain.contains_key(walk(chain, src, k))
}

/// The category `k + 1` steps after `src` is the one `k` steps after the
/// successor of `src`.
pub proof fn lemma_walk_shift(chain: Map<Seq<char>, Successor>, src: Seq<char>, k: nat)
    ensures
        walk(chain, src, k + 1) == walk(chain, step(chain, src), k),
    decreases k,
{
    assert(walk(chain, src, k + 1) == step(chain, walk(chain, src, k)));
    if k > 0 {
        lemma_walk_shift(chain, src, (k - 1) as nat);
        assert(walk(chain, step(chain, src), k) == step(
            chain,
            walk(chain, step(chain, src), (k - 1) as nat),
        ));
    } else {
        assert(walk(chain, src, 0) == src);
        assert(walk(chain, step(chain, src), 0) == step(chain, src));
    }
}

/// A walk that uses up its steps was on its way at each of them.
pub proof fn lemma_cyclic_was_on_way(
    chain: Map<Seq<char>, Successor>,
    src: Seq<char>,
    dst: Seq<char>,
    ranges: Seq<AlmanacRange>,
    fuel: nat,
    k: nat,
)
    requires
        route(chain, src, dst, ranges, fuel) == Err::<Seq<AlmanacRange>, AlmanacError>(
            AlmanacError::CyclicChain,
        ),
        k <= fuel,
    ensures
        on_way(chain, src, dst, k),
    decreases fuel,
{
    if k > 0 {
        lemma_cyclic_was_on_way(
            chain,
            chain[src].next,
            dst,
            apply_rules(chain[src].rules, ranges),
            (fuel - 1) as nat,
            (k - 1) as nat,
        );
        lemma_walk_shift(chain, src, (k - 1) as nat);
    }
}

/// A walk that is on its way at each of its steps uses them up.
pub proof fn lemma_on_way_is_cyclic(
    chain: Map<Seq<char>, Successor>,
    src: Seq<char>,
    dst: Seq<char>,
    ranges: Seq<AlmanacRange>,
    fuel: nat,
)
    requires
        forall|k: nat| k <= fuel ==> on_way(chain, src, dst, k),
    ensures
        route(chain, src, dst, ranges, fuel) == Err::<Seq<AlmanacRange>, AlmanacError>(
            AlmanacError::CyclicChain,
        ),
    decreases fuel,
{
    assert(on_way(chain, src, dst, 0));
    if fuel > 0 {
        assert forall|k: nat| k <= fuel - 1 implies on_way(chain, chain[src].next, dst, k) by {
            lemma_walk_shift(chain, src, k);
            assert(on_way(chain, src, dst, k + 1));
        }
        lemma_on_way_is_cyclic(
            chain,
            chain[src].next,
            dst,
            apply_rules(chain[src].rules, ranges),
            (fuel - 1) as nat,
        );
    }
}

/// A walk that stays, for as many steps as the chain has edges, at
/// categories that an edge leaves comes twice to the same category. The
/// result holds two such steps.
pub proof fn lemma_walk_repeats(chain: Map<Seq<char>, Successor>, src: Seq<char>) -> (twice: (
    nat,
    nat,
))
    requires
        chain.dom().finite(),
        forall|k: nat| k <= chain.dom().len() ==> chain.contains_key(walk(chain, src, k)),
    ensures
        twice.0 < twice.1 <= chain.dom().len(),
        walk(chain, src, twice.0) == walk(chain, src, twice.1),
{
    let n = chain.dom().len();
    let visited = Seq::new(n + 1, |k: int| walk(chain, src, k as nat));
    if visited.no_duplicates() {
        visited.unique_seq_to_set();
        assert forall|c: Seq<char>| visited.to_set().contains(c) implies chain.dom().contains(
            c,
        ) by {
            let k = choose|k: int| 0 <= k < visited.len() && visited[k] == c;
            assert(chain.contains_key(walk(chain, src, k as nat)));
        }
        vstd::set_lib::lemma_len_subset(visited.to_set(), chain.dom());
        assert(false);
    }
    let (i, j) = choose|i: int, j: int|
        0 <= i < visited.len() && 0 <= j < visited.len() && i != j && visited[i] == visited[j];
    if i < j {
        (i as nat, j as nat)
    } else {
        (j as nat, i as nat)
    }
}

/// From two steps at which a walk is at the same category, it goes the same
/// way.
pub proof fn lemma_walk_periodic(
    chain: Map<Seq<char>, Successor>,
    src: Seq<char>,
    i: nat,
    j: nat,
    m: nat,
)
    requires
        walk(chain, src, i) == walk(chain, src, j),
    ensures
        walk(chain, src, i + m) == walk(chain, src, j + m),
    decreases m,
{
    if m > 0 {
        lemma_walk_periodic(chain, src, i, j, (m - 1) as nat);
    }
}

/// A walk that is on its way for as many steps as the chain has edges is on
/// its way for ever.
pub proof fn lemma_on_way_for_ever(
    chain: Map<Seq<char>, Successor>,
    src: Seq<char>,
    dst: Seq<char>,
    k: nat,
)
    requires
        chain.dom().finite(),
        forall|k: nat| k <= chain.dom().len() ==> on_way(chain, src, dst, k),
    ensures
        on_way(chain, src, dst, k),
    decreases k,
{
    if k > chain.dom().len() {
        assert forall|k: nat| k <= chain.dom().len() implies chain.contains_key(
            walk(chain, src, k),
        ) by {
            assert(on_way(chain, src, dst, k));
        }
        let (i, j) = lemma_walk_repeats(chain, src);
        let back = (k - (j - i)) as nat;
        lemma_walk_periodic(chain, src, i, j, (k - j) as nat);
        assert(i + (k - j) as nat == back);
        assert(j + (k - j) as nat == k);
        lemma_on_way_for_ever(chain, src, dst, back);
    }
}

/// A walk that has not arrived after as many steps as the chain has edges
/// never arrives: it fails in the same way however many steps it is allowed.
pub proof fn lemma_cycle_never_arrives(
    chain: Map<Seq<char>, Successor>,
    src: Seq<char>,
    dst: Seq<char>,
    ranges: Seq<AlmanacRange>,
    fuel: nat,
)
    requires
        chain.dom().finite(),
        route(chain, src, dst, ranges, chain.dom().len()) == Err::<
            Seq<AlmanacRange>,
            AlmanacError,
        >(AlmanacError::CyclicChain),
    ensures
        route(chain, src, dst, ranges, fuel) == Err::<Seq<AlmanacRange>, AlmanacError>(
            AlmanacError::CyclicChain,
        ),
{
    assert forall|k: nat| k <= chain.dom().len() implies on_way(chain, src, dst, k) by {
        lemma_cyclic_was_on_way(chain, src, dst, ranges, chain.dom().len(), k);
    }
    assert forall|k: nat| k <= fuel implies on_way(chain, src, dst, k) by {
        lemma_on_way_for_ever(chain, src, dst, k);
    }
    lemma_on_way_is_cyclic(chain, src, dst, ranges, fuel);
}

/// Whether a walk arrives does not depend on the intervals that it
/// carries: it fails for all of them or for none, and in the same way.
pub proof fn lemma_route_failure_is_shared(
    chain: Map<Seq<char>, Successor>,
    src: Seq<char>,
    dst: Seq<char>,
    a: Seq<AlmanacRange>,
    b: Seq<AlmanacRange>,
    fuel: nat,
)
    ensures
        route(chain, src, dst, a, fuel) is Ok <==> route(chain, src, dst, b, fuel) is Ok,
        route(chain, src, dst, a, fuel) is Err ==> route(chain, src, dst, a, fuel)->Err_0 == route(
            chain,
            src,
            dst,
            b,
            fuel,
        )->Err_0,
    decreases fuel,
{
    if src != dst && chain.contains_key(src) && fuel > 0 {
        lemma_route_failure_is_shared(
            chain,
            chain[src].next,
            dst,
            apply_rules(chain[src].rules, a),
            apply_rules(chain[src].rules, b),
            (fuel - 1) as nat,
        );
    }
}

/// Where the walk fails for one of the seeds, routing each of them fails in
/// that way.
pub proof fn lemma_route_each_fails(
    chain: Map<Seq<char>, Successor>,
    src: Seq<char>,
    dst: Seq<char>,
    seeds: Seq<AlmanacRange>,
    fuel: nat,
    k: int,
)
    requires
        0 <= k < seeds.len(),
        route(chain, src, dst, seq![seeds[k]], fuel) is Err,
    ensures
        route_each(chain, src, dst, seeds, fuel) == Err::<Seq<AlmanacRange>, AlmanacError>(
            route(chain, src, dst, seq![seeds[k]], fuel)->Err_0,
        ),
    decreases seeds.len(),
{
    lemma_route_failure_is_shared(chain, src, dst, seq![seeds[k]], seq![seeds.last()], fuel);
    if k < seeds.len() - 1 {
        assert(seeds.drop_last()[k] == seeds[k]);
        lemma_route_each_fails(chain, src, dst, seeds.drop_last(), fuel, k);
    } else if seeds.len() > 1 {
        if route_each(chain, src, dst, seeds.drop_last(), fuel) is Err {
            lemma_route_failure_is_shared(chain, src, dst, seq![seeds[k]], seq![seeds[0]], fuel);
            assert(seeds.drop_last()[0] == seeds[0]);
            lemma_route_each_fails(chain, src, dst, seeds.drop_last(), fuel, 0);
        }
    }
}

/// The chain of categories with the table of each edge.
pub struct Almanac {
    edges: Vec<Edge>,
}

impl View for Almanac {
    type V = Map<Seq<char>, Successor>;

    closed spec fn view(&self) -> Map<Seq<char>, Successor> {
        edges_map(self.edges@)
    }
}

impl Almanac {
    #[verifier::type_invariant]
    spec fn well_formed(self) -> bool {
        distinct_sources(self.edges@) && valid_tables(self.edges@)
    }

    /// The number of steps after which a walk through the chain has come
    /// back to a category it has left: the number of its edges.
    pub open spec fn step_limit(&self) -> nat {
        self@.dom().len()
    }

    /// A chain without edges.
    pub fn new() -> (almanac: Self)
        ensures
            almanac@ == Map::<Seq<char>, Successor>::empty(),
    {
        Almanac { edges: Vec::new() }
    }

    /// The place of the edge that leaves the category `name`, if there is
    /// one.
    fn find(&self, name: &String) -> (place: Option<usize>)
        ensures
            place is Some <==> self@.contains_key(name@),
            place is Some ==> place->0 < self.edges.len() && self.edges[place->0 as int].src@
                == name@ && self@[name@] == self.edges[place->0 as int].successor(),
            self@.dom().finite(),
            self@.dom().len() == self.edges.len(),
            chain_valid(self@),
    {
        proof {
            use_type_invariant(&*self);
            lemma_edges_map(self.edges@);
        }
        let mut i: usize = 0;
        let mut place: Option<usize> = None;
        while i < self.edges.len()
            invariant
                i <= self.edges.len(),
                place is None ==> forall|j: int|
                    0 <= j < i ==> (#[trigger] self.edges[j]).src@ != name@,
                place is Some ==> place->0 < self.edges.len() && self.edges[place->0 as int].src@
                    == name@,
            decreases self.edges.len() - i,
        {
            if self.edges[i].src == *name {
                place = Some(i);
                i = self.edges.len();
            } else {
                i += 1;
            }
        }
        place
    }

    /// Adds the edge from `src` to `dst` with the table `map`. A category
    /// has one successor at most: a second edge from `src` is refused, and
    /// the chain stays as it was.
    pub fn add_map(&mut self, src: String, dst: String, map: AlmanacMap) -> (added: Result<
        (),
        AlmanacError,
    >)
        ensures
            added is Ok <==> !old(self)@.contains_key(src@),
            added is Ok ==> final(self)@ == old(self)@.insert(
                src@,
                Successor { next: dst@, rules: map@ },
            ),
            added is Err ==> added == Err::<(), AlmanacError>(AlmanacError::DuplicateEdge)
                && final(self)@ == old(self)@,
    {
        proof {
            use_type_invariant(&*self);
        }
        if self.find(&src).is_some() {
            return Err(AlmanacError::DuplicateEdge);
        }
        let ghost before = self.edges@;
        let _ = map.rules();
        let edge = Edge { src, dst, map };
        let mut edges: Vec<Edge> = Vec::new();
        std::mem::swap(&mut edges, &mut self.edges);
        edges.push(edge);
        proof {
            assert(edges@.drop_last() == before);
            lemma_edges_map(before);
            assert forall|i: int, j: int| 0 <= i < j < edges@.len() implies (#[trigger] edges@[i]).src@
                != (#[trigger] edges@[j]).src@ by {
                if j < before.len() {
                    assert(edges@[i] == before[i] && edges@[j] == before[j]);
                } else {
                    assert(edges@[i] == before[i]);
                }
            }
            assert forall|i: int| 0 <= i < edges@.len() implies all_rules_valid(
                (#[trigger] edges@[i]).map@,
            ) by {
                if i < before.len() {
                    assert(edges@[i] == before[i]);
                }
            }
        }
        self.edges = edges;
        Ok(())
    }

    /// The category that follows `name`, or `None` where no edge leaves it.
    pub fn next_category(&self, name: &str) -> (next: Option<&String>)
        ensures
            match next {
                Some(category) => self@.contains_key(name@) && category@ == self@[name@].next,
                None => !self@.contains_key(name@),
            },
    {
        let name: String = name.to_owned();
        match self.find(&name) {
            Some(i) => Some(&self.edges[i].dst),
            None => None,
        }
    }

    /// The table of the edge from `from` to `to`, or `None` where the chain
    /// has no such edge.
    pub fn stage_for(&self, from: &str, to: &str) -> (stage: Option<&AlmanacMap>)
        ensures
            match stage {
                Some(table) => self@.contains_key(from@) && self@[from@].next == to@ && table@
                    == self@[from@].rules,
                None => !(self@.contains_key(from@) && self@[from@].next == to@),
            },
    {
        let from: String = from.to_owned();
        let to: String = to.to_owned();
        match self.find(&from) {
            Some(i) => {
                if self.edges[i].dst == to {
                    Some(&self.edges[i].map)
                } else {
                    None
                }
            },
            None => None,
        }
    }

    /// The number of edges on the way from the category `src` to the
    /// category `dst`. No table is applied to find it: a chain that is
    /// broken or runs in a circle is found out before any interval is
    /// routed.
    ///
    /// The way fails with `MissingEdge` where it comes to a category other
    /// than `dst` that no edge leaves, and with `CyclicChain` where it has
    /// taken as many steps as the chain has edges and has still not arrived.
    pub fn chain_length(&self, src: &str, dst: &str) -> (length: Result<usize, AlmanacError>)
        ensures
            self@.dom().finite(),
            match length {
                Ok(n) => stages_on_way(self@, src@, dst@, self.step_limit()) is Ok
                    && stages_on_way(self@, src@, dst@, self.step_limit())->Ok_0.len() == n,
                Err(e) => stages_on_way(self@, src@, dst@, self.step_limit()) == Err::<
                    Seq<Seq<AlmanacMapRange>>,
                    AlmanacError,
                >(e),
            },
    {
        let mut curr: String = src.to_owned();
        let target: String = dst.to_owned();
        let limit: usize = self.edges.len();
        let mut steps: usize = 0;
        let ghost mut passed: Seq<Seq<AlmanacMapRange>> = Seq::empty();
        proof {
            use_type_invariant(&*self);
            lemma_edges_map(self.edges@);
            assert(passed + Seq::<Seq<AlmanacMapRange>>::empty() == passed);
        }
        while !(curr == target)
            invariant
                steps <= limit,
                limit == self.edges.len(),
                limit == self.step_limit(),
                target@ == dst@,
                passed.len() == steps,
                stages_on_way(self@, src@, dst@, self.step_limit()) == match stages_on_way(
                    self@,
                    curr@,
                    dst@,
                    (limit - steps) as nat,
                ) {
                    Ok(rest) => Ok::<Seq<Seq<AlmanacMapRange>>, AlmanacError>(passed + rest),
                    Err(e) => Err::<Seq<Seq<AlmanacMapRange>>, AlmanacError>(e),
                },
            decreases limit - steps,
        {
            let place = match self.find(&curr) {
                Some(i) => i,
                None => {
                    return Err(AlmanacError::MissingEdge);
                },
            };
            if steps == limit {
                return Err(AlmanacError::CyclicChain);
            }
            proof {
                let rules = self@[curr@].rules;
                match stages_on_way(self@, self@[curr@].next, dst@, (limit - steps - 1) as nat) {
                    Ok(rest) => {
                        assert(passed + (seq![rules] + rest) == passed.push(rules) + rest);
                    },
                    Err(_) => {},
                }
                passed = passed.push(rules);
            }
            curr = self.edges[place].dst.clone();
            steps += 1;
        }
        proof {
            assert(passed + Seq::<Seq<AlmanacMapRange>>::empty() == passed);
        }
        Ok(steps)
    }

    /// Routes the interval `src_range` from the category `src` to the
    /// category `dst`: the table of each edge on the way is applied in turn
    /// to what the one before it returned.
    ///
    /// The walk fails with `MissingEdge` where it comes to a category other
    /// than `dst` that no edge leaves, and with `CyclicChain` where it has
    /// taken as many steps as the chain has edges and has still not arrived.
    pub fn map(&self, src: &str, dst: &str, src_range: AlmanacRange) -> (routed: Result<
        Vec<AlmanacRange>,
        AlmanacError,
    >)
        requires
            src_range.valid(),
        ensures
            self@.dom().finite(),
            chain_valid(self@),
            match routed {
                Ok(ranges) => {
                    &&& route(self@, src@, dst@, seq![src_range], self.step_limit()) == Ok::<
                        Seq<AlmanacRange>,
                        AlmanacError,
                    >(ranges@)
                    &&& all_valid(ranges@)
                    &&& total_count(ranges@) == src_range.count
                    &&& src_range.count > 0 ==> all_nonempty(ranges@)
                },
                Err(e) => route(self@, src@, dst@, seq![src_range], self.step_limit()) == Err::<
                    Seq<AlmanacRange>,
                    AlmanacError,
                >(e),
            },
    {
        let mut ids: Vec<AlmanacRange> = Vec::new();
        ids.push(src_range);
        proof {
            assert(ids@ == seq![src_range]);
            lemma_total_count_present(Some(src_range));
        }
        self.map_all(src, dst, ids)
    }

    /// Routes each of the intervals `seeds` by itself from the category
    /// `src` to the category `dst`, as `map` does, and returns what they
    /// come to, in the order of the seeds. Where the walk fails, it fails for
    /// the first seed, and that failure is the result.
    #[verifier::loop_isolation(false)]
    pub fn map_each(&self, src: &str, dst: &str, seeds: &Vec<AlmanacRange>) -> (routed: Result<
        Vec<AlmanacRange>,
        AlmanacError,
    >)
        requires
            all_valid(seeds@),
        ensures
            self@.dom().finite(),
            chain_valid(self@),
            match routed {
                Ok(ranges) => route_each(self@, src@, dst@, seeds@, self.step_limit()) == Ok::<
                    Seq<AlmanacRange>,
                    AlmanacError,
                >(ranges@) && all_valid(ranges@) && total_count(ranges@) == total_count(seeds@),
                Err(e) => route_each(self@, src@, dst@, seeds@, self.step_limit()) == Err::<
                    Seq<AlmanacRange>,
                    AlmanacError,
                >(e),
            },
    {
        let mut all: Vec<AlmanacRange> = Vec::new();
        let mut i: usize = 0;
        proof {
            use_type_invariant(&*self);
            lemma_edges_map(self.edges@);
            assert(seeds@.take(0) == Seq::<AlmanacRange>::empty());
        }
        while i < seeds.len()
            invariant
                i <= seeds.len(),
                all_valid(all@),
                total_count(all@) == total_count(seeds@.take(i as int)),
                route_each(self@, src@, dst@, seeds@.take(i as int), self.step_limit()) == Ok::<
                    Seq<AlmanacRange>,
                    AlmanacError,
                >(all@),
            decreases seeds.len() - i,
        {
            proof {
                assert(seeds@.take(i + 1).drop_last() == seeds@.take(i as int));
                assert(seeds@.take(i + 1).last() == seeds@[i as int]);
            }
            match self.map(src, dst, seeds[i]) {
                Ok(routed) => {
                    let ghost before = all@;
                    let mut routed = routed;
                    proof {
                        lemma_total_count_concat(before, routed@);
                    }
                    all.append(&mut routed);
                },
                Err(e) => {
                    proof {
                        lemma_route_each_fails(
                            self@,
                            src@,
                            dst@,
                            seeds@,
                            self.step_limit(),
                            i as int,
                        );
                    }
                    return Err(e);
                },
            }
            i += 1;
        }
        proof {
            assert(seeds@.take(seeds.len() as int) == seeds@);
        }
        Ok(all)
    }

    /// Routes the intervals `src_ranges` together from the category `src` to
    /// the category `dst`, as `map` routes one.
    pub fn map_all(&self, src: &str, dst: &str, src_ranges: Vec<AlmanacRange>) -> (routed: Result<
        Vec<AlmanacRange>,
        AlmanacError,
    >)
        requires
            all_valid(src_ranges@),
        ensures
            self@.dom().finite(),
            chain_valid(self@),
            match routed {
                Ok(ranges) => {
                    &&& route(self@, src@, dst@, src_ranges@, self.step_limit()) == Ok::<
                        Seq<AlmanacRange>,
                        AlmanacError,
                    >(ranges@)
                    &&& all_valid(ranges@)
                    &&& total_count(ranges@) == total_count(src_ranges@)
                    &&& all_nonempty(src_ranges@) ==> all_nonempty(ranges@)
                },
                Err(e) => route(self@, src@, dst@, src_ranges@, self.step_limit()) == Err::<
                    Seq<AlmanacRange>,
                    AlmanacError,
                >(e),
            },
    {
        let ghost input = src_ranges@;
        let mut ids: Vec<AlmanacRange> = src_ranges;
        let mut curr: String = src.to_owned();
        let target: String = dst.to_owned();
        let limit: usize = self.edges.len();
        let mut steps: usize = 0;
        proof {
            use_type_invariant(&*self);
            lemma_edges_map(self.edges@);
        }
        while !(curr == target)
            invariant
                steps <= limit,
                input == src_ranges@,
                limit == self.edges.len(),
                limit == self.step_limit(),
                target@ == dst@,
                all_valid(ids@),
                total_count(ids@) == total_count(input),
                all_nonempty(input) ==> all_nonempty(ids@),
                route(self@, src@, dst@, input, self.step_limit()) == route(
                    self@,
                    curr@,
                    dst@,
                    ids@,
                    (limit - steps) as nat,
                ),
            decreases limit - steps,
        {
            let place = match self.find(&curr) {
                Some(i) => i,
                None => {
                    return Err(AlmanacError::MissingEdge);
                },
            };
            if steps == limit {
                return Err(AlmanacError::CyclicChain);
            }
            ids = self.edges[place].map.apply(ids);
            curr = self.edges[place].dst.clone();
            steps += 1;
        }
        Ok(ids)
    }
}

} // verus!
