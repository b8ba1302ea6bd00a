//! A walk through the network that has not arrived after as many steps as
//! there are nodes and turns to combine never arrives.
use crate::network::{walk, Turn, WalkError, Ways};
use vstd::arithmetic::div_mod::lemma_add_mod_noop;
use vstd::prelude::*;
use vstd::set_lib::{lemma_len_subset, lemma_map_size, lemma_set_disjoint_lens};

verus! {

/// The node at which the walk from `start` stands after `k` steps; a walk
/// that has come to a node that the network does not know stays there.
pub open spec fn node_at(graph: Map<Seq<char>, Ways>, start: Seq<char>, turns: Seq<Turn>, k: nat)
    -> Seq<char>
    decreases k,
{
    if k == 0 {
        start
    } else {
        let before = node_at(graph, start, turns, (k - 1) as nat);
        if graph.contains_key(before) {
            graph[before].take(turns[(k - 1) % turns.len() as int])
        } else {
            before
        }
    }
}

/// Whether the walk stands, after `k` steps, at a node that the network
/// knows, and has not arrived with its last step.
pub open spec fn on_way(
    graph: Map<Seq<char>, Ways>,
    start: Seq<char>,
    end: Seq<char>,
    turns: Seq<Turn>,
    k: nat,
) -> bool {
    graph.contains_key(node_at(graph, start, turns, k)) && (k > 0 ==> node_at(
        graph,
        start,
        turns,
        k,
    ) != end)
}

/// A walk that uses up its steps was on its way at each of them.
pub proof fn lemma_endless_was_on_way(
    graph: Map<Seq<char>, Ways>,
    start: Seq<char>,
    end: Seq<char>,
    turns: Seq<Turn>,
    k: nat,
    fuel: nat,
    m: nat,
)
    requires
        turns.len() > 0,
        k == 0 || on_way(graph, start, end, turns, k),
        walk(graph, node_at(graph, start, turns, k), end, turns, k, fuel) == Err::<
            Seq<Seq<char>>,
            WalkError,
        >(WalkError::Endless),
        k <= m <= k + fuel,
    ensures
        on_way(graph, start, end, turns, m),
    decreases fuel,
{
    if m > k {
        let at = node_at(graph, start, turns, k);
        assert(node_at(graph, start, turns, k + 1) == graph[at].take(
            turns[k as int % turns.len() as int],
        ));
        lemma_endless_was_on_way(graph, start, end, turns, k + 1, (fuel - 1) as nat, m);
    }
}

/// A walk that is on its way at each of its steps uses them up.
pub proof fn lemma_on_way_is_endless(
    graph: Map<Seq<char>, Ways>,
    start: Seq<char>,
    end: Seq<char>,
    turns: Seq<Turn>,
    k: nat,
    fuel: nat,
)
    requires
        turns.len() > 0,
        forall|m: nat| k <= m <= k + fuel ==> on_way(graph, start, end, turns, m),
    ensures
        walk(graph, node_at(graph, start, turns, k), end, turns, k, fuel) == Err::<
            Seq<Seq<char>>,
            WalkError,
        >(WalkError::Endless),
    decreases fuel,
{
    assert(on_way(graph, start, end, turns, k));
    if fuel > 0 {
        let at = node_at(graph, start, turns, k);
        assert(node_at(graph, start, turns, k + 1) == graph[at].take(
            turns[k as int % turns.len() as int],
        ));
        assert(on_way(graph, start, end, turns, k + 1));
        assert forall|m: nat| k + 1 <= m <= k + 1 + (fuel - 1) implies on_way(
            graph,
            start,
            end,
            turns,
            m,
        ) by {}
        lemma_on_way_is_endless(graph, start, end, turns, k + 1, (fuel - 1) as nat);
    }
}

/// From two steps at which a walk stands at the same node with the same
/// turn to take, it goes the same way.
pub proof fn lemma_walk_periodic(
    graph: Map<Seq<char>, Ways>,
    start: Seq<char>,
    turns: Seq<Turn>,
    i: nat,
    j: nat,
    m: nat,
)
    requires
        turns.len() > 0,
        node_at(graph, start, turns, i) == node_at(graph, start, turns, j),
        i % turns.len() == j % turns.len(),
    ensures
        node_at(graph, start, turns, i + m) == node_at(graph, start, turns, j + m),
        (i + m) % turns.len() == (j + m) % turns.len(),
    decreases m,
{
    let t = turns.len() as int;
    lemma_add_mod_noop(i as int, m as int, t);
    lemma_add_mod_noop(j as int, m as int, t);
    if m > 0 {
        lemma_walk_periodic(graph, start, turns, i, j, (m - 1) as nat);
        assert(i + m - 1 == i + (m - 1) as nat);
        assert(j + m - 1 == j + (m - 1) as nat);
    }
}

/// The nodes of `nodes`, each with each of the first `turns` places of a
/// list of turns.
pub open spec fn stands(nodes: Set<Seq<char>>, turns: nat) -> Set<(Seq<char>, int)> {
    Set::new(|s: (Seq<char>, int)| nodes.contains(s.0) && 0 <= s.1 < turns)
}

/// There are as many ways to stand at a node with a turn to take as there
/// are nodes times turns.
pub proof fn lemma_stands_len(nodes: Set<Seq<char>>, turns: nat)
    requires
        nodes.finite(),
    ensures
        stands(nodes, turns).finite(),
        stands(nodes, turns).len() == nodes.len() * turns,
    decreases turns,
{
    if turns == 0 {
        assert(stands(nodes, turns) =~= Set::<(Seq<char>, int)>::empty());
        assert(nodes.len() * 0 == 0) by (nonlinear_arith);
    } else {
        let before = stands(nodes, (turns - 1) as nat);
        let last = (turns - 1) as int;
        let f = |c: Seq<char>| (c, last);
        let row = nodes.map(f);
        lemma_stands_len(nodes, (turns - 1) as nat);
        assert(vstd::relations::injective_on(f, nodes));
        lemma_map_size(nodes, row, f);
        assert(stands(nodes, turns) =~= before + row) by {
            assert forall|s: (Seq<char>, int)| stands(nodes, turns).contains(s) == (before
                + row).contains(s) by {
                if row.contains(s) {
                    let c = choose|c: Seq<char>| nodes.contains(c) && f(c) == s;
                }
                if stands(nodes, turns).contains(s) && s.1 == last {
                    assert(nodes.contains(s.0) && f(s.0) == s);
                }
            }
        }
        assert(before.disjoint(row)) by {
            assert forall|s: (Seq<char>, int)| !(before.contains(s) && row.contains(s)) by {
                if row.contains(s) {
                    let c = choose|c: Seq<char>| nodes.contains(c) && f(c) == s;
                }
            }
        }
        lemma_set_disjoint_lens(before, row);
        assert(nodes.len() * (turns - 1) + nodes.len() == nodes.len() * turns) by (nonlinear_arith);
    }
}

/// A walk that stays, for as many steps as there are nodes times turns, at
/// nodes that the network knows stands twice at the same node with the same
/// turn to take. The result holds two such steps.
pub proof fn lemma_walk_repeats(graph: Map<Seq<char>, Ways>, start: Seq<char>, turns: Seq<Turn>)
    -> (twice: (nat, nat))
    requires
        graph.dom().finite(),
        turns.len() > 0,
        forall|k: nat|
            k <= graph.dom().len() * turns.len() ==> graph.contains_key(
                node_at(graph, start, turns, k),
            ),
    ensures
        twice.0 < twice.1 <= graph.dom().len() * turns.len(),
        node_at(graph, start, turns, twice.0) == node_at(graph, start, turns, twice.1),
        twice.0 % turns.len() == twice.1 % turns.len(),
{
    let t = turns.len();
    let n = graph.dom().len() * t;
    let visited = Seq::new(n + 1, |k: int| (node_at(graph, start, turns, k as nat), k % t as int));
    lemma_stands_len(graph.dom(), t);
    if visited.no_duplicates() {
        visited.unique_seq_to_set();
        assert forall|s: (Seq<char>, int)| visited.to_set().contains(s) implies stands(
            graph.dom(),
            t,
        ).contains(s) by {
            let k = choose|k: int| 0 <= k < visited.len() && visited[k] == s;
            assert(graph.contains_key(node_at(graph, start, turns, k as nat)));
        }
        lemma_len_subset(visited.to_set(), stands(graph.dom(), t));
        assert(false);
    }
    let (i, j) = choose|i: int, j: int|
        0 <= i < visited.len() && 0 <= j < visited.len() && i != j && visited[i] == visited[j];
    if i < j {
        (i as nat, j as nat)
    } else {
        (j as nat, i as nat)
    }
}

/// A walk that is on its way for as many steps as there are nodes times
/// turns is on its way for ever.
pub proof fn lemma_on_way_for_ever(
    graph: Map<Seq<char>, Ways>,
    start: Seq<char>,
    end: Seq<char>,
    turns: Seq<Turn>,
    k: nat,
)
    requires
        graph.dom().finite(),
        turns.len() > 0,
        forall|m: nat|
            m <= graph.dom().len() * turns.len() ==> on_way(graph, start, end, turns, m),
    ensures
        on_way(graph, start, end, turns, k),
    decreases k,
{
    if k > graph.dom().len() * turns.len() {
        assert forall|m: nat| m <= graph.dom().len() * turns.len() implies graph.contains_key(
            node_at(graph, start, turns, m),
        ) by {
            assert(on_way(graph, start, end, turns, m));
        }
        let (i, j) = lemma_walk_repeats(graph, start, turns);
        let back = (k - (j - i)) as nat;
        lemma_walk_periodic(graph, start, turns, i, j, (k - j) as nat);
        assert(i + (k - j) as nat == back);
        assert(j + (k - j) as nat == k);
        lemma_on_way_for_ever(graph, start, end, turns, back);
    }
}

/// A walk that has not arrived after as many steps as there are nodes times
/// turns never arrives: it fails in the same way however many steps it is
/// allowed.
pub proof fn lemma_endless_never_arrives(
    graph: Map<Seq<char>, Ways>,
    start: Seq<char>,
    end: Seq<char>,
    turns: Seq<Turn>,
    fuel: nat,
)
    requires
        graph.dom().finite(),
        turns.len() > 0,
        walk(graph, start, end, turns, 0, graph.dom().len() * turns.len()) == Err::<
            Seq<Seq<char>>,
            WalkError,
        >(WalkError::Endless),
    ensures
        walk(graph, start, end, turns, 0, fuel) == Err::<Seq<Seq<char>>, WalkError>(
            WalkError::Endless,
        ),
{
    let n = graph.dom().len() * turns.len();
    assert forall|m: nat| m <= n implies on_way(graph, start, end, turns, m) by {
        lemma_endless_was_on_way(graph, start, end, turns, 0, n, m);
    }
    assert forall|m: nat| 0 <= m <= 0 + fuel implies on_way(graph, start, end, turns, m) by {
        lemma_on_way_for_ever(graph, start, end, turns, m);
    }
    lemma_on_way_is_endless(graph, start, end, turns, 0, fuel);
}

} // verus!
