//! The network of nodes: from each node one way leads left and one right,
//! and a list of turns, taken round and round, tells which to take.
use crate::pattern::{
    find_captures, find_group_names, match_model, matches_model, named_text, names_model,
    regex_captures, regex_group_names, text_of, Group,
};
use vstd::prelude::*;

verus! {

/// One turn at a node.
#[derive(Clone, Copy, Debug, Hash, PartialEq, Eq, Structural)]
pub enum Turn {
    Left,
    Right,
}

/// The turns to take, in order; after the last comes the first again.
#[derive(Debug)]
pub struct Direction {
    pub turns: Vec<Turn>,
}

/// Why a walk through the network does not arrive.
#[derive(Clone, Copy, Debug, PartialEq, Eq, Structural)]
pub enum WalkError {
    /// The walk has come to a node that the network does not know.
    NoTransition,
    /// The walk has taken as many steps as it is allowed and has not
    /// arrived. Where the steps allowed are the nodes times the turns, such
    /// a walk never arrives.
    Endless,
}

/// The turn that the character `c` stands for: `L` for left, `R` for right.
pub open spec fn turn_of(c: char) -> Option<Turn> {
    if c == 'L' {
        Some(Turn::Left)
    } else if c == 'R' {
        Some(Turn::Right)
    } else {
        None
    }
}

impl Turn {
    /// The turn that the character `c` stands for, if it stands for one.
    pub fn from_char(c: char) -> (turn: Option<Turn>)
        ensures
            turn == turn_of(c),
    {
        if c == 'L' {
            Some(Turn::Left)
        } else if c == 'R' {
            Some(Turn::Right)
        } else {
            None
        }
    }
}

impl Direction {
    /// The turns that the characters `chars` stand for, in order. Each of
    /// them must stand for a turn.
    pub fn new(chars: Vec<char>) -> (direction: Self)
        requires
            forall|i: int| 0 <= i < chars.len() ==> turn_of(#[trigger] chars[i]) is Some,
        ensures
            direction.turns.len() == chars.len(),
            forall|i: int|
                0 <= i < chars.len() ==> Some(#[trigger] direction.turns[i]) == turn_of(chars[i]),
    {
        let mut turns: Vec<Turn> = Vec::new();
        let mut i: usize = 0;
        while i < chars.len()
            invariant
                i <= chars.len(),
                turns.len() == i,
                forall|k: int| 0 <= k < chars.len() ==> turn_of(#[trigger] chars[k]) is Some,
                forall|k: int| 0 <= k < i ==> Some(#[trigger] turns[k]) == turn_of(chars[k]),
            decreases chars.len() - i,
        {
            let turn = if chars[i] == 'L' {
                Turn::Left
            } else {
                Turn::Right
            };
            turns.push(turn);
            i += 1;
        }
        Self { turns }
    }
}

/// The two ways out of a node: the node to the left and the node to the
/// right.
pub ghost struct Ways {
    pub left: Seq<char>,
    pub right: Seq<char>,
}

impl Ways {
    /// The node that the turn `turn` leads to.
    pub open spec fn take(self, turn: Turn) -> Seq<char> {
        match turn {
            Turn::Left => self.left,
            Turn::Right => self.right,
        }
    }
}

/// One node with its two ways out.
struct Node {
    name: String,
    left: String,
    right: String,
}

impl Node {
    spec fn ways(self) -> Ways {
        Ways { left: self.left@, right: self.right@ }
    }
}

/// The network as a map, built node by node.
spec fn nodes_map(nodes: Seq<Node>) -> Map<Seq<char>, Ways>
    decreases nodes.len(),
{
    if nodes.len() == 0 {
        Map::empty()
    } else {
        nodes_map(nodes.drop_last()).insert(nodes.last().name@, nodes.last().ways())
    }
}

/// Whether no two nodes have the same name.
spec fn distinct_names(nodes: Seq<Node>) -> bool {
    forall|i: int, j: int|
        0 <= i < j < nodes.len() ==> (#[trigger] nodes[i]).name@ != (#[trigger] nodes[j]).name@
}

/// The network holds exactly the nodes it was built from.
proof fn lemma_nodes_map(nodes: Seq<Node>)
    requires
        distinct_names(nodes),
    ensures
        nodes_map(nodes).dom().finite(),
        nodes_map(nodes).dom().len() == nodes.len(),
        forall|i: int|
            0 <= i < nodes.len() ==> nodes_map(nodes).contains_key((#[trigger] nodes[i]).name@)
                && nodes_map(nodes)[nodes[i].name@] == nodes[i].ways(),
        forall|c: Seq<char>| #[trigger]
            nodes_map(nodes).contains_key(c) ==> exists|i: int|
                0 <= i < nodes.len() && (#[trigger] nodes[i]).name@ == c,
    decreases nodes.len(),
{
    if nodes.len() > 0 {
        let head = nodes.drop_last();
        let last = nodes.last();
        assert forall|i: int, j: int| 0 <= i < j < head.len() implies (#[trigger] head[i]).name@
            != (#[trigger] head[j]).name@ by {
            assert(head[i] == nodes[i]);
            assert(head[j] == nodes[j]);
        }
        lemma_nodes_map(head);
        if nodes_map(head).contains_key(last.name@) {
            let i = choose|i: int| 0 <= i < head.len() && (#[trigger] head[i]).name@ == last.name@;
            assert(head[i] == nodes[i]);
            assert(nodes[i].name@ != nodes[nodes.len() - 1].name@);
        }
        assert forall|i: int| 0 <= i < nodes.len() implies nodes_map(nodes).contains_key(
            (#[trigger] nodes[i]).name@,
        ) && nodes_map(nodes)[nodes[i].name@] == nodes[i].ways() by {
            if i < head.len() {
                assert(head[i] == nodes[i]);
                assert(nodes[i].name@ != nodes[nodes.len() - 1].name@);
            }
        }
        assert forall|c: Seq<char>| #[trigger] nodes_map(nodes).contains_key(c) implies exists|
            i: int,
        |
            0 <= i < nodes.len() && (#[trigger] nodes[i]).name@ == c by {
            if c == last.name@ {
                assert(nodes[nodes.len() - 1].name@ == c);
            } else {
                let i = choose|i: int| 0 <= i < head.len() && (#[trigger] head[i]).name@ == c;
                assert(head[i] == nodes[i]);
            }
        }
    }
}

/// What a result becomes when the nodes `before` were passed first.
pub open spec fn after(before: Seq<Seq<char>>, rest: Result<Seq<Seq<char>>, WalkError>) -> Result<
    Seq<Seq<char>>,
    WalkError,
> {
    match rest {
        Ok(nodes) => Ok(before + nodes),
        Err(e) => Err(e),
    }
}

/// The nodes that the walk from `at` passes until it comes to `end`, which
/// is the last of them, where `taken` steps lie behind it and `fuel` steps
/// are allowed.
///
/// Without turns the walk takes no step. It fails where it stands at a node
/// that the network does not know, and where the steps are used up.
pub open spec fn walk(
    graph: Map<Seq<char>, Ways>,
    at: Seq<char>,
    end: Seq<char>,
    turns: Seq<Turn>,
    taken: nat,
    fuel: nat,
) -> Result<Seq<Seq<char>>, WalkError>
    decreases fuel,
{
    if turns.len() == 0 {
        Ok(Seq::empty())
    } else if !graph.contains_key(at) {
        Err(WalkError::NoTransition)
    } else if fuel == 0 {
        Err(WalkError::Endless)
    } else {
        let next = graph[at].take(turns[taken as int % turns.len() as int]);
        if next == end {
            Ok(seq![next])
        } else {
            after(seq![next], walk(graph, next, end, turns, taken + 1, (fuel - 1) as nat))
        }
    }
}

/// The number of steps that a walk is allowed: the number of nodes times the
/// number of turns, as far as `usize` can hold it. There are no more ways to
/// stand at a node with a turn to take.
pub open spec fn walk_limit(nodes: nat, turns: nat) -> nat {
    if nodes * turns <= usize::MAX {
        nodes * turns
    } else {
        usize::MAX as nat
    }
}

/// The node that the groups `src`, `left` and `right` of a match declare,
/// where the match has all three.
pub open spec fn node_told(
    names: Seq<Option<Seq<char>>>,
    groups: Seq<Option<(int, int, Seq<char>)>>,
) -> Option<(Seq<char>, Ways)> {
    match (
        named_text(names, groups, "src"@),
        named_text(names, groups, "left"@),
        named_text(names, groups, "right"@),
    ) {
        (Some(src), Some(left), Some(right)) => Some((src, Ways { left, right })),
        _ => None,
    }
}

/// The pattern of a line that declares a node.
pub open spec fn node_pattern() -> Seq<char> {
    "^(?<src>\\w*) = \\((?<left>\\w*), (?<right>\\w*)\\)$"@
}

/// What the line `line` adds to the network `graph`: the node that its first
/// match declares. A line without a match adds nothing.
pub open spec fn with_line(graph: Map<Seq<char>, Ways>, line: Seq<char>) -> Map<Seq<char>, Ways> {
    match (regex_group_names(node_pattern()), regex_captures(node_pattern(), line)) {
        (Some(names), Some(found)) => if found.len() > 0 {
            match node_told(names, found[0]) {
                Some(node) => graph.insert(node.0, node.1),
                None => graph,
            }
        } else {
            graph
        },
        _ => graph,
    }
}

/// The network that the lines `lines` declare, read in order: a later
/// declaration of a node replaces an earlier one.
pub open spec fn with_lines(lines: Seq<Seq<char>>) -> Map<Seq<char>, Ways>
    decreases lines.len(),
{
    if lines.len() == 0 {
        Map::empty()
    } else {
        with_line(with_lines(lines.drop_last()), lines.last())
    }
}

/// What each of the lines holds.
pub open spec fn line_views(lines: Seq<&str>) -> Seq<Seq<char>> {
    Seq::new(lines.len(), |i: int| lines[i]@)
}

/// The network of nodes.
pub struct Graph {
    nodes: Vec<Node>,
}

impl View for Graph {
    type V = Map<Seq<char>, Ways>;

    closed spec fn view(&self) -> Map<Seq<char>, Ways> {
        nodes_map(self.nodes@)
    }
}

impl Graph {
    #[verifier::type_invariant]
    spec fn names_distinct(self) -> bool {
        distinct_names(self.nodes@)
    }

    /// A network without nodes.
    pub fn empty() -> (graph: Self)
        ensures
            graph@ == Map::<Seq<char>, Ways>::empty(),
    {
        Graph { nodes: Vec::new() }
    }

    /// The place of the node `name`, if the network knows it.
    fn find(&self, name: &String) -> (place: Option<usize>)
        ensures
            place is Some <==> self@.contains_key(name@),
            place is Some ==> place->0 < self.nodes.len() && self.nodes[place->0 as int].name@
                == name@ && self@[name@] == self.nodes[place->0 as int].ways(),
            self@.dom().finite(),
            self@.dom().len() == self.nodes.len(),
    {
        proof {
            use_type_invariant(&*self);
            lemma_nodes_map(self.nodes@);
        }
        let mut i: usize = 0;
        let mut place: Option<usize> = None;
        while i < self.nodes.len()
            invariant
                i <= self.nodes.len(),
                place is None ==> forall|j: int|
                    0 <= j < i ==> (#[trigger] self.nodes[j]).name@ != name@,
                place is Some ==> place->0 < self.nodes.len() && self.nodes[place->0 as int].name@
                    == name@,
            decreases self.nodes.len() - i,
        {
            if self.nodes[i].name == *name {
                place = Some(i);
                i = self.nodes.len();
            } else {
                i += 1;
            }
        }
        place
    }

    /// Declares the node `name` with its two ways out. An earlier
    /// declaration of the node is replaced.
    pub fn insert(&mut self, name: String, left: String, right: String)
        ensures
            final(self)@ == old(self)@.insert(name@, Ways { left: left@, right: right@ }),
    {
        proof {
            use_type_invariant(&*self);
        }
        let found = self.find(&name);
        let ghost before = self.nodes@;
        let ghost ways = Ways { left: left@, right: right@ };
        let ghost key = name@;
        let node = Node { name, left, right };
        let mut nodes: Vec<Node> = Vec::new();
        std::mem::swap(&mut nodes, &mut self.nodes);
        match found {
            Some(i) => {
                nodes.set(i, node);
                proof {
                    assert forall|a: int, b: int| 0 <= a < b < nodes@.len() implies (
                    #[trigger] nodes@[a]).name@ != (#[trigger] nodes@[b]).name@ by {
                        assert(nodes@[a].name@ == before[a].name@);
                        assert(nodes@[b].name@ == before[b].name@);
                    }
                    lemma_nodes_map(before);
                    lemma_nodes_map(nodes@);
                    assert forall|c: Seq<char>|
                        nodes_map(nodes@).contains_key(c) == nodes_map(before).insert(
                            key,
                            ways,
                        ).contains_key(c) by {
                        if nodes_map(nodes@).contains_key(c) {
                            let k = choose|k: int|
                                0 <= k < nodes@.len() && (#[trigger] nodes@[k]).name@ == c;
                            assert(before[k].name@ == c);
                        }
                        if nodes_map(before).contains_key(c) {
                            let k = choose|k: int|
                                0 <= k < before.len() && (#[trigger] before[k]).name@ == c;
                            assert(nodes@[k].name@ == c);
                        }
                    }
                    assert forall|c: Seq<char>| nodes_map(nodes@).contains_key(c) implies nodes_map(
                        nodes@,
                    )[c] == nodes_map(before).insert(key, ways)[c] by {
                        let k = choose|k: int|
                            0 <= k < nodes@.len() && (#[trigger] nodes@[k]).name@ == c;
                        if k != i {
                            assert(nodes@[k] == before[k]);
                        }
                    }
                    assert(nodes_map(nodes@) =~= nodes_map(before).insert(key, ways));
                }
            },
            None => {
                nodes.push(node);
                proof {
                    assert(nodes@.drop_last() == before);
                    lemma_nodes_map(before);
                    assert forall|a: int, b: int| 0 <= a < b < nodes@.len() implies (
                    #[trigger] nodes@[a]).name@ != (#[trigger] nodes@[b]).name@ by {
                        if b < before.len() {
                            assert(nodes@[a] == before[a] && nodes@[b] == before[b]);
                        } else {
                            assert(nodes@[a] == before[a]);
                        }
                    }
                }
            },
        }
        self.nodes = nodes;
    }

    /// Declares the node that the first of the matches `found` tells by its
    /// groups `src`, `left` and `right`, if there is such a match and it has
    /// all three.
    pub fn insert_told(&mut self, names: &Vec<Option<String>>, found: &Vec<Vec<Option<Group>>>)
        ensures
            final(self)@ == (if found.len() > 0 {
                match node_told(names_model(names@), matches_model(found@)[0]) {
                    Some(node) => old(self)@.insert(node.0, node.1),
                    None => old(self)@,
                }
            } else {
                old(self)@
            }),
    {
        if found.len() == 0 {
            return ;
        }
        proof {
            assert(matches_model(found@)[0] == match_model(found@[0]@));
        }
        let src = text_of(names, &found[0], "src");
        let left = text_of(names, &found[0], "left");
        let right = text_of(names, &found[0], "right");
        match (src, left, right) {
            (Some(src), Some(left), Some(right)) => {
                self.insert(src.clone(), left.clone(), right.clone());
            },
            _ => {},
        }
    }

    /// The network that the lines `lines` declare. A line declares a node
    /// where it reads `name = (left, right)`; other lines are passed over.
    pub fn new(lines: &[&str]) -> (graph: Graph)
        ensures
            graph@ == with_lines(line_views(lines@)),
    {
        let pattern = "^(?<src>\\w*) = \\((?<left>\\w*), (?<right>\\w*)\\)$";
        let mut graph = Graph::empty();
        let names = find_group_names(pattern);
        let ghost all = line_views(lines@);
        let mut i: usize = 0;
        proof {
            assert(all.take(0) == Seq::<Seq<char>>::empty());
        }
        while i < lines.len()
            invariant
                i <= lines.len(),
                all == line_views(lines@),
                pattern@ == node_pattern(),
                match names {
                    Some(list) => regex_group_names(node_pattern()) == Some(names_model(list@)),
                    None => regex_group_names(node_pattern()) is None,
                },
                graph@ == with_lines(all.take(i as int)),
            decreases lines.len() - i,
        {
            proof {
                assert(all.take(i + 1).drop_last() == all.take(i as int));
                assert(all.take(i + 1).last() == lines@[i as int]@);
            }
            match &names {
                Some(list) => {
                    match find_captures(pattern, lines[i]) {
                        Some(found) => {
                            graph.insert_told(list, &found);
                        },
                        None => {},
                    }
                },
                None => {},
            }
            i += 1;
        }
        proof {
            assert(all.take(lines.len() as int) == all);
        }
        graph
    }

    /// The most steps that a walk with `turns` turns is allowed.
    pub open spec fn step_limit(&self, turns: nat) -> nat {
        walk_limit(self@.dom().len(), turns)
    }

    /// The nodes that the walk from `start` passes until it comes to `end`:
    /// at each node the next of the turns of `direction` is taken, and after
    /// the last turn comes the first again. The node `end` is the last of the
    /// result.
    ///
    /// The walk fails with `NoTransition` where it stands at a node that the
    /// network does not know, and with `Endless` where it has taken as many
    /// steps as `step_limit` allows and has not arrived.
    pub fn path(&self, start: &str, end: &str, direction: &Direction) -> (passed: Result<
        Vec<String>,
        WalkError,
    >)
        ensures
            match passed {
                Ok(nodes) => walk(
                    self@,
                    start@,
                    end@,
                    direction.turns@,
                    0,
                    self.step_limit(direction.turns.len() as nat),
                ) == Ok::<Seq<Seq<char>>, WalkError>(nodes@.map_values(|s: String| s@)),
                Err(e) => walk(
                    self@,
                    start@,
                    end@,
                    direction.turns@,
                    0,
                    self.step_limit(direction.turns.len() as nat),
                ) == Err::<Seq<Seq<char>>, WalkError>(e),
            },
    {
        let mut path: Vec<String> = Vec::new();
        let count: usize = direction.turns.len();
        if count == 0 {
            proof {
                assert(path@.map_values(|s: String| s@) =~= Seq::<Seq<char>>::empty());
            }
            return Ok(path);
        }
        proof {
            use_type_invariant(&*self);
            lemma_nodes_map(self.nodes@);
        }
        let limit: usize = match self.nodes.len().checked_mul(count) {
            Some(n) => n,
            None => usize::MAX,
        };
        let target: String = end.to_owned();
        let mut curr: String = start.to_owned();
        let mut steps: usize = 0;
        let mut phase: usize = 0;
        let ghost whole = walk(self@, start@, end@, direction.turns@, 0, limit as nat);
        proof {
            assert(path@.map_values(|s: String| s@) =~= Seq::<Seq<char>>::empty());
            assert(after(Seq::empty(), whole) == whole);
        }
        loop
            invariant
                count == direction.turns.len(),
                count > 0,
                limit == self.step_limit(count as nat),
                steps <= limit,
                phase == steps % count,
                target@ == end@,
                whole == walk(self@, start@, end@, direction.turns@, 0, limit as nat),
                whole == after(
                    path@.map_values(|s: String| s@),
                    walk(
                        self@,
                        curr@,
                        end@,
                        direction.turns@,
                        steps as nat,
                        (limit - steps) as nat,
                    ),
                ),
            decreases limit - steps,
        {
            let place = match self.find(&curr) {
                Some(i) => i,
                None => {
                    return Err(WalkError::NoTransition);
                },
            };
            if steps == limit {
                return Err(WalkError::Endless);
            }
            let next: String = match direction.turns[phase] {
                Turn::Left => self.nodes[place].left.clone(),
                Turn::Right => self.nodes[place].right.clone(),
            };
            let ghost before = path@.map_values(|s: String| s@);
            let arrived: bool = next == target;
            curr = next.clone();
            path.push(next);
            proof {
                assert(path@.map_values(|s: String| s@) =~= before.push(curr@));
                assert(before.push(curr@) =~= before + seq![curr@]);
            }
            if arrived {
                return Ok(path);
            }
            proof {
                let rest = walk(
                    self@,
                    curr@,
                    end@,
                    direction.turns@,
                    (steps + 1) as nat,
                    (limit - steps - 1) as nat,
                );
                match rest {
                    Ok(nodes) => {
                        assert(before + (seq![curr@] + nodes) =~= (before + seq![curr@]) + nodes);
                    },
                    Err(_) => {},
                }
            }
            steps += 1;
            phase = if phase + 1 == count {
                0
            } else {
                phase + 1
            };
            proof {
                assert(phase == steps % count) by (nonlinear_arith)
                    requires
                        count > 0,
                        (steps - 1) % (count as int) + 1 == count ==> phase == 0,
                        (steps - 1) % (count as int) + 1 != count ==> phase == (steps - 1) % (
                        count as int) + 1,
                        steps >= 1,
                ;
            }
        }
    }
}

} // verus!
