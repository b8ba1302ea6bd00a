use advent::network::{Direction, Graph, Turn, WalkError};

fn direction(turns: &str) -> Direction {
    Direction::new(turns.chars().collect())
}

fn names(path: &[&str]) -> Vec<String> {
    path.iter().map(|s| s.to_string()).collect()
}

const FIRST: [&str; 7] = [
    "AAA = (BBB, CCC)",
    "BBB = (DDD, EEE)",
    "CCC = (ZZZ, GGG)",
    "DDD = (DDD, DDD)",
    "EEE = (EEE, EEE)",
    "GGG = (GGG, GGG)",
    "ZZZ = (ZZZ, ZZZ)",
];

const SECOND: [&str; 3] = ["AAA = (BBB, BBB)", "BBB = (AAA, ZZZ)", "ZZZ = (ZZZ, ZZZ)"];

#[test]
fn turn_from_char() {
    assert_eq!(Turn::from_char('L'), Some(Turn::Left));
    assert_eq!(Turn::from_char('R'), Some(Turn::Right));
    assert_eq!(Turn::from_char('l'), None);
    assert_eq!(Turn::from_char(' '), None);
}

#[test]
fn direction_reads_turns_in_order() {
    assert_eq!(direction("LLR").turns, vec![Turn::Left, Turn::Left, Turn::Right]);
    assert_eq!(direction("").turns, vec![]);
}

#[test]
fn path_of_the_first_example_takes_two_steps() {
    let graph = Graph::new(&FIRST);
    assert_eq!(graph.path("AAA", "ZZZ", &direction("RL")), Ok(names(&["CCC", "ZZZ"])));
}

#[test]
fn path_of_the_second_example_takes_six_steps() {
    let graph = Graph::new(&SECOND);
    let path = graph.path("AAA", "ZZZ", &direction("LLR")).unwrap();
    assert_eq!(path, names(&["BBB", "AAA", "BBB", "AAA", "BBB", "ZZZ"]));
}

#[test]
fn path_from_the_end_walks_until_it_comes_back() {
    let graph = Graph::new(&SECOND);
    assert_eq!(graph.path("ZZZ", "ZZZ", &direction("L")), Ok(names(&["ZZZ"])));
    assert_eq!(graph.path("AAA", "AAA", &direction("L")), Ok(names(&["BBB", "AAA"])));
}

#[test]
fn path_without_turns_is_empty() {
    let graph = Graph::new(&SECOND);
    assert_eq!(graph.path("AAA", "ZZZ", &direction("")), Ok(vec![]));
    assert_eq!(Graph::empty().path("AAA", "ZZZ", &direction("")), Ok(vec![]));
}

#[test]
fn path_reports_unknown_node() {
    let graph = Graph::new(&["AAA = (BBB, CCC)"]);
    assert_eq!(graph.path("AAA", "ZZZ", &direction("L")), Err(WalkError::NoTransition));
    assert_eq!(graph.path("QQQ", "ZZZ", &direction("L")), Err(WalkError::NoTransition));
    assert_eq!(graph.path("AAA", "CCC", &direction("R")), Ok(names(&["CCC"])));
    assert_eq!(Graph::empty().path("AAA", "ZZZ", &direction("R")), Err(WalkError::NoTransition));
}

#[test]
fn path_reports_endless_walk() {
    let graph = Graph::new(&FIRST);
    assert_eq!(graph.path("AAA", "ZZZ", &direction("L")), Err(WalkError::Endless));
    assert_eq!(graph.path("DDD", "AAA", &direction("LR")), Err(WalkError::Endless));
}

#[test]
fn path_may_be_as_long_as_nodes_times_turns() {
    let graph = Graph::new(&["A = (B, A)", "B = (C, A)", "C = (A, Z)", "Z = (Z, Z)"]);
    let path = graph.path("A", "Z", &direction("LLLLLLLLR")).unwrap();
    assert_eq!(path.len(), 9);
    assert_eq!(path.last().map(|s| s.as_str()), Some("Z"));
}

#[test]
fn graph_passes_over_lines_that_declare_nothing() {
    let graph = Graph::new(&["", "AAA = (BBB, CCC)", "AAA = BBB, CCC", " AAA = (QQQ, YYY)"]);
    assert_eq!(graph.path("AAA", "BBB", &direction("L")), Ok(names(&["BBB"])));
}

#[test]
fn graph_later_declaration_replaces_earlier() {
    let graph = Graph::new(&["AAA = (BBB, CCC)", "BBB = (BBB, BBB)", "AAA = (ZZZ, CCC)"]);
    assert_eq!(graph.path("AAA", "ZZZ", &direction("L")), Ok(names(&["ZZZ"])));
}

#[test]
fn graph_insert_replaces_a_node() {
    let mut graph = Graph::empty();
    graph.insert("A".to_string(), "B".to_string(), "C".to_string());
    graph.insert("B".to_string(), "B".to_string(), "B".to_string());
    graph.insert("A".to_string(), "Z".to_string(), "C".to_string());
    assert_eq!(graph.path("A", "Z", &direction("L")), Ok(names(&["Z"])));
    assert_eq!(graph.path("A", "B", &direction("L")), Err(WalkError::NoTransition));
}
