use advent::pattern::Group;
use advent::schematic::{
    get_tokens, tokens_from_captures, FromMatch, Layer, Num, Rectangle, Schematic, Sym, Token,
};

const EXAMPLE: [&str; 10] = [
    "467..114..",
    "...*......",
    "..35..633.",
    "......#...",
    "617*......",
    ".....+.58.",
    "..592.....",
    "......755.",
    "...$.*....",
    ".664.598..",
];

fn example() -> Schematic {
    let lines: Vec<String> = EXAMPLE.iter().map(|l| l.to_string()).collect();
    Schematic::from_lines(&lines).unwrap()
}

fn rect(tl_x: usize, tl_y: usize, br_x: usize, br_y: usize) -> Rectangle {
    Rectangle { tl_x, tl_y, br_x, br_y }
}

fn num(tok: i32, x0: usize, x1: usize, y: usize) -> Num {
    Token { tok, x0, x1, y }
}

fn sym(tok: char, x0: usize, x1: usize, y: usize) -> Sym {
    Token { tok, x0, x1, y }
}

fn toks(found: &[&Num]) -> Vec<i32> {
    found.iter().map(|n| n.tok).collect()
}

fn group(start: usize, end: usize, text: &str) -> Group {
    Group { start, end, text: text.to_string() }
}

#[test]
fn rectangle_lists_cells_row_by_row() {
    assert_eq!(
        rect(1, 2, 3, 4).to_coords_yx(),
        vec![(2, 1), (2, 2), (3, 1), (3, 2)]
    );
    assert_eq!(rect(0, 0, 1, 1).to_coords_yx(), vec![(0, 0)]);
    assert_eq!(rect(5, 7, 8, 8).to_coords_yx(), vec![(7, 5), (7, 6), (7, 7)]);
}

#[test]
fn rectangle_without_cells_is_empty() {
    assert_eq!(rect(3, 0, 3, 5).to_coords_yx(), vec![]);
    assert_eq!(rect(0, 4, 5, 4).to_coords_yx(), vec![]);
    assert_eq!(rect(5, 5, 1, 9).to_coords_yx(), vec![]);
    assert_eq!(rect(1, 9, 5, 5).to_coords_yx(), vec![]);
}

#[test]
fn number_from_match() {
    let n: Num = FromMatch::from_match(&group(2, 5, "467"), 3).unwrap();
    assert_eq!((n.tok, n.x0, n.x1, n.y), (467, 2, 5, 3));
    assert!(<Num as FromMatch>::from_match(&group(0, 11, "99999999999"), 0).is_none());
    assert!(<Num as FromMatch>::from_match(&group(0, 1, "x"), 0).is_none());
}

#[test]
fn symbol_from_match() {
    let s: Sym = FromMatch::from_match(&group(3, 4, "*"), 1).unwrap();
    assert_eq!((s.tok, s.x0, s.x1, s.y), ('*', 3, 4, 1));
    assert!(<Sym as FromMatch>::from_match(&group(3, 3, ""), 1).is_none());
}

#[test]
fn tokens_of_a_line() {
    let nums: Vec<Num> = get_tokens(r"\d+", 0, EXAMPLE[0]).unwrap();
    assert_eq!(
        nums.iter().map(|n| (n.tok, n.x0, n.x1, n.y)).collect::<Vec<_>>(),
        vec![(467, 0, 3, 0), (114, 5, 8, 0)]
    );
    let syms: Vec<Sym> = get_tokens(r"[^\.\d]", 8, EXAMPLE[8]).unwrap();
    assert_eq!(
        syms.iter().map(|s| (s.tok, s.x0, s.x1, s.y)).collect::<Vec<_>>(),
        vec![('$', 3, 4, 8), ('*', 5, 6, 8)]
    );
    let none: Vec<Num> = get_tokens(r"\d+", 0, "....").unwrap();
    assert!(none.is_empty());
}

#[test]
fn tokens_refuse_bad_pattern_and_big_numbers() {
    assert!(get_tokens::<Num>("(", 0, "12").is_none());
    assert!(get_tokens::<Num>(r"\d+", 0, "12..99999999999").is_none());
    assert!(get_tokens::<Sym>(r"x*", 0, "ab").is_none());
}

#[test]
fn tokens_from_captures_wants_the_whole_match() {
    let found = vec![vec![Some(group(0, 2, "12"))], vec![None]];
    assert!(tokens_from_captures::<Num>(&found, 0).is_none());
    let found = vec![vec![Some(group(0, 2, "12"))], vec![]];
    assert!(tokens_from_captures::<Num>(&found, 0).is_none());
    let found = vec![vec![Some(group(0, 2, "12")), None]];
    assert_eq!(tokens_from_captures::<Num>(&found, 4).unwrap().len(), 1);
}

#[test]
fn example_is_read() {
    let s = example();
    assert_eq!(s.numbers.len(), 10);
    assert_eq!(s.gears.len(), 3);
    assert_eq!(s.symbol_layer.m.len(), 10);
    assert_eq!(s.number_layer.m.len(), 10);
    assert!(s.symbol_layer.m.iter().all(|row| row.len() == 10));
    assert_eq!(s.number_layer.m[0][0], Some(0));
    assert_eq!(s.number_layer.m[0][2], Some(0));
    assert_eq!(s.number_layer.m[0][3], None);
    assert_eq!(s.number_layer.m[0][5], Some(1));
    assert_eq!(s.number_layer.m[9][5], Some(9));
    assert!(s.symbol_layer.m[1][3]);
    assert!(!s.symbol_layer.m[1][2]);
    assert!(s.symbol_layer.m[3][6]);
}

#[test]
fn covered_rectangle_is_clipped_to_the_grid() {
    let s = example();
    assert_eq!(s.covered_rectangle(&num(467, 0, 3, 0)), rect(0, 0, 4, 2));
    assert_eq!(s.covered_rectangle(&num(35, 2, 4, 2)), rect(1, 1, 5, 4));
    assert_eq!(s.covered_rectangle(&num(598, 5, 8, 9)), rect(4, 8, 9, 10));
    assert_eq!(s.covered_rectangle(&sym('*', 9, 10, 9)), rect(8, 8, 10, 10));
    assert_eq!(s.covered_rectangle(&sym('*', 20, 30, 40)), rect(19, 39, 10, 10));
}

#[test]
fn adjacency_to_symbols() {
    let s = example();
    assert!(s.adjacent_to_symbol(&s.numbers[0]));
    assert!(!s.adjacent_to_symbol(&s.numbers[1]));
    assert!(s.adjacent_to_symbol(&s.numbers[2]));
    assert!(!s.adjacent_to_symbol(&s.numbers[5]));
    assert!(s.adjacent_to_symbol(&s.numbers[9]));
}

#[test]
fn part_numbers_of_the_example() {
    let s = example();
    assert_eq!(toks(&s.get_part_numbers()), vec![467, 35, 633, 617, 592, 755, 664, 598]);
    assert_eq!(s.part_number_sum(), Some(4361));
}

#[test]
fn numbers_on_a_rectangle_are_listed_once() {
    let s = example();
    assert_eq!(toks(&s.get_numbers_on_rectangle(rect(0, 0, 10, 1))), vec![467, 114]);
    assert_eq!(toks(&s.get_numbers_on_rectangle(rect(0, 0, 10, 3))), vec![467, 114, 35, 633]);
    assert_eq!(toks(&s.get_numbers_on_rectangle(rect(3, 0, 5, 2))), vec![]);
    assert_eq!(toks(&s.get_numbers_on_rectangle(rect(4, 4, 4, 4))), vec![]);
    assert_eq!(toks(&s.get_numbers_on_rectangle(rect(20, 30, 10, 10))), vec![]);
}

#[test]
fn numbers_around_the_gears() {
    let s = example();
    assert_eq!(toks(&s.get_adjacent_numbers(&s.gears[0])), vec![467, 35]);
    assert_eq!(toks(&s.get_adjacent_numbers(&s.gears[1])), vec![617]);
    assert_eq!(toks(&s.get_adjacent_numbers(&s.gears[2])), vec![755, 598]);
    assert_eq!(s.gear_ratio_sum(), Some(467835));
}

#[test]
fn sums_report_overflow() {
    let lines: Vec<String> =
        ["2147483647*1", "............"].iter().map(|l| l.to_string()).collect();
    let s = Schematic::from_lines(&lines).unwrap();
    assert_eq!(s.part_number_sum(), None);
    assert_eq!(s.gear_ratio_sum(), Some(2147483647));
    let lines: Vec<String> = ["65536*65536"].iter().map(|l| l.to_string()).collect();
    let s = Schematic::from_lines(&lines).unwrap();
    assert_eq!(s.gear_ratio_sum(), None);
    assert_eq!(s.part_number_sum(), Some(131072));
}

#[test]
fn empty_lines_give_no_row_but_count_for_the_row_number() {
    let lines: Vec<String> = ["", "12*", ""].iter().map(|l| l.to_string()).collect();
    let s = Schematic::from_lines(&lines).unwrap();
    assert_eq!(s.symbol_layer.m.len(), 1);
    assert_eq!(s.numbers[0].y, 1);
    assert_eq!(s.gears[0].y, 1);
}

#[test]
fn from_lines_refuses_uneven_rows_and_big_numbers() {
    let lines: Vec<String> = ["12*", "1234"].iter().map(|l| l.to_string()).collect();
    assert!(Schematic::from_lines(&lines).is_none());
    let lines: Vec<String> = ["99999999999"].iter().map(|l| l.to_string()).collect();
    assert!(Schematic::from_lines(&lines).is_none());
    assert!(Schematic::from_lines(&vec![]).is_some());
}

#[test]
fn add_row_refuses_what_does_not_fit() {
    let mut s = Schematic::empty();
    assert!(s.add_row(4, vec![num(12, 0, 2, 0)], vec![sym('*', 3, 4, 0)]));
    assert!(!s.add_row(5, vec![], vec![]));
    assert!(!s.add_row(4, vec![num(12, 3, 5, 1)], vec![]));
    assert!(!s.add_row(4, vec![num(12, 3, 2, 1)], vec![]));
    assert!(!s.add_row(4, vec![], vec![sym('#', 4, 5, 1)]));
    assert!(!s.add_row(4, vec![num(7, 1, 2, 1)], vec![sym('#', 1, 2, 1)]));
    assert_eq!(s.symbol_layer.m.len(), 1);
    assert_eq!(s.numbers.len(), 1);
    assert!(s.add_row(4, vec![num(7, 1, 2, 1)], vec![sym('#', 2, 3, 1)]));
    assert_eq!(s.number_layer.m[1], vec![None, Some(1), None, None]);
    assert_eq!(s.symbol_layer.m[1], vec![false, false, true, false]);
    assert_eq!(s.gears.len(), 1);
}

#[test]
fn add_row_later_number_wins_a_shared_cell() {
    let mut s = Schematic::empty();
    assert!(s.add_row(4, vec![num(1, 0, 3, 0), num(2, 2, 4, 0)], vec![]));
    assert_eq!(s.number_layer.m[0], vec![Some(0), Some(0), Some(1), Some(1)]);
}

#[test]
fn schematic_built_by_hand() {
    let s = Schematic {
        gears: vec![sym('*', 1, 2, 0)],
        numbers: vec![num(3, 0, 1, 0), num(5, 2, 3, 0)],
        number_layer: Layer { m: vec![vec![Some(0), None, Some(1)]] },
        symbol_layer: Layer { m: vec![vec![false, true, false]] },
    };
    assert_eq!(s.part_number_sum(), Some(8));
    assert_eq!(s.gear_ratio_sum(), Some(15));
}

#[test]
fn well_formed_schematics() {
    assert!(example().is_well_formed());
    assert!(Schematic::empty().is_well_formed());
    let build = |numbers: Vec<Num>, nrows: Vec<Vec<Option<usize>>>, srows: Vec<Vec<bool>>| Schematic {
        gears: vec![],
        numbers,
        number_layer: Layer { m: nrows },
        symbol_layer: Layer { m: srows },
    };
    assert!(build(vec![num(1, 0, 1, 0)], vec![vec![Some(0)]], vec![vec![false]]).is_well_formed());
    assert!(!build(vec![num(1, 0, 1, 0)], vec![vec![Some(1)]], vec![vec![false]]).is_well_formed());
    assert!(!build(vec![], vec![vec![None]], vec![vec![false, true]]).is_well_formed());
    assert!(!build(vec![], vec![vec![None], vec![]], vec![vec![false], vec![true]]).is_well_formed());
    assert!(!build(vec![], vec![], vec![vec![false]]).is_well_formed());
    assert!(!build(vec![num(1, 0, 1, 0)], vec![], vec![]).is_well_formed());
    assert!(!build(vec![num(1, 0, usize::MAX, 0)], vec![vec![None]], vec![vec![false]])
        .is_well_formed());
    assert!(!build(vec![num(1, 0, 1, usize::MAX - 1)], vec![vec![None]], vec![vec![false]])
        .is_well_formed());
}
