use advent::chain::{lowest_start, Almanac};
use advent::error::AlmanacError;
use advent::parse::{parse_almanac, parse_map_categories, parse_map_ranges, parse_seed_ranges};
use advent::range::AlmanacRange;
use advent::stage::{AlmanacMap, AlmanacMapRange};

const EXAMPLE: &str = "seeds: 79 14 55 13

seed-to-soil map:
50 98 2
52 50 48

soil-to-fertilizer map:
0 15 37
37 52 2
39 0 15

fertilizer-to-water map:
49 53 8
0 11 42
42 0 7
57 7 4

water-to-light map:
88 18 7
18 25 70

light-to-temperature map:
45 77 23
81 45 19
68 64 13

temperature-to-humidity map:
0 69 1
1 0 69

humidity-to-location map:
60 56 37
56 93 4
";

fn range(start: i64, count: i64) -> AlmanacRange {
    AlmanacRange { start, count }
}

fn rule(dst_start: i64, src_start: i64, count: i64) -> AlmanacMapRange {
    AlmanacMapRange { src_start, dst_start, count }
}

fn table(rules: &[(i64, i64, i64)]) -> AlmanacMap {
    let mut map = AlmanacMap::new();
    for (dst, src, count) in rules {
        assert_eq!(map.add_range(rule(*dst, *src, *count)), Ok(()));
    }
    map
}

fn total(ranges: &[AlmanacRange]) -> i64 {
    ranges.iter().map(|r| r.count).sum()
}

fn sorted(mut ranges: Vec<AlmanacRange>) -> Vec<(i64, i64)> {
    ranges.sort_by_key(|r| (r.start, r.count));
    ranges.iter().map(|r| (r.start, r.count)).collect()
}

#[test]
fn split_cuts_into_three_parts() {
    let parts = range(10, 10).split(15, 18);
    assert_eq!(parts, (Some(range(10, 5)), Some(range(15, 3)), Some(range(18, 2))));
}

#[test]
fn split_inside_window_is_all_center() {
    let parts = range(10, 10).split(0, 20);
    assert_eq!(parts, (None, Some(range(10, 10)), None));
}

#[test]
fn split_window_that_ends_at_start_leaves_right_part() {
    let parts = range(10, 10).split(0, 10);
    assert_eq!(parts, (None, None, Some(range(10, 10))));
}

#[test]
fn split_before_window_is_all_left() {
    let parts = range(10, 10).split(20, 30);
    assert_eq!(parts, (Some(range(10, 10)), None, None));
}

#[test]
fn split_after_window_is_all_right() {
    let parts = range(10, 10).split(0, 5);
    assert_eq!(parts, (None, None, Some(range(10, 10))));
}

#[test]
fn split_of_empty_interval_has_no_parts() {
    assert_eq!(range(12, 0).split(10, 20), (None, None, None));
}

#[test]
fn split_with_empty_window_has_no_center() {
    assert_eq!(range(10, 10).split(14, 14), (Some(range(10, 4)), None, Some(range(14, 6))));
}

#[test]
fn split_lengths_add_up() {
    for (l, r) in [(0, 5), (5, 12), (12, 17), (17, 25), (25, 30), (0, 30), (13, 13)] {
        let (a, b, c) = range(10, 10).split(l, r);
        let sum: i64 = [a, b, c].iter().flatten().map(|p| p.count).sum();
        assert_eq!(sum, 10);
    }
}

#[test]
fn split_at_the_ends_of_the_number_line() {
    let whole = range(i64::MAX - 4, 4);
    assert!(whole.is_valid());
    assert_eq!(whole.split(i64::MIN, i64::MAX), (None, Some(whole), None));
    assert_eq!(whole.split(i64::MIN, i64::MIN), (None, None, Some(whole)));
    assert_eq!(whole.split(i64::MAX, i64::MAX), (Some(whole), None, None));
    let low = range(i64::MIN, 3);
    assert_eq!(low.split(i64::MAX, i64::MAX), (Some(low), None, None));
}

#[test]
fn interval_validity() {
    assert!(range(0, 0).is_valid());
    assert!(range(i64::MAX, 0).is_valid());
    assert!(!range(i64::MAX, 1).is_valid());
    assert!(!range(5, -1).is_valid());
    assert!(range(i64::MIN, i64::MAX).is_valid());
}

#[test]
fn rule_validity() {
    assert!(rule(50, 98, 2).is_valid());
    assert!(!rule(50, 98, 0).is_valid());
    assert!(!rule(50, 98, -3).is_valid());
    assert!(!rule(i64::MAX, 0, 1).is_valid());
    assert!(!rule(0, i64::MAX, 1).is_valid());
    assert!(rule(i64::MAX - 1, i64::MIN, 1).is_valid());
}

#[test]
fn add_range_refuses_malformed_rule() {
    let mut map = AlmanacMap::new();
    assert_eq!(map.add_range(rule(1, 2, 0)), Err(AlmanacError::MalformedRule));
    assert_eq!(map.add_range(rule(1, 2, -1)), Err(AlmanacError::MalformedRule));
    assert_eq!(map.add_range(rule(i64::MAX, 2, 5)), Err(AlmanacError::MalformedRule));
    assert!(map.rules().is_empty());
    assert_eq!(map.add_range(rule(1, 2, 3)), Ok(()));
    assert_eq!(map.rules().as_slice(), &[rule(1, 2, 3)]);
}

#[test]
fn stage_without_rules_is_identity() {
    let input = vec![range(79, 14), range(55, 13), range(3, 0)];
    assert_eq!(AlmanacMap::new().apply(input.clone()), input);
}

#[test]
fn single_rule_without_overlap_leaves_interval() {
    let map = table(&[(50, 98, 2)]);
    assert_eq!(map.apply(vec![range(79, 14)]), vec![range(79, 14)]);
}

#[test]
fn single_rule_moves_the_overlap() {
    let map = table(&[(50, 98, 2)]);
    assert_eq!(map.apply(vec![range(97, 5)]), vec![range(50, 2), range(97, 1), range(100, 2)]);
}

#[test]
fn negative_offset_and_negative_numbers() {
    let map = table(&[(-10, -5, 10)]);
    assert_eq!(map.apply(vec![range(-7, 4)]), vec![range(-10, 2), range(-7, 2)]);
}

#[test]
fn first_rule_wins_where_domains_overlap() {
    let map = table(&[(100, 0, 10), (200, 5, 10)]);
    assert_eq!(map.apply(vec![range(0, 20)]), vec![range(100, 10), range(205, 5), range(15, 5)]);
    let swapped = table(&[(200, 5, 10), (100, 0, 10)]);
    assert_eq!(
        swapped.apply(vec![range(0, 20)]),
        vec![range(200, 10), range(100, 5), range(15, 5)]
    );
}

#[test]
fn moved_part_is_not_moved_again() {
    let map = table(&[(10, 0, 5), (50, 10, 5)]);
    assert_eq!(map.apply(vec![range(0, 5)]), vec![range(10, 5)]);
}

#[test]
fn output_order_is_moved_parts_by_rule_then_rest() {
    let map = table(&[(50, 98, 2), (52, 50, 48)]);
    let out = map.apply(vec![range(96, 6), range(40, 20)]);
    assert_eq!(
        out,
        vec![range(50, 2), range(98, 2), range(52, 10), range(100, 2), range(40, 10)]
    );
}

#[test]
fn apply_conserves_total_length() {
    let map = table(&[(50, 98, 2), (52, 50, 48), (0, 10, 15)]);
    let input = vec![range(79, 14), range(55, 13), range(0, 200), range(7, 0)];
    let out = map.apply(input.clone());
    assert_eq!(total(&out), total(&input));
    assert!(out.iter().all(|r| r.count > 0 && r.is_valid()));
}

#[test]
fn apply_drops_empty_intervals_when_a_rule_is_present() {
    let map = table(&[(50, 98, 2)]);
    assert_eq!(map.apply(vec![range(5, 0)]), vec![]);
}

#[test]
fn add_map_refuses_second_edge() {
    let mut almanac = Almanac::new();
    assert_eq!(almanac.add_map("a".to_string(), "b".to_string(), AlmanacMap::new()), Ok(()));
    assert_eq!(
        almanac.add_map("a".to_string(), "c".to_string(), AlmanacMap::new()),
        Err(AlmanacError::DuplicateEdge)
    );
    assert_eq!(almanac.next_category("a"), Some(&"b".to_string()));
}

#[test]
fn next_category_and_stage_for() {
    let mut almanac = Almanac::new();
    almanac.add_map("a".to_string(), "b".to_string(), table(&[(50, 98, 2)])).unwrap();
    assert_eq!(almanac.next_category("a").map(|s| s.as_str()), Some("b"));
    assert_eq!(almanac.next_category("b"), None);
    assert_eq!(almanac.stage_for("a", "b").unwrap().rules().as_slice(), &[rule(50, 98, 2)]);
    assert!(almanac.stage_for("a", "c").is_none());
    assert!(almanac.stage_for("b", "c").is_none());
}

#[test]
fn route_to_itself_takes_no_step() {
    let almanac = Almanac::new();
    assert_eq!(almanac.map("seed", "seed", range(1, 2)), Ok(vec![range(1, 2)]));
}

#[test]
fn route_through_two_stages_is_second_after_first() {
    let first = [(50, 98, 2), (52, 50, 48)];
    let second = [(0, 15, 37), (37, 52, 2), (39, 0, 15)];
    let mut almanac = Almanac::new();
    almanac.add_map("seed".to_string(), "soil".to_string(), table(&first)).unwrap();
    almanac.add_map("soil".to_string(), "fertilizer".to_string(), table(&second)).unwrap();
    for seed in [range(79, 14), range(55, 13), range(0, 120)] {
        let routed = almanac.map("seed", "fertilizer", seed).unwrap();
        let by_hand = table(&second).apply(table(&first).apply(vec![seed]));
        assert_eq!(routed, by_hand);
        let half = almanac.map("seed", "soil", seed).unwrap();
        assert_eq!(half, table(&first).apply(vec![seed]));
    }
}

#[test]
fn route_reports_missing_edge() {
    let mut almanac = Almanac::new();
    almanac.add_map("seed".to_string(), "soil".to_string(), AlmanacMap::new()).unwrap();
    assert_eq!(almanac.map("seed", "location", range(1, 1)), Err(AlmanacError::MissingEdge));
    assert_eq!(almanac.map("nowhere", "location", range(1, 1)), Err(AlmanacError::MissingEdge));
}

#[test]
fn route_reports_cycle() {
    let mut almanac = Almanac::new();
    almanac.add_map("a".to_string(), "b".to_string(), AlmanacMap::new()).unwrap();
    almanac.add_map("b".to_string(), "a".to_string(), AlmanacMap::new()).unwrap();
    assert_eq!(almanac.map("a", "z", range(1, 1)), Err(AlmanacError::CyclicChain));
    assert_eq!(almanac.map("a", "b", range(1, 1)), Ok(vec![range(1, 1)]));
    assert_eq!(almanac.map("b", "a", range(1, 1)), Ok(vec![range(1, 1)]));
}

#[test]
fn route_uses_every_edge_of_a_long_chain() {
    let mut almanac = Almanac::new();
    almanac.add_map("c".to_string(), "d".to_string(), table(&[(100, 0, 50)])).unwrap();
    almanac.add_map("a".to_string(), "b".to_string(), table(&[(1, 0, 10)])).unwrap();
    almanac.add_map("b".to_string(), "c".to_string(), table(&[(2, 1, 10)])).unwrap();
    assert_eq!(almanac.map("a", "d", range(0, 10)), Ok(vec![range(102, 10)]));
}

#[test]
fn lowest_start_of_intervals() {
    assert_eq!(lowest_start(&vec![]), None);
    assert_eq!(lowest_start(&vec![range(5, 1), range(-3, 2), range(9, 9)]), Some(-3));
    assert_eq!(lowest_start(&vec![range(7, 0)]), Some(7));
}

#[test]
fn parse_seed_ranges_pairs_numbers() {
    assert_eq!(parse_seed_ranges("seeds: 79 14 55 13"), Some(vec![range(79, 14), range(55, 13)]));
    assert_eq!(parse_seed_ranges("seeds: "), Some(vec![]));
    assert_eq!(parse_seed_ranges("seeds: 1  2 x 3 4"), Some(vec![range(1, 2), range(3, 4)]));
    assert_eq!(parse_seed_ranges("seeds: -5 +3"), Some(vec![range(-5, 3)]));
}

#[test]
fn parse_seed_ranges_refuses_bad_lists() {
    assert_eq!(parse_seed_ranges("seed: 79 14"), None);
    assert_eq!(parse_seed_ranges("seeds:79 14"), None);
    assert_eq!(parse_seed_ranges("seeds: 79 14 55"), None);
    assert_eq!(parse_seed_ranges("seeds: 79 -1"), None);
    assert_eq!(parse_seed_ranges("seeds: 9223372036854775807 1"), None);
    assert_eq!(parse_seed_ranges(""), None);
}

#[test]
fn parse_seed_ranges_passes_over_what_is_no_number() {
    assert_eq!(parse_seed_ranges("seeds: 79 14\n"), None);
    assert_eq!(parse_seed_ranges("seeds: 79 14 55 13\n"), None);
    assert_eq!(parse_seed_ranges("seeds: 79 14 99999999999999999999 7\n"), Some(vec![range(79, 14)]));
}

#[test]
fn parse_map_categories_reads_header() {
    assert_eq!(
        parse_map_categories("seed-to-soil map:\n50 98 2\n52 50 48"),
        Some(("seed".to_string(), "soil".to_string()))
    );
    assert_eq!(
        parse_map_categories("\n  a-b-c map:  \n"),
        Some(("a".to_string(), "c".to_string()))
    );
    assert_eq!(parse_map_categories("--  map:"), Some(("".to_string(), "".to_string())));
}

#[test]
fn parse_map_categories_refuses_bad_header() {
    assert_eq!(parse_map_categories("seed-to-soil map\n50 98 2"), None);
    assert_eq!(parse_map_categories("seed-soil map:"), None);
    assert_eq!(parse_map_categories("seed-to-soil-x map:"), None);
    assert_eq!(parse_map_categories(""), None);
    assert_eq!(parse_map_categories("seed to soil map:"), None);
}

#[test]
fn parse_map_ranges_reads_rules_destination_first() {
    let map = parse_map_ranges("seed-to-soil map:\n50 98 2\n52 50 48\n").unwrap();
    assert_eq!(map.rules().as_slice(), &[rule(50, 98, 2), rule(52, 50, 48)]);
    assert_eq!(map.rules()[0].src_start, 98);
    assert_eq!(map.rules()[0].dst_start, 50);
    let empty = parse_map_ranges("seed-to-soil map:").unwrap();
    assert!(empty.rules().is_empty());
    let no_header = parse_map_ranges("").unwrap();
    assert!(no_header.rules().is_empty());
}

#[test]
fn parse_map_ranges_refuses_malformed_lines() {
    for text in [
        "a-to-b map:\n50 98",
        "a-to-b map:\n50 98 2 7",
        "a-to-b map:\n50 98 2\n\n52 50 48",
        "a-to-b map:\n50 98 0",
        "a-to-b map:\n50 98 -2",
        "a-to-b map:\n50 98 x",
        "a-to-b map:\n50 98 2\r\n52 50 48",
        "a-to-b map:\n9223372036854775807 0 1",
    ] {
        assert_eq!(parse_map_ranges(text).err(), Some(AlmanacError::MalformedRule), "{:?}", text);
    }
}

#[test]
fn parse_almanac_reads_the_example() {
    let (seeds, almanac) = parse_almanac(EXAMPLE).unwrap();
    assert_eq!(seeds, vec![range(79, 14), range(55, 13)]);
    assert_eq!(almanac.next_category("seed").map(|s| s.as_str()), Some("soil"));
    assert_eq!(almanac.next_category("humidity").map(|s| s.as_str()), Some("location"));
    assert_eq!(almanac.next_category("location"), None);
    assert_eq!(
        almanac.stage_for("water", "light").unwrap().rules().as_slice(),
        &[rule(88, 18, 7), rule(18, 25, 70)]
    );
}

#[test]
fn parse_almanac_reports_errors() {
    assert_eq!(parse_almanac("hello").err(), Some(AlmanacError::MalformedSection));
    assert_eq!(parse_almanac("").err(), Some(AlmanacError::MalformedSection));
    assert_eq!(parse_almanac("seeds: 1 2\n\n").err(), Some(AlmanacError::MalformedSection));
    assert_eq!(parse_almanac("seeds: 1 2 3").err(), Some(AlmanacError::MalformedSeeds));
    assert_eq!(parse_almanac("a-b map:").err(), Some(AlmanacError::MalformedSection));
    assert_eq!(parse_almanac("a-to-b map:\n1 2").err(), Some(AlmanacError::MalformedRule));
    assert_eq!(
        parse_almanac("a-to-b map:\n1 2 3\n\na-to-c map:\n4 5 6").err(),
        Some(AlmanacError::DuplicateEdge)
    );
    assert_eq!(parse_almanac("\na-to-b map:\n1 2 3").err(), Some(AlmanacError::MalformedSection));
}

#[test]
fn parse_almanac_later_seeds_replace_earlier_ones() {
    let (seeds, _) = parse_almanac("seeds: 1 2\n\nseeds: 3 4").unwrap();
    assert_eq!(seeds, vec![range(3, 4)]);
}

#[test]
fn example_seed_to_soil() {
    let (_, almanac) = parse_almanac(EXAMPLE).unwrap();
    assert_eq!(almanac.map("seed", "soil", range(79, 14)), Ok(vec![range(81, 14)]));
    assert_eq!(almanac.map("seed", "soil", range(55, 13)), Ok(vec![range(57, 13)]));
}

#[test]
fn example_lowest_location_is_46() {
    let (seeds, almanac) = parse_almanac(EXAMPLE).unwrap();
    let routed = almanac.map_each("seed", "location", &seeds).unwrap();
    assert_eq!(lowest_start(&routed), Some(46));
    assert_eq!(total(&routed), 27);
}

#[test]
fn example_built_by_hand_gives_46() {
    let stages: [(&str, &str, Vec<(i64, i64, i64)>); 7] = [
        ("seed", "soil", vec![(50, 98, 2), (52, 50, 48)]),
        ("soil", "fertilizer", vec![(0, 15, 37), (37, 52, 2), (39, 0, 15)]),
        ("fertilizer", "water", vec![(49, 53, 8), (0, 11, 42), (42, 0, 7), (57, 7, 4)]),
        ("water", "light", vec![(88, 18, 7), (18, 25, 70)]),
        ("light", "temperature", vec![(45, 77, 23), (81, 45, 19), (68, 64, 13)]),
        ("temperature", "humidity", vec![(0, 69, 1), (1, 0, 69)]),
        ("humidity", "location", vec![(60, 56, 37), (56, 93, 4)]),
    ];
    let mut almanac = Almanac::new();
    for (src, dst, rules) in stages.iter() {
        almanac.add_map(src.to_string(), dst.to_string(), table(rules)).unwrap();
    }
    let mut all = Vec::new();
    for seed in [range(79, 14), range(55, 13)] {
        all.extend(almanac.map("seed", "location", seed).unwrap());
    }
    assert_eq!(all.iter().map(|r| r.start).min(), Some(46));
    assert_eq!(total(&all), 27);
}

#[test]
fn routing_together_and_one_by_one_give_the_same_intervals() {
    let (seeds, almanac) = parse_almanac(EXAMPLE).unwrap();
    let each = almanac.map_each("seed", "location", &seeds).unwrap();
    let together = almanac.map_all("seed", "location", seeds.clone()).unwrap();
    assert_eq!(sorted(each), sorted(together));
}

#[test]
fn example_single_seeds_reach_known_locations() {
    let (_, almanac) = parse_almanac(EXAMPLE).unwrap();
    for (seed, location) in [(79, 82), (14, 43), (55, 86), (13, 35), (82, 46)] {
        assert_eq!(almanac.map("seed", "location", range(seed, 1)), Ok(vec![range(location, 1)]));
    }
}

#[test]
fn apply_moves_each_integer_by_the_first_rule_that_holds_it() {
    let rules = [(100, 0, 10), (200, 5, 10), (-50, 12, 30), (7, 40, 3)];
    let map = table(&rules);
    let input = vec![range(-3, 20), range(10, 35), range(41, 1), range(60, 4)];
    let mut expected: Vec<i64> = Vec::new();
    for r in &input {
        for x in r.start..r.start + r.count {
            let moved = rules
                .iter()
                .find(|(_, src, count)| *src <= x && x < src + count)
                .map(|(dst, src, _)| x + dst - src)
                .unwrap_or(x);
            expected.push(moved);
        }
    }
    let mut got: Vec<i64> = Vec::new();
    for r in map.apply(input) {
        assert!(r.count > 0);
        got.extend(r.start..r.start + r.count);
    }
    expected.sort();
    got.sort();
    assert_eq!(got, expected);
}

#[test]
fn error_kinds() {
    assert!(AlmanacError::DuplicateEdge.is_configuration());
    assert!(AlmanacError::MissingEdge.is_configuration());
    assert!(AlmanacError::CyclicChain.is_configuration());
    assert!(!AlmanacError::MalformedRule.is_configuration());
    assert!(!AlmanacError::MalformedSection.is_configuration());
    assert!(!AlmanacError::MalformedSeeds.is_configuration());
}

#[test]
fn route_of_many_intervals_conserves_total_length() {
    let (_, almanac) = parse_almanac(EXAMPLE).unwrap();
    let seeds = vec![range(0, 100), range(50, 10), range(99, 1)];
    let routed = almanac.map_all("seed", "location", seeds.clone()).unwrap();
    assert_eq!(total(&routed), 111);
    assert!(routed.iter().all(|r| r.count > 0 && r.is_valid()));
}

#[test]
fn chain_length_counts_the_edges_on_the_way() {
    let (_, almanac) = parse_almanac(EXAMPLE).unwrap();
    assert_eq!(almanac.chain_length("seed", "location"), Ok(7));
    assert_eq!(almanac.chain_length("seed", "seed"), Ok(0));
    assert_eq!(almanac.chain_length("water", "humidity"), Ok(3));
    assert_eq!(almanac.chain_length("location", "seed"), Err(AlmanacError::MissingEdge));
    assert_eq!(almanac.chain_length("seed", "nowhere"), Err(AlmanacError::MissingEdge));
    assert_eq!(Almanac::new().chain_length("a", "b"), Err(AlmanacError::MissingEdge));
}

#[test]
fn chain_length_finds_a_circle() {
    let mut almanac = Almanac::new();
    almanac.add_map("a".to_string(), "b".to_string(), AlmanacMap::new()).unwrap();
    almanac.add_map("b".to_string(), "c".to_string(), AlmanacMap::new()).unwrap();
    almanac.add_map("c".to_string(), "a".to_string(), AlmanacMap::new()).unwrap();
    assert_eq!(almanac.chain_length("a", "z"), Err(AlmanacError::CyclicChain));
    assert_eq!(almanac.chain_length("a", "c"), Ok(2));
    assert_eq!(almanac.chain_length("c", "b"), Ok(2));
    let mut own = Almanac::new();
    own.add_map("a".to_string(), "a".to_string(), AlmanacMap::new()).unwrap();
    assert_eq!(own.chain_length("a", "b"), Err(AlmanacError::CyclicChain));
    assert_eq!(own.map("a", "b", range(1, 1)), Err(AlmanacError::CyclicChain));
}

#[test]
fn rule_translates_the_points_of_its_domain() {
    let r = rule(50, 98, 2);
    assert_eq!(r.map_point(97), None);
    assert_eq!(r.map_point(98), Some(50));
    assert_eq!(r.map_point(99), Some(51));
    assert_eq!(r.map_point(100), None);
    let down = rule(i64::MIN, i64::MAX - 3, 3);
    assert_eq!(down.map_point(i64::MAX - 1), Some(i64::MIN + 2));
    assert_eq!(down.map_point(i64::MAX), None);
    assert_eq!(down.map_point(i64::MIN), None);
}
