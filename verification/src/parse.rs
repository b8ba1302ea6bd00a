//! Reading an almanac from text: the list of seeds and the tables, one
//! section each, sections parted by an empty line.
use crate::chain::{Almanac, Successor};
use crate::error::AlmanacError;
use crate::range::AlmanacRange;
use crate::stage::{all_valid, AlmanacMap, AlmanacMapRange};
use crate::text::{
    chars_of, ends_with, has_prefix, has_suffix, numbers, numbers_of, slice_of, split,
    split_chars, split_on, split_on_chars, starts_with, string_of, trim, trim_chars, views,
};
use vstd::prelude::*;

verus! {

/// The intervals that the numbers `nums` give, taken two by two: a start and
/// a length.
pub open spec fn seed_pairs(nums: Seq<i64>) -> Seq<AlmanacRange> {
    Seq::new(
        nums.len() / 2,
        |i: int| AlmanacRange { start: nums[2 * i], count: nums[2 * i + 1] },
    )
}

/// The intervals that the section `value` lists, where it is a list of
/// seeds: the text `seeds: `, then the numbers, parted by single spaces.
/// What stands between two spaces and is no number is passed over. The
/// numbers come in pairs, a start and a length, and each pair is a valid
/// interval.
pub open spec fn seed_ranges_of(value: Seq<char>) -> Option<Seq<AlmanacRange>> {
    let nums = numbers(split(value.skip("seeds: "@.len() as int), ' '));
    if has_prefix(value, "seeds: "@) && nums.len() % 2 == 0 && all_valid(seed_pairs(nums)) {
        Some(seed_pairs(nums))
    } else {
        None
    }
}

/// The two categories that the header of the table `value` names: the
/// header is the first line of the section, it ends with ` map:`, and its
/// first word holds three names parted by `-`, of which the first is the
/// source and the third the destination.
pub open spec fn map_categories_of(value: Seq<char>) -> Option<(Seq<char>, Seq<char>)> {
    let header = split(trim(value), '\n')[0];
    let names = split(split(header, ' ')[0], '-');
    if has_suffix(header, " map:"@) && names.len() == 3 {
        Some((names[0], names[2]))
    } else {
        None
    }
}

/// The rule that the line `line` declares: three numbers, the start of the
/// image, the start of the domain and the length, which make a valid rule.
pub open spec fn rule_of(line: Seq<char>) -> Option<AlmanacMapRange> {
    let nums = numbers(split(line, ' '));
    let rule = AlmanacMapRange { src_start: nums[1], dst_start: nums[0], count: nums[2] };
    if nums.len() == 3 && rule.valid() {
        Some(rule)
    } else {
        None
    }
}

/// The rules that the lines `lines` declare, in order, where each of them
/// declares one.
pub open spec fn rules_of(lines: Seq<Seq<char>>) -> Option<Seq<AlmanacMapRange>>
    decreases lines.len(),
{
    if lines.len() == 0 {
        Some(Seq::empty())
    } else {
        match (rules_of(lines.drop_last()), rule_of(lines.last())) {
            (Some(rules), Some(rule)) => Some(rules.push(rule)),
            _ => None,
        }
    }
}

/// The rules of the table `value`: those that the lines after its header
/// declare.
pub open spec fn map_ranges_of(value: Seq<char>) -> Option<Seq<AlmanacMapRange>> {
    rules_of(split(trim(value), '\n').drop_first())
}

/// What has been read of an almanac: the seeds and the chain.
pub ghost struct Parsed {
    pub seeds: Seq<AlmanacRange>,
    pub chain: Map<Seq<char>, Successor>,
}

/// What the section `section` adds to what has been read.
///
/// A section that begins with `seeds: ` replaces the seeds. A section whose
/// first line ends with ` map:` adds the edge that its header names, with
/// the table that its lines declare. Anything else is an error.
pub open spec fn read_section(state: Parsed, section: Seq<char>) -> Result<Parsed, AlmanacError> {
    if has_prefix(section, "seeds: "@) {
        match seed_ranges_of(section) {
            Some(seeds) => Ok(Parsed { seeds, chain: state.chain }),
            None => Err(AlmanacError::MalformedSeeds),
        }
    } else if has_suffix(split(section, '\n')[0], " map:"@) {
        match map_categories_of(section) {
            None => Err(AlmanacError::MalformedSection),
            Some(names) => match map_ranges_of(section) {
                None => Err(AlmanacError::MalformedRule),
                Some(rules) => if state.chain.contains_key(names.0) {
                    Err(AlmanacError::DuplicateEdge)
                } else {
                    Ok(
                        Parsed {
                            seeds: state.seeds,
                            chain: state.chain.insert(names.0, Successor { next: names.1, rules }),
                        },
                    )
                },
            },
        }
    } else {
        Err(AlmanacError::MalformedSection)
    }
}

/// What the sections `sections`, read in order, add to what has been read.
/// The first error ends the reading.
pub open spec fn read_sections(state: Parsed, sections: Seq<Seq<char>>) -> Result<
    Parsed,
    AlmanacError,
>
    decreases sections.len(),
{
    if sections.len() == 0 {
        Ok(state)
    } else {
        match read_section(state, sections[0]) {
            Ok(next) => read_sections(next, sections.drop_first()),
            Err(e) => Err(e),
        }
    }
}

/// The almanac that the text `content` holds: its sections are parted by an
/// empty line.
pub open spec fn almanac_of(content: Seq<char>) -> Result<Parsed, AlmanacError> {
    read_sections(
        Parsed { seeds: Seq::empty(), chain: Map::empty() },
        split_on(content, "\n\n"@),
    )
}

/// One line that declares no rule leaves the lines without rules.
pub proof fn lemma_rules_of_fails(lines: Seq<Seq<char>>, k: int)
    requires
        0 <= k < lines.len(),
        rule_of(lines[k]) is None,
    ensures
        rules_of(lines) is None,
    decreases lines.len(),
{
    if k < lines.len() - 1 {
        assert(lines.drop_last()[k] == lines[k]);
        lemma_rules_of_fails(lines.drop_last(), k);
    }
}

/// Reads the list of seeds from the characters `value`.
#[verifier::loop_isolation(false)]
pub fn seed_ranges_in(value: &Vec<char>) -> (seeds: Option<Vec<AlmanacRange>>)
    ensures
        seeds is Some <==> seed_ranges_of(value@) is Some,
        seeds is Some ==> seeds->0@ == seed_ranges_of(value@)->0,
{
    let prefix = chars_of("seeds: ");
    if !starts_with(value, &prefix) {
        return None;
    }
    let rest = slice_of(value, prefix.len(), value.len());
    proof {
        assert(rest@ == value@.skip("seeds: "@.len() as int));
    }
    let tokens = split_chars(&rest, ' ');
    let nums = numbers_of(&tokens);
    if nums.len() % 2 != 0 {
        return None;
    }
    let mut seeds: Vec<AlmanacRange> = Vec::new();
    let mut i: usize = 0;
    while i < nums.len()
        invariant
            i <= nums.len(),
            i % 2 == 0,
            nums.len() % 2 == 0,
            seeds.len() == i / 2,
            all_valid(seeds@),
            forall|k: int| 0 <= k < seeds.len() ==> seeds@[k] == seed_pairs(nums@)[k],
        decreases nums.len() - i,
    {
        let seed = AlmanacRange { start: nums[i], count: nums[i + 1] };
        proof {
            assert(seed == seed_pairs(nums@)[i as int / 2]);
        }
        if !seed.is_valid() {
            return None;
        }
        seeds.push(seed);
        i += 2;
    }
    proof {
        assert(seeds@ =~= seed_pairs(nums@));
    }
    Some(seeds)
}

/// Reads the list of seeds from the section `value`. The result is `None`
/// where the section does not begin with `seeds: `, where the numbers do not
/// pair up, and where a pair is no valid interval.
pub fn parse_seed_ranges(value: &str) -> (seeds: Option<Vec<AlmanacRange>>)
    ensures
        seeds is Some <==> seed_ranges_of(value@) is Some,
        seeds is Some ==> seeds->0@ == seed_ranges_of(value@)->0,
        seeds is Some ==> all_valid(seeds->0@),
{
    let chars = chars_of(value);
    seed_ranges_in(&chars)
}

/// Reads the two categories from the header of the table `value`.
pub fn map_categories_in(value: &Vec<char>) -> (names: Option<(String, String)>)
    ensures
        match names {
            Some(pair) => map_categories_of(value@) == Some((pair.0@, pair.1@)),
            None => map_categories_of(value@) is None,
        },
{
    let trimmed = trim_chars(value);
    let lines = split_chars(&trimmed, '\n');
    let suffix = chars_of(" map:");
    assert(views(lines@)[0] == lines@[0]@);
    if !ends_with(&lines[0], &suffix) {
        return None;
    }
    let words = split_chars(&lines[0], ' ');
    assert(views(words@)[0] == words@[0]@);
    let tokens = split_chars(&words[0], '-');
    if tokens.len() != 3 {
        return None;
    }
    assert(views(tokens@)[0] == tokens@[0]@);
    assert(views(tokens@)[2] == tokens@[2]@);
    let src = string_of(&tokens[0]);
    let dst = string_of(&tokens[2]);
    Some((src, dst))
}

/// Reads the two categories from the header of the table `value`: the
/// source and the destination of the edge that the table belongs to. The
/// result is `None` where the first line does not end with ` map:` or its
/// first word does not hold three names.
pub fn parse_map_categories(value: &str) -> (names: Option<(String, String)>)
    ensures
        match names {
            Some(pair) => map_categories_of(value@) == Some((pair.0@, pair.1@)),
            None => map_categories_of(value@) is None,
        },
{
    let chars = chars_of(value);
    map_categories_in(&chars)
}

/// Reads one rule from the characters `line`.
pub fn rule_in(line: &Vec<char>) -> (rule: Option<AlmanacMapRange>)
    ensures
        rule == rule_of(line@),
{
    let tokens = split_chars(line, ' ');
    let nums = numbers_of(&tokens);
    if nums.len() != 3 {
        return None;
    }
    let rule = AlmanacMapRange { src_start: nums[1], dst_start: nums[0], count: nums[2] };
    if rule.is_valid() {
        Some(rule)
    } else {
        None
    }
}

/// Reads the rules of the table from the characters `value`.
#[verifier::loop_isolation(false)]
pub fn map_ranges_in(value: &Vec<char>) -> (table: Result<AlmanacMap, AlmanacError>)
    ensures
        table is Ok <==> map_ranges_of(value@) is Some,
        table is Ok ==> table->Ok_0@ == map_ranges_of(value@)->0,
        table is Err ==> table->Err_0 == AlmanacError::MalformedRule,
{
    let trimmed = trim_chars(value);
    let lines = split_chars(&trimmed, '\n');
    let ghost body = views(lines@).drop_first();
    let mut table = AlmanacMap::new();
    let mut i: usize = 1;
    proof {
        assert(body.take(0) == Seq::<Seq<char>>::empty());
    }
    while i < lines.len()
        invariant
            1 <= i <= lines.len(),
            body == views(lines@).drop_first(),
            rules_of(body.take(i - 1)) == Some(table@),
        decreases lines.len() - i,
    {
        proof {
            assert(body[i - 1] == lines@[i as int]@);
            assert(body.take(i as int).drop_last() == body.take(i - 1));
            assert(body.take(i as int).last() == lines@[i as int]@);
        }
        match rule_in(&lines[i]) {
            Some(rule) => {
                let added = table.add_range(rule);
                assert(added is Ok);
            },
            None => {
                proof {
                    lemma_rules_of_fails(body, i - 1);
                }
                return Err(AlmanacError::MalformedRule);
            },
        }
        i += 1;
    }
    proof {
        assert(body.take(lines.len() - 1) == body);
    }
    Ok(table)
}

/// Reads the rules of the table `value`, one from each line after the
/// header. The result is `MalformedRule` where a line does not hold exactly
/// three numbers or the rule that they declare is not valid.
pub fn parse_map_ranges(value: &str) -> (table: Result<AlmanacMap, AlmanacError>)
    ensures
        table is Ok <==> map_ranges_of(value@) is Some,
        table is Ok ==> table->Ok_0@ == map_ranges_of(value@)->0,
        table is Err ==> table->Err_0 == AlmanacError::MalformedRule,
{
    let chars = chars_of(value);
    map_ranges_in(&chars)
}

/// Reads an almanac from the text `content`: the seeds and the chain of
/// categories with the table of each edge. The first section that cannot be
/// read ends the reading with its error.
pub fn parse_almanac(content: &str) -> (read: Result<(Vec<AlmanacRange>, Almanac), AlmanacError>)
    ensures
        match read {
            Ok(pair) => almanac_of(content@) == Ok::<Parsed, AlmanacError>(
                Parsed { seeds: pair.0@, chain: pair.1@ },
            ) && all_valid(pair.0@),
            Err(e) => almanac_of(content@) == Err::<Parsed, AlmanacError>(e),
        },
{
    let chars = chars_of(content);
    let gap = chars_of("\n\n");
    let sections = split_on_chars(&chars, &gap);
    let seeds_mark = chars_of("seeds: ");
    let map_mark = chars_of(" map:");
    let mut seeds: Vec<AlmanacRange> = Vec::new();
    let mut almanac = Almanac::new();
    let mut i: usize = 0;
    proof {
        assert(views(sections@).skip(0) == views(sections@));
    }
    while i < sections.len()
        invariant
            i <= sections.len(),
            seeds_mark@ == "seeds: "@,
            map_mark@ == " map:"@,
            views(sections@) == split_on(content@, "\n\n"@),
            all_valid(seeds@),
            almanac_of(content@) == read_sections(
                Parsed { seeds: seeds@, chain: almanac@ },
                views(sections@).skip(i as int),
            ),
        decreases sections.len() - i,
    {
        let section = &sections[i];
        proof {
            assert(views(sections@).skip(i as int)[0] == section@);
            assert(views(sections@).skip(i as int).drop_first() == views(sections@).skip(i + 1));
        }
        if starts_with(section, &seeds_mark) {
            match seed_ranges_in(section) {
                Some(found) => {
                    seeds = found;
                },
                None => {
                    return Err(AlmanacError::MalformedSeeds);
                },
            }
        } else {
            let lines = split_chars(section, '\n');
            assert(views(lines@)[0] == lines@[0]@);
            if !ends_with(&lines[0], &map_mark) {
                return Err(AlmanacError::MalformedSection);
            }
            let (src, dst) = match map_categories_in(section) {
                Some(names) => names,
                None => {
                    return Err(AlmanacError::MalformedSection);
                },
            };
            let table = match map_ranges_in(section) {
                Ok(table) => table,
                Err(_) => {
                    return Err(AlmanacError::MalformedRule);
                },
            };
            match almanac.add_map(src, dst, table) {
                Ok(()) => {},
                Err(_) => {
                    return Err(AlmanacError::DuplicateEdge);
                },
            }
        }
        i += 1;
    }
    Ok((seeds, almanac))
}

} // verus!
