//! Text as sequences of characters: cutting it into pieces and reading
//! numbers from it.
use vstd::prelude::*;

verus! {

/// `String::push` of std appends one character to the end of the string and
/// leaves the characters before it as they were.
pub assume_specification[ String::push ](s: &mut String, c: char)
    ensures
        final(s)@ == old(s)@.push(c),
;

/// What each of the pieces `pieces` holds.
pub open spec fn views(pieces: Seq<Vec<char>>) -> Seq<Seq<char>> {
    Seq::new(pieces.len(), |i: int| pieces[i]@)
}

/// Whether `c` is white space: one of the characters with the Unicode
/// property `White_Space`.
pub open spec fn is_space(c: char) -> bool {
    let u = c as u32;
    ||| 0x09 <= u <= 0x0D
    ||| u == 0x20
    ||| u == 0x85
    ||| u == 0xA0
    ||| u == 0x1680
    ||| 0x2000 <= u <= 0x200A
    ||| u == 0x2028
    ||| u == 0x2029
    ||| u == 0x202F
    ||| u == 0x205F
    ||| u == 0x3000
}

/// `s` without the white space at its start.
pub open spec fn trim_start(s: Seq<char>) -> Seq<char>
    decreases s.len(),
{
    if s.len() > 0 && is_space(s[0]) {
        trim_start(s.drop_first())
    } else {
        s
    }
}

/// `s` without the white space at its end.
pub open spec fn trim_end(s: Seq<char>) -> Seq<char>
    decreases s.len(),
{
    if s.len() > 0 && is_space(s.last()) {
        trim_end(s.drop_last())
    } else {
        s
    }
}

/// `s` without the white space at its start and at its end.
pub open spec fn trim(s: Seq<char>) -> Seq<char> {
    trim_end(trim_start(s))
}

/// The pieces into which the separator `sep` cuts `s`: the stretches between
/// one `sep` and the next, in order. There is one piece more than there are
/// separators, and a piece between two separators in a row is empty. These
/// are the only pieces without `sep` that give `s` when they are joined.
pub open spec fn split(s: Seq<char>, sep: char) -> Seq<Seq<char>>
    decreases s.len(),
{
    if s.len() == 0 {
        seq![Seq::empty()]
    } else {
        let before = split(s.drop_last(), sep);
        if s.last() == sep {
            before.push(Seq::empty())
        } else {
            before.drop_last().push(before.last().push(s.last()))
        }
    }
}

/// The pieces `pieces` with the separator `sep` between each two of them.
pub open spec fn join(pieces: Seq<Seq<char>>, sep: char) -> Seq<char>
    decreases pieces.len(),
{
    if pieces.len() == 0 {
        Seq::empty()
    } else if pieces.len() == 1 {
        pieces[0]
    } else {
        join(pieces.drop_last(), sep) + seq![sep] + pieces.last()
    }
}

/// Whether none of the pieces `pieces` holds the separator `sep`.
pub open spec fn free_of(pieces: Seq<Seq<char>>, sep: char) -> bool {
    forall|i: int, k: int|
        0 <= i < pieces.len() && 0 <= k < pieces[i].len() ==> #[trigger] pieces[i][k] != sep
}

/// Cutting a text gives one piece at least, none of the pieces holds the
/// separator, and joined with the separator they give the text again.
pub proof fn lemma_split_joins(s: Seq<char>, sep: char)
    ensures
        split(s, sep).len() >= 1,
        free_of(split(s, sep), sep),
        join(split(s, sep), sep) == s,
    decreases s.len(),
{
    if s.len() == 0 {
        assert(join(split(s, sep), sep) == s);
    } else {
        let head = s.drop_last();
        let c = s.last();
        let before = split(head, sep);
        lemma_split_joins(head, sep);
        let after = split(s, sep);
        assert(s == head.push(c));
        if c == sep {
            assert(after.drop_last() == before);
            assert(join(after, sep) == join(before, sep) + seq![sep] + Seq::<char>::empty());
            assert(join(after, sep) =~= s);
            assert forall|i: int, k: int|
                0 <= i < after.len() && 0 <= k < after[i].len() implies #[trigger] after[i][k]
                != sep by {
                if i < before.len() {
                    assert(after[i] == before[i]);
                }
            }
        } else {
            let grown = before.last().push(c);
            assert(after == before.drop_last().push(grown));
            assert(after.drop_last() == before.drop_last());
            if before.len() == 1 {
                assert(join(before, sep) == before[0]);
                assert(join(after, sep) == grown);
            } else {
                assert(join(after, sep) == join(before.drop_last(), sep) + seq![sep] + grown);
                assert(join(before, sep) == join(before.drop_last(), sep) + seq![sep]
                    + before.last());
                assert(join(after, sep) =~= join(before, sep).push(c));
            }
            assert(join(after, sep) =~= s);
            assert forall|i: int, k: int|
                0 <= i < after.len() && 0 <= k < after[i].len() implies #[trigger] after[i][k]
                != sep by {
                if i < before.len() - 1 {
                    assert(after[i] == before[i]);
                } else if k < before.last().len() {
                    assert(after[i][k] == before[before.len() - 1][k]);
                }
            }
        }
    }
}

/// Pieces that do not hold the separator are what cutting finds in their
/// join: a text can be cut in one way only.
pub proof fn lemma_split_of_join(pieces: Seq<Seq<char>>, sep: char)
    requires
        pieces.len() >= 1,
        free_of(pieces, sep),
    ensures
        split(join(pieces, sep), sep) == pieces,
    decreases pieces.len(), pieces.last().len(),
{
    let text = join(pieces, sep);
    let last = pieces.last();
    if last.len() > 0 {
        let shorter = pieces.drop_last().push(last.drop_last());
        let c = last.last();
        assert(pieces[pieces.len() - 1][last.len() - 1] != sep);
        assert forall|i: int, k: int|
            0 <= i < shorter.len() && 0 <= k < shorter[i].len() implies #[trigger] shorter[i][k]
            != sep by {
            if i < pieces.len() - 1 {
                assert(shorter[i] == pieces[i]);
            } else {
                assert(shorter[i][k] == pieces[pieces.len() - 1][k]);
            }
        }
        lemma_split_of_join(shorter, sep);
        assert(shorter.drop_last() == pieces.drop_last());
        if pieces.len() == 1 {
            assert(join(shorter, sep) == last.drop_last());
            assert(text == last);
        } else {
            assert(join(shorter, sep) == join(pieces.drop_last(), sep) + seq![sep]
                + last.drop_last());
            assert(text == join(pieces.drop_last(), sep) + seq![sep] + last);
        }
        assert(text =~= join(shorter, sep).push(c));
        assert(text.drop_last() == join(shorter, sep));
        assert(text.last() == c);
        assert(shorter.last().push(c) =~= last);
        assert(shorter.drop_last().push(shorter.last().push(c)) =~= pieces);
    } else if pieces.len() == 1 {
        assert(text =~= Seq::<char>::empty());
        assert(pieces =~= seq![Seq::<char>::empty()]);
    } else {
        let head = pieces.drop_last();
        assert forall|i: int, k: int|
            0 <= i < head.len() && 0 <= k < head[i].len() implies #[trigger] head[i][k] != sep by {
            assert(head[i] == pieces[i]);
        }
        lemma_split_of_join(head, sep);
        assert(text =~= join(head, sep).push(sep));
        assert(text.drop_last() == join(head, sep));
        assert(last =~= Seq::<char>::empty());
        assert(head.push(Seq::<char>::empty()) =~= pieces);
    }
}

/// Whether `s` begins with `prefix`.
pub open spec fn has_prefix(s: Seq<char>, prefix: Seq<char>) -> bool {
    prefix.len() <= s.len() && s.take(prefix.len() as int) == prefix
}

/// Whether `s` ends with `suffix`.
pub open spec fn has_suffix(s: Seq<char>, suffix: Seq<char>) -> bool {
    suffix.len() <= s.len() && s.skip(s.len() - suffix.len()) == suffix
}

/// Where `pattern` first stands in `s` at or after `from`, if it does.
pub open spec fn first_occurrence(s: Seq<char>, pattern: Seq<char>, from: int) -> Option<int>
    decreases s.len() + 1 - from,
{
    if from < 0 || from + pattern.len() > s.len() {
        None
    } else if s.subrange(from, from + pattern.len()) == pattern {
        Some(from)
    } else {
        first_occurrence(s, pattern, from + 1)
    }
}

/// The pieces into which the occurrences of `pattern` cut `s`, found from
/// the left, none of them overlapping the one before it. An empty pattern
/// cuts nothing.
pub open spec fn split_on(s: Seq<char>, pattern: Seq<char>) -> Seq<Seq<char>>
    decreases s.len(),
{
    match first_occurrence(s, pattern, 0) {
        Some(i) => {
            if pattern.len() > 0 && 0 <= i && i + pattern.len() <= s.len() {
                seq![s.take(i)] + split_on(s.skip(i + pattern.len()), pattern)
            } else {
                seq![s]
            }
        },
        None => seq![s],
    }
}

/// Whether `c` is one of the ten decimal digits.
pub open spec fn is_digit(c: char) -> bool {
    '0' <= c <= '9'
}

/// Whether `s` holds decimal digits only.
pub open spec fn all_digits(s: Seq<char>) -> bool {
    forall|i: int| 0 <= i < s.len() ==> is_digit(#[trigger] s[i])
}

/// The number that the decimal digits `s` write.
pub open spec fn digits_value(s: Seq<char>) -> int
    decreases s.len(),
{
    if s.len() == 0 {
        0
    } else {
        10 * digits_value(s.drop_last()) + (s.last() as u32 - '0' as u32)
    }
}

/// The integer that `s` writes in decimal, as `i64::from_str` of std reads
/// it: an optional sign `+` or `-`, then one digit at least and nothing
/// else, the value within the range of `i64`. Any other text is no number.
pub open spec fn parse_i64(s: Seq<char>) -> Option<i64> {
    let signed = s.len() > 0 && (s[0] == '-' || s[0] == '+');
    let digits = if signed {
        s.drop_first()
    } else {
        s
    };
    let value = if signed && s[0] == '-' {
        -digits_value(digits)
    } else {
        digits_value(digits)
    };
    if digits.len() > 0 && all_digits(digits) && i64::MIN <= value <= i64::MAX {
        Some(value as i64)
    } else {
        None
    }
}

/// The numbers among `tokens`, in order: what is no number is passed over.
pub open spec fn numbers(tokens: Seq<Seq<char>>) -> Seq<i64>
    decreases tokens.len(),
{
    if tokens.len() == 0 {
        Seq::empty()
    } else {
        match parse_i64(tokens.last()) {
            Some(n) => numbers(tokens.drop_last()).push(n),
            None => numbers(tokens.drop_last()),
        }
    }
}

/// The characters of `s`, in order.
pub fn chars_of(s: &str) -> (chars: Vec<char>)
    ensures
        chars@ == s@,
{
    let mut chars: Vec<char> = Vec::new();
    for c in it: s.chars()
        invariant
            chars@ == it.seq().take(it.index()),
            it.seq() == s@,
    {
        chars.push(c);
    }
    chars
}

/// The string that holds the characters `chars`, in order.
pub fn string_of(chars: &Vec<char>) -> (s: String)
    ensures
        s@ == chars@,
{
    let mut s = String::new();
    let mut i: usize = 0;
    while i < chars.len()
        invariant
            i <= chars.len(),
            s@ == chars@.take(i as int),
        decreases chars.len() - i,
    {
        s.push(chars[i]);
        proof {
            assert(chars@.take(i + 1) == chars@.take(i as int).push(chars@[i as int]));
        }
        i += 1;
    }
    proof {
        assert(chars@.take(chars.len() as int) == chars@);
    }
    s
}

/// The characters of `chars` from place `from` up to place `to`.
pub fn slice_of(chars: &Vec<char>, from: usize, to: usize) -> (piece: Vec<char>)
    requires
        from <= to <= chars.len(),
    ensures
        piece@ == chars@.subrange(from as int, to as int),
{
    let mut piece: Vec<char> = Vec::new();
    let mut i: usize = from;
    while i < to
        invariant
            from <= i <= to,
            to <= chars.len(),
            piece@ == chars@.subrange(from as int, i as int),
        decreases to - i,
    {
        piece.push(chars[i]);
        proof {
            assert(chars@.subrange(from as int, i + 1) == chars@.subrange(
                from as int,
                i as int,
            ).push(chars@[i as int]));
        }
        i += 1;
    }
    piece
}

/// Tests `is_space` at run time.
pub fn is_space_char(c: char) -> (space: bool)
    ensures
        space == is_space(c),
{
    let u: u32 = c as u32;
    (0x09 <= u && u <= 0x0D) || u == 0x20 || u == 0x85 || u == 0xA0 || u == 0x1680 || (0x2000 <= u
        && u <= 0x200A) || u == 0x2028 || u == 0x2029 || u == 0x202F || u == 0x205F || u == 0x3000
}

/// `chars` without the white space at its start and at its end.
pub fn trim_chars(chars: &Vec<char>) -> (trimmed: Vec<char>)
    ensures
        trimmed@ == trim(chars@),
{
    let n: usize = chars.len();
    let mut i: usize = 0;
    proof {
        assert(chars@.skip(0) == chars@);
    }
    while i < n && is_space_char(chars[i])
        invariant
            i <= n,
            n == chars.len(),
            trim_start(chars@) == trim_start(chars@.skip(i as int)),
        decreases n - i,
    {
        proof {
            assert(chars@.skip(i as int).drop_first() == chars@.skip(i + 1));
        }
        i += 1;
    }
    let mut j: usize = n;
    proof {
        assert(chars@.skip(i as int) == chars@.subrange(i as int, n as int));
    }
    while j > i && is_space_char(chars[j - 1])
        invariant
            i <= j <= n,
            n == chars.len(),
            trim(chars@) == trim_end(chars@.subrange(i as int, j as int)),
        decreases j - i,
    {
        proof {
            assert(chars@.subrange(i as int, j as int).drop_last() == chars@.subrange(
                i as int,
                j - 1,
            ));
        }
        j -= 1;
    }
    slice_of(chars, i, j)
}

/// What a piece added to `pieces` adds to what they hold.
pub proof fn lemma_views_push(pieces: Seq<Vec<char>>, piece: Vec<char>)
    ensures
        views(pieces.push(piece)) == views(pieces).push(piece@),
{
    assert(views(pieces.push(piece)) =~= views(pieces).push(piece@));
}

/// The pieces into which the separator `sep` cuts `chars`.
pub fn split_chars(chars: &Vec<char>, sep: char) -> (pieces: Vec<Vec<char>>)
    ensures
        views(pieces@) == split(chars@, sep),
        pieces.len() >= 1,
{
    let mut pieces: Vec<Vec<char>> = Vec::new();
    let mut current: Vec<char> = Vec::new();
    let mut i: usize = 0;
    proof {
        assert(chars@.take(0) == Seq::<char>::empty());
        assert(views(pieces@).push(current@) =~= seq![Seq::<char>::empty()]);
    }
    while i < chars.len()
        invariant
            i <= chars.len(),
            split(chars@.take(i as int), sep) == views(pieces@).push(current@),
        decreases chars.len() - i,
    {
        let c: char = chars[i];
        proof {
            assert(chars@.take(i + 1).drop_last() == chars@.take(i as int));
            assert(chars@.take(i + 1).last() == c);
            let before = views(pieces@).push(current@);
            assert(before.drop_last() == views(pieces@));
        }
        if c == sep {
            proof {
                lemma_views_push(pieces@, current);
            }
            pieces.push(current);
            current = Vec::new();
        } else {
            current.push(c);
        }
        i += 1;
    }
    proof {
        assert(chars@.take(chars.len() as int) == chars@);
        lemma_views_push(pieces@, current);
    }
    pieces.push(current);
    pieces
}

/// Whether `chars` begins with `prefix`.
pub fn starts_with(chars: &Vec<char>, prefix: &Vec<char>) -> (found: bool)
    ensures
        found == has_prefix(chars@, prefix@),
{
    if prefix.len() > chars.len() {
        return false;
    }
    occurs_at(chars, prefix, 0)
}

/// Whether `chars` ends with `suffix`.
pub fn ends_with(chars: &Vec<char>, suffix: &Vec<char>) -> (found: bool)
    ensures
        found == has_suffix(chars@, suffix@),
{
    if suffix.len() > chars.len() {
        return false;
    }
    let found = occurs_at(chars, suffix, chars.len() - suffix.len());
    proof {
        assert(chars@.skip(chars.len() - suffix.len()) == chars@.subrange(
            chars.len() - suffix.len(),
            chars.len() as int,
        ));
    }
    found
}

/// Whether `pattern` stands in `chars` at place `at`.
pub fn occurs_at(chars: &Vec<char>, pattern: &Vec<char>, at: usize) -> (found: bool)
    requires
        at + pattern.len() <= chars.len(),
    ensures
        found == (chars@.subrange(at as int, at + pattern.len()) == pattern@),
{
    let mut k: usize = 0;
    while k < pattern.len()
        invariant
            k <= pattern.len(),
            at + pattern.len() <= chars.len(),
            chars@.subrange(at as int, at + k) == pattern@.take(k as int),
        decreases pattern.len() - k,
    {
        if chars[at + k] != pattern[k] {
            proof {
                assert(chars@.subrange(at as int, at + pattern.len())[k as int] != pattern@[k as int]);
            }
            return false;
        }
        proof {
            assert(chars@.subrange(at as int, at + k + 1) =~= chars@.subrange(
                at as int,
                at + k,
            ).push(chars@[at + k]));
            assert(pattern@.take(k + 1) =~= pattern@.take(k as int).push(pattern@[k as int]));
        }
        k += 1;
    }
    proof {
        assert(pattern@.take(pattern.len() as int) == pattern@);
    }
    true
}

/// The digits that have been read so far write no more than all of them.
pub proof fn lemma_digits_value_grows(s: Seq<char>, k: int)
    requires
        all_digits(s),
        0 <= k <= s.len(),
    ensures
        0 <= digits_value(s.take(k)) <= digits_value(s),
    decreases s.len() - k,
{
    lemma_digits_value_nonnegative(s.take(k));
    if k < s.len() {
        assert(s.take(k + 1).drop_last() == s.take(k));
        assert(is_digit(s[k]));
        lemma_digits_value_grows(s, k + 1);
    } else {
        assert(s.take(k) == s);
    }
}

/// Digits write no negative number.
pub proof fn lemma_digits_value_nonnegative(s: Seq<char>)
    requires
        all_digits(s),
    ensures
        0 <= digits_value(s),
    decreases s.len(),
{
    if s.len() > 0 {
        assert(is_digit(s.last()));
        lemma_digits_value_nonnegative(s.drop_last());
    }
}

/// Reads `chars` as an integer in decimal.
pub fn parse_i64_chars(chars: &Vec<char>) -> (number: Option<i64>)
    ensures
        number == parse_i64(chars@),
{
    let n: usize = chars.len();
    if n == 0 {
        return None;
    }
    let negative: bool = chars[0] == '-';
    let first: usize = if chars[0] == '-' || chars[0] == '+' {
        1
    } else {
        0
    };
    if first == n {
        return None;
    }
    let ghost digits = chars@.skip(first as int);
    let mut acc: i128 = 0;
    let mut i: usize = first;
    proof {
        assert(digits.take(0) == Seq::<char>::empty());
        assert(chars@.skip(0) == chars@);
        assert(chars@.skip(1) == chars@.drop_first());
    }
    while i < n
        invariant
            first <= i <= n,
            first < n,
            n == chars.len(),
            negative == (chars@[0] == '-'),
            first == 1 ==> (chars@[0] == '-' || chars@[0] == '+') && digits == chars@.drop_first(),
            first != 1 ==> !(chars@[0] == '-' || chars@[0] == '+') && digits == chars@,
            digits == chars@.skip(first as int),
            all_digits(digits.take(i - first)),
            acc == digits_value(digits.take(i - first)),
            0 <= acc <= 0x8000_0000_0000_0000,
        decreases n - i,
    {
        let c: char = chars[i];
        proof {
            assert(digits[i - first] == c);
            assert(digits.take(i - first + 1).drop_last() == digits.take(i - first));
            assert(digits.take(i - first + 1).last() == c);
        }
        if !(c >= '0' && c <= '9') {
            return None;
        }
        let d: i128 = (c as u32 - '0' as u32) as i128;
        acc = acc * 10 + d;
        proof {
            assert forall|k: int| 0 <= k < i - first + 1 implies is_digit(
                #[trigger] digits.take(i - first + 1)[k],
            ) by {
                if k < i - first {
                    assert(digits.take(i - first)[k] == digits.take(i - first + 1)[k]);
                }
            }
        }
        if acc > 0x8000_0000_0000_0000 {
            proof {
                if all_digits(digits) {
                    lemma_digits_value_grows(digits, i - first + 1);
                }
            }
            return None;
        }
        i += 1;
    }
    proof {
        assert(digits.take(n - first) == digits);
    }
    if negative {
        Some((0 - acc) as i64)
    } else if acc > 0x7fff_ffff_ffff_ffff {
        None
    } else {
        Some(acc as i64)
    }
}

/// The numbers among `tokens`, in order.
pub fn numbers_of(tokens: &Vec<Vec<char>>) -> (found: Vec<i64>)
    ensures
        found@ == numbers(views(tokens@)),
{
    let mut found: Vec<i64> = Vec::new();
    let mut i: usize = 0;
    proof {
        assert(views(tokens@).take(0) == Seq::<Seq<char>>::empty());
    }
    while i < tokens.len()
        invariant
            i <= tokens.len(),
            found@ == numbers(views(tokens@).take(i as int)),
        decreases tokens.len() - i,
    {
        proof {
            assert(views(tokens@).take(i + 1).drop_last() == views(tokens@).take(i as int));
            assert(views(tokens@).take(i + 1).last() == tokens@[i as int]@);
        }
        match parse_i64_chars(&tokens[i]) {
            Some(n) => {
                found.push(n);
            },
            None => {},
        }
        i += 1;
    }
    proof {
        assert(views(tokens@).take(tokens.len() as int) == views(tokens@));
    }
    found
}

/// Where `pattern` first stands in `chars` at or after `from`, if it does.
pub fn find_from(chars: &Vec<char>, pattern: &Vec<char>, from: usize) -> (place: Option<usize>)
    requires
        from <= chars.len(),
    ensures
        match place {
            Some(i) => first_occurrence(chars@, pattern@, from as int) == Some(i as int) && from
                <= i && i + pattern.len() <= chars.len(),
            None => first_occurrence(chars@, pattern@, from as int) is None,
        },
{
    if pattern.len() > chars.len() {
        return None;
    }
    let last: usize = chars.len() - pattern.len();
    let mut i: usize = from;
    while i <= last
        invariant
            from <= i,
            last == chars.len() - pattern.len(),
            first_occurrence(chars@, pattern@, from as int) == first_occurrence(
                chars@,
                pattern@,
                i as int,
            ),
        decreases last - i,
    {
        if occurs_at(chars, pattern, i) {
            return Some(i);
        }
        if i == last {
            return None;
        }
        i += 1;
    }
    None
}

/// What `s` holds from place `from` on is what `s` without its first `from`
/// characters holds, and `pattern` stands in the one where it stands in the
/// other, `from` places further on.
pub proof fn lemma_first_occurrence_skip(s: Seq<char>, pattern: Seq<char>, from: int, at: int)
    requires
        0 <= from <= at,
        from <= s.len(),
    ensures
        first_occurrence(s.skip(from), pattern, at - from) == match first_occurrence(
            s,
            pattern,
            at,
        ) {
            Some(i) => Some(i - from),
            None => None,
        },
    decreases s.len() + 1 - at,
{
    if at + pattern.len() <= s.len() {
        assert(s.skip(from).subrange(at - from, at - from + pattern.len()) == s.subrange(
            at,
            at + pattern.len(),
        ));
        if s.subrange(at, at + pattern.len()) != pattern {
            lemma_first_occurrence_skip(s, pattern, from, at + 1);
        }
    }
}

/// The pieces into which the occurrences of `pattern` cut `chars`.
pub fn split_on_chars(chars: &Vec<char>, pattern: &Vec<char>) -> (pieces: Vec<Vec<char>>)
    ensures
        views(pieces@) == split_on(chars@, pattern@),
        pieces.len() >= 1,
{
    let mut pieces: Vec<Vec<char>> = Vec::new();
    let mut start: usize = 0;
    let mut done: bool = false;
    proof {
        assert(chars@.skip(0) == chars@);
        assert(views(pieces@) + split_on(chars@, pattern@) =~= split_on(chars@, pattern@));
    }
    while !done
        invariant
            start <= chars.len(),
            !done ==> views(pieces@) + split_on(chars@.skip(start as int), pattern@) == split_on(
                chars@,
                pattern@,
            ),
            done ==> views(pieces@) == split_on(chars@, pattern@) && pieces.len() >= 1,
        decreases chars.len() - start, !done as int,
    {
        let ghost rest = chars@.skip(start as int);
        let found = if pattern.len() == 0 {
            None
        } else {
            find_from(chars, pattern, start)
        };
        proof {
            lemma_first_occurrence_skip(chars@, pattern@, start as int, start as int);
        }
        match found {
            Some(i) => {
                let piece = slice_of(chars, start, i);
                proof {
                    lemma_views_push(pieces@, piece);
                    assert(rest.take(i - start) == chars@.subrange(start as int, i as int));
                    assert(rest.skip(i - start + pattern.len()) == chars@.skip(i + pattern.len()));
                    assert(views(pieces@).push(piece@) + split_on(
                        chars@.skip(i + pattern.len()),
                        pattern@,
                    ) =~= views(pieces@) + (seq![piece@] + split_on(
                        chars@.skip(i + pattern.len()),
                        pattern@,
                    )));
                }
                pieces.push(piece);
                start = i + pattern.len();
            },
            None => {
                let piece = slice_of(chars, start, chars.len());
                proof {
                    lemma_views_push(pieces@, piece);
                    assert(rest == chars@.subrange(start as int, chars.len() as int));
                    assert(views(pieces@).push(piece@) =~= views(pieces@) + seq![piece@]);
                }
                pieces.push(piece);
                done = true;
            },
        }
    }
    pieces
}

} // verus!
