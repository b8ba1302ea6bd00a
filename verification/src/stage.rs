//! One translation table and its application to a collection of intervals.
use crate::error::AlmanacError;
use crate::range::AlmanacRange;
use vstd::prelude::*;

verus! {

/// One entry of a translation table: the integers of
/// `[src_start, src_start + count)` are moved, by a constant offset, onto
/// `[dst_start, dst_start + count)`.
#[derive(Clone, Copy, Debug, PartialEq, Eq, Structural)]
pub struct AlmanacMapRange {
    pub src_start: i64,
    pub dst_start: i64,
    pub count: i64,
}

impl AlmanacMapRange {
    /// The first integer past the rule's domain.
    pub open spec fn src_end(self) -> int {
        self.src_start + self.count
    }

    /// What the rule adds to an integer of its domain.
    pub open spec fn offset(self) -> int {
        self.dst_start - self.src_start
    }

    /// Whether the integer `x` lies in the rule's domain.
    pub open spec fn covers(self, x: int) -> bool {
        self.src_start <= x < self.src_end()
    }

    /// Where the rule sends an integer of its domain.
    pub open spec fn translate(self, x: int) -> int {
        x + self.offset()
    }

    /// A rule is valid when its length is positive and the ends of its domain
    /// and of its image can be held in an `i64`.
    pub open spec fn valid(self) -> bool {
        &&& 0 < self.count
        &&& self.src_start + self.count <= i64::MAX
        &&& self.dst_start + self.count <= i64::MAX
    }

    /// Tests `valid` at run time.
    pub fn is_valid(&self) -> (ok: bool)
        ensures
            ok == self.valid(),
    {
        self.count > 0 && self.src_start <= i64::MAX - self.count && self.dst_start <= i64::MAX
            - self.count
    }

    /// Where the rule sends the integer `point`: its translation where it
    /// lies in the rule's domain, and `None` where it does not.
    pub fn map_point(&self, point: i64) -> (moved: Option<i64>)
        requires
            self.valid(),
        ensures
            moved == (if self.covers(point as int) {
                Some(self.translate(point as int) as i64)
            } else {
                None::<i64>
            }),
    {
        if self.src_start <= point && point < self.src_start + self.count {
            Some(self.dst_start + (point - self.src_start))
        } else {
            None
        }
    }

    /// The image of the part of `r` that lies in the rule's domain, or `None`
    /// where `r` does not meet the domain.
    pub open spec fn image(self, r: AlmanacRange) -> Option<AlmanacRange> {
        match r.clip(self.src_start as int, self.src_end()) {
            Some(c) => Some(
                AlmanacRange { start: self.translate(c.start as int) as i64, count: c.count },
            ),
            None => None,
        }
    }

    /// What the rule translates of the intervals `pending`: the images of
    /// their parts inside the domain, in the order of `pending`.
    pub open spec fn mapped(self, pending: Seq<AlmanacRange>) -> Seq<AlmanacRange>
        decreases pending.len(),
    {
        if pending.len() == 0 {
            Seq::empty()
        } else {
            self.mapped(pending.drop_last()) + present(self.image(pending.last()))
        }
    }

    /// What the rule leaves of the intervals `pending`: for each of them, in
    /// order, its part before the domain and then its part after it.
    pub open spec fn unmapped(self, pending: Seq<AlmanacRange>) -> Seq<AlmanacRange>
        decreases pending.len(),
    {
        if pending.len() == 0 {
            Seq::empty()
        } else {
            self.unmapped(pending.drop_last()) + present(
                pending.last().before(self.src_start as int),
            ) + present(pending.last().after(self.src_end()))
        }
    }
}

/// The parts that are there, as a sequence: one item for `Some`, none for
/// `None`.
pub open spec fn present(part: Option<AlmanacRange>) -> Seq<AlmanacRange> {
    match part {
        Some(r) => seq![r],
        None => Seq::empty(),
    }
}

/// What a table with the rules `rules` makes of the intervals `pending`.
///
/// The first rule translates what lies in its domain; what it leaves is
/// handed to the rules after it. What no rule translates comes last,
/// unchanged. So an integer is moved by the first rule whose domain holds it,
/// and by no other.
pub open spec fn apply_rules(rules: Seq<AlmanacMapRange>, pending: Seq<AlmanacRange>) -> Seq<
    AlmanacRange,
>
    decreases rules.len(),
{
    if rules.len() == 0 {
        pending
    } else {
        rules[0].mapped(pending) + apply_rules(rules.drop_first(), rules[0].unmapped(pending))
    }
}

/// Whether every interval of `ranges` is valid.
pub open spec fn all_valid(ranges: Seq<AlmanacRange>) -> bool {
    forall|i: int| 0 <= i < ranges.len() ==> (#[trigger] ranges[i]).valid()
}

/// Whether every interval of `ranges` holds at least one integer.
pub open spec fn all_nonempty(ranges: Seq<AlmanacRange>) -> bool {
    forall|i: int| 0 <= i < ranges.len() ==> (#[trigger] ranges[i]).count > 0
}

/// Whether every rule of `rules` is valid.
pub open spec fn all_rules_valid(rules: Seq<AlmanacMapRange>) -> bool {
    forall|i: int| 0 <= i < rules.len() ==> (#[trigger] rules[i]).valid()
}

/// The sum of the lengths of the intervals `ranges`.
pub open spec fn total_count(ranges: Seq<AlmanacRange>) -> int
    decreases ranges.len(),
{
    if ranges.len() == 0 {
        0
    } else {
        total_count(ranges.drop_last()) + ranges.last().count
    }
}

/// A translation table: rules in the order in which they were declared.
pub struct AlmanacMap {
    ranges: Vec<AlmanacMapRange>,
}

impl View for AlmanacMap {
    type V = Seq<AlmanacMapRange>;

    closed spec fn view(&self) -> Seq<AlmanacMapRange> {
        self.ranges@
    }
}

impl AlmanacMap {
    #[verifier::type_invariant]
    spec fn rules_valid(self) -> bool {
        all_rules_valid(self.ranges@)
    }

    /// A table without rules.
    pub fn new() -> (table: Self)
        ensures
            table@ == Seq::<AlmanacMapRange>::empty(),
    {
        Self { ranges: Vec::new() }
    }

    /// The rules of the table, in the order of their declaration. Each of
    /// them is valid.
    pub fn rules(&self) -> (rules: &Vec<AlmanacMapRange>)
        ensures
            rules@ == self@,
            all_rules_valid(rules@),
    {
        proof {
            use_type_invariant(&*self);
        }
        &self.ranges
    }

    /// Appends `rule` to the table. A rule that is not valid is refused, and
    /// the table stays as it was.
    pub fn add_range(&mut self, rule: AlmanacMapRange) -> (added: Result<(), AlmanacError>)
        ensures
            added is Ok <==> rule.valid(),
            added is Ok ==> final(self)@ == old(self)@.push(rule),
            added is Err ==> added == Err::<(), AlmanacError>(AlmanacError::MalformedRule)
                && final(self)@ == old(self)@,
    {
        proof {
            use_type_invariant(&*self);
        }
        if !rule.is_valid() {
            return Err(AlmanacError::MalformedRule);
        }
        let mut rules: Vec<AlmanacMapRange> = Vec::new();
        std::mem::swap(&mut rules, &mut self.ranges);
        rules.push(rule);
        self.ranges = rules;
        Ok(())
    }

    /// Translates the intervals `src_ranges` through the table.
    ///
    /// The rules take their turn in the order of their declaration. Each
    /// cuts the intervals that are still pending by its domain, moves the
    /// parts inside it to the result and leaves the parts outside for the
    /// rules that follow. What no rule has moved ends the result, unchanged.
    ///
    /// The intervals of the result are valid, and their lengths add up to
    /// the lengths of those that were given. None of them is empty, unless
    /// the table has no rule and was given an empty interval.
    pub fn apply(&self, src_ranges: Vec<AlmanacRange>) -> (dst_ranges: Vec<AlmanacRange>)
        requires
            all_valid(src_ranges@),
        ensures
            dst_ranges@ == apply_rules(self@, src_ranges@),
            all_valid(dst_ranges@),
            total_count(dst_ranges@) == total_count(src_ranges@),
            self@.len() > 0 || all_nonempty(src_ranges@) ==> all_nonempty(dst_ranges@),
    {
        proof {
            use_type_invariant(&*self);
            lemma_apply_valid(self.ranges@, src_ranges@);
            lemma_apply_conserves(self.ranges@, src_ranges@);
            if self.ranges@.len() > 0 || all_nonempty(src_ranges@) {
                lemma_apply_nonempty(self.ranges@, src_ranges@);
            }
        }
        let ghost input = src_ranges@;
        let mut dst_ranges: Vec<AlmanacRange> = Vec::new();
        let mut pending: Vec<AlmanacRange> = src_ranges;
        let mut k: usize = 0;
        proof {
            assert(self.ranges@.skip(0) == self.ranges@);
            assert(dst_ranges@ + apply_rules(self.ranges@, input) == apply_rules(
                self.ranges@,
                input,
            ));
        }
        while k < self.ranges.len()
            invariant
                k <= self.ranges.len(),
                all_rules_valid(self.ranges@),
                all_valid(pending@),
                dst_ranges@ + apply_rules(self.ranges@.skip(k as int), pending@) == apply_rules(
                    self.ranges@,
                    input,
                ),
            decreases self.ranges.len() - k,
        {
            let rule: AlmanacMapRange = self.ranges[k];
            let rest: Vec<AlmanacRange> = rule.sweep(&pending, &mut dst_ranges);
            proof {
                let tail = self.ranges@.skip(k as int);
                assert(tail[0] == rule);
                assert(tail.drop_first() == self.ranges@.skip(k + 1));
                lemma_unmapped_valid(rule, pending@);
            }
            pending = rest;
            k += 1;
        }
        let mut rest: Vec<AlmanacRange> = pending;
        dst_ranges.append(&mut rest);
        dst_ranges
    }
}

impl AlmanacMapRange {
    /// Cuts each interval of `pending` by the rule's domain. The images of
    /// the parts inside the domain are appended to `moved`; the parts outside
    /// are returned.
    fn sweep(&self, pending: &Vec<AlmanacRange>, moved: &mut Vec<AlmanacRange>) -> (rest: Vec<
        AlmanacRange,
    >)
        requires
            self.valid(),
            all_valid(pending@),
        ensures
            final(moved)@ == old(moved)@ + self.mapped(pending@),
            rest@ == self.unmapped(pending@),
    {
        let lcut: i64 = self.src_start;
        let rcut: i64 = self.src_start + self.count;
        let mut rest: Vec<AlmanacRange> = Vec::new();
        let mut i: usize = 0;
        while i < pending.len()
            invariant
                i <= pending.len(),
                self.valid(),
                lcut == self.src_start,
                rcut == self.src_end(),
                all_valid(pending@),
                moved@ == old(moved)@ + self.mapped(pending@.take(i as int)),
                rest@ == self.unmapped(pending@.take(i as int)),
            decreases pending.len() - i,
        {
            let sr: AlmanacRange = pending[i];
            let (left, center, right) = sr.split(lcut, rcut);
            proof {
                assert(pending@.take(i + 1).drop_last() == pending@.take(i as int));
                assert(pending@.take(i + 1).last() == sr);
            }
            if let Some(r) = center {
                if let Some(start) = self.map_point(r.start) {
                    moved.push(AlmanacRange { start, count: r.count });
                }
            }
            if let Some(r) = left {
                rest.push(r);
            }
            if let Some(r) = right {
                rest.push(r);
            }
            i += 1;
        }
        proof {
            assert(pending@.take(pending.len() as int) == pending@);
        }
        rest
    }
}

/// What a valid rule leaves of valid intervals is valid.
pub proof fn lemma_unmapped_valid(rule: AlmanacMapRange, pending: Seq<AlmanacRange>)
    requires
        all_valid(pending),
    ensures
        all_valid(rule.unmapped(pending)),
    decreases pending.len(),
{
    if pending.len() > 0 {
        lemma_unmapped_valid(rule, pending.drop_last());
    }
}

/// What a valid rule translates of valid intervals is valid.
pub proof fn lemma_mapped_valid(rule: AlmanacMapRange, pending: Seq<AlmanacRange>)
    requires
        rule.valid(),
        all_valid(pending),
    ensures
        all_valid(rule.mapped(pending)),
    decreases pending.len(),
{
    if pending.len() > 0 {
        lemma_mapped_valid(rule, pending.drop_last());
    }
}

/// Each interval that a table of valid rules makes of valid intervals is
/// valid by itself.
pub proof fn lemma_apply_valid(rules: Seq<AlmanacMapRange>, pending: Seq<AlmanacRange>)
    requires
        all_rules_valid(rules),
        all_valid(pending),
    ensures
        all_valid(apply_rules(rules, pending)),
    decreases rules.len(),
{
    if rules.len() > 0 {
        lemma_mapped_valid(rules[0], pending);
        lemma_unmapped_valid(rules[0], pending);
        lemma_apply_valid(rules.drop_first(), rules[0].unmapped(pending));
    }
}

/// The length of two runs of intervals, one after the other, is the sum of
/// their lengths.
pub proof fn lemma_total_count_concat(a: Seq<AlmanacRange>, b: Seq<AlmanacRange>)
    ensures
        total_count(a + b) == total_count(a) + total_count(b),
    decreases b.len(),
{
    if b.len() == 0 {
        assert(a + b == a);
    } else {
        assert((a + b).drop_last() == a + b.drop_last());
        lemma_total_count_concat(a, b.drop_last());
    }
}

/// One rule neither loses nor gains an integer: what it translates and what
/// it leaves are together as long as what it was given.
pub proof fn lemma_rule_conserves(rule: AlmanacMapRange, pending: Seq<AlmanacRange>)
    requires
        all_valid(pending),
        0 <= rule.count,
    ensures
        total_count(rule.mapped(pending)) + total_count(rule.unmapped(pending)) == total_count(
            pending,
        ),
    decreases pending.len(),
{
    if pending.len() > 0 {
        let r = pending.last();
        let head = pending.drop_last();
        lemma_rule_conserves(rule, head);
        let left = present(r.before(rule.src_start as int));
        let right = present(r.after(rule.src_end()));
        let center = present(rule.image(r));
        lemma_total_count_concat(rule.mapped(head), center);
        lemma_total_count_concat(rule.unmapped(head), left);
        lemma_total_count_concat(rule.unmapped(head) + left, right);
        lemma_total_count_present(r.before(rule.src_start as int));
        lemma_total_count_present(r.after(rule.src_end()));
        lemma_total_count_present(rule.image(r));
    }
}

/// The length of a part as a sequence is the length of the part.
pub proof fn lemma_total_count_present(part: Option<AlmanacRange>)
    ensures
        total_count(present(part)) == crate::range::part_count(part),
{
    if part is Some {
        assert(present(part).drop_last() == Seq::<AlmanacRange>::empty());
        assert(total_count(present(part).drop_last()) == 0);
    }
}

/// Conservation: a table neither loses nor gains an integer. The lengths of
/// the intervals that it returns add up to the lengths of those it was
/// given.
pub proof fn lemma_apply_conserves(rules: Seq<AlmanacMapRange>, pending: Seq<AlmanacRange>)
    requires
        all_rules_valid(rules),
        all_valid(pending),
    ensures
        total_count(apply_rules(rules, pending)) == total_count(pending),
    decreases rules.len(),
{
    if rules.len() > 0 {
        lemma_rule_conserves(rules[0], pending);
        lemma_unmapped_valid(rules[0], pending);
        lemma_apply_conserves(rules.drop_first(), rules[0].unmapped(pending));
        lemma_total_count_concat(
            rules[0].mapped(pending),
            apply_rules(rules.drop_first(), rules[0].unmapped(pending)),
        );
    }
}

/// A table without rules returns the intervals that it was given, unchanged
/// and in their order.
pub proof fn lemma_apply_identity(pending: Seq<AlmanacRange>)
    ensures
        apply_rules(Seq::empty(), pending) == pending,
{
}

/// What a rule translates and what it leaves hold no empty interval, whatever
/// it was given.
pub proof fn lemma_rule_nonempty(rule: AlmanacMapRange, pending: Seq<AlmanacRange>)
    ensures
        all_nonempty(rule.mapped(pending)),
        all_nonempty(rule.unmapped(pending)),
    decreases pending.len(),
{
    if pending.len() > 0 {
        lemma_rule_nonempty(rule, pending.drop_last());
    }
}

/// No empty interval comes out of a table, unless the table has no rule
/// and an empty interval went in.
pub proof fn lemma_apply_nonempty(rules: Seq<AlmanacMapRange>, pending: Seq<AlmanacRange>)
    requires
        rules.len() > 0 || all_nonempty(pending),
    ensures
        all_nonempty(apply_rules(rules, pending)),
    decreases rules.len(),
{
    if rules.len() > 0 {
        lemma_rule_nonempty(rules[0], pending);
        lemma_apply_nonempty(rules.drop_first(), rules[0].unmapped(pending));
    }
}

} // verus!
