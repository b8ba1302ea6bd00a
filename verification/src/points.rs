//! What a translation table does to single integers, and the proof that its
//! work on intervals is that, integer by integer.
use crate::range::AlmanacRange;
use crate::stage::{all_rules_valid, all_valid, apply_rules, AlmanacMapRange};
use vstd::prelude::*;

verus! {

/// Where the rules `rules` send the integer `x`: the first rule whose domain
/// holds `x` translates it, and where none does, `x` stays.
pub open spec fn first_match(rules: Seq<AlmanacMapRange>, x: int) -> int
    decreases rules.len(),
{
    if rules.len() == 0 {
        x
    } else if rules[0].covers(x) {
        rules[0].translate(x)
    } else {
        first_match(rules.drop_first(), x)
    }
}

/// Whether `out` is what `rules` make of the stretch of `whole` that starts
/// at `a` and is as long as `out`: the stretch lies in `whole`, and its
/// integers are sent, in order, onto those of `out`.
pub open spec fn carried(
    rules: Seq<AlmanacMapRange>,
    whole: AlmanacRange,
    a: int,
    out: AlmanacRange,
) -> bool {
    &&& whole.start <= a
    &&& a + out.count <= whole.end()
    &&& forall|k: int| 0 <= k < out.count ==> #[trigger] first_match(rules, a + k) == out.start + k
}

/// Each interval that a rule translates is the image of one of the intervals
/// it was given: the result is the place of such an interval.
pub proof fn lemma_mapped_origin(rule: AlmanacMapRange, pending: Seq<AlmanacRange>, j: int) -> (i:
    int)
    requires
        0 <= j < rule.mapped(pending).len(),
    ensures
        0 <= i < pending.len(),
        rule.image(pending[i]) == Some(rule.mapped(pending)[j]),
    decreases pending.len(),
{
    let head = pending.drop_last();
    if j < rule.mapped(head).len() {
        let i = lemma_mapped_origin(rule, head, j);
        assert(head[i] == pending[i]);
        i
    } else {
        pending.len() - 1
    }
}

/// Each interval that a rule leaves is the part before its domain, or the
/// part after it, of one of the intervals it was given: the result is the
/// place of such an interval.
pub proof fn lemma_unmapped_origin(rule: AlmanacMapRange, pending: Seq<AlmanacRange>, j: int) -> (i:
    int)
    requires
        0 <= j < rule.unmapped(pending).len(),
    ensures
        0 <= i < pending.len(),
        pending[i].before(rule.src_start as int) == Some(rule.unmapped(pending)[j])
            || pending[i].after(rule.src_end()) == Some(rule.unmapped(pending)[j]),
    decreases pending.len(),
{
    let head = pending.drop_last();
    if j < rule.unmapped(head).len() {
        let i = lemma_unmapped_origin(rule, head, j);
        assert(head[i] == pending[i]);
        i
    } else {
        pending.len() - 1
    }
}

/// The image of each interval that meets a rule's domain is among what the
/// rule translates: the result is its place there.
pub proof fn lemma_mapped_holds(rule: AlmanacMapRange, pending: Seq<AlmanacRange>, i: int) -> (j:
    int)
    requires
        0 <= i < pending.len(),
        rule.image(pending[i]) is Some,
    ensures
        0 <= j < rule.mapped(pending).len(),
        rule.image(pending[i]) == Some(rule.mapped(pending)[j]),
    decreases pending.len(),
{
    let head = pending.drop_last();
    if i < pending.len() - 1 {
        assert(head[i] == pending[i]);
        lemma_mapped_holds(rule, head, i)
    } else {
        rule.mapped(head).len() as int
    }
}

/// The part of each interval outside a rule's domain, before it or after it,
/// is among what the rule leaves: the result is its place there.
pub proof fn lemma_unmapped_holds(
    rule: AlmanacMapRange,
    pending: Seq<AlmanacRange>,
    i: int,
    part: AlmanacRange,
) -> (j: int)
    requires
        0 <= i < pending.len(),
        pending[i].before(rule.src_start as int) == Some(part) || pending[i].after(rule.src_end())
            == Some(part),
    ensures
        0 <= j < rule.unmapped(pending).len(),
        rule.unmapped(pending)[j] == part,
    decreases pending.len(),
{
    let head = pending.drop_last();
    if i < pending.len() - 1 {
        assert(head[i] == pending[i]);
        lemma_unmapped_holds(rule, head, i, part)
    } else if pending[i].before(rule.src_start as int) == Some(part) {
        rule.unmapped(head).len() as int
    } else {
        (rule.unmapped(pending).len() - 1) as int
    }
}

/// Each interval that a table returns stands by itself: it is what the table
/// makes, integer by integer, of one stretch of one interval that it was
/// given. The result names that interval by its place and the stretch by its
/// start.
pub proof fn lemma_apply_sound(rules: Seq<AlmanacMapRange>, pending: Seq<AlmanacRange>, j: int)
    -> (origin: (int, int))
    requires
        all_rules_valid(rules),
        all_valid(pending),
        0 <= j < apply_rules(rules, pending).len(),
    ensures
        0 <= origin.0 < pending.len(),
        carried(rules, pending[origin.0], origin.1, apply_rules(rules, pending)[j]),
    decreases rules.len(),
{
    if rules.len() == 0 {
        (j, pending[j].start as int)
    } else {
        let rule = rules[0];
        let rest = rules.drop_first();
        let moved = rule.mapped(pending);
        let left = rule.unmapped(pending);
        let out = apply_rules(rules, pending)[j];
        if j < moved.len() {
            let i = lemma_mapped_origin(rule, pending, j);
            let a = out.start - rule.offset();
            assert forall|k: int| 0 <= k < out.count implies #[trigger] first_match(rules, a + k)
                == out.start + k by {
                assert(rule.covers(a + k));
            }
            (i, a)
        } else {
            crate::stage::lemma_unmapped_valid(rule, pending);
            let (u, a) = lemma_apply_sound(rest, left, j - moved.len());
            let i = lemma_unmapped_origin(rule, pending, u);
            assert(out == apply_rules(rest, left)[j - moved.len()]);
            assert forall|k: int| 0 <= k < out.count implies #[trigger] first_match(rules, a + k)
                == out.start + k by {
                assert(!rule.covers(a + k));
                assert(first_match(rest, a + k) == out.start + k);
            }
            (i, a)
        }
    }
}

/// A table loses no integer: where `x` lies in an interval that it was
/// given, the integer that the rules send `x` to lies in an interval that it
/// returns. The result is the place of such an interval.
pub proof fn lemma_apply_complete(
    rules: Seq<AlmanacMapRange>,
    pending: Seq<AlmanacRange>,
    i: int,
    x: int,
) -> (j: int)
    requires
        all_rules_valid(rules),
        all_valid(pending),
        0 <= i < pending.len(),
        pending[i].contains(x),
    ensures
        0 <= j < apply_rules(rules, pending).len(),
        apply_rules(rules, pending)[j].contains(first_match(rules, x)),
    decreases rules.len(),
{
    if rules.len() == 0 {
        i
    } else {
        let rule = rules[0];
        let rest = rules.drop_first();
        let moved = rule.mapped(pending);
        let left = rule.unmapped(pending);
        if rule.covers(x) {
            lemma_mapped_holds(rule, pending, i)
        } else {
            crate::stage::lemma_unmapped_valid(rule, pending);
            let part = if x < rule.src_start {
                pending[i].before(rule.src_start as int)->0
            } else {
                pending[i].after(rule.src_end())->0
            };
            let u = lemma_unmapped_holds(rule, pending, i, part);
            let j = lemma_apply_complete(rest, left, u, x);
            moved.len() + j
        }
    }
}

} // verus!
