//! Intervals may be translated one by one or all together: the same
//! intervals come out, in another order at most.
use crate::chain::{is_lowest_start, lemma_route_failure_is_shared, route, route_each, Successor};
use crate::error::AlmanacError;
use crate::range::AlmanacRange;
use crate::stage::{apply_rules, present, AlmanacMapRange};
use vstd::multiset::Multiset;
use vstd::prelude::*;
use vstd::seq_lib::lemma_multiset_commutative;

verus! {

broadcast use vstd::seq_lib::group_to_multiset_ensures;

/// What a rule translates of one run of intervals after the other is what
/// it translates of the first, then what it translates of the second; and
/// so for what it leaves.
pub proof fn lemma_rule_concat(rule: AlmanacMapRange, a: Seq<AlmanacRange>, b: Seq<AlmanacRange>)
    ensures
        rule.mapped(a + b) == rule.mapped(a) + rule.mapped(b),
        rule.unmapped(a + b) == rule.unmapped(a) + rule.unmapped(b),
    decreases b.len(),
{
    if b.len() == 0 {
        assert(a + b == a);
        assert(rule.mapped(a) + rule.mapped(b) == rule.mapped(a));
        assert(rule.unmapped(a) + rule.unmapped(b) == rule.unmapped(a));
    } else {
        assert((a + b).drop_last() == a + b.drop_last());
        assert((a + b).last() == b.last());
        lemma_rule_concat(rule, a, b.drop_last());
        let m = present(rule.image(b.last()));
        let l = present(b.last().before(rule.src_start as int));
        let r = present(b.last().after(rule.src_end()));
        assert((rule.mapped(a) + rule.mapped(b.drop_last())) + m == rule.mapped(a) + (rule.mapped(
            b.drop_last(),
        ) + m));
        assert(((rule.unmapped(a) + rule.unmapped(b.drop_last())) + l) + r == rule.unmapped(a) + ((
        rule.unmapped(b.drop_last()) + l) + r));
    }
}

/// What a rule makes of a run of intervals, as multisets, is what it makes
/// of the run without one interval, and of that interval by itself.
pub proof fn lemma_rule_remove(rule: AlmanacMapRange, s: Seq<AlmanacRange>, i: int)
    requires
        0 <= i < s.len(),
    ensures
        rule.mapped(s).to_multiset() == rule.mapped(s.remove(i)).to_multiset().add(
            rule.mapped(seq![s[i]]).to_multiset(),
        ),
        rule.unmapped(s).to_multiset() == rule.unmapped(s.remove(i)).to_multiset().add(
            rule.unmapped(seq![s[i]]).to_multiset(),
        ),
{
    broadcast use vstd::multiset::group_multiset_axioms;

    let head = s.take(i);
    let one = seq![s[i]];
    let tail = s.skip(i + 1);
    assert(s == (head + one) + tail);
    assert(s.remove(i) == head + tail);
    lemma_rule_concat(rule, head + one, tail);
    lemma_rule_concat(rule, head, one);
    lemma_rule_concat(rule, head, tail);
    lemma_multiset_commutative(rule.mapped(head) + rule.mapped(one), rule.mapped(tail));
    lemma_multiset_commutative(rule.mapped(head), rule.mapped(one));
    lemma_multiset_commutative(rule.mapped(head), rule.mapped(tail));
    lemma_multiset_commutative(rule.unmapped(head) + rule.unmapped(one), rule.unmapped(tail));
    lemma_multiset_commutative(rule.unmapped(head), rule.unmapped(one));
    lemma_multiset_commutative(rule.unmapped(head), rule.unmapped(tail));
    assert(rule.mapped(s).to_multiset() =~= rule.mapped(s.remove(i)).to_multiset().add(
        rule.mapped(one).to_multiset(),
    ));
    assert(rule.unmapped(s).to_multiset() =~= rule.unmapped(s.remove(i)).to_multiset().add(
        rule.unmapped(one).to_multiset(),
    ));
}

/// What a rule makes of intervals does not depend on their order: the same
/// intervals in another order give the same results in another order.
pub proof fn lemma_rule_any_order(rule: AlmanacMapRange, a: Seq<AlmanacRange>, b: Seq<AlmanacRange>)
    requires
        a.to_multiset() == b.to_multiset(),
    ensures
        rule.mapped(a).to_multiset() == rule.mapped(b).to_multiset(),
        rule.unmapped(a).to_multiset() == rule.unmapped(b).to_multiset(),
    decreases a.len(),
{
    broadcast use vstd::multiset::group_multiset_axioms;

    a.to_multiset_ensures();
    b.to_multiset_ensures();
    assert(a.len() == b.len());
    if a.len() == 0 {
        assert(a == b);
    } else {
        let x = a.last();
        assert(a.contains(x));
        assert(b.to_multiset().count(x) > 0);
        assert(b.contains(x));
        let i = choose|i: int| 0 <= i < b.len() && b[i] == x;
        assert(a.remove(a.len() - 1) == a.drop_last());
        vstd::seq_lib::to_multiset_remove(a, a.len() - 1);
        vstd::seq_lib::to_multiset_remove(b, i);
        lemma_rule_any_order(rule, a.drop_last(), b.remove(i));
        lemma_rule_remove(rule, a, a.len() - 1);
        lemma_rule_remove(rule, b, i);
    }
}

/// What a table makes of intervals does not depend on their order.
pub proof fn lemma_apply_any_order(
    rules: Seq<AlmanacMapRange>,
    a: Seq<AlmanacRange>,
    b: Seq<AlmanacRange>,
)
    requires
        a.to_multiset() == b.to_multiset(),
    ensures
        apply_rules(rules, a).to_multiset() == apply_rules(rules, b).to_multiset(),
    decreases rules.len(),
{
    if rules.len() > 0 {
        lemma_rule_any_order(rules[0], a, b);
        lemma_apply_any_order(rules.drop_first(), rules[0].unmapped(a), rules[0].unmapped(b));
        lemma_multiset_commutative(
            rules[0].mapped(a),
            apply_rules(rules.drop_first(), rules[0].unmapped(a)),
        );
        lemma_multiset_commutative(
            rules[0].mapped(b),
            apply_rules(rules.drop_first(), rules[0].unmapped(b)),
        );
    }
}

/// A table translates two runs of intervals together as it translates each
/// by itself: the same intervals come out.
pub proof fn lemma_apply_distributes(
    rules: Seq<AlmanacMapRange>,
    a: Seq<AlmanacRange>,
    b: Seq<AlmanacRange>,
)
    ensures
        apply_rules(rules, a + b).to_multiset() == apply_rules(rules, a).to_multiset().add(
            apply_rules(rules, b).to_multiset(),
        ),
    decreases rules.len(),
{
    broadcast use vstd::multiset::group_multiset_axioms;

    if rules.len() == 0 {
        lemma_multiset_commutative(a, b);
    } else {
        let rule = rules[0];
        let rest = rules.drop_first();
        lemma_rule_concat(rule, a, b);
        lemma_apply_distributes(rest, rule.unmapped(a), rule.unmapped(b));
        lemma_multiset_commutative(rule.mapped(a), rule.mapped(b));
        lemma_multiset_commutative(
            rule.mapped(a) + rule.mapped(b),
            apply_rules(rest, rule.unmapped(a) + rule.unmapped(b)),
        );
        lemma_multiset_commutative(rule.mapped(a), apply_rules(rest, rule.unmapped(a)));
        lemma_multiset_commutative(rule.mapped(b), apply_rules(rest, rule.unmapped(b)));
        assert(apply_rules(rules, a + b).to_multiset() =~= apply_rules(rules, a).to_multiset().add(
            apply_rules(rules, b).to_multiset(),
        ));
    }
}

/// The intervals that a walk arrives with, or none where it fails.
pub open spec fn arrived(
    chain: Map<Seq<char>, Successor>,
    src: Seq<char>,
    dst: Seq<char>,
    ranges: Seq<AlmanacRange>,
    fuel: nat,
) -> Multiset<AlmanacRange> {
    match route(chain, src, dst, ranges, fuel) {
        Ok(out) => out.to_multiset(),
        Err(_) => Multiset::empty(),
    }
}

/// Where a walk takes intervals does not depend on their order.
pub proof fn lemma_route_any_order(
    chain: Map<Seq<char>, Successor>,
    src: Seq<char>,
    dst: Seq<char>,
    a: Seq<AlmanacRange>,
    b: Seq<AlmanacRange>,
    fuel: nat,
)
    requires
        a.to_multiset() == b.to_multiset(),
    ensures
        arrived(chain, src, dst, a, fuel) == arrived(chain, src, dst, b, fuel),
    decreases fuel,
{
    lemma_route_failure_is_shared(chain, src, dst, a, b, fuel);
    if src != dst && chain.contains_key(src) && fuel > 0 {
        lemma_apply_any_order(chain[src].rules, a, b);
        lemma_route_any_order(
            chain,
            chain[src].next,
            dst,
            apply_rules(chain[src].rules, a),
            apply_rules(chain[src].rules, b),
            (fuel - 1) as nat,
        );
    }
}

/// A walk that arrives takes two runs of intervals together where it takes
/// each by itself: the same intervals arrive.
pub proof fn lemma_route_distributes(
    chain: Map<Seq<char>, Successor>,
    src: Seq<char>,
    dst: Seq<char>,
    a: Seq<AlmanacRange>,
    b: Seq<AlmanacRange>,
    fuel: nat,
)
    ensures
        arrived(chain, src, dst, a + b, fuel) == arrived(chain, src, dst, a, fuel).add(
            arrived(chain, src, dst, b, fuel),
        ),
    decreases fuel,
{
    broadcast use vstd::multiset::group_multiset_axioms;

    lemma_route_failure_is_shared(chain, src, dst, a + b, a, fuel);
    lemma_route_failure_is_shared(chain, src, dst, a + b, b, fuel);
    if src == dst {
        lemma_multiset_commutative(a, b);
    } else if chain.contains_key(src) && fuel > 0 {
        let rules = chain[src].rules;
        let next = chain[src].next;
        let left = (fuel - 1) as nat;
        lemma_apply_distributes(rules, a, b);
        lemma_multiset_commutative(apply_rules(rules, a), apply_rules(rules, b));
        lemma_route_any_order(
            chain,
            next,
            dst,
            apply_rules(rules, a + b),
            apply_rules(rules, a) + apply_rules(rules, b),
            left,
        );
        lemma_route_distributes(chain, next, dst, apply_rules(rules, a), apply_rules(rules, b), left);
    } else {
        assert(arrived(chain, src, dst, a + b, fuel) =~= arrived(chain, src, dst, a, fuel).add(
            arrived(chain, src, dst, b, fuel),
        ));
    }
}

/// Routing each interval by itself and routing all together fail in the
/// same way, or arrive with the same intervals.
pub proof fn lemma_each_or_together(
    chain: Map<Seq<char>, Successor>,
    src: Seq<char>,
    dst: Seq<char>,
    seeds: Seq<AlmanacRange>,
    fuel: nat,
)
    requires
        seeds.len() > 0,
    ensures
        match route_each(chain, src, dst, seeds, fuel) {
            Ok(each) => route(chain, src, dst, seeds, fuel) is Ok && each.to_multiset() == route(
                chain,
                src,
                dst,
                seeds,
                fuel,
            )->Ok_0.to_multiset(),
            Err(e) => route(chain, src, dst, seeds, fuel) == Err::<Seq<AlmanacRange>, AlmanacError>(
                e,
            ),
        },
    decreases seeds.len(),
{
    broadcast use vstd::multiset::group_multiset_axioms;

    let head = seeds.drop_last();
    let last = seq![seeds.last()];
    assert(seeds == head + last);
    lemma_route_failure_is_shared(chain, src, dst, seeds, last, fuel);
    lemma_route_distributes(chain, src, dst, head, last, fuel);
    if head.len() > 0 {
        lemma_each_or_together(chain, src, dst, head, fuel);
        lemma_route_failure_is_shared(chain, src, dst, seeds, head, fuel);
        match (route_each(chain, src, dst, head, fuel), route(chain, src, dst, last, fuel)) {
            (Ok(before), Ok(after)) => {
                lemma_multiset_commutative(before, after);
            },
            _ => {},
        }
    } else {
        assert(route_each(chain, src, dst, head, fuel) == Ok::<Seq<AlmanacRange>, AlmanacError>(
            Seq::empty(),
        ));
        match route(chain, src, dst, last, fuel) {
            Ok(after) => {
                assert(Seq::<AlmanacRange>::empty() + after == after);
                assert(head + last == last);
            },
            Err(_) => {},
        }
    }
}

/// The least start among intervals does not depend on their order.
pub proof fn lemma_lowest_any_order(a: Seq<AlmanacRange>, b: Seq<AlmanacRange>, m: i64)
    requires
        a.to_multiset() == b.to_multiset(),
        is_lowest_start(a, m),
    ensures
        is_lowest_start(b, m),
{
    a.to_multiset_ensures();
    b.to_multiset_ensures();
    let i = choose|i: int| 0 <= i < a.len() && (#[trigger] a[i]).start == m;
    assert(a.contains(a[i]));
    assert(b.to_multiset().count(a[i]) > 0);
    assert(b.contains(a[i]));
    let j = choose|j: int| 0 <= j < b.len() && b[j] == a[i];
    assert(b[j].start == m);
    assert forall|k: int| 0 <= k < b.len() implies m <= (#[trigger] b[k]).start by {
        assert(b.contains(b[k]));
        assert(a.to_multiset().count(b[k]) > 0);
        assert(a.contains(b[k]));
        let l = choose|l: int| 0 <= l < a.len() && a[l] == b[k];
        assert(m <= a[l].start);
    }
}

} // verus!
