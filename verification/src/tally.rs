//! What a build counts and names, said of its inputs: every inventory line, every
//! advisory that could not be decided against one, and every rule that an
//! exception kept away.

use crate::advisory::{total, Advisory};
use crate::hits::{
    empty_build, is_gated, is_wholly_malicious, sample_text, verdict_of, BuildText, MAX_SAMPLES,
};
use crate::index::{grouped_under, named_of, Group};
use crate::inventory::ItemText;
use crate::laws::{cannot_be_decided, compiled};
use crate::policy::Policy;
use crate::text::{law_split_at_a_character, split_at_last};
use crate::vers::{Ecosystem, Match};
use vstd::prelude::*;

verus! {

/// How many of a list are such.
pub open spec fn how_many<T>(list: Seq<T>, such: spec_fn(T) -> bool) -> nat {
    total(list, |x: T| if such(x) { 1nat } else { 0nat })
}

/// How many of a package's advisories may block and cannot be decided for a
/// version.
pub open spec fn undecided_for(policy: Policy, eco: Ecosystem, version: Seq<char>, list: Seq<Advisory>) -> nat {
    how_many(
        list,
        |a: Advisory| is_gated(policy, a) && !is_wholly_malicious(a) && verdict_of(eco, version, a) == Match::Unknown,
    )
}

/// How many of a package's advisories would block a version, or the package, but
/// for an exception.
pub open spec fn excepted_for(
    policy: Policy,
    eco: Ecosystem,
    name: Seq<char>,
    version: Seq<char>,
    list: Seq<Advisory>,
) -> nat {
    how_many(
        list,
        |a: Advisory|
            is_gated(policy, a) && (if is_wholly_malicious(a) {
                policy.lets_pass(eco.registry_name(), name, "*"@)
            } else {
                verdict_of(eco, version, a) == Match::Affected && policy.lets_pass(
                    eco.registry_name(),
                    name,
                    version,
                )
            }),
    )
}

/// How often an inventory line is counted as undecided: once for each such
/// advisory, and once where the line is of another registry.
pub open spec fn undecided_by(policy: Policy, eco: Ecosystem, groups: Seq<Group>, item: ItemText) -> nat {
    if item.registry == eco.registry_name() {
        undecided_for(policy, eco, item.version, grouped_under(groups, item.name))
    } else {
        1
    }
}

/// How often an inventory line is counted as excepted.
pub open spec fn excepted_by(policy: Policy, eco: Ecosystem, groups: Seq<Group>, item: ItemText) -> nat {
    if item.registry == eco.registry_name() {
        excepted_for(policy, eco, item.name, item.version, grouped_under(groups, item.name))
    } else {
        0
    }
}

/// How often proactive mode counts an exception: once for each wholly malicious
/// package of the feed that one covers.
pub open spec fn excepted_in_feed(policy: Policy, eco: Ecosystem, named: Seq<(Seq<char>, Advisory)>) -> nat {
    how_many(
        named,
        |n: (Seq<char>, Advisory)| is_wholly_malicious(n.1) && policy.lets_pass(eco.registry_name(), n.0, "*"@),
    )
}

/// As many are named as are counted, up to the limit.
spec fn names_enough(build: BuildText) -> bool {
    build.samples.len() == if build.counts.unknown < MAX_SAMPLES {
        build.counts.unknown as int
    } else {
        MAX_SAMPLES as int
    }
}

proof fn lemma_held_tally(
    build: BuildText,
    policy: Policy,
    eco: Ecosystem,
    name: Seq<char>,
    version: Seq<char>,
    list: Seq<Advisory>,
)
    requires
        names_enough(build),
    ensures
        ({
            let after = build.held_against_all(policy, eco, name, version, list);
            &&& after.counts.inventory_items == build.counts.inventory_items
            &&& after.counts.unknown == build.counts.unknown + undecided_for(policy, eco, version, list)
            &&& after.counts.excepted == build.counts.excepted + excepted_for(policy, eco, name, version, list)
            &&& names_enough(after)
            &&& forall|i: int|
                build.samples.len() <= i < after.samples.len() ==> #[trigger] after.samples[i] == sample_text(
                    name,
                    version,
                )
            &&& forall|i: int| 0 <= i < build.samples.len() ==> #[trigger] after.samples[i] == build.samples[i]
            &&& build.samples.len() <= after.samples.len()
        }),
    decreases list.len(),
{
    if list.len() > 0 {
        lemma_held_tally(build, policy, eco, name, version, list.drop_last());
    }
}

proof fn lemma_inventory_tally(
    build: BuildText,
    policy: Policy,
    eco: Ecosystem,
    groups: Seq<Group>,
    items: Seq<ItemText>,
)
    requires
        names_enough(build),
    ensures
        ({
            let after = build.after_inventory(policy, eco, groups, items);
            &&& after.counts.inventory_items == build.counts.inventory_items + items.len()
            &&& after.counts.unknown == build.counts.unknown + total(
                items,
                |item: ItemText| undecided_by(policy, eco, groups, item),
            )
            &&& after.counts.excepted == build.counts.excepted + total(
                items,
                |item: ItemText| excepted_by(policy, eco, groups, item),
            )
            &&& names_enough(after)
        }),
    decreases items.len(),
{
    if items.len() > 0 {
        let fewer = items.drop_last();
        let item = items.last();
        lemma_inventory_tally(build, policy, eco, groups, fewer);
        let before = build.after_inventory(policy, eco, groups, fewer);
        if item.registry == eco.registry_name() {
            let list = grouped_under(groups, item.name);
            lemma_held_tally(before.counted(), policy, eco, item.name, item.version, list);
        }
    }
}

proof fn lemma_feed_tally(
    build: BuildText,
    policy: Policy,
    eco: Ecosystem,
    named: Seq<(Seq<char>, Advisory)>,
)
    ensures
        ({
            let after = build.met_all(policy, eco.registry_name(), named);
            &&& after.counts.inventory_items == build.counts.inventory_items
            &&& after.counts.unknown == build.counts.unknown
            &&& after.counts.excepted == build.counts.excepted + excepted_in_feed(policy, eco, named)
            &&& after.samples == build.samples
        }),
    decreases named.len(),
{
    if named.len() > 0 {
        lemma_feed_tally(build, policy, eco, named.drop_last());
    }
}

/// A build counts each line of the inventory, each advisory that it could not
/// decide against one of them, and each rule that an exception kept away; and it
/// names as many undecided versions as it counts, up to the limit.
pub proof fn law_build_counts(
    policy: Policy,
    eco: Ecosystem,
    groups: Seq<Group>,
    items: Seq<ItemText>,
    proactive: bool,
)
    ensures
        ({
            let end = compiled(policy, eco, groups, Some(items), proactive);
            &&& end.counts.inventory_items == items.len()
            &&& end.counts.unknown == total(items, |item: ItemText| undecided_by(policy, eco, groups, item))
            &&& end.counts.excepted == total(items, |item: ItemText| excepted_by(policy, eco, groups, item)) + (
            if proactive && policy.stops_malicious() {
                excepted_in_feed(policy, eco, named_of(groups))
            } else {
                0
            })
            &&& end.counts.unknown < MAX_SAMPLES ==> end.samples.len() == end.counts.unknown
            &&& end.counts.unknown >= MAX_SAMPLES ==> end.samples.len() == MAX_SAMPLES
        }),
{
    let start = compiled(policy, eco, groups, None, proactive);
    lemma_feed_tally(empty_build(), policy, eco, named_of(groups));
    lemma_inventory_tally(start, policy, eco, groups, items);
}

/// Every undecided version that is named is that of an inventory line which could
/// not be decided, and nothing is counted as undecided without such a line.
pub proof fn law_only_undecided_versions_are_named(
    policy: Policy,
    eco: Ecosystem,
    groups: Seq<Group>,
    items: Seq<ItemText>,
    proactive: bool,
    k: int,
)
    requires
        0 <= k < compiled(policy, eco, groups, Some(items), proactive).samples.len(),
    ensures
        exists|i: int|
            0 <= i < items.len() && cannot_be_decided(policy, eco, groups, #[trigger] items[i]) && compiled(
                policy,
                eco,
                groups,
                Some(items),
                proactive,
            ).samples[k] == sample_text(items[i].name, items[i].version),
{
    let start = compiled(policy, eco, groups, None, proactive);
    lemma_feed_tally(empty_build(), policy, eco, named_of(groups));
    lemma_named_line(start, policy, eco, groups, items, k);
}

proof fn lemma_named_line(
    build: BuildText,
    policy: Policy,
    eco: Ecosystem,
    groups: Seq<Group>,
    items: Seq<ItemText>,
    k: int,
)
    requires
        build.samples.len() == 0,
        build.counts.unknown == 0,
        0 <= k < build.after_inventory(policy, eco, groups, items).samples.len(),
    ensures
        exists|i: int|
            0 <= i < items.len() && cannot_be_decided(policy, eco, groups, #[trigger] items[i])
                && build.after_inventory(policy, eco, groups, items).samples[k] == sample_text(
                items[i].name,
                items[i].version,
            ),
    decreases items.len(),
{
    let fewer = items.drop_last();
    let item = items.last();
    let last = items.len() - 1;
    let before = build.after_inventory(policy, eco, groups, fewer);
    let after = build.after_inventory(policy, eco, groups, items);
    lemma_inventory_tally(build, policy, eco, groups, fewer);
    assert(items[last] == item);
    if item.registry == eco.registry_name() {
        let list = grouped_under(groups, item.name);
        lemma_held_tally(before.counted(), policy, eco, item.name, item.version, list);
        if k >= before.samples.len() {
            lemma_some_undecided(policy, eco, item.version, list);
            assert(cannot_be_decided(policy, eco, groups, items[last]));
        }
    }
    if k < before.samples.len() {
        lemma_named_line(build, policy, eco, groups, fewer, k);
        let i = choose|i: int|
            0 <= i < fewer.len() && cannot_be_decided(policy, eco, groups, #[trigger] fewer[i]) && before.samples[k]
                == sample_text(fewer[i].name, fewer[i].version);
        assert(items[i] == fewer[i]);
    }
}

proof fn lemma_some_undecided(policy: Policy, eco: Ecosystem, version: Seq<char>, list: Seq<Advisory>)
    requires
        undecided_for(policy, eco, version, list) > 0,
    ensures
        exists|a: Advisory| #[trigger]
            list.contains(a) && is_gated(policy, a) && !is_wholly_malicious(a) && verdict_of(eco, version, a)
                == Match::Unknown,
    decreases list.len(),
{
    let fewer = list.drop_last();
    let a = list.last();
    assert(list[list.len() - 1] == a);
    if !(is_gated(policy, a) && !is_wholly_malicious(a) && verdict_of(eco, version, a) == Match::Unknown) {
        lemma_some_undecided(policy, eco, version, fewer);
        let b = choose|b: Advisory| #[trigger]
            fewer.contains(b) && is_gated(policy, b) && !is_wholly_malicious(b) && verdict_of(eco, version, b)
                == Match::Unknown;
        let i = choose|i: int| 0 <= i < fewer.len() && fewer[i] == b;
        assert(list[i] == b);
        assert(list.contains(b));
    } else {
        assert(list.contains(a));
    }
}

/// An undecided version is named so that it can be read back: what stands after
/// the last at sign is the version, and what stands before it the package.
pub proof fn law_named_versions_read_back(name: Seq<char>, version: Seq<char>)
    requires
        !version.contains('@'),
    ensures
        split_at_last(sample_text(name, version), "@"@) == Some((name, version)),
{
    reveal_strlit("@");
    law_split_at_a_character(name, "@"@, version);
}

} // verus!
