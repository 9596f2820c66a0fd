//! What a build promises, whatever its inputs: nothing is blocked without an
//! advisory and the policy behind it, nothing that is affected gets through, and
//! what could not be decided is reported.

use crate::advisory::{Advisory, Kind};
use crate::blocklist::{body_tree, purl_text, reason_text, tree_digest, RuleText};
use crate::builder::{is_owed, is_rules_of, rule_keys, whole_count};
use crate::hits::{
    empty_build, is_gated, is_wholly_malicious, law_every_interval_counts, rule_key, sample_text, verdict_of, BuildText,
    HitText, MAX_SAMPLES,
};
use crate::index::{
    grouped_under, law_lookup_agrees_with_iteration, lemma_listed_contains, named_of, names_rise, Group,
};
use crate::inventory::ItemText;
use crate::order::{
    in_order, key_before, keys_differ_first_at, law_first_different_text_decides, lemma_rising_is_determined,
    text_before, Standing,
};
use crate::policy::{law_exceptions_let_pass_what_they_name, Policy};
use crate::vers::{
    law_order_decides_what_a_range_covers, law_unreadable_is_never_safe, match_of, semver_standing, semver_valid,
    Ecosystem, Match,
};
use vstd::prelude::*;

verus! {

/// What a build knows when it is done: the feed in proactive mode, if asked for,
/// and then the inventory, if there is one.
pub open spec fn compiled(
    policy: Policy,
    eco: Ecosystem,
    groups: Seq<Group>,
    inventory: Option<Seq<ItemText>>,
    proactive: bool,
) -> BuildText {
    let start = if proactive {
        empty_build().after_feed(policy, eco, groups)
    } else {
        empty_build()
    };
    match inventory {
        Some(items) => start.after_inventory(policy, eco, groups, items),
        None => start,
    }
}

/// A rule refuses a package version: it names the version, or the whole package.
pub open spec fn refuses(rules: Seq<RuleText>, registry: Seq<char>, name: Seq<char>, version: Seq<char>) -> bool {
    exists|i: int|
        0 <= i < rules.len() && (#[trigger] rules[i]).registry == registry && rules[i].name == name && (
        rules[i].version == version || rules[i].version == "*"@)
}

/// An advisory of the feed is a reason for a rule: the policy lets it block, and
/// it covers the package as a whole or the version that the rule names.
pub open spec fn is_reason(
    policy: Policy,
    eco: Ecosystem,
    groups: Seq<Group>,
    key: Seq<Seq<char>>,
    a: Advisory,
) -> bool {
    &&& grouped_under(groups, key[1]).contains(a)
    &&& is_gated(policy, a)
    &&& (key[2] == "*"@ && is_wholly_malicious(a)) || verdict_of(eco, key[2], a) == Match::Affected
}

/// Some advisory with the id is a reason for the rule.
pub open spec fn has_reason(
    policy: Policy,
    eco: Ecosystem,
    groups: Seq<Group>,
    key: Seq<Seq<char>>,
    id: Seq<char>,
) -> bool {
    exists|a: Advisory| #[trigger] is_reason(policy, eco, groups, key, a) && a.id == id
}

/// All that a build knows has its reason, and no exception speaks against it.
spec fn justified(build: BuildText, policy: Policy, eco: Ecosystem, groups: Seq<Group>) -> bool {
    forall|key: Seq<Seq<char>>| #[trigger]
        build.hits.dom().contains(key) ==> {
            &&& key.len() == 3
            &&& key[0] == eco.registry_name()
            &&& !policy.lets_pass(key[0], key[1], key[2])
            &&& exists|id: Seq<char>| #[trigger] build.hits[key].ids.contains(id)
            &&& forall|id: Seq<char>| #[trigger]
                build.hits[key].ids.contains(id) ==> has_reason(policy, eco, groups, key, id)
        }
}

proof fn lemma_justified_step(
    build: BuildText,
    policy: Policy,
    eco: Ecosystem,
    groups: Seq<Group>,
    name: Seq<char>,
    version: Seq<char>,
    a: Advisory,
)
    requires
        justified(build, policy, eco, groups),
        is_reason(policy, eco, groups, rule_key(eco.registry_name(), name, version), a),
    ensures
        justified(
            build.blocked_unless_excepted(policy, eco.registry_name(), name, version, a),
            policy,
            eco,
            groups,
        ),
{
    let at = rule_key(eco.registry_name(), name, version);
    let after = build.blocked_unless_excepted(policy, eco.registry_name(), name, version, a);
    assert forall|key: Seq<Seq<char>>| #[trigger] after.hits.dom().contains(key) implies {
        &&& key.len() == 3
        &&& key[0] == eco.registry_name()
        &&& !policy.lets_pass(key[0], key[1], key[2])
        &&& exists|id: Seq<char>| #[trigger] after.hits[key].ids.contains(id)
        &&& forall|id: Seq<char>| #[trigger]
            after.hits[key].ids.contains(id) ==> has_reason(policy, eco, groups, key, id)
    } by {
        if !policy.lets_pass(eco.registry_name(), name, version) && key == at {
            assert(after.hits[key].ids.contains(a.id));
            assert forall|id: Seq<char>| #[trigger] after.hits[key].ids.contains(id) implies has_reason(
                policy,
                eco,
                groups,
                key,
                id,
            ) by {
                if id != a.id {
                    assert(build.hit_at(key).ids.contains(id));
                    assert(build.hits.dom().contains(key));
                    assert(build.hits[key].ids.contains(id));
                }
            }
        } else {
            assert(build.hits.dom().contains(key));
            assert(after.hits[key] == build.hits[key]);
        }
    }
}

proof fn lemma_named_is_grouped(groups: Seq<Group>, named: Seq<(Seq<char>, Advisory)>, i: int)
    requires
        names_rise(groups),
        named == named_of(groups),
        0 <= i < named.len(),
    ensures
        grouped_under(groups, named[i].0).contains(named[i].1),
{
    let name = named[i].0;
    law_lookup_agrees_with_iteration(groups, name);
    assert(named.contains((name, named[i].1)));
    lemma_listed_contains(named, name, named[i].1);
}

proof fn lemma_feed_is_justified(
    build: BuildText,
    policy: Policy,
    eco: Ecosystem,
    groups: Seq<Group>,
    n: int,
)
    requires
        names_rise(groups),
        policy.stops_malicious(),
        justified(build, policy, eco, groups),
        0 <= n <= named_of(groups).len(),
    ensures
        justified(
            build.met_all(policy, eco.registry_name(), named_of(groups).take(n)),
            policy,
            eco,
            groups,
        ),
    decreases n,
{
    let named = named_of(groups);
    let some = named.take(n);
    if n > 0 {
        lemma_feed_is_justified(build, policy, eco, groups, n - 1);
        assert(some.drop_last() =~= named.take(n - 1));
        let (name, a) = some.last();
        let before = build.met_all(policy, eco.registry_name(), named.take(n - 1));
        if is_wholly_malicious(a) {
            lemma_named_is_grouped(groups, named, n - 1);
            lemma_justified_step(before, policy, eco, groups, name, "*"@, a);
        }
    }
}

proof fn lemma_item_is_justified(
    build: BuildText,
    policy: Policy,
    eco: Ecosystem,
    groups: Seq<Group>,
    name: Seq<char>,
    version: Seq<char>,
    n: int,
)
    requires
        justified(build, policy, eco, groups),
        0 <= n <= grouped_under(groups, name).len(),
    ensures
        justified(
            build.held_against_all(policy, eco, name, version, grouped_under(groups, name).take(n)),
            policy,
            eco,
            groups,
        ),
    decreases n,
{
    let all = grouped_under(groups, name);
    let some = all.take(n);
    if n > 0 {
        lemma_item_is_justified(build, policy, eco, groups, name, version, n - 1);
        assert(some.drop_last() =~= all.take(n - 1));
        let a = some.last();
        let before = build.held_against_all(policy, eco, name, version, all.take(n - 1));
        assert(all[n - 1] == a);
        assert(all.contains(a));
        if is_gated(policy, a) {
            if is_wholly_malicious(a) {
                lemma_justified_step(before, policy, eco, groups, name, "*"@, a);
            } else if verdict_of(eco, version, a) == Match::Affected {
                lemma_justified_step(before, policy, eco, groups, name, version, a);
            }
        }
    }
}

proof fn lemma_inventory_is_justified(
    build: BuildText,
    policy: Policy,
    eco: Ecosystem,
    groups: Seq<Group>,
    items: Seq<ItemText>,
)
    requires
        justified(build, policy, eco, groups),
    ensures
        justified(build.after_inventory(policy, eco, groups, items), policy, eco, groups),
    decreases items.len(),
{
    if items.len() > 0 {
        lemma_inventory_is_justified(build, policy, eco, groups, items.drop_last());
        let before = build.after_inventory(policy, eco, groups, items.drop_last());
        let item = items.last();
        let all = grouped_under(groups, item.name);
        assert(justified(before.counted(), policy, eco, groups));
        if item.registry == eco.registry_name() {
            lemma_item_is_justified(
                before.counted(),
                policy,
                eco,
                groups,
                item.name,
                item.version,
                all.len() as int,
            );
            assert(all.take(all.len() as int) =~= all);
        }
    }
}

/// Nothing is blocked without cause: every rule is for the registry of the feed's
/// ecosystem, no exception of the policy covers it, and every advisory that it
/// names is one that the feed has against the package, that the policy lets
/// block, and that covers what the rule covers.
pub proof fn law_every_rule_has_its_reason(
    policy: Policy,
    eco: Ecosystem,
    groups: Seq<Group>,
    inventory: Option<Seq<ItemText>>,
    proactive: bool,
    key: Seq<Seq<char>>,
)
    requires
        names_rise(groups),
        compiled(policy, eco, groups, inventory, proactive).hits.dom().contains(key),
    ensures
        key[0] == eco.registry_name(),
        !policy.lets_pass(key[0], key[1], key[2]),
        exists|id: Seq<char>| #[trigger]
            compiled(policy, eco, groups, inventory, proactive).hits[key].ids.contains(id),
        forall|id: Seq<char>| #[trigger]
            compiled(policy, eco, groups, inventory, proactive).hits[key].ids.contains(id) ==> has_reason(
                policy,
                eco,
                groups,
                key,
                id,
            ),
{
    lemma_compiled_is_justified(policy, eco, groups, inventory, proactive);
}

proof fn lemma_compiled_is_justified(
    policy: Policy,
    eco: Ecosystem,
    groups: Seq<Group>,
    inventory: Option<Seq<ItemText>>,
    proactive: bool,
)
    requires
        names_rise(groups),
    ensures
        justified(compiled(policy, eco, groups, inventory, proactive), policy, eco, groups),
{
    assert(justified(empty_build(), policy, eco, groups));
    let start = if proactive {
        empty_build().after_feed(policy, eco, groups)
    } else {
        empty_build()
    };
    if proactive && policy.stops_malicious() {
        let named = named_of(groups);
        lemma_feed_is_justified(empty_build(), policy, eco, groups, named.len() as int);
        assert(named.take(named.len() as int) =~= named);
    }
    match inventory {
        Some(items) => {
            lemma_inventory_is_justified(start, policy, eco, groups, items);
        },
        None => {},
    }
}

/// A build never forgets: what it knew, it still knows.
pub open spec fn remembers(after: BuildText, before: BuildText) -> bool {
    &&& forall|key: Seq<Seq<char>>, id: Seq<char>|
        before.hits.dom().contains(key) && #[trigger] before.hits[key].ids.contains(id)
            ==> after.hits.dom().contains(key) && after.hits[key].ids.contains(id)
    &&& before.counts.unknown <= after.counts.unknown
    &&& before.samples.len() <= after.samples.len()
    &&& forall|i: int| 0 <= i < before.samples.len() ==> #[trigger] after.samples[i] == before.samples[i]
}

proof fn lemma_held_remembers(
    build: BuildText,
    policy: Policy,
    eco: Ecosystem,
    name: Seq<char>,
    version: Seq<char>,
    all: Seq<Advisory>,
    n: int,
)
    requires
        0 <= n <= all.len(),
    ensures
        remembers(
            build.held_against_all(policy, eco, name, version, all),
            build.held_against_all(policy, eco, name, version, all.take(n)),
        ),
    decreases all.len(),
{
    if n == all.len() {
        assert(all.take(n) =~= all);
    } else {
        lemma_held_remembers(build, policy, eco, name, version, all.drop_last(), n);
        assert(all.drop_last().take(n) =~= all.take(n));
        let a = build.held_against_all(policy, eco, name, version, all.take(n));
        let b = build.held_against_all(policy, eco, name, version, all.drop_last());
        let c = build.held_against_all(policy, eco, name, version, all);
        assert(remembers(c, b));
        lemma_remembers_both(a, b, c);
    }
}

proof fn lemma_remembers_both(a: BuildText, b: BuildText, c: BuildText)
    requires
        remembers(b, a),
        remembers(c, b),
    ensures
        remembers(c, a),
{
    assert forall|key: Seq<Seq<char>>, id: Seq<char>|
        a.hits.dom().contains(key) && #[trigger] a.hits[key].ids.contains(id) implies c.hits.dom().contains(key)
        && c.hits[key].ids.contains(id) by {
        assert(b.hits[key].ids.contains(id));
    }
    assert forall|i: int| 0 <= i < a.samples.len() implies #[trigger] c.samples[i] == a.samples[i] by {
        assert(b.samples[i] == a.samples[i]);
    }
}

proof fn lemma_item_remembers(
    build: BuildText,
    policy: Policy,
    eco: Ecosystem,
    groups: Seq<Group>,
    item: ItemText,
)
    ensures
        remembers(build.after_item(policy, eco, groups, item), build),
{
    let all = grouped_under(groups, item.name);
    lemma_held_remembers(build.counted(), policy, eco, item.name, item.version, all, 0);
    assert(all.take(0) =~= Seq::empty());
    assert(remembers(build.counted(), build));
    if item.registry == eco.registry_name() {
        lemma_remembers_both(build, build.counted(), build.after_item(policy, eco, groups, item));
    }
}

proof fn lemma_inventory_remembers(
    build: BuildText,
    policy: Policy,
    eco: Ecosystem,
    groups: Seq<Group>,
    items: Seq<ItemText>,
    n: int,
)
    requires
        0 <= n <= items.len(),
    ensures
        remembers(
            build.after_inventory(policy, eco, groups, items),
            build.after_inventory(policy, eco, groups, items.take(n)),
        ),
    decreases items.len(),
{
    if n == items.len() {
        assert(items.take(n) =~= items);
    } else {
        lemma_inventory_remembers(build, policy, eco, groups, items.drop_last(), n);
        assert(items.drop_last().take(n) =~= items.take(n));
        let a = build.after_inventory(policy, eco, groups, items.take(n));
        let b = build.after_inventory(policy, eco, groups, items.drop_last());
        lemma_item_remembers(b, policy, eco, groups, items.last());
        lemma_remembers_both(a, b, build.after_inventory(policy, eco, groups, items));
    }
}

/// What is known just after the line `i` of an inventory is held against its
/// advisory `j` is known at the end.
proof fn lemma_known_at_the_end(
    build: BuildText,
    policy: Policy,
    eco: Ecosystem,
    groups: Seq<Group>,
    items: Seq<ItemText>,
    i: int,
    j: int,
)
    requires
        0 <= i < items.len(),
        items[i].registry == eco.registry_name(),
        0 <= j < grouped_under(groups, items[i].name).len(),
    ensures
        ({
            let all = grouped_under(groups, items[i].name);
            let before = build.after_inventory(policy, eco, groups, items.take(i)).counted().held_against_all(
                policy,
                eco,
                items[i].name,
                items[i].version,
                all.take(j),
            );
            remembers(
                build.after_inventory(policy, eco, groups, items),
                before.held_against(policy, eco, items[i].name, items[i].version, all[j]),
            )
        }),
{
    let item = items[i];
    let all = grouped_under(groups, item.name);
    let line = build.after_inventory(policy, eco, groups, items.take(i)).counted();
    let before = line.held_against_all(policy, eco, item.name, item.version, all.take(j));
    assert(all.take(j + 1).drop_last() =~= all.take(j));
    let met = line.held_against_all(policy, eco, item.name, item.version, all.take(j + 1));
    lemma_held_remembers(line, policy, eco, item.name, item.version, all, j + 1);
    assert(items.take(i + 1).drop_last() =~= items.take(i));
    let done = build.after_inventory(policy, eco, groups, items.take(i + 1));
    lemma_inventory_remembers(build, policy, eco, groups, items, i + 1);
    lemma_remembers_both(met, done, build.after_inventory(policy, eco, groups, items));
}

/// Collapsing keeps every decision: the rules refuse just what the hits are
/// against, version by version.
pub proof fn law_collapse_keeps_decisions(
    rules: Seq<RuleText>,
    hits: Map<Seq<Seq<char>>, HitText>,
    registry: Seq<char>,
    name: Seq<char>,
    version: Seq<char>,
)
    requires
        is_rules_of(rules, hits),
    ensures
        refuses(rules, registry, name, version) <==> hits.dom().contains(rule_key(registry, name, version))
            || hits.dom().contains(rule_key(registry, name, "*"@)),
{
    let keys = rule_keys(rules);
    let exact = rule_key(registry, name, version);
    let whole = rule_key(registry, name, "*"@);
    if refuses(rules, registry, name, version) {
        let i = choose|i: int|
            0 <= i < rules.len() && (#[trigger] rules[i]).registry == registry && rules[i].name == name && (
            rules[i].version == version || rules[i].version == "*"@);
        assert(keys[i] == rule_key(registry, name, rules[i].version));
        assert(keys.contains(keys[i]));
    }
    if hits.dom().contains(whole) {
        assert(is_owed(hits, whole));
        assert(keys.contains(whole));
        let i = choose|i: int| 0 <= i < keys.len() && keys[i] == whole;
        lemma_key_parts(rules[i], registry, name, "*"@);
    } else if hits.dom().contains(exact) {
        assert(exact[0] == registry && exact[1] == name && exact[2] == version);
        assert(is_owed(hits, exact));
        assert(keys.contains(exact));
        let i = choose|i: int| 0 <= i < keys.len() && keys[i] == exact;
        lemma_key_parts(rules[i], registry, name, version);
    }
}

proof fn lemma_key_parts(rule: RuleText, registry: Seq<char>, name: Seq<char>, version: Seq<char>)
    requires
        rule_key(rule.registry, rule.name, rule.version) == rule_key(registry, name, version),
    ensures
        rule.registry == registry,
        rule.name == name,
        rule.version == version,
{
    let a = rule_key(rule.registry, rule.name, rule.version);
    let b = rule_key(registry, name, version);
    assert(a[0] == b[0] && a[1] == b[1] && a[2] == b[2]);
}

/// A rule for a whole package stands alone: no other rule is for that package.
pub proof fn law_whole_rule_stands_alone(
    rules: Seq<RuleText>,
    hits: Map<Seq<Seq<char>>, HitText>,
    i: int,
    j: int,
)
    requires
        is_rules_of(rules, hits),
        0 <= i < rules.len(),
        0 <= j < rules.len(),
        rules[i].version == "*"@,
        rules[j].registry == rules[i].registry,
        rules[j].name == rules[i].name,
    ensures
        i == j,
{
    let keys = rule_keys(rules);
    assert(keys.contains(keys[i]));
    assert(keys.contains(keys[j]));
    assert(keys[j][0] == rules[j].registry && keys[j][1] == rules[j].name && keys[j][2] == rules[j].version);
    assert(is_owed(hits, keys[j]));
    assert(keys[i] == rule_key(rules[i].registry, rules[i].name, "*"@));
    assert(rules[j].version == "*"@);
    assert(keys[i] == keys[j]);
    crate::order::lemma_key_same(keys[i], keys[i]);
    if i < j {
        assert(crate::order::key_before(keys[i], keys[j]));
    } else if j < i {
        assert(crate::order::key_before(keys[j], keys[i]));
    }
}

/// The same hits make the same rules, and so the same body and the same digest:
/// identical inputs give byte-identical output.
pub proof fn law_rules_are_determined(
    a: Seq<RuleText>,
    b: Seq<RuleText>,
    hits: Map<Seq<Seq<char>>, HitText>,
)
    requires
        is_rules_of(a, hits),
        is_rules_of(b, hits),
    ensures
        a == b,
        crate::json::json_render(body_tree(a)) == crate::json::json_render(body_tree(b)),
        tree_digest(body_tree(a)) == tree_digest(body_tree(b)),
{
    let x = rule_keys(a);
    let y = rule_keys(b);
    assert forall|k: Seq<Seq<char>>| x.contains(k) <==> y.contains(k) by {
        assert(x.contains(k) <==> is_owed(hits, k));
        assert(y.contains(k) <==> is_owed(hits, k));
    }
    lemma_rising_is_determined(x, y);
    assert(x.len() == a.len() && y.len() == b.len());
    assert forall|i: int| 0 <= i < a.len() implies a[i] == b[i] by {
        assert(a[i] == rule_text_at(a, hits, i));
        assert(b[i] == rule_text_at(b, hits, i));
    }
    assert(a =~= b);
}

spec fn rule_text_at(rules: Seq<RuleText>, hits: Map<Seq<Seq<char>>, HitText>, i: int) -> RuleText {
    crate::blocklist::rule_text(rule_keys(rules)[i], hits[rule_keys(rules)[i]])
}

/// A version that the registry holds and that an advisory covers is refused,
/// unless the policy does not let the advisory block or an exception covers the
/// version.
pub proof fn law_affected_version_is_refused(
    policy: Policy,
    eco: Ecosystem,
    groups: Seq<Group>,
    items: Seq<ItemText>,
    proactive: bool,
    rules: Seq<RuleText>,
    i: int,
    a: Advisory,
)
    requires
        is_rules_of(rules, compiled(policy, eco, groups, Some(items), proactive).hits),
        0 <= i < items.len(),
        items[i].registry == eco.registry_name(),
        grouped_under(groups, items[i].name).contains(a),
        is_gated(policy, a),
        !is_wholly_malicious(a),
        verdict_of(eco, items[i].version, a) == Match::Affected,
        !policy.lets_pass(eco.registry_name(), items[i].name, items[i].version),
    ensures
        refuses(rules, eco.registry_name(), items[i].name, items[i].version),
{
    let item = items[i];
    let all = grouped_under(groups, item.name);
    let j = choose|j: int| 0 <= j < all.len() && all[j] == a;
    let start = compiled(policy, eco, groups, None, proactive);
    let key = rule_key(eco.registry_name(), item.name, item.version);
    let before = start.after_inventory(policy, eco, groups, items.take(i)).counted().held_against_all(
        policy,
        eco,
        item.name,
        item.version,
        all.take(j),
    );
    let met = before.held_against(policy, eco, item.name, item.version, a);
    lemma_known_at_the_end(start, policy, eco, groups, items, i, j);
    assert(met.hits[key].ids.contains(a.id));
    let end = compiled(policy, eco, groups, Some(items), proactive);
    assert(end.hits.dom().contains(key));
    law_collapse_keeps_decisions(rules, end.hits, eco.registry_name(), item.name, item.version);
}

/// A wholly malicious package that the registry holds in any version is refused
/// in every version, unless an exception covers the whole package.
pub proof fn law_wholly_malicious_is_refused_in_every_version(
    policy: Policy,
    eco: Ecosystem,
    groups: Seq<Group>,
    items: Seq<ItemText>,
    proactive: bool,
    rules: Seq<RuleText>,
    i: int,
    a: Advisory,
    version: Seq<char>,
)
    requires
        is_rules_of(rules, compiled(policy, eco, groups, Some(items), proactive).hits),
        0 <= i < items.len(),
        items[i].registry == eco.registry_name(),
        grouped_under(groups, items[i].name).contains(a),
        is_wholly_malicious(a),
        policy.stops_malicious(),
        !policy.lets_pass(eco.registry_name(), items[i].name, "*"@),
    ensures
        refuses(rules, eco.registry_name(), items[i].name, version),
{
    let item = items[i];
    let all = grouped_under(groups, item.name);
    let j = choose|j: int| 0 <= j < all.len() && all[j] == a;
    let start = compiled(policy, eco, groups, None, proactive);
    let key = rule_key(eco.registry_name(), item.name, "*"@);
    let before = start.after_inventory(policy, eco, groups, items.take(i)).counted().held_against_all(
        policy,
        eco,
        item.name,
        item.version,
        all.take(j),
    );
    let met = before.held_against(policy, eco, item.name, item.version, a);
    lemma_known_at_the_end(start, policy, eco, groups, items, i, j);
    assert(met.hits[key].ids.contains(a.id));
    let end = compiled(policy, eco, groups, Some(items), proactive);
    assert(end.hits.dom().contains(key));
    law_collapse_keeps_decisions(rules, end.hits, eco.registry_name(), item.name, version);
}

proof fn lemma_feed_remembers(
    build: BuildText,
    policy: Policy,
    registry: Seq<char>,
    named: Seq<(Seq<char>, Advisory)>,
    n: int,
)
    requires
        0 <= n <= named.len(),
    ensures
        remembers(
            build.met_all(policy, registry, named),
            build.met_all(policy, registry, named.take(n)),
        ),
    decreases named.len(),
{
    if n == named.len() {
        assert(named.take(n) =~= named);
    } else {
        lemma_feed_remembers(build, policy, registry, named.drop_last(), n);
        assert(named.drop_last().take(n) =~= named.take(n));
        let a = build.met_all(policy, registry, named.take(n));
        let b = build.met_all(policy, registry, named.drop_last());
        let c = build.met_all(policy, registry, named);
        assert(remembers(c, b));
        lemma_remembers_both(a, b, c);
    }
}

/// Proactive mode is preventive: a wholly malicious package of the feed is
/// refused in every version, whatever the registry holds, unless an exception
/// covers the whole package.
pub proof fn law_proactive_refuses_before_the_first_download(
    policy: Policy,
    eco: Ecosystem,
    groups: Seq<Group>,
    inventory: Option<Seq<ItemText>>,
    rules: Seq<RuleText>,
    name: Seq<char>,
    a: Advisory,
    version: Seq<char>,
)
    requires
        names_rise(groups),
        is_rules_of(rules, compiled(policy, eco, groups, inventory, true).hits),
        grouped_under(groups, name).contains(a),
        is_wholly_malicious(a),
        policy.stops_malicious(),
        !policy.lets_pass(eco.registry_name(), name, "*"@),
    ensures
        refuses(rules, eco.registry_name(), name, version),
{
    let registry = eco.registry_name();
    let named = named_of(groups);
    law_lookup_agrees_with_iteration(groups, name);
    lemma_listed_contains(named, name, a);
    let k = choose|k: int| 0 <= k < named.len() && named[k] == (name, a);
    let key = rule_key(registry, name, "*"@);
    let met = empty_build().met_all(policy, registry, named.take(k + 1));
    assert(named.take(k + 1).drop_last() =~= named.take(k));
    assert(named.take(k + 1).last() == named[k]);
    assert(met.hits[key].ids.contains(a.id));
    lemma_feed_remembers(empty_build(), policy, registry, named, k + 1);
    let start = compiled(policy, eco, groups, None, true);
    assert(remembers(start, met));
    let end = compiled(policy, eco, groups, inventory, true);
    match inventory {
        Some(items) => {
            lemma_inventory_remembers(start, policy, eco, groups, items, 0);
            assert(items.take(0) =~= Seq::empty());
            lemma_remembers_both(met, start, end);
        },
        None => {},
    }
    assert(end.hits.dom().contains(key));
    law_collapse_keeps_decisions(rules, end.hits, registry, name, version);
}

/// A version of the registry is one that the matcher cannot decide: the line is of
/// another registry, or an advisory that the policy lets block can be held
/// neither for the version nor against it.
pub open spec fn cannot_be_decided(
    policy: Policy,
    eco: Ecosystem,
    groups: Seq<Group>,
    item: ItemText,
) -> bool {
    ||| item.registry != eco.registry_name()
    ||| exists|a: Advisory| #[trigger]
        grouped_under(groups, item.name).contains(a) && is_gated(policy, a) && !is_wholly_malicious(a) && verdict_of(
            eco,
            item.version,
            a,
        ) == Match::Unknown
}

/// A version that the matcher cannot decide is reported, never assumed safe: it
/// is counted, and it is named unless as many as are ever named were named
/// before it.
pub proof fn law_undecided_version_is_reported(
    policy: Policy,
    eco: Ecosystem,
    groups: Seq<Group>,
    items: Seq<ItemText>,
    proactive: bool,
    i: int,
)
    requires
        0 <= i < items.len(),
        cannot_be_decided(policy, eco, groups, items[i]),
    ensures
        ({
            let end = compiled(policy, eco, groups, Some(items), proactive);
            &&& end.counts.unknown > 0
            &&& end.samples.contains(sample_text(items[i].name, items[i].version)) || end.samples.len()
                >= MAX_SAMPLES
        }),
{
    let item = items[i];
    let start = compiled(policy, eco, groups, None, proactive);
    let end = compiled(policy, eco, groups, Some(items), proactive);
    let line = start.after_inventory(policy, eco, groups, items.take(i));
    if item.registry == eco.registry_name() {
        let all = grouped_under(groups, item.name);
        let a = choose|a: Advisory| #[trigger]
            all.contains(a) && is_gated(policy, a) && !is_wholly_malicious(a) && verdict_of(eco, item.version, a)
                == Match::Unknown;
        let j = choose|j: int| 0 <= j < all.len() && all[j] == a;
        let before = line.counted().held_against_all(policy, eco, item.name, item.version, all.take(j));
        lemma_known_at_the_end(start, policy, eco, groups, items, i, j);
        lemma_undecided_is_reported(before, end, item);
    } else {
        assert(items.take(i + 1).drop_last() =~= items.take(i));
        lemma_inventory_remembers(start, policy, eco, groups, items, i + 1);
        lemma_undecided_is_reported(line.counted(), end, item);
    }
}

proof fn lemma_undecided_is_reported(before: BuildText, end: BuildText, item: ItemText)
    requires
        remembers(end, before.undecided(item.name, item.version)),
    ensures
        end.counts.unknown > 0,
        end.samples.contains(sample_text(item.name, item.version)) || end.samples.len() >= MAX_SAMPLES,
{
    let met = before.undecided(item.name, item.version);
    if before.samples.len() < MAX_SAMPLES {
        let at = before.samples.len() as int;
        assert(met.samples[at] == sample_text(item.name, item.version));
        assert(end.samples[at] == met.samples[at]);
    }
}

/// A lower threshold lets at least as much block, and no threshold touches what
/// malicious reports do.
pub proof fn law_lower_threshold_blocks_no_less(strict: Policy, lax: Policy, a: Advisory)
    requires
        strict.stops_malicious() == lax.stops_malicious(),
        lax.set_threshold() matches Some(Some(high)) ==> strict.set_threshold() matches Some(Some(low))
            && low.rank() <= high.rank(),
        is_gated(lax, a),
    ensures
        is_gated(strict, a),
        a.kind == Kind::Malicious ==> lax.stops_malicious(),
{
}

/// From the order of versions to the rule: a version that the registry holds and
/// that lies in any interval of a vulnerability which the policy lets block is
/// refused, unless an exception names the package and the version, or all of its
/// versions.
pub proof fn law_vulnerable_version_is_refused(
    policy: Policy,
    groups: Seq<Group>,
    items: Seq<ItemText>,
    proactive: bool,
    rules: Seq<RuleText>,
    i: int,
    a: Advisory,
    k: int,
)
    requires
        is_rules_of(rules, compiled(policy, Ecosystem::Npm, groups, Some(items), proactive).hits),
        0 <= i < items.len(),
        items[i].registry == "npm"@,
        grouped_under(groups, items[i].name).contains(a),
        a.kind == Kind::Vulnerability,
        is_gated(policy, a),
        semver_valid(items[i].version),
        0 <= k < a.bounds.len(),
        a.bounds[k].introduced matches Some(v) ==> v == "0"@ || (semver_valid(v) && semver_standing(
            items[i].version,
            v,
        ) != Standing::Before),
        a.bounds[k].fixed matches Some(f) ==> semver_valid(f) && semver_standing(items[i].version, f)
            == Standing::Before,
        a.bounds[k].fixed is None ==> (a.bounds[k].last_affected matches Some(l) ==> semver_valid(l)
            && semver_standing(items[i].version, l) != Standing::After),
        forall|e: int|
            0 <= e < policy.exceptions@.len() && (#[trigger] policy.exceptions@[e]).registry@ == "npm"@
                && policy.exceptions@[e].name@ == items[i].name ==> policy.exceptions@[e].version@ != items[i].version
                && policy.exceptions@[e].version@ != "*"@,
    ensures
        refuses(rules, "npm"@, items[i].name, items[i].version),
{
    let version = items[i].version;
    law_order_decides_what_a_range_covers(version, a.bounds[k]);
    law_every_interval_counts(Ecosystem::Npm, version, a);
    assert(match_of(Ecosystem::Npm, version, a.bounds[k]) == Match::Affected);
    law_exceptions_let_pass_what_they_name(policy, "npm"@, items[i].name, version);
    law_affected_version_is_refused(policy, Ecosystem::Npm, groups, items, proactive, rules, i, a);
}

/// Nothing that is safe is refused: a version against which no advisory of the
/// feed that may block has anything, neither against it nor against the package
/// as a whole, is let through.
pub proof fn law_safe_version_is_let_through(
    policy: Policy,
    eco: Ecosystem,
    groups: Seq<Group>,
    inventory: Option<Seq<ItemText>>,
    proactive: bool,
    rules: Seq<RuleText>,
    name: Seq<char>,
    version: Seq<char>,
)
    requires
        names_rise(groups),
        is_rules_of(rules, compiled(policy, eco, groups, inventory, proactive).hits),
        forall|a: Advisory| #[trigger]
            grouped_under(groups, name).contains(a) && is_gated(policy, a) ==> !is_wholly_malicious(a) && verdict_of(
                eco,
                version,
                a,
            ) != Match::Affected && verdict_of(eco, "*"@, a) != Match::Affected,
    ensures
        !refuses(rules, eco.registry_name(), name, version),
{
    let registry = eco.registry_name();
    let end = compiled(policy, eco, groups, inventory, proactive);
    law_collapse_keeps_decisions(rules, end.hits, registry, name, version);
    if refuses(rules, registry, name, version) {
        let exact = rule_key(registry, name, version);
        let whole = rule_key(registry, name, "*"@);
        let key = if end.hits.dom().contains(exact) {
            exact
        } else {
            whole
        };
        law_every_rule_has_its_reason(policy, eco, groups, inventory, proactive, key);
        let id = choose|id: Seq<char>| #[trigger] end.hits[key].ids.contains(id);
        let a = choose|a: Advisory| #[trigger] is_reason(policy, eco, groups, key, a) && a.id == id;
        assert(key[1] == name);
        assert(grouped_under(groups, name).contains(a));
    }
}

/// What an exception names is let through: no rule is for a version that it lets
/// pass, and none for the whole package where it lets all of it pass.
pub proof fn law_excepted_version_has_no_rule(
    policy: Policy,
    eco: Ecosystem,
    groups: Seq<Group>,
    inventory: Option<Seq<ItemText>>,
    proactive: bool,
    rules: Seq<RuleText>,
    i: int,
    e: int,
)
    requires
        names_rise(groups),
        is_rules_of(rules, compiled(policy, eco, groups, inventory, proactive).hits),
        0 <= i < rules.len(),
        0 <= e < policy.exceptions@.len(),
        policy.exceptions@[e].registry@ == rules[i].registry,
        policy.exceptions@[e].name@ == rules[i].name,
    ensures
        policy.exceptions@[e].version@ != rules[i].version,
        policy.exceptions@[e].version@ != "*"@,
{
    let key = rule_keys(rules)[i];
    let end = compiled(policy, eco, groups, inventory, proactive);
    assert(rule_keys(rules).contains(key));
    assert(is_owed(end.hits, key));
    law_every_rule_has_its_reason(policy, eco, groups, inventory, proactive, key);
    assert(key[0] == rules[i].registry && key[1] == rules[i].name && key[2] == rules[i].version);
    law_exceptions_let_pass_what_they_name(policy, key[0], key[1], key[2]);
}

/// The rules are sorted by registry, then by name, then by version, and no two are
/// for the same.
pub proof fn law_rules_are_sorted(rules: Seq<RuleText>, hits: Map<Seq<Seq<char>>, HitText>, i: int, j: int)
    requires
        is_rules_of(rules, hits),
        0 <= i < j < rules.len(),
    ensures
        text_before(rules[i].registry, rules[j].registry) || (rules[i].registry == rules[j].registry && (text_before(
            rules[i].name,
            rules[j].name,
        ) || (rules[i].name == rules[j].name && text_before(rules[i].version, rules[j].version)))),
{
    let a = rule_keys(rules)[i];
    let b = rule_keys(rules)[j];
    assert(key_before(a, b));
    law_first_different_text_decides(a, b);
    let k = choose|k: int| #[trigger] keys_differ_first_at(a, b, k);
    assert(a[0] == rules[i].registry && a[1] == rules[i].name && a[2] == rules[i].version);
    assert(b[0] == rules[j].registry && b[1] == rules[j].name && b[2] == rules[j].version);
    if k > 0 {
        assert(a[0] == b[0]);
    }
    if k > 1 {
        assert(a[1] == b[1]);
    }
}

/// A rule says what its hit says: the registry, name and version of its key, the
/// hit's ids in their order, its worst severity, whether it is malicious, and its
/// fix.
pub proof fn law_rule_says_what_its_hit_says(rules: Seq<RuleText>, hits: Map<Seq<Seq<char>>, HitText>, i: int)
    requires
        is_rules_of(rules, hits),
        0 <= i < rules.len(),
    ensures
        ({
            let key = rule_key(rules[i].registry, rules[i].name, rules[i].version);
            let hit = hits[key];
            &&& hits.dom().contains(key)
            &&& rules[i].meta.osv == in_order(hit.ids)
            &&& rules[i].meta.severity == hit.severity.word()
            &&& rules[i].meta.kind == (if hit.malicious {
                "malicious"@
            } else {
                "vulnerability"@
            })
            &&& rules[i].meta.purl == purl_text(rules[i].registry, rules[i].name, rules[i].version)
            &&& rules[i].meta.fixed_in == hit.fixed_in
            &&& rules[i].reason == reason_text(in_order(hit.ids), hit.severity, hit.malicious, hit.fixed_in)
        }),
{
    let key = rule_keys(rules)[i];
    assert(rule_keys(rules).contains(key));
    assert(is_owed(hits, key));
    assert(rules[i] == rule_text_at(rules, hits, i));
}

/// How many rules are for a whole package is counted rule by rule.
pub proof fn law_whole_rules_are_counted(a: Seq<RuleText>, b: Seq<RuleText>, rule: RuleText)
    ensures
        whole_count(a + b) == whole_count(a) + whole_count(b),
        whole_count(seq![rule]) == (if rule.version == "*"@ {
            1nat
        } else {
            0nat
        }),
        whole_count(Seq::empty()) == 0,
    decreases b.len(),
{
    assert(seq![rule].drop_last() =~= Seq::empty());
    assert(whole_count(seq![rule].drop_last()) == 0);
    if b.len() == 0 {
        assert(a + b =~= a);
    } else {
        law_whole_rules_are_counted(a, b.drop_last(), rule);
        assert((a + b).drop_last() =~= a + b.drop_last());
    }
}

/// A version that an advisory lists is refused where the registry holds it and the
/// policy lets the advisory block, unless an exception lets it pass.
pub proof fn law_listed_version_is_refused(
    policy: Policy,
    eco: Ecosystem,
    groups: Seq<Group>,
    items: Seq<ItemText>,
    proactive: bool,
    rules: Seq<RuleText>,
    i: int,
    a: Advisory,
    k: int,
)
    requires
        is_rules_of(rules, compiled(policy, eco, groups, Some(items), proactive).hits),
        0 <= i < items.len(),
        items[i].registry == eco.registry_name(),
        grouped_under(groups, items[i].name).contains(a),
        is_gated(policy, a),
        0 <= k < a.versions.len(),
        a.versions[k] == items[i].version,
        !policy.lets_pass(eco.registry_name(), items[i].name, items[i].version),
    ensures
        refuses(rules, eco.registry_name(), items[i].name, items[i].version),
{
    law_every_interval_counts(eco, items[i].version, a);
    law_affected_version_is_refused(policy, eco, groups, items, proactive, rules, i, a);
}

/// A version of the registry that cannot be read is reported where an advisory
/// with a range, which the policy lets block, is against its package: it is
/// counted, and named unless as many as are ever named were named before. So is
/// every line of another registry.
pub proof fn law_unreadable_version_is_reported(
    policy: Policy,
    eco: Ecosystem,
    groups: Seq<Group>,
    items: Seq<ItemText>,
    proactive: bool,
    i: int,
    a: Advisory,
)
    requires
        0 <= i < items.len(),
        items[i].registry != eco.registry_name() || (!semver_valid(items[i].version) && grouped_under(
            groups,
            items[i].name,
        ).contains(a) && is_gated(policy, a) && !is_wholly_malicious(a) && a.bounds.len() > 0
            && !a.versions.contains(items[i].version)),
    ensures
        ({
            let end = compiled(policy, eco, groups, Some(items), proactive);
            &&& end.counts.unknown > 0
            &&& end.samples.contains(items[i].name + "@"@ + items[i].version) || end.samples.len() >= MAX_SAMPLES
        }),
{
    let version = items[i].version;
    if items[i].registry == eco.registry_name() {
        law_every_interval_counts(eco, version, a);
        assert forall|k: int| 0 <= k < a.bounds.len() implies match_of(eco, version, #[trigger] a.bounds[k])
            == Match::Unknown by {
            law_unreadable_is_never_safe(eco, version, a.bounds[k]);
        }
        assert(match_of(eco, version, a.bounds[0]) == Match::Unknown);
        assert(verdict_of(eco, version, a) == Match::Unknown);
        assert(cannot_be_decided(policy, eco, groups, items[i]));
    }
    law_undecided_version_is_reported(policy, eco, groups, items, proactive, i);
}

} // verus!
