//! The outcome of a build, said without its steps: which rules there are and
//! what is in them, whatever order the inventory comes in.

use crate::advisory::{Advisory, Kind};
use crate::blocklist::RuleText;
use crate::builder::{is_owed, is_rules_of, rule_keys};
use crate::hits::{
    empty_build, is_gated, is_wholly_malicious, no_hit, rule_key, verdict_of, BuildText, HitText,
};
use crate::index::{
    grouped_under, law_lookup_agrees_with_iteration, lemma_listed_push, listed_under, named_of, names_rise, Group,
};
use crate::inventory::ItemText;
use crate::laws::{compiled, law_every_rule_has_its_reason};
use crate::policy::Policy;
use crate::vers::{Ecosystem, Match};
use vstd::prelude::*;

verus! {

/// An advisory speaks against a version of its package: against every version
/// (`"*"`) where it reports a wholly malicious package, and otherwise where the
/// policy lets it block and it covers the version.
pub open spec fn speaks_against(policy: Policy, eco: Ecosystem, version: Seq<char>, a: Advisory) -> bool {
    &&& is_gated(policy, a)
    &&& if version == "*"@ {
        is_wholly_malicious(a)
    } else {
        !is_wholly_malicious(a) && verdict_of(eco, version, a) == Match::Affected
    }
}

/// Some advisory of the list speaks against the version.
pub open spec fn some_speaks(policy: Policy, eco: Ecosystem, version: Seq<char>, list: Seq<Advisory>) -> bool {
    exists|i: int| 0 <= i < list.len() && speaks_against(policy, eco, version, #[trigger] list[i])
}

/// A hit with all advisories of the list that speak against the version.
pub open spec fn with_all(
    hit: HitText,
    policy: Policy,
    eco: Ecosystem,
    version: Seq<char>,
    list: Seq<Advisory>,
) -> HitText
    decreases list.len(),
{
    if list.len() == 0 {
        hit
    } else {
        let before = with_all(hit, policy, eco, version, list.drop_last());
        if speaks_against(policy, eco, version, list.last()) {
            before.with(list.last())
        } else {
            before
        }
    }
}

/// The registry holds a version, or the whole package is asked for: by proactive
/// mode, or since the registry holds some version of it.
pub open spec fn is_asked_for(
    eco: Ecosystem,
    items: Seq<ItemText>,
    proactive: bool,
    name: Seq<char>,
    version: Seq<char>,
) -> bool {
    ||| version == "*"@ && proactive
    ||| exists|i: int|
        0 <= i < items.len() && (#[trigger] items[i]).registry == eco.registry_name() && items[i].name == name && (
        version == "*"@ || items[i].version == version)
}

/// A rule is due against a version: it is asked for, no exception lets it pass,
/// and some advisory of the feed speaks against it.
pub open spec fn is_due(
    policy: Policy,
    eco: Ecosystem,
    groups: Seq<Group>,
    items: Seq<ItemText>,
    proactive: bool,
    name: Seq<char>,
    version: Seq<char>,
) -> bool {
    &&& is_asked_for(eco, items, proactive, name, version)
    &&& !policy.lets_pass(eco.registry_name(), name, version)
    &&& some_speaks(policy, eco, version, grouped_under(groups, name))
}

/// The lines of an inventory; none where there is none.
pub open spec fn lines_in(inventory: Option<Seq<ItemText>>) -> Seq<ItemText> {
    match inventory {
        Some(items) => items,
        None => Seq::empty(),
    }
}

/// No line of the inventory is for the version `"*"`, which stands for a whole
/// package.
pub open spec fn names_versions(items: Seq<ItemText>) -> bool {
    forall|i: int| 0 <= i < items.len() ==> (#[trigger] items[i]).version != "*"@
}

spec fn covers(hit: HitText, a: Advisory) -> bool {
    &&& hit.ids.contains(a.id)
    &&& a.severity.rank() <= hit.severity.rank()
    &&& a.kind == Kind::Malicious ==> hit.malicious
    &&& a.fixed_in is Some ==> hit.fixed_in is Some
}

proof fn lemma_covered_adds_nothing(hit: HitText, a: Advisory)
    requires
        covers(hit, a),
    ensures
        hit.with(a) == hit,
{
    assert(hit.with(a).ids =~= hit.ids);
}

proof fn lemma_with_all_covers(
    hit: HitText,
    policy: Policy,
    eco: Ecosystem,
    version: Seq<char>,
    list: Seq<Advisory>,
    i: int,
)
    requires
        0 <= i < list.len(),
        speaks_against(policy, eco, version, list[i]),
    ensures
        covers(with_all(hit, policy, eco, version, list), list[i]),
    decreases list.len(),
{
    if i < list.len() - 1 {
        lemma_with_all_covers(hit, policy, eco, version, list.drop_last(), i);
    }
}

proof fn lemma_covered_list_adds_nothing(
    hit: HitText,
    policy: Policy,
    eco: Ecosystem,
    version: Seq<char>,
    list: Seq<Advisory>,
)
    requires
        forall|i: int|
            0 <= i < list.len() && speaks_against(policy, eco, version, #[trigger] list[i]) ==> covers(hit, list[i]),
    ensures
        with_all(hit, policy, eco, version, list) == hit,
    decreases list.len(),
{
    if list.len() > 0 {
        let fewer = list.drop_last();
        assert forall|i: int|
            0 <= i < fewer.len() && speaks_against(policy, eco, version, #[trigger] fewer[i]) implies covers(
            hit,
            fewer[i],
        ) by {
            assert(list[i] == fewer[i]);
        }
        lemma_covered_list_adds_nothing(hit, policy, eco, version, fewer);
        if speaks_against(policy, eco, version, list.last()) {
            assert(covers(hit, list[list.len() - 1]));
            lemma_covered_adds_nothing(hit, list.last());
        }
    }
}

/// Meeting the same advisories twice changes nothing.
proof fn lemma_twice_is_once(policy: Policy, eco: Ecosystem, version: Seq<char>, list: Seq<Advisory>)
    ensures
        with_all(with_all(no_hit(), policy, eco, version, list), policy, eco, version, list) == with_all(
            no_hit(),
            policy,
            eco,
            version,
            list,
        ),
{
    let once = with_all(no_hit(), policy, eco, version, list);
    assert forall|i: int|
        0 <= i < list.len() && speaks_against(policy, eco, version, #[trigger] list[i]) implies covers(
        once,
        list[i],
    ) by {
        lemma_with_all_covers(no_hit(), policy, eco, version, list, i);
    }
    lemma_covered_list_adds_nothing(once, policy, eco, version, list);
}

proof fn lemma_key_eq(a: Seq<char>, b: Seq<char>, c: Seq<char>, d: Seq<char>, e: Seq<char>, f: Seq<char>)
    ensures
        rule_key(a, b, c) == rule_key(d, e, f) <==> a == d && b == e && c == f,
{
    let x = rule_key(a, b, c);
    let y = rule_key(d, e, f);
    assert(x[0] == a && x[1] == b && x[2] == c);
    assert(y[0] == d && y[1] == e && y[2] == f);
}

/// Some advisory of a longer list speaks where one of its start or its last does.
proof fn lemma_some_speaks_step(policy: Policy, eco: Ecosystem, version: Seq<char>, list: Seq<Advisory>)
    requires
        list.len() > 0,
    ensures
        some_speaks(policy, eco, version, list) <==> some_speaks(policy, eco, version, list.drop_last())
            || speaks_against(policy, eco, version, list.last()),
{
    let fewer = list.drop_last();
    if some_speaks(policy, eco, version, list) {
        let i = choose|i: int| 0 <= i < list.len() && speaks_against(policy, eco, version, #[trigger] list[i]);
        if i < fewer.len() {
            assert(speaks_against(policy, eco, version, fewer[i]));
        }
    }
    if some_speaks(policy, eco, version, fewer) {
        let i = choose|i: int| 0 <= i < fewer.len() && speaks_against(policy, eco, version, #[trigger] fewer[i]);
        assert(speaks_against(policy, eco, version, list[i]));
    }
    if speaks_against(policy, eco, version, list.last()) {
        assert(speaks_against(policy, eco, version, list[list.len() - 1]));
    }
}

/// What a key holds after a list of advisories was held against it: what it held
/// before, with all advisories that speak against the version, unless an
/// exception lets it pass.
spec fn is_moved(
    after: BuildText,
    before: BuildText,
    policy: Policy,
    eco: Ecosystem,
    name: Seq<char>,
    version: Seq<char>,
    list: Seq<Advisory>,
) -> bool {
    let key = rule_key(eco.registry_name(), name, version);
    let passes = policy.lets_pass(eco.registry_name(), name, version);
    &&& after.hits.dom().contains(key) <==> before.hits.dom().contains(key) || (!passes && some_speaks(
        policy,
        eco,
        version,
        list,
    ))
    &&& after.hit_at(key) == if passes {
        before.hit_at(key)
    } else {
        with_all(before.hit_at(key), policy, eco, version, list)
    }
}

spec fn is_unmoved(after: BuildText, before: BuildText, key: Seq<Seq<char>>) -> bool {
    &&& after.hits.dom().contains(key) <==> before.hits.dom().contains(key)
    &&& after.hit_at(key) == before.hit_at(key)
}

proof fn lemma_held_moves(
    build: BuildText,
    policy: Policy,
    eco: Ecosystem,
    name: Seq<char>,
    version: Seq<char>,
    list: Seq<Advisory>,
)
    requires
        version != "*"@,
    ensures
        ({
            let after = build.held_against_all(policy, eco, name, version, list);
            &&& is_moved(after, build, policy, eco, name, version, list)
            &&& is_moved(after, build, policy, eco, name, "*"@, list)
            &&& forall|key: Seq<Seq<char>>|
                key != rule_key(eco.registry_name(), name, version) && key != rule_key(
                    eco.registry_name(),
                    name,
                    "*"@,
                ) ==> #[trigger] is_unmoved(after, build, key)
        }),
    decreases list.len(),
{
    let registry = eco.registry_name();
    lemma_key_eq(registry, name, version, registry, name, "*"@);
    if list.len() > 0 {
        let fewer = list.drop_last();
        let a = list.last();
        lemma_held_moves(build, policy, eco, name, version, fewer);
        lemma_some_speaks_step(policy, eco, version, list);
        lemma_some_speaks_step(policy, eco, "*"@, list);
        let mid = build.held_against_all(policy, eco, name, version, fewer);
        let after = build.held_against_all(policy, eco, name, version, list);
        assert forall|key: Seq<Seq<char>>|
            key != rule_key(registry, name, version) && key != rule_key(registry, name, "*"@) implies #[trigger]
            is_unmoved(after, build, key) by {
            assert(is_unmoved(mid, build, key));
        }
    }
}

/// The state of a build, key by key: what the lines so far ask for.
spec fn is_settled(
    build: BuildText,
    policy: Policy,
    eco: Ecosystem,
    groups: Seq<Group>,
    items: Seq<ItemText>,
    proactive: bool,
) -> bool {
    &&& forall|name: Seq<char>, version: Seq<char>|
        ({
            let key = #[trigger] rule_key(eco.registry_name(), name, version);
            &&& build.hits.dom().contains(key) <==> is_due(policy, eco, groups, items, proactive, name, version)
            &&& build.hits.dom().contains(key) ==> build.hits[key] == with_all(
                no_hit(),
                policy,
                eco,
                version,
                grouped_under(groups, name),
            )
        })
    &&& forall|key: Seq<Seq<char>>| #[trigger]
        build.hits.dom().contains(key) ==> key == rule_key(eco.registry_name(), key[1], key[2])
}

proof fn lemma_asked_step(
    eco: Ecosystem,
    items: Seq<ItemText>,
    proactive: bool,
    name: Seq<char>,
    version: Seq<char>,
)
    requires
        items.len() > 0,
    ensures
        is_asked_for(eco, items, proactive, name, version) <==> is_asked_for(
            eco,
            items.drop_last(),
            proactive,
            name,
            version,
        ) || (items.last().registry == eco.registry_name() && items.last().name == name && (version == "*"@
            || items.last().version == version)),
{
    let fewer = items.drop_last();
    if is_asked_for(eco, items, proactive, name, version) && !(version == "*"@ && proactive) {
        let i = choose|i: int|
            0 <= i < items.len() && (#[trigger] items[i]).registry == eco.registry_name() && items[i].name == name && (
            version == "*"@ || items[i].version == version);
        if i < fewer.len() {
            assert(fewer[i].registry == eco.registry_name());
        }
    }
    if is_asked_for(eco, fewer, proactive, name, version) && !(version == "*"@ && proactive) {
        let i = choose|i: int|
            0 <= i < fewer.len() && (#[trigger] fewer[i]).registry == eco.registry_name() && fewer[i].name == name && (
            version == "*"@ || fewer[i].version == version);
        assert(items[i].registry == eco.registry_name());
    }
    assert(items[items.len() - 1] == items.last());
}

/// One key of a settled build after its package was held against the feed.
proof fn lemma_moved_is_settled(
    after: BuildText,
    before: BuildText,
    policy: Policy,
    eco: Ecosystem,
    groups: Seq<Group>,
    fewer: Seq<ItemText>,
    items: Seq<ItemText>,
    proactive: bool,
    name: Seq<char>,
    version: Seq<char>,
)
    requires
        is_settled(before, policy, eco, groups, fewer, proactive),
        is_moved(after, before, policy, eco, name, version, grouped_under(groups, name)),
        is_asked_for(eco, items, proactive, name, version),
    ensures
        ({
            let key = rule_key(eco.registry_name(), name, version);
            &&& after.hits.dom().contains(key) <==> is_due(policy, eco, groups, items, proactive, name, version)
            &&& after.hits.dom().contains(key) ==> after.hits[key] == with_all(
                no_hit(),
                policy,
                eco,
                version,
                grouped_under(groups, name),
            )
        }),
{
    let key = rule_key(eco.registry_name(), name, version);
    let list = grouped_under(groups, name);
    assert(before.hits.dom().contains(key) <==> is_due(policy, eco, groups, fewer, proactive, name, version));
    lemma_twice_is_once(policy, eco, version, list);
}

proof fn lemma_item_settles(
    build: BuildText,
    policy: Policy,
    eco: Ecosystem,
    groups: Seq<Group>,
    items: Seq<ItemText>,
    proactive: bool,
)
    requires
        items.len() > 0,
        items.last().version != "*"@,
        is_settled(build, policy, eco, groups, items.drop_last(), proactive),
    ensures
        is_settled(
            build.after_item(policy, eco, groups, items.last()),
            policy,
            eco,
            groups,
            items,
            proactive,
        ),
{
    let registry = eco.registry_name();
    let fewer = items.drop_last();
    let item = items.last();
    let after = build.after_item(policy, eco, groups, item);
    let before = build.counted();
    let list = grouped_under(groups, item.name);
    let exact = rule_key(registry, item.name, item.version);
    let whole = rule_key(registry, item.name, "*"@);
    assert(is_settled(before, policy, eco, groups, fewer, proactive));
    if item.registry == registry {
        lemma_held_moves(before, policy, eco, item.name, item.version, list);
    }
    assert forall|name: Seq<char>, version: Seq<char>|
        ({
            let key = #[trigger] rule_key(registry, name, version);
            &&& after.hits.dom().contains(key) <==> is_due(policy, eco, groups, items, proactive, name, version)
            &&& after.hits.dom().contains(key) ==> after.hits[key] == with_all(
                no_hit(),
                policy,
                eco,
                version,
                grouped_under(groups, name),
            )
        }) by {
        let key = rule_key(registry, name, version);
        lemma_asked_step(eco, items, proactive, name, version);
        lemma_key_eq(registry, name, version, registry, item.name, item.version);
        lemma_key_eq(registry, name, version, registry, item.name, "*"@);
        assert(before.hits.dom().contains(key) <==> is_due(policy, eco, groups, fewer, proactive, name, version));
        if item.registry == registry && (key == exact || key == whole) {
            assert(is_asked_for(eco, items, proactive, name, version));
            lemma_moved_is_settled(
                after,
                before,
                policy,
                eco,
                groups,
                fewer,
                items,
                proactive,
                name,
                version,
            );
        } else if item.registry == registry {
            assert(is_unmoved(after, before, key));
        }
    }
    assert forall|key: Seq<Seq<char>>| #[trigger] after.hits.dom().contains(key) implies key == rule_key(
        registry,
        key[1],
        key[2],
    ) by {
        if item.registry == registry && key != exact && key != whole {
            assert(is_unmoved(after, before, key));
            assert(before.hits.dom().contains(key));
        } else if item.registry != registry {
            assert(before.hits.dom().contains(key));
        }
    }
}

proof fn lemma_inventory_settles(
    build: BuildText,
    policy: Policy,
    eco: Ecosystem,
    groups: Seq<Group>,
    items: Seq<ItemText>,
    proactive: bool,
)
    requires
        names_versions(items),
        is_settled(build, policy, eco, groups, Seq::empty(), proactive),
    ensures
        is_settled(
            build.after_inventory(policy, eco, groups, items),
            policy,
            eco,
            groups,
            items,
            proactive,
        ),
    decreases items.len(),
{
    if items.len() == 0 {
        assert(items =~= Seq::empty());
    } else {
        let fewer = items.drop_last();
        assert forall|i: int| 0 <= i < fewer.len() implies (#[trigger] fewer[i]).version != "*"@ by {
            assert(items[i].version != "*"@);
        }
        assert(items[items.len() - 1].version != "*"@);
        lemma_inventory_settles(build, policy, eco, groups, fewer, proactive);
        lemma_item_settles(
            build.after_inventory(policy, eco, groups, fewer),
            policy,
            eco,
            groups,
            items,
            proactive,
        );
    }
}

/// What proactive mode makes of a list of named advisories, key by key.
proof fn lemma_met_moves(
    build: BuildText,
    policy: Policy,
    eco: Ecosystem,
    named: Seq<(Seq<char>, Advisory)>,
    name: Seq<char>,
)
    requires
        policy.stops_malicious(),
    ensures
        is_moved(
            build.met_all(policy, eco.registry_name(), named),
            build,
            policy,
            eco,
            name,
            "*"@,
            listed_under(named, name),
        ),
    decreases named.len(),
{
    let registry = eco.registry_name();
    if named.len() == 0 {
        assert(listed_under(named, name) =~= Seq::empty()) by {
            reveal(Seq::filter);
        }
    } else {
        let fewer = named.drop_last();
        let (n, a) = named.last();
        lemma_met_moves(build, policy, eco, fewer, name);
        lemma_listed_push(named, name);
        lemma_key_eq(registry, name, "*"@, registry, n, "*"@);
        let list = listed_under(named, name);
        if n == name {
            assert(list.drop_last() =~= listed_under(fewer, name));
            lemma_some_speaks_step(policy, eco, "*"@, list);
        }
    }
}

proof fn lemma_met_keys(
    build: BuildText,
    policy: Policy,
    eco: Ecosystem,
    named: Seq<(Seq<char>, Advisory)>,
)
    requires
        forall|key: Seq<Seq<char>>| #[trigger]
            build.hits.dom().contains(key) ==> key == rule_key(eco.registry_name(), key[1], "*"@),
    ensures
        forall|key: Seq<Seq<char>>| #[trigger]
            build.met_all(policy, eco.registry_name(), named).hits.dom().contains(key) ==> key == rule_key(
                eco.registry_name(),
                key[1],
                "*"@,
            ),
    decreases named.len(),
{
    if named.len() > 0 {
        lemma_met_keys(build, policy, eco, named.drop_last());
        let fresh = rule_key(eco.registry_name(), named.last().0, "*"@);
        assert(fresh[1] == named.last().0);
        let before = build.met_all(policy, eco.registry_name(), named.drop_last());
        let after = build.met_all(policy, eco.registry_name(), named);
        assert forall|key: Seq<Seq<char>>| #[trigger] after.hits.dom().contains(key) implies key == rule_key(
            eco.registry_name(),
            key[1],
            "*"@,
        ) by {
            if key != fresh {
                assert(before.hits.dom().contains(key));
            }
        }
    }
}

proof fn lemma_feed_settles(policy: Policy, eco: Ecosystem, groups: Seq<Group>, proactive: bool)
    requires
        names_rise(groups),
    ensures
        is_settled(
            compiled(policy, eco, groups, None, proactive),
            policy,
            eco,
            groups,
            Seq::empty(),
            proactive,
        ),
{
    let registry = eco.registry_name();
    let build = compiled(policy, eco, groups, None, proactive);
    let none = Seq::<ItemText>::empty();
    let named = named_of(groups);
    if proactive && policy.stops_malicious() {
        lemma_met_keys(empty_build(), policy, eco, named);
    }
    assert forall|name: Seq<char>, version: Seq<char>|
        ({
            let key = #[trigger] rule_key(registry, name, version);
            &&& build.hits.dom().contains(key) <==> is_due(policy, eco, groups, none, proactive, name, version)
            &&& build.hits.dom().contains(key) ==> build.hits[key] == with_all(
                no_hit(),
                policy,
                eco,
                version,
                grouped_under(groups, name),
            )
        }) by {
        let key = rule_key(registry, name, version);
        assert(key[1] == name && key[2] == version);
        if proactive && policy.stops_malicious() {
            if version == "*"@ {
                lemma_met_moves(empty_build(), policy, eco, named, name);
                law_lookup_agrees_with_iteration(groups, name);
            } else if build.hits.dom().contains(key) {
                assert(key == rule_key(registry, key[1], "*"@));
                lemma_key_eq(registry, name, version, registry, name, "*"@);
            }
        }
    }
}

/// Which rules are due, said without the steps of a build: a rule is kept for a
/// version just where the registry holds it (or, for a whole package, where
/// proactive mode asks for it or the registry holds some version of it), no
/// exception lets it pass, and some advisory of the feed speaks against it; and
/// its hit is made of just those advisories, in the order of the feed.
pub proof fn law_outcome_of_a_build(
    policy: Policy,
    eco: Ecosystem,
    groups: Seq<Group>,
    inventory: Option<Seq<ItemText>>,
    proactive: bool,
    name: Seq<char>,
    version: Seq<char>,
)
    requires
        names_rise(groups),
        names_versions(lines_in(inventory)),
    ensures
        ({
            let hits = compiled(policy, eco, groups, inventory, proactive).hits;
            let key = rule_key(eco.registry_name(), name, version);
            &&& hits.dom().contains(key) <==> is_due(
                policy,
                eco,
                groups,
                lines_in(inventory),
                proactive,
                name,
                version,
            )
            &&& hits.dom().contains(key) ==> hits[key] == with_all(
                no_hit(),
                policy,
                eco,
                version,
                grouped_under(groups, name),
            )
        }),
{
    lemma_compiled_settles(policy, eco, groups, inventory, proactive);
}

proof fn lemma_compiled_settles(
    policy: Policy,
    eco: Ecosystem,
    groups: Seq<Group>,
    inventory: Option<Seq<ItemText>>,
    proactive: bool,
)
    requires
        names_rise(groups),
        names_versions(lines_in(inventory)),
    ensures
        is_settled(
            compiled(policy, eco, groups, inventory, proactive),
            policy,
            eco,
            groups,
            lines_in(inventory),
            proactive,
        ),
{
    let start = compiled(policy, eco, groups, None, proactive);
    lemma_feed_settles(policy, eco, groups, proactive);
    match inventory {
        Some(items) => {
            lemma_inventory_settles(start, policy, eco, groups, items, proactive);
        },
        None => {},
    }
}

/// The order of the inventory, and lines that come twice, make no difference to
/// the rules.
pub proof fn law_inventory_order_is_no_matter(
    policy: Policy,
    eco: Ecosystem,
    groups: Seq<Group>,
    a: Seq<ItemText>,
    b: Seq<ItemText>,
    proactive: bool,
)
    requires
        names_rise(groups),
        names_versions(a),
        forall|item: ItemText| a.contains(item) <==> b.contains(item),
    ensures
        compiled(policy, eco, groups, Some(a), proactive).hits == compiled(
            policy,
            eco,
            groups,
            Some(b),
            proactive,
        ).hits,
{
    let registry = eco.registry_name();
    assert forall|i: int| 0 <= i < b.len() implies (#[trigger] b[i]).version != "*"@ by {
        assert(b.contains(b[i]));
        assert(a.contains(b[i]));
        let j = choose|j: int| 0 <= j < a.len() && a[j] == b[i];
        assert(a[j].version != "*"@);
    }
    lemma_compiled_settles(policy, eco, groups, Some(a), proactive);
    lemma_compiled_settles(policy, eco, groups, Some(b), proactive);
    let x = compiled(policy, eco, groups, Some(a), proactive);
    let y = compiled(policy, eco, groups, Some(b), proactive);
    assert forall|name: Seq<char>, version: Seq<char>|
        is_asked_for(eco, a, proactive, name, version) == #[trigger] is_asked_for(eco, b, proactive, name, version) by {
        lemma_asked_alike(eco, a, b, proactive, name, version);
        lemma_asked_alike(eco, b, a, proactive, name, version);
    }
    assert forall|key: Seq<Seq<char>>| #[trigger] x.hits.dom().contains(key) <==> y.hits.dom().contains(key) by {
        let same = rule_key(registry, key[1], key[2]);
        assert(x.hits.dom().contains(same) <==> is_due(policy, eco, groups, a, proactive, key[1], key[2]));
        assert(y.hits.dom().contains(same) <==> is_due(policy, eco, groups, b, proactive, key[1], key[2]));
        assert(is_asked_for(eco, a, proactive, key[1], key[2]) == is_asked_for(
            eco,
            b,
            proactive,
            key[1],
            key[2],
        ));
    }
    assert forall|key: Seq<Seq<char>>| #[trigger] x.hits.dom().contains(key) implies x.hits[key] == y.hits[key] by {
        let same = rule_key(registry, key[1], key[2]);
        assert(key == same);
        assert(y.hits.dom().contains(key));
        assert(x.hits.dom().contains(same));
        assert(y.hits.dom().contains(same));
    }
    assert(x.hits =~= y.hits);
}

proof fn lemma_asked_alike(
    eco: Ecosystem,
    a: Seq<ItemText>,
    b: Seq<ItemText>,
    proactive: bool,
    name: Seq<char>,
    version: Seq<char>,
)
    requires
        forall|item: ItemText| a.contains(item) <==> b.contains(item),
    ensures
        is_asked_for(eco, a, proactive, name, version) ==> is_asked_for(eco, b, proactive, name, version),
{
    if is_asked_for(eco, a, proactive, name, version) && !(version == "*"@ && proactive) {
        let i = choose|i: int|
            0 <= i < a.len() && (#[trigger] a[i]).registry == eco.registry_name() && a[i].name == name && (version
                == "*"@ || a[i].version == version);
        assert(a.contains(a[i]));
        assert(b.contains(a[i]));
        let j = choose|j: int| 0 <= j < b.len() && b[j] == a[i];
        assert(b[j].registry == eco.registry_name());
    }
}

/// What a hit is made of: it names just the advisories that speak against the
/// version, is as severe as the worst of them, and malicious where one of them
/// is.
pub proof fn law_hit_is_made_of_its_advisories(
    policy: Policy,
    eco: Ecosystem,
    version: Seq<char>,
    list: Seq<Advisory>,
)
    ensures
        ({
            let hit = with_all(no_hit(), policy, eco, version, list);
            &&& forall|id: Seq<char>| #[trigger]
                hit.ids.contains(id) <==> exists|i: int|
                    0 <= i < list.len() && speaks_against(policy, eco, version, #[trigger] list[i]) && list[i].id == id
            &&& hit.malicious <==> exists|i: int|
                0 <= i < list.len() && speaks_against(policy, eco, version, #[trigger] list[i]) && list[i].kind
                    == Kind::Malicious
            &&& forall|i: int|
                0 <= i < list.len() && speaks_against(policy, eco, version, #[trigger] list[i])
                    ==> list[i].severity.rank() <= hit.severity.rank()
            &&& hit.severity.rank() == 0 || exists|i: int|
                0 <= i < list.len() && speaks_against(policy, eco, version, #[trigger] list[i]) && list[i].severity
                    == hit.severity
        }),
    decreases list.len(),
{
    let hit = with_all(no_hit(), policy, eco, version, list);
    if list.len() > 0 {
        let fewer = list.drop_last();
        let last = list.len() - 1;
        let before = with_all(no_hit(), policy, eco, version, fewer);
        law_hit_is_made_of_its_advisories(policy, eco, version, fewer);
        assert(forall|i: int| 0 <= i < fewer.len() ==> #[trigger] fewer[i] == list[i]);
        let speaks = speaks_against(policy, eco, version, list[last]);
        assert forall|id: Seq<char>| #[trigger] hit.ids.contains(id) <==> exists|i: int|
            0 <= i < list.len() && speaks_against(policy, eco, version, #[trigger] list[i]) && list[i].id == id by {
            if before.ids.contains(id) {
                let i = choose|i: int|
                    0 <= i < fewer.len() && speaks_against(policy, eco, version, #[trigger] fewer[i]) && fewer[i].id
                        == id;
                assert(list[i].id == id);
            }
            if exists|i: int|
                0 <= i < list.len() && speaks_against(policy, eco, version, #[trigger] list[i]) && list[i].id == id {
                let i = choose|i: int|
                    0 <= i < list.len() && speaks_against(policy, eco, version, #[trigger] list[i]) && list[i].id
                        == id;
                if i < last {
                    assert(fewer[i].id == id);
                    assert(before.ids.contains(id));
                }
            }
        }
        if before.malicious {
            let i = choose|i: int|
                0 <= i < fewer.len() && speaks_against(policy, eco, version, #[trigger] fewer[i]) && fewer[i].kind
                    == Kind::Malicious;
            assert(list[i].kind == Kind::Malicious);
        }
        if exists|i: int|
            0 <= i < list.len() && speaks_against(policy, eco, version, #[trigger] list[i]) && list[i].kind
                == Kind::Malicious {
            let i = choose|i: int|
                0 <= i < list.len() && speaks_against(policy, eco, version, #[trigger] list[i]) && list[i].kind
                    == Kind::Malicious;
            if i < last {
                assert(fewer[i].kind == Kind::Malicious);
            }
        }
        assert forall|i: int|
            0 <= i < list.len() && speaks_against(policy, eco, version, #[trigger] list[i]) implies
            list[i].severity.rank() <= hit.severity.rank() by {
            if i < last {
                assert(fewer[i].severity.rank() <= before.severity.rank());
            }
        }
        if hit.severity.rank() != 0 && hit.severity == before.severity {
            let i = choose|i: int|
                0 <= i < fewer.len() && speaks_against(policy, eco, version, #[trigger] fewer[i]) && fewer[i].severity
                    == before.severity;
            assert(list[i].severity == hit.severity);
        }
    }
}

/// The fix that a hit names is that of the first advisory that speaks against the
/// version and has one.
pub proof fn law_first_fix_is_named(
    policy: Policy,
    eco: Ecosystem,
    version: Seq<char>,
    list: Seq<Advisory>,
    i: int,
)
    requires
        0 <= i < list.len(),
        speaks_against(policy, eco, version, list[i]),
        list[i].fixed_in is Some,
        forall|j: int|
            0 <= j < i && speaks_against(policy, eco, version, #[trigger] list[j]) ==> list[j].fixed_in is None,
    ensures
        with_all(no_hit(), policy, eco, version, list).fixed_in == list[i].fixed_in,
    decreases list.len(),
{
    let fewer = list.drop_last();
    if i < fewer.len() {
        assert forall|j: int|
            0 <= j < i && speaks_against(policy, eco, version, #[trigger] fewer[j]) implies fewer[j].fixed_in
            is None by {
            assert(list[j] == fewer[j]);
        }
        law_first_fix_is_named(policy, eco, version, fewer, i);
    } else {
        assert forall|j: int|
            0 <= j < fewer.len() && speaks_against(policy, eco, version, #[trigger] fewer[j]) implies fewer[j].fixed_in
            is None by {
            assert(list[j] == fewer[j]);
        }
        lemma_no_fix(policy, eco, version, fewer);
    }
}

proof fn lemma_no_fix(policy: Policy, eco: Ecosystem, version: Seq<char>, list: Seq<Advisory>)
    requires
        forall|j: int|
            0 <= j < list.len() && speaks_against(policy, eco, version, #[trigger] list[j]) ==> list[j].fixed_in is None,
    ensures
        with_all(no_hit(), policy, eco, version, list).fixed_in is None,
    decreases list.len(),
{
    if list.len() > 0 {
        let fewer = list.drop_last();
        assert forall|j: int|
            0 <= j < fewer.len() && speaks_against(policy, eco, version, #[trigger] fewer[j]) implies fewer[j].fixed_in
            is None by {
            assert(list[j] == fewer[j]);
        }
        lemma_no_fix(policy, eco, version, fewer);
        assert(list[list.len() - 1] == list.last());
    }
}

/// The rules are for what the registry holds: a rule for a version is for one that
/// a line of the inventory names, and a rule for a whole package is for one of
/// which it names some version, unless proactive mode asked for it.
pub proof fn law_rules_are_for_what_is_held(
    policy: Policy,
    eco: Ecosystem,
    groups: Seq<Group>,
    inventory: Option<Seq<ItemText>>,
    proactive: bool,
    rules: Seq<RuleText>,
    i: int,
)
    requires
        names_rise(groups),
        names_versions(lines_in(inventory)),
        is_rules_of(rules, compiled(policy, eco, groups, inventory, proactive).hits),
        0 <= i < rules.len(),
    ensures
        rules[i].registry == eco.registry_name(),
        rules[i].version != "*"@ || !proactive ==> inventory is Some && exists|k: int|
            0 <= k < inventory->0.len() && (#[trigger] inventory->0[k]).registry == rules[i].registry
                && inventory->0[k].name == rules[i].name && (rules[i].version == "*"@ || inventory->0[k].version
                == rules[i].version),
{
    let key = rule_keys(rules)[i];
    let end = compiled(policy, eco, groups, inventory, proactive);
    assert(rule_keys(rules).contains(key));
    assert(is_owed(end.hits, key));
    law_every_rule_has_its_reason(policy, eco, groups, inventory, proactive, key);
    assert(key[0] == rules[i].registry && key[1] == rules[i].name && key[2] == rules[i].version);
    law_outcome_of_a_build(policy, eco, groups, inventory, proactive, rules[i].name, rules[i].version);
    if rules[i].version != "*"@ || !proactive {
        let lines = lines_in(inventory);
        let k = choose|k: int|
            0 <= k < lines.len() && (#[trigger] lines[k]).registry == eco.registry_name() && lines[k].name
                == rules[i].name && (rules[i].version == "*"@ || lines[k].version == rules[i].version);
        assert(inventory->0[k].registry == rules[i].registry);
    }
}

/// A hit names no fix where none of the advisories that speak against the version
/// has one.
pub proof fn law_no_fix_is_made_up(policy: Policy, eco: Ecosystem, version: Seq<char>, list: Seq<Advisory>)
    requires
        forall|j: int|
            0 <= j < list.len() && speaks_against(policy, eco, version, #[trigger] list[j]) ==> list[j].fixed_in is None,
    ensures
        with_all(no_hit(), policy, eco, version, list).fixed_in is None,
{
    lemma_no_fix(policy, eco, version, list);
}

} // verus!
