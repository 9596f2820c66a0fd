//! What a rule says of the advisories that were recorded for it, after any
//! sequence of calls on a builder.

use crate::advisory::{is_malicious_id, Advisory, Kind, Severity};
use crate::blocklist::{fix_text, purl_text, reason_text, rule_text, RuleText};
use crate::builder::{is_owed, is_rules_of, rule_keys};
use crate::hits::{
    empty_build, is_gated, is_wholly_malicious, no_hit, rule_key, verdict_of, BuildText, HitText,
};
use crate::index::{grouped_under, ids_tell_kinds, named_of, Group};
use crate::inventory::ItemText;
use crate::order::{
    in_order, key_before, keys_rise, lemma_in_order, lemma_insert_rises, lemma_key_flip, lemma_key_same,
    lemma_key_transitive, lemma_single_keys, single_keys, stands_at, texts_rise,
};
use crate::policy::Policy;
use crate::text::{joined, occurs_at};
use crate::vers::{Ecosystem, Match};
use vstd::prelude::*;

verus! {

/// A call on a builder: a feed met in proactive mode, or one line or a whole
/// inventory matched against a feed.
pub enum Call {
    Proactive { policy: Policy, eco: Ecosystem, groups: Seq<Group> },
    Line { policy: Policy, eco: Ecosystem, groups: Seq<Group>, item: ItemText },
    Inventory { policy: Policy, eco: Ecosystem, groups: Seq<Group>, items: Seq<ItemText> },
}

impl Call {
    /// What is known after the call.
    pub open spec fn after(self, build: BuildText) -> BuildText {
        match self {
            Call::Proactive { policy, eco, groups } => build.after_feed(policy, eco, groups),
            Call::Line { policy, eco, groups, item } => build.after_item(policy, eco, groups, item),
            Call::Inventory { policy, eco, groups, items } => build.after_inventory(policy, eco, groups, items),
        }
    }

    /// The feed of the call.
    pub open spec fn feed(self) -> Seq<Group> {
        match self {
            Call::Proactive { policy, eco, groups } => groups,
            Call::Line { policy, eco, groups, item } => groups,
            Call::Inventory { policy, eco, groups, items } => groups,
        }
    }

    /// What the call records: each advisory with the key that it is recorded for.
    pub open spec fn records(self) -> Set<(Seq<Seq<char>>, Advisory)> {
        match self {
            Call::Proactive { policy, eco, groups } => if policy.stops_malicious() {
                feed_records(policy, eco, named_of(groups))
            } else {
                Set::empty()
            },
            Call::Line { policy, eco, groups, item } => line_records(policy, eco, groups, item),
            Call::Inventory { policy, eco, groups, items } => inventory_records(policy, eco, groups, items),
        }
    }
}

/// What a new builder knows after a sequence of calls.
pub open spec fn after_calls(calls: Seq<Call>) -> BuildText
    decreases calls.len(),
{
    if calls.len() == 0 {
        empty_build()
    } else {
        calls.last().after(after_calls(calls.drop_last()))
    }
}

/// The key that is blocked, unless an exception covers it.
pub open spec fn blocked_key(
    policy: Policy,
    eco: Ecosystem,
    name: Seq<char>,
    version: Seq<char>,
) -> Option<Seq<Seq<char>>> {
    if policy.lets_pass(eco.registry_name(), name, version) {
        None
    } else {
        Some(rule_key(eco.registry_name(), name, version))
    }
}

/// The key that an advisory is recorded for in proactive mode, if any.
pub open spec fn met_key(policy: Policy, eco: Ecosystem, name: Seq<char>, a: Advisory) -> Option<Seq<Seq<char>>> {
    if is_wholly_malicious(a) {
        blocked_key(policy, eco, name, "*"@)
    } else {
        None
    }
}

/// The key that an advisory is recorded for when a package version is held
/// against it, if any.
pub open spec fn held_key(
    policy: Policy,
    eco: Ecosystem,
    name: Seq<char>,
    version: Seq<char>,
    a: Advisory,
) -> Option<Seq<Seq<char>>> {
    if !is_gated(policy, a) {
        None
    } else if is_wholly_malicious(a) {
        blocked_key(policy, eco, name, "*"@)
    } else if verdict_of(eco, version, a) == Match::Affected {
        blocked_key(policy, eco, name, version)
    } else {
        None
    }
}

/// What proactive mode records of named advisories.
pub open spec fn feed_records(
    policy: Policy,
    eco: Ecosystem,
    named: Seq<(Seq<char>, Advisory)>,
) -> Set<(Seq<Seq<char>>, Advisory)> {
    Set::new(
        |p: (Seq<Seq<char>>, Advisory)|
            exists|i: int|
                0 <= i < named.len() && (#[trigger] named[i]).1 == p.1 && met_key(policy, eco, named[i].0, p.1)
                    == Some(p.0),
    )
}

/// What is recorded when a package version is held against advisories.
pub open spec fn held_records(
    policy: Policy,
    eco: Ecosystem,
    name: Seq<char>,
    version: Seq<char>,
    list: Seq<Advisory>,
) -> Set<(Seq<Seq<char>>, Advisory)> {
    Set::new(
        |p: (Seq<Seq<char>>, Advisory)|
            list.contains(p.1) && held_key(policy, eco, name, version, p.1) == Some(p.0),
    )
}

/// What is recorded for one inventory line.
pub open spec fn line_records(
    policy: Policy,
    eco: Ecosystem,
    groups: Seq<Group>,
    item: ItemText,
) -> Set<(Seq<Seq<char>>, Advisory)> {
    if item.registry == eco.registry_name() {
        held_records(policy, eco, item.name, item.version, grouped_under(groups, item.name))
    } else {
        Set::empty()
    }
}

/// What is recorded for an inventory.
pub open spec fn inventory_records(
    policy: Policy,
    eco: Ecosystem,
    groups: Seq<Group>,
    items: Seq<ItemText>,
) -> Set<(Seq<Seq<char>>, Advisory)> {
    Set::new(
        |p: (Seq<Seq<char>>, Advisory)|
            exists|i: int|
                0 <= i < items.len() && line_records(policy, eco, groups, #[trigger] items[i]).contains(p),
    )
}

/// What a sequence of calls records.
pub open spec fn all_records(calls: Seq<Call>) -> Set<(Seq<Seq<char>>, Advisory)> {
    Set::new(
        |p: (Seq<Seq<char>>, Advisory)|
            exists|i: int| 0 <= i < calls.len() && (#[trigger] calls[i]).records().contains(p),
    )
}

/// The advisories that are recorded for a key.
pub open spec fn recorded_for(
    records: Set<(Seq<Seq<char>>, Advisory)>,
    key: Seq<Seq<char>>,
) -> Set<Advisory> {
    Set::new(|a: Advisory| records.contains((key, a)))
}

/// Some advisory of a set has the id.
pub open spec fn has_id(set: Set<Advisory>, id: Seq<char>) -> bool {
    exists|a: Advisory| #[trigger] set.contains(a) && a.id == id
}

/// A hit is made of a set of advisories: it has just their ids, is malicious
/// where one of them is, and is as severe as the worst of them.
pub open spec fn is_made_of(hit: HitText, set: Set<Advisory>) -> bool {
    &&& hit.ids.finite()
    &&& forall|id: Seq<char>| #[trigger] hit.ids.contains(id) <==> has_id(set, id)
    &&& hit.malicious <==> exists|a: Advisory| #[trigger] set.contains(a) && a.kind == Kind::Malicious
    &&& forall|a: Advisory| #[trigger] set.contains(a) ==> a.severity.rank() <= hit.severity.rank()
    &&& exists|a: Advisory| #[trigger] set.contains(a) && a.severity == hit.severity
}

/// A build is made of records: it has a hit for each key with a record, made of
/// the advisories that are recorded for it.
pub open spec fn is_build_from(build: BuildText, records: Set<(Seq<Seq<char>>, Advisory)>) -> bool {
    forall|key: Seq<Seq<char>>|
        {
            &&& #[trigger] build.hits.dom().contains(key) <==> exists|a: Advisory| #[trigger]
                recorded_for(records, key).contains(a)
            &&& build.hits.dom().contains(key) ==> is_made_of(build.hits[key], recorded_for(records, key))
        }
}

proof fn lemma_hit_grows(hit: HitText, set: Set<Advisory>, a: Advisory)
    requires
        is_made_of(hit, set),
    ensures
        is_made_of(hit.with(a), set.insert(a)),
{
    let more = set.insert(a);
    let after = hit.with(a);
    assert(more.contains(a));
    assert forall|id: Seq<char>| #[trigger] after.ids.contains(id) <==> has_id(more, id) by {
        if hit.ids.contains(id) {
            let b = choose|b: Advisory| #[trigger] set.contains(b) && b.id == id;
            assert(more.contains(b));
        }
        if has_id(more, id) {
            let b = choose|b: Advisory| #[trigger] more.contains(b) && b.id == id;
            if b != a {
                assert(set.contains(b));
                assert(has_id(set, id));
            }
        }
    }
    if hit.malicious {
        let b = choose|b: Advisory| #[trigger] set.contains(b) && b.kind == Kind::Malicious;
        assert(more.contains(b));
    }
    if exists|b: Advisory| #[trigger] more.contains(b) && b.kind == Kind::Malicious {
        let b = choose|b: Advisory| #[trigger] more.contains(b) && b.kind == Kind::Malicious;
        if b != a {
            assert(set.contains(b));
        }
    }
    if after.severity != a.severity {
        let b = choose|b: Advisory| #[trigger] set.contains(b) && b.severity == hit.severity;
        assert(more.contains(b));
    }
}

proof fn lemma_first_hit(a: Advisory)
    ensures
        is_made_of(no_hit().with(a), Set::empty().insert(a)),
{
    let set = Set::<Advisory>::empty().insert(a);
    let hit = no_hit().with(a);
    assert(set.contains(a));
    assert forall|id: Seq<char>| #[trigger] hit.ids.contains(id) <==> has_id(set, id) by {
        if has_id(set, id) {
            let b = choose|b: Advisory| #[trigger] set.contains(b) && b.id == id;
            assert(b == a);
        }
    }
    assert(hit.severity == a.severity);
}

/// One more record makes one more part of its hit.
proof fn lemma_record_step(
    build: BuildText,
    records: Set<(Seq<Seq<char>>, Advisory)>,
    key: Seq<Seq<char>>,
    a: Advisory,
)
    requires
        is_build_from(build, records),
    ensures
        is_build_from(build.recorded(key, a), records.insert((key, a))),
{
    let after = build.recorded(key, a);
    let more = records.insert((key, a));
    assert forall|k: Seq<Seq<char>>|
        {
            &&& #[trigger] after.hits.dom().contains(k) <==> exists|b: Advisory| #[trigger]
                recorded_for(more, k).contains(b)
            &&& after.hits.dom().contains(k) ==> is_made_of(after.hits[k], recorded_for(more, k))
        } by {
        assert(build.hits.dom().contains(k) <==> exists|b: Advisory| #[trigger]
            recorded_for(records, k).contains(b));
        if k == key {
            assert(recorded_for(more, k) =~= recorded_for(records, k).insert(a));
            assert(recorded_for(more, k).contains(a));
            if build.hits.dom().contains(k) {
                lemma_hit_grows(build.hits[k], recorded_for(records, k), a);
            } else {
                assert forall|b: Advisory| !recorded_for(records, k).contains(b) by {}
                assert(recorded_for(records, k) =~= Set::empty());
                lemma_first_hit(a);
            }
        } else {
            assert(recorded_for(more, k) =~= recorded_for(records, k));
        }
    }
}

/// A step that records an advisory for a key, or does not.
proof fn lemma_block_step(
    build: BuildText,
    records: Set<(Seq<Seq<char>>, Advisory)>,
    policy: Policy,
    eco: Ecosystem,
    name: Seq<char>,
    version: Seq<char>,
    a: Advisory,
)
    requires
        is_build_from(build, records),
    ensures
        is_build_from(
            build.blocked_unless_excepted(policy, eco.registry_name(), name, version, a),
            match blocked_key(policy, eco, name, version) {
                Some(key) => records.insert((key, a)),
                None => records,
            },
        ),
{
    if !policy.lets_pass(eco.registry_name(), name, version) {
        lemma_record_step(build, records, rule_key(eco.registry_name(), name, version), a);
    }
}

proof fn lemma_feed_from(
    build: BuildText,
    records: Set<(Seq<Seq<char>>, Advisory)>,
    policy: Policy,
    eco: Ecosystem,
    named: Seq<(Seq<char>, Advisory)>,
)
    requires
        is_build_from(build, records),
    ensures
        is_build_from(
            build.met_all(policy, eco.registry_name(), named),
            records.union(feed_records(policy, eco, named)),
        ),
    decreases named.len(),
{
    let all = feed_records(policy, eco, named);
    if named.len() == 0 {
        assert(records.union(all) =~= records);
    } else {
        let fewer = named.drop_last();
        let (name, a) = named.last();
        let before = records.union(feed_records(policy, eco, fewer));
        lemma_feed_from(build, records, policy, eco, fewer);
        let mid = build.met_all(policy, eco.registry_name(), fewer);
        if is_wholly_malicious(a) {
            lemma_block_step(mid, before, policy, eco, name, "*"@, a);
        }
        let after = match met_key(policy, eco, name, a) {
            Some(key) => before.insert((key, a)),
            None => before,
        };
        assert(named[named.len() - 1] == (name, a));
        assert(forall|i: int| 0 <= i < fewer.len() ==> #[trigger] fewer[i] == named[i]);
        assert forall|p: (Seq<Seq<char>>, Advisory)| after.contains(p) <==> records.union(all).contains(p) by {
            if feed_records(policy, eco, fewer).contains(p) {
                let i = choose|i: int|
                    0 <= i < fewer.len() && (#[trigger] fewer[i]).1 == p.1 && met_key(policy, eco, fewer[i].0, p.1)
                        == Some(p.0);
                assert(named[i].1 == p.1);
            }
            if all.contains(p) {
                let i = choose|i: int|
                    0 <= i < named.len() && (#[trigger] named[i]).1 == p.1 && met_key(policy, eco, named[i].0, p.1)
                        == Some(p.0);
                if i < fewer.len() {
                    assert(fewer[i].1 == p.1);
                }
            }
        }
        assert(after =~= records.union(all));
    }
}

proof fn lemma_held_from(
    build: BuildText,
    records: Set<(Seq<Seq<char>>, Advisory)>,
    policy: Policy,
    eco: Ecosystem,
    name: Seq<char>,
    version: Seq<char>,
    list: Seq<Advisory>,
)
    requires
        is_build_from(build, records),
    ensures
        is_build_from(
            build.held_against_all(policy, eco, name, version, list),
            records.union(held_records(policy, eco, name, version, list)),
        ),
    decreases list.len(),
{
    let all = held_records(policy, eco, name, version, list);
    if list.len() == 0 {
        assert(records.union(all) =~= records);
    } else {
        let fewer = list.drop_last();
        let a = list.last();
        let before = records.union(held_records(policy, eco, name, version, fewer));
        lemma_held_from(build, records, policy, eco, name, version, fewer);
        let mid = build.held_against_all(policy, eco, name, version, fewer);
        let step = mid.held_against(policy, eco, name, version, a);
        if is_gated(policy, a) {
            if is_wholly_malicious(a) {
                lemma_block_step(mid, before, policy, eco, name, "*"@, a);
            } else if verdict_of(eco, version, a) == Match::Affected {
                lemma_block_step(mid, before, policy, eco, name, version, a);
            } else {
                assert(step.hits == mid.hits);
            }
        }
        let after = match held_key(policy, eco, name, version, a) {
            Some(key) => before.insert((key, a)),
            None => before,
        };
        assert(is_build_from(step, after));
        assert forall|p: (Seq<Seq<char>>, Advisory)| after.contains(p) <==> records.union(all).contains(p) by {
            if list.contains(p.1) {
                let i = choose|i: int| 0 <= i < list.len() && list[i] == p.1;
                if i < fewer.len() {
                    assert(fewer[i] == p.1);
                }
            }
            if fewer.contains(p.1) {
                let i = choose|i: int| 0 <= i < fewer.len() && fewer[i] == p.1;
                assert(list[i] == p.1);
            }
            assert(list[list.len() - 1] == a);
        }
        assert(after =~= records.union(all));
    }
}

proof fn lemma_line_from(
    build: BuildText,
    records: Set<(Seq<Seq<char>>, Advisory)>,
    policy: Policy,
    eco: Ecosystem,
    groups: Seq<Group>,
    item: ItemText,
)
    requires
        is_build_from(build, records),
    ensures
        is_build_from(
            build.after_item(policy, eco, groups, item),
            records.union(line_records(policy, eco, groups, item)),
        ),
{
    assert(is_build_from(build.counted(), records));
    if item.registry == eco.registry_name() {
        let list = grouped_under(groups, item.name);
        lemma_held_from(build.counted(), records, policy, eco, item.name, item.version, list);
    } else {
        assert(records.union(line_records(policy, eco, groups, item)) =~= records);
        assert(build.after_item(policy, eco, groups, item).hits == build.hits);
    }
}

proof fn lemma_inventory_from(
    build: BuildText,
    records: Set<(Seq<Seq<char>>, Advisory)>,
    policy: Policy,
    eco: Ecosystem,
    groups: Seq<Group>,
    items: Seq<ItemText>,
)
    requires
        is_build_from(build, records),
    ensures
        is_build_from(
            build.after_inventory(policy, eco, groups, items),
            records.union(inventory_records(policy, eco, groups, items)),
        ),
    decreases items.len(),
{
    let all = inventory_records(policy, eco, groups, items);
    if items.len() == 0 {
        assert(records.union(all) =~= records);
    } else {
        let fewer = items.drop_last();
        let item = items.last();
        let before = records.union(inventory_records(policy, eco, groups, fewer));
        lemma_inventory_from(build, records, policy, eco, groups, fewer);
        let mid = build.after_inventory(policy, eco, groups, fewer);
        let line = line_records(policy, eco, groups, item);
        lemma_line_from(mid, before, policy, eco, groups, item);
        assert(forall|i: int| 0 <= i < fewer.len() ==> #[trigger] fewer[i] == items[i]);
        assert(items[items.len() - 1] == item);
        assert forall|p: (Seq<Seq<char>>, Advisory)|
            before.union(line).contains(p) <==> records.union(all).contains(p) by {
            if inventory_records(policy, eco, groups, fewer).contains(p) {
                let i = choose|i: int|
                    0 <= i < fewer.len() && line_records(policy, eco, groups, #[trigger] fewer[i]).contains(p);
                assert(line_records(policy, eco, groups, items[i]).contains(p));
            }
            if all.contains(p) {
                let i = choose|i: int|
                    0 <= i < items.len() && line_records(policy, eco, groups, #[trigger] items[i]).contains(p);
                if i < fewer.len() {
                    assert(line_records(policy, eco, groups, fewer[i]).contains(p));
                }
            }
        }
        assert(before.union(line) =~= records.union(all));
    }
}

/// After any sequence of calls, a builder has a hit for each key that something
/// was recorded for, made of just what was recorded for it.
pub proof fn law_hits_are_what_was_recorded(calls: Seq<Call>)
    ensures
        is_build_from(after_calls(calls), all_records(calls)),
    decreases calls.len(),
{
    let all = all_records(calls);
    if calls.len() == 0 {
        assert forall|key: Seq<Seq<char>>, a: Advisory| !#[trigger] recorded_for(all, key).contains(a) by {}
    } else {
        let fewer = calls.drop_last();
        let call = calls.last();
        let before = all_records(fewer);
        law_hits_are_what_was_recorded(fewer);
        let build = after_calls(fewer);
        match call {
            Call::Proactive { policy, eco, groups } => {
                if policy.stops_malicious() {
                    lemma_feed_from(build, before, policy, eco, named_of(groups));
                } else {
                    assert(before.union(call.records()) =~= before);
                }
            },
            Call::Line { policy, eco, groups, item } => {
                lemma_line_from(build, before, policy, eco, groups, item);
            },
            Call::Inventory { policy, eco, groups, items } => {
                lemma_inventory_from(build, before, policy, eco, groups, items);
            },
        }
        assert(forall|i: int| 0 <= i < fewer.len() ==> #[trigger] fewer[i] == calls[i]);
        assert(calls[calls.len() - 1] == call);
        assert forall|p: (Seq<Seq<char>>, Advisory)|
            before.union(call.records()).contains(p) <==> all.contains(p) by {
            if before.contains(p) {
                let i = choose|i: int| 0 <= i < fewer.len() && (#[trigger] fewer[i]).records().contains(p);
                assert(calls[i].records().contains(p));
            }
            if all.contains(p) {
                let i = choose|i: int| 0 <= i < calls.len() && (#[trigger] calls[i]).records().contains(p);
                if i < fewer.len() {
                    assert(fewer[i].records().contains(p));
                }
            }
        }
        assert(before.union(call.records()) =~= all);
    }
}

/// A text holds another somewhere.
pub open spec fn holds_text(s: Seq<char>, part: Seq<char>) -> bool {
    exists|at: int| occurs_at(s, part, at)
}

/// Where to read about an advisory.
pub open spec fn link_text(id: Seq<char>) -> Seq<char> {
    "https://osv.dev/vulnerability/"@ + id
}

/// A rule says what a set of advisories says: the rule names just their ids, in
/// order; it is for a malicious package where one of the ids says so; it is as
/// severe as the worst of them; its package URL is that of its key; and its
/// reason names each id and links to the first.
pub open spec fn says_all_of(rule: RuleText, set: Set<Advisory>) -> bool {
    &&& rule.meta.osv.len() > 0
    &&& texts_rise(rule.meta.osv)
    &&& forall|id: Seq<char>| #[trigger] rule.meta.osv.contains(id) <==> has_id(set, id)
    &&& rule.meta.kind == "malicious"@ <==> exists|id: Seq<char>| #[trigger]
        rule.meta.osv.contains(id) && is_malicious_id(id)
    &&& rule.meta.kind == "malicious"@ || rule.meta.kind == "vulnerability"@
    &&& exists|a: Advisory| #[trigger] set.contains(a) && rule.meta.severity == a.severity.word() && is_worst(set, a)
    &&& rule.meta.purl == purl_text(rule.registry, rule.name, rule.version)
    &&& forall|id: Seq<char>| #[trigger] rule.meta.osv.contains(id) ==> holds_text(rule.reason, id)
    &&& holds_text(rule.reason, link_text(rule.meta.osv[0]))
}

/// No advisory of the set is more severe.
pub open spec fn is_worst(set: Set<Advisory>, a: Advisory) -> bool {
    forall|b: Advisory| #[trigger] set.contains(b) ==> b.severity.rank() <= a.severity.rank()
}

/// A finite set of texts can be put in order.
proof fn lemma_set_in_order(set: Set<Seq<char>>)
    requires
        set.finite(),
    ensures
        texts_rise(in_order(set)),
        forall|t: Seq<char>| #[trigger] in_order(set).contains(t) <==> set.contains(t),
    decreases set.len(),
{
    if set.len() == 0 {
        let none = Seq::<Seq<char>>::empty();
        assert(set =~= Set::empty());
        assert(forall|t: Seq<char>| #[trigger] none.contains(t) <==> set.contains(t));
        lemma_in_order(none, set);
    } else {
        let x = set.choose();
        let rest = set.remove(x);
        lemma_set_in_order(rest);
        let list = in_order(rest);
        lemma_single_keys(list);
        let keys = single_keys(list);
        assert(!list.contains(x));
        assert(!keys.contains(seq![x]));
        let at = lemma_place(keys, seq![x]);
        lemma_insert_rises(keys, seq![x], at);
        let more = list.insert(at, x);
        assert(single_keys(more) =~= keys.insert(at, seq![x]));
        lemma_single_keys(more);
        assert forall|t: Seq<char>| #[trigger] more.contains(t) <==> set.contains(t) by {
            if list.contains(t) {
                let i = choose|i: int| 0 <= i < list.len() && list[i] == t;
                assert(more[if i < at { i } else { i + 1 }] == t);
            }
            assert(more[at] == x);
            if more.contains(t) {
                let i = choose|i: int| 0 <= i < more.len() && more[i] == t;
                if i != at {
                    assert(list[if i < at { i } else { i - 1 }] == t);
                }
            }
        }
        lemma_in_order(more, set);
    }
}

/// A key that is not in a rising list has a place in it.
proof fn lemma_place(keys: Seq<Seq<Seq<char>>>, key: Seq<Seq<char>>) -> (at: int)
    requires
        keys_rise(keys),
        !keys.contains(key),
    ensures
        stands_at(keys, key, at, false),
    decreases keys.len(),
{
    if keys.len() == 0 {
        0
    } else {
        let last = keys.last();
        assert(keys[keys.len() - 1] == last);
        lemma_key_same(last, key);
        lemma_key_flip(last, key);
        if key_before(last, key) {
            assert forall|i: int| 0 <= i < keys.len() implies key_before(#[trigger] keys[i], key) by {
                if i < keys.len() - 1 {
                    assert(key_before(keys[i], last));
                    lemma_key_transitive(keys[i], last, key);
                }
            }
            keys.len() as int
        } else {
            let fewer = keys.drop_last();
            assert(forall|i: int| 0 <= i < fewer.len() ==> #[trigger] fewer[i] == keys[i]);
            assert(!fewer.contains(key)) by {
                if fewer.contains(key) {
                    let i = choose|i: int| 0 <= i < fewer.len() && fewer[i] == key;
                    assert(keys[i] == key);
                }
            }
            let at = lemma_place(fewer, key);
            assert forall|i: int| at <= i < keys.len() implies key_before(key, #[trigger] keys[i]) by {
                if i < fewer.len() {
                    assert(key_before(key, fewer[i]));
                }
            }
            assert forall|i: int| 0 <= i < at implies key_before(#[trigger] keys[i], key) by {
                assert(key_before(fewer[i], key));
            }
            at
        }
    }
}

proof fn lemma_holds_in_sum(a: Seq<char>, b: Seq<char>, part: Seq<char>)
    ensures
        holds_text(a, part) ==> holds_text(a + b, part),
        holds_text(b, part) ==> holds_text(a + b, part),
{
    if holds_text(a, part) {
        let at = choose|at: int| occurs_at(a, part, at);
        assert((a + b).subrange(at, at + part.len()) =~= a.subrange(at, at + part.len()));
        assert(occurs_at(a + b, part, at));
    }
    if holds_text(b, part) {
        let at = choose|at: int| occurs_at(b, part, at);
        let there = a.len() + at;
        assert((a + b).subrange(there, there + part.len()) =~= b.subrange(at, at + part.len()));
        assert(occurs_at(a + b, part, there));
    }
}

proof fn lemma_holds_itself(s: Seq<char>)
    ensures
        holds_text(s, s),
{
    assert(s.subrange(0, s.len() as int) =~= s);
    assert(occurs_at(s, s, 0));
}

/// A joined text holds each of its parts.
proof fn lemma_joined_holds(list: Seq<Seq<char>>, sep: Seq<char>, i: int)
    requires
        0 <= i < list.len(),
    ensures
        holds_text(joined(list, sep), list[i]),
    decreases list.len(),
{
    lemma_holds_itself(list[i]);
    if list.len() > 1 {
        let head = joined(list.drop_last(), sep);
        lemma_holds_in_sum(head + sep, list.last(), list[i]);
        if i < list.len() - 1 {
            lemma_joined_holds(list.drop_last(), sep, i);
            lemma_holds_in_sum(head, sep, list[i]);
        }
    }
}

/// What a reason of either kind ends with, up to the link.
proof fn lemma_leads_to_link() -> (leads: (Seq<char>, Seq<char>))
    ensures
        ") — blocked by dozor · https://osv.dev/vulnerability/"@ == leads.0 + "https://osv.dev/vulnerability/"@,
        " · https://osv.dev/vulnerability/"@ == leads.1 + "https://osv.dev/vulnerability/"@,
{
    reveal_strlit("https://osv.dev/vulnerability/");
    reveal_strlit(") — blocked by dozor · https://osv.dev/vulnerability/");
    reveal_strlit(" · https://osv.dev/vulnerability/");
    let link = "https://osv.dev/vulnerability/"@;
    let long = ") — blocked by dozor · https://osv.dev/vulnerability/"@;
    let short = " · https://osv.dev/vulnerability/"@;
    let leads = (long.take(long.len() - link.len()), short.take(short.len() - link.len()));
    assert(long =~= leads.0 + link);
    assert(short =~= leads.1 + link);
    leads
}

/// A text with joined ids and a link in it holds each id and the link.
proof fn lemma_line_holds(head: Seq<char>, ids: Seq<Seq<char>>, lead: Seq<char>, line: Seq<char>)
    requires
        ids.len() > 0,
        line == head + joined(ids, ", "@) + (lead + link_text(ids[0])),
    ensures
        forall|id: Seq<char>| #[trigger] ids.contains(id) ==> holds_text(line, id),
        holds_text(line, link_text(ids[0])),
{
    let list = joined(ids, ", "@);
    let link = link_text(ids[0]);
    let tail = lead + link;
    lemma_holds_itself(link);
    lemma_holds_in_sum(lead, link, link);
    lemma_holds_in_sum(head + list, tail, link);
    assert forall|id: Seq<char>| #[trigger] ids.contains(id) implies holds_text(line, id) by {
        let i = choose|i: int| 0 <= i < ids.len() && ids[i] == id;
        lemma_joined_holds(ids, ", "@, i);
        lemma_holds_in_sum(head, list, id);
        lemma_holds_in_sum(head + list, tail, id);
    }
}

/// The reason of a rule names each id and links to the first.
proof fn lemma_reason_holds(ids: Seq<Seq<char>>, severity: Severity, malicious: bool, fixed_in: Option<Seq<char>>)
    requires
        ids.len() > 0,
    ensures
        forall|id: Seq<char>| #[trigger] ids.contains(id) ==> holds_text(
            reason_text(ids, severity, malicious, fixed_in),
            id,
        ),
        holds_text(reason_text(ids, severity, malicious, fixed_in), link_text(ids[0])),
{
    let list = joined(ids, ", "@);
    let line = reason_text(ids, severity, malicious, fixed_in);
    let (long, short) = lemma_leads_to_link();
    if malicious {
        let head = "MALICIOUS package ("@;
        assert(line =~= head + list + (long + link_text(ids[0])));
        lemma_line_holds(head, ids, long, line);
    } else {
        let head = severity.word() + " severity vulnerability ("@;
        let lead = ")"@ + fix_text(fixed_in) + short;
        assert(line =~= head + list + (lead + link_text(ids[0])));
        lemma_line_holds(head, ids, lead, line);
    }
}

proof fn lemma_named_are_told(groups: Seq<Group>)
    requires
        ids_tell_kinds(groups),
    ensures
        forall|i: int| 0 <= i < named_of(groups).len() ==> (#[trigger] named_of(groups)[i]).1.is_told_by_id(),
    decreases groups.len(),
{
    if groups.len() > 0 {
        let fewer = groups.drop_last();
        let last = groups.last();
        assert(ids_tell_kinds(fewer)) by {
            assert forall|g: int, i: int|
                0 <= g < fewer.len() && 0 <= i < fewer[g].advisories.len() implies (
            #[trigger] fewer[g].advisories[i]).is_told_by_id() by {
                assert(groups[g].advisories[i].is_told_by_id());
            }
        }
        lemma_named_are_told(fewer);
        let named = named_of(groups);
        assert forall|i: int| 0 <= i < named.len() implies (#[trigger] named[i]).1.is_told_by_id() by {
            let before = named_of(fewer);
            if i < before.len() {
                assert(named[i] == before[i]);
            } else {
                let j = i - before.len();
                assert(named[i].1 == last.advisories[j]);
                assert(groups[groups.len() - 1].advisories[j].is_told_by_id());
            }
        }
    }
}

proof fn lemma_line_is_told(
    policy: Policy,
    eco: Ecosystem,
    groups: Seq<Group>,
    item: ItemText,
    p: (Seq<Seq<char>>, Advisory),
)
    requires
        ids_tell_kinds(groups),
        line_records(policy, eco, groups, item).contains(p),
    ensures
        p.1.is_told_by_id(),
{
    let list = grouped_under(groups, item.name);
    assert(list.contains(p.1));
    let j = choose|j: int| 0 <= j < list.len() && list[j] == p.1;
    let g = choose|g: int| 0 <= g < groups.len() && (#[trigger] groups[g]).name == item.name;
    assert(groups[g].advisories[j].is_told_by_id());
}

/// The ids of what a call records tell its kind, where those of its feed do.
proof fn lemma_recorded_are_told(call: Call, p: (Seq<Seq<char>>, Advisory))
    requires
        ids_tell_kinds(call.feed()),
        call.records().contains(p),
    ensures
        p.1.is_told_by_id(),
{
    match call {
        Call::Proactive { policy, eco, groups } => {
            lemma_named_are_told(groups);
        },
        Call::Line { policy, eco, groups, item } => {
            lemma_line_is_told(policy, eco, groups, item, p);
        },
        Call::Inventory { policy, eco, groups, items } => {
            let i = choose|i: int|
                0 <= i < items.len() && line_records(policy, eco, groups, #[trigger] items[i]).contains(p);
            lemma_line_is_told(policy, eco, groups, items[i], p);
        },
    }
}

/// After any sequence of calls on a builder, whose feeds are indexes (the id of
/// each advisory tells its kind), each rule says what the advisories say that
/// were recorded for its key.
pub proof fn law_rule_says_what_was_recorded(calls: Seq<Call>, rules: Seq<RuleText>, i: int)
    requires
        forall|c: int| 0 <= c < calls.len() ==> ids_tell_kinds((#[trigger] calls[c]).feed()),
        is_rules_of(rules, after_calls(calls).hits),
        0 <= i < rules.len(),
    ensures
        says_all_of(rules[i], recorded_for(all_records(calls), rule_keys(rules)[i])),
{
    let hits = after_calls(calls).hits;
    let key = rule_keys(rules)[i];
    let set = recorded_for(all_records(calls), key);
    let hit = hits[key];
    let rule = rules[i];
    law_hits_are_what_was_recorded(calls);
    assert(rule_keys(rules).contains(key));
    assert(is_owed(hits, key));
    assert(is_made_of(hit, set));
    assert(rule == rule_text(key, hit));
    lemma_set_in_order(hit.ids);
    let worst = choose|a: Advisory| #[trigger] set.contains(a) && a.severity == hit.severity;
    assert(is_worst(set, worst));
    assert(has_id(set, worst.id));
    assert(rule.meta.osv.contains(worst.id));
    lemma_reason_holds(rule.meta.osv, hit.severity, hit.malicious, hit.fixed_in);
    assert forall|a: Advisory| #[trigger] set.contains(a) implies a.is_told_by_id() by {
        let p = (key, a);
        let c = choose|c: int| 0 <= c < calls.len() && (#[trigger] calls[c]).records().contains(p);
        lemma_recorded_are_told(calls[c], p);
    }
    if hit.malicious {
        let a = choose|a: Advisory| #[trigger] set.contains(a) && a.kind == Kind::Malicious;
        assert(has_id(set, a.id));
        assert(rule.meta.osv.contains(a.id) && is_malicious_id(a.id));
    } else {
        reveal_strlit("malicious");
        reveal_strlit("vulnerability");
        assert("malicious"@.len() != "vulnerability"@.len());
        assert forall|id: Seq<char>| #[trigger] rule.meta.osv.contains(id) implies !is_malicious_id(id) by {
            assert(has_id(set, id));
            let a = choose|a: Advisory| #[trigger] set.contains(a) && a.id == id;
            assert(a.is_told_by_id());
        }
    }
}

} // verus!
