//! The derivation: (feed snapshot x inventory x policy) -> rules.
//!
//! A compiler, not a service. Nothing survives the run.

use crate::advisory::{Kind, Severity};
use crate::blocklist::{purl_of, reason_line, rule_text, rule_texts, Rule, RuleMeta, RuleText, Unmatched};
use crate::hits::{
    empty_build, is_gated, is_wholly_malicious, no_hit, rule_key,
    verdict_of, BuildText, Counts, HitText, MAX_SAMPLES,
};
use crate::index::{bound_views, grouped_under, named_of, str_views, Entry, Index};
use crate::inventory::{item_texts, InvItem};
use crate::order::{
    compare_text, key_before, key_standing, keys_of, keys_rise, lemma_in_order, lemma_insert_rises,
    lemma_key_same, lemma_single_keys, lemma_stands_at, place_of, put_in_order, same_text, single_keys,
    Keyed, Standing,
};
use crate::policy::Policy;
use crate::text::{said, views};
use crate::vers::{match_of, Ecosystem, Match};
use vstd::prelude::*;

verus! {

/// What a build has counted.
#[derive(Debug)]
pub struct Stats {
    pub inventory_items: usize,
    pub whole_package_rules: usize,
    pub version_rules: usize,
    pub excepted: usize,
    pub unknown: usize,
}

impl Default for Stats {
    fn default() -> (r: Self)
        ensures
            r == (Stats {
                inventory_items: 0,
                whole_package_rules: 0,
                version_rules: 0,
                excepted: 0,
                unknown: 0,
            }),
    {
        Stats { inventory_items: 0, whole_package_rules: 0, version_rules: 0, excepted: 0, unknown: 0 }
    }
}

/// What was found against one package version. The ids are kept sorted.
struct Hit {
    ids: Vec<String>,
    severity: Severity,
    malicious: bool,
    fixed_in: Option<String>,
}

impl Hit {
    spec fn wf(self) -> bool {
        keys_rise(keys_of(self.ids@))
    }

    spec fn text(self) -> HitText {
        HitText {
            ids: views(self.ids@).to_set(),
            severity: self.severity,
            malicious: self.malicious,
            fixed_in: said(self.fixed_in),
        }
    }
}

/// A hit and the registry, name and version (`"*"` for a whole package) that it
/// is against.
struct HitEntry {
    registry: String,
    name: String,
    version: String,
    hit: Hit,
}

impl Keyed for HitEntry {
    closed spec fn key(&self) -> Seq<Seq<char>> {
        rule_key(self.registry@, self.name@, self.version@)
    }

    fn compare_keys(&self, other: &Self) -> (r: Standing) {
        proof {
            reveal_with_fuel(key_standing, 4);
            let a = self.key();
            let b = other.key();
            assert(a.drop_first() =~= seq![self.name@, self.version@]);
            assert(b.drop_first() =~= seq![other.name@, other.version@]);
            assert(a.drop_first().drop_first() =~= seq![self.version@]);
            assert(b.drop_first().drop_first() =~= seq![other.version@]);
        }
        match compare_text(self.registry.as_str(), other.registry.as_str()) {
            Standing::Same => match compare_text(self.name.as_str(), other.name.as_str()) {
                Standing::Same => compare_text(self.version.as_str(), other.version.as_str()),
                place => place,
            },
            place => place,
        }
    }
}

/// Accumulates hits and collapses them into the smallest correct rule set.
pub struct Builder {
    /// Sorted by registry, name and version.
    hits: Vec<HitEntry>,
    unknown_samples: Vec<String>,
    pub stats: Stats,
}

/// The hits of a sorted list, by key.
spec fn hits_of(entries: Seq<HitEntry>) -> Map<Seq<Seq<char>>, HitText>
    decreases entries.len(),
{
    if entries.len() == 0 {
        Map::empty()
    } else {
        hits_of(entries.drop_last()).insert(entries.last().key(), entries.last().hit.text())
    }
}

impl Builder {
    /// The hits are sorted, no key comes twice, and no rule is counted yet.
    pub closed spec fn wf(self) -> bool {
        &&& keys_rise(keys_of(self.hits@))
        &&& forall|i: int| 0 <= i < self.hits@.len() ==> (#[trigger] self.hits@[i]).hit.wf()
        &&& self.stats.whole_package_rules == 0
        &&& self.stats.version_rules == 0
    }

    /// What the build knows so far. Rules are not among what is counted: `finish`
    /// counts them, and until then both of their counters are 0.
    pub closed spec fn knows(self) -> BuildText {
        BuildText {
            hits: hits_of(self.hits@),
            samples: views(self.unknown_samples@),
            counts: Counts {
                inventory_items: self.stats.inventory_items as nat,
                excepted: self.stats.excepted as nat,
                unknown: self.stats.unknown as nat,
            },
        }
    }
}

impl Default for Builder {
    fn default() -> (r: Self)
        ensures
            r.wf(),
            r.knows() == empty_build(),
    {
        let r = Builder { hits: Vec::new(), unknown_samples: Vec::new(), stats: Stats::default() };
        proof {
            assert(hits_of(r.hits@) =~= Map::empty());
            assert(views(r.unknown_samples@) =~= Seq::empty());
        }
        r
    }
}

/// What a key of a sorted list is mapped to.
proof fn lemma_hits_of(entries: Seq<HitEntry>)
    requires
        keys_rise(keys_of(entries)),
    ensures
        forall|k: Seq<Seq<char>>| #[trigger] hits_of(entries).dom().contains(k) <==> keys_of(entries).contains(k),
        forall|i: int|
            0 <= i < entries.len() ==> hits_of(entries)[(#[trigger] entries[i]).key()] == entries[i].hit.text(),
    decreases entries.len(),
{
    let keys = keys_of(entries);
    if entries.len() > 0 {
        let init = entries.drop_last();
        let last = entries.len() - 1;
        assert(keys_of(init) =~= keys.drop_last());
        assert(keys_rise(keys_of(init))) by {
            assert forall|i: int, j: int| 0 <= i < j < keys_of(init).len() implies key_before(
                #[trigger] keys_of(init)[i],
                #[trigger] keys_of(init)[j],
            ) by {
                assert(key_before(keys[i], keys[j]));
            }
        }
        lemma_hits_of(init);
        assert forall|k: Seq<Seq<char>>| #[trigger] hits_of(entries).dom().contains(k) <==> keys.contains(k) by {
            if keys.contains(k) {
                let i = choose|i: int| 0 <= i < keys.len() && keys[i] == k;
                if i < last {
                    assert(keys_of(init)[i] == k);
                }
            }
            if keys_of(init).contains(k) {
                let i = choose|i: int| 0 <= i < keys_of(init).len() && keys_of(init)[i] == k;
                assert(keys[i] == k);
            }
            assert(keys[last] == entries[last].key());
        }
        assert forall|i: int| 0 <= i < entries.len() implies hits_of(entries)[(#[trigger] entries[i]).key()]
            == entries[i].hit.text() by {
            if i < last {
                assert(key_before(keys[i], keys[last]));
                lemma_key_same(keys[last], keys[last]);
                assert(init[i] == entries[i]);
            }
        }
    }
}

/// A sorted list and its map are what the keys say, key by key.
proof fn lemma_hits_change(before: Seq<HitEntry>, after: Seq<HitEntry>, key: Seq<Seq<char>>, at: int)
    requires
        keys_rise(keys_of(before)),
        keys_rise(keys_of(after)),
        0 <= at < after.len(),
        after[at].key() == key,
        forall|k: Seq<Seq<char>>| #[trigger]
            keys_of(after).contains(k) <==> keys_of(before).contains(k) || k == key,
        forall|i: int|
            0 <= i < before.len() && (#[trigger] before[i]).key() != key ==> exists|j: int|
                0 <= j < after.len() && #[trigger] after[j] == before[i],
    ensures
        hits_of(after) == hits_of(before).insert(key, after[at].hit.text()),
{
    lemma_hits_of(before);
    lemma_hits_of(after);
    let x = hits_of(after);
    let y = hits_of(before).insert(key, after[at].hit.text());
    assert forall|k: Seq<Seq<char>>| #[trigger] x.dom().contains(k) <==> y.dom().contains(k) by {
        assert(keys_of(after).contains(k) <==> keys_of(before).contains(k) || k == key);
        assert(hits_of(before).dom().contains(k) <==> keys_of(before).contains(k));
    }
    assert forall|k: Seq<Seq<char>>| #[trigger] x.dom().contains(k) implies x[k] == y[k] by {
        if k != key {
            assert(hits_of(before).dom().contains(k));
            assert(keys_of(before).contains(k));
            let i = choose|i: int| 0 <= i < keys_of(before).len() && keys_of(before)[i] == k;
            assert(before[i].key() == k);
            let j = choose|j: int| 0 <= j < after.len() && #[trigger] after[j] == before[i];
            assert(after[j].key() == k);
        }
    }
    assert(x =~= y);
}

/// Adds what an entry of the index says to a hit.
fn add_to_hit(hit: &mut Hit, idx: &Index, e: &Entry)
    requires
        old(hit).wf(),
        idx.wf(),
        idx.holds_entry(*e),
    ensures
        final(hit).wf(),
        final(hit).text() == old(hit).text().with(idx.says(*e)),
{
    let ghost before = *hit;
    let ghost a = idx.says(*e);
    let id = idx.id_str(e).to_string();
    put_in_order(&mut hit.ids, id);
    proof {
        lemma_ids_set(before.ids@);
        lemma_ids_set(hit.ids@);
        assert forall|t: Seq<char>| hit.text().ids.contains(t) <==> before.text().ids.insert(a.id).contains(t) by {
            lemma_single_eq(t, a.id);
            assert(keys_of(hit.ids@).contains(seq![t]) <==> keys_of(before.ids@).contains(seq![t]) || seq![t]
                == seq![a.id]);
        }
        assert(hit.text().ids =~= before.text().ids.insert(a.id));
    }
    let severity: Severity = e.severity();
    proof {
        idx.lemma_says(*e);
    }
    if severity.to_u8() > hit.severity.to_u8() {
        hit.severity = severity;
    }
    match e.kind() {
        Kind::Malicious => {
            hit.malicious = true;
        },
        Kind::Vulnerability => {},
    }
    if hit.fixed_in.is_none() {
        match idx.fixed_in(e) {
            Some(f) => {
                hit.fixed_in = Some(f.to_string());
            },
            None => {},
        }
    }
}

proof fn lemma_single_eq(a: Seq<char>, b: Seq<char>)
    ensures
        seq![a] == seq![b] <==> a == b,
{
    assert(seq![a][0] == a);
    assert(seq![b][0] == b);
}

/// The ids of a hit as keys, as texts and as a set.
proof fn lemma_ids_set(ids: Seq<String>)
    ensures
        keys_of(ids) == single_keys(views(ids)),
        forall|t: Seq<char>| #[trigger] views(ids).to_set().contains(t) <==> keys_of(ids).contains(seq![t]),
{
    assert(keys_of(ids) =~= single_keys(views(ids)));
    lemma_single_keys(views(ids));
    assert forall|t: Seq<char>| #[trigger] views(ids).to_set().contains(t) <==> keys_of(ids).contains(seq![t]) by {
        assert(views(ids).contains(t) <==> single_keys(views(ids)).contains(seq![t]));
    }
}

/// What the feed says about one version.
pub fn version_verdict(idx: &Index, eco: Ecosystem, version: &str, e: &Entry) -> (r: Match)
    requires
        idx.wf(),
        idx.holds_entry(*e),
    ensures
        r == verdict_of(eco, version@, idx.says(*e)),
{
    let ghost a = idx.says(*e);
    let listed = idx.versions_of(e);
    for i in 0..listed.len()
        invariant
            str_views(listed@) == a.versions,
            forall|j: int| 0 <= j < i ==> (#[trigger] a.versions[j]) != version@,
            a == idx.says(*e),
    {
        proof {
            assert(str_views(listed@)[i as int] == listed@[i as int]@);
        }
        if same_text(listed[i], version) {
            proof {
                assert(a.versions[i as int] == version@);
            }
            return Match::Affected;
        }
    }
    proof {
        assert(str_views(listed@).len() == a.versions.len());
        assert(!a.versions.contains(version@));
    }
    let bounds = idx.bounds_of(e);
    let mut saw_unknown: bool = false;
    for i in 0..bounds.len()
        invariant
            a == idx.says(*e),
            bound_views(bounds@) == a.bounds,
            !a.versions.contains(version@),
            forall|j: int| 0 <= j < i ==> match_of(eco, version@, #[trigger] a.bounds[j]) != Match::Affected,
            saw_unknown <==> exists|j: int|
                0 <= j < i && match_of(eco, version@, #[trigger] a.bounds[j]) == Match::Unknown,
    {
        proof {
            assert(bound_views(bounds@)[i as int] == bounds@[i as int]@);
        }
        match crate::vers::matches(eco, version, &bounds[i]) {
            Match::Affected => {
                proof {
                    assert(match_of(eco, version@, a.bounds[i as int]) == Match::Affected);
                }
                return Match::Affected;
            },
            Match::Unknown => {
                proof {
                    assert(match_of(eco, version@, a.bounds[i as int]) == Match::Unknown);
                }
                saw_unknown = true;
            },
            Match::NotAffected => {},
        }
    }
    proof {
        assert(bound_views(bounds@).len() == a.bounds.len());
    }
    if saw_unknown {
        Match::Unknown
    } else {
        Match::NotAffected
    }
}

fn blank_entry(registry: &str, name: &str, version: &str) -> (r: HitEntry)
    ensures
        r.key() == rule_key(registry@, name@, version@),
        r.hit.wf(),
        r.hit.text() == no_hit(),
        r.registry@ == registry@,
        r.name@ == name@,
        r.version@ == version@,
{
    let r = HitEntry {
        registry: registry.to_string(),
        name: name.to_string(),
        version: version.to_string(),
        hit: Hit { ids: Vec::new(), severity: Severity::Unknown, malicious: false, fixed_in: None },
    };
    proof {
        assert(views(r.hit.ids@).to_set() =~= Set::empty());
    }
    r
}

impl Builder {
    /// Records what an entry of the index says against a key.
    fn record(&mut self, registry: &str, name: &str, version: &str, idx: &Index, e: &Entry)
        requires
            old(self).wf(),
            idx.wf(),
            idx.holds_entry(*e),
        ensures
            final(self).wf(),
            final(self).knows() == old(self).knows().recorded(
                rule_key(registry@, name@, version@),
                idx.says(*e),
            ),
    {
        let ghost before = self.hits@;
        let ghost key = rule_key(registry@, name@, version@);
        let mut fresh = blank_entry(registry, name, version);
        let (at, found) = place_of(self.hits.as_slice(), &fresh);
        proof {
            lemma_stands_at(keys_of(before), key, at as int, found);
            lemma_hits_of(before);
            assert(hits_of(before).dom().contains(key) <==> keys_of(before).contains(key));
        }
        if found {
            let entry = &mut self.hits[at];
            add_to_hit(&mut entry.hit, idx, e);
            proof {
                let after = self.hits@;
                assert(keys_of(after) =~= keys_of(before));
                assert(keys_of(before)[at as int] == before[at as int].key());
                assert forall|i: int| 0 <= i < before.len() && (#[trigger] before[i]).key() != key implies exists|
                    j: int,
                |
                    0 <= j < after.len() && #[trigger] after[j] == before[i] by {
                    assert(i != at);
                    assert(after[i] == before[i]);
                }
                lemma_hits_change(before, after, key, at as int);
                assert(old(self).knows().hit_at(key) == before[at as int].hit.text());
            }
        } else {
            add_to_hit(&mut fresh.hit, idx, e);
            self.hits.insert(at, fresh);
            proof {
                let after = self.hits@;
                lemma_insert_rises(keys_of(before), key, at as int);
                assert(keys_of(after) =~= keys_of(before).insert(at as int, key));
                assert forall|i: int| 0 <= i < before.len() && (#[trigger] before[i]).key() != key implies exists|
                    j: int,
                |
                    0 <= j < after.len() && #[trigger] after[j] == before[i] by {
                    assert(after[if i < at { i } else { i + 1 }] == before[i]);
                }
                lemma_hits_change(before, after, key, at as int);
                assert(old(self).knows().hit_at(key) == no_hit());
                assert forall|i: int| 0 <= i < after.len() implies (#[trigger] after[i]).hit.wf() by {
                    if i < at {
                        assert(after[i] == before[i]);
                    } else if i > at {
                        assert(after[i] == before[i - 1]);
                    }
                }
            }
        }
        proof {
            assert(self.knows().hits =~= old(self).knows().recorded(key, idx.says(*e)).hits);
        }
    }

    /// Counts an exception.
    fn count_excepted(&mut self)
        requires
            old(self).wf(),
            old(self).knows().counts.excepted < usize::MAX,
        ensures
            final(self).wf(),
            final(self).knows() == old(self).knows().let_pass(),
    {
        self.stats.excepted = self.stats.excepted + 1;
    }

    /// Counts an undecided version, and names it while there is room.
    fn note_undecided(&mut self, name: &str, version: &str)
        requires
            old(self).wf(),
            old(self).knows().counts.unknown < usize::MAX,
        ensures
            final(self).wf(),
            final(self).knows() == old(self).knows().undecided(name@, version@),
    {
        self.stats.unknown = self.stats.unknown + 1;
        if self.unknown_samples.len() < MAX_SAMPLES {
            let mut sample = name.to_string();
            sample.append("@");
            sample.append(version);
            let ghost before = self.unknown_samples@;
            self.unknown_samples.push(sample);
            proof {
                assert(views(self.unknown_samples@) =~= views(before).push(sample@));
            }
        }
    }

    /// Counts an inventory line.
    fn count_item(&mut self)
        requires
            old(self).wf(),
            old(self).knows().counts.inventory_items < usize::MAX,
        ensures
            final(self).wf(),
            final(self).knows() == old(self).knows().counted(),
    {
        self.stats.inventory_items = self.stats.inventory_items + 1;
    }

    /// Records an entry against a key, unless an exception covers it. Nothing is
    /// done where the exception could not be counted.
    fn block_unless_excepted(
        &mut self,
        pol: &Policy,
        registry: &str,
        name: &str,
        version: &str,
        idx: &Index,
        e: &Entry,
    ) -> (fits: bool)
        requires
            old(self).wf(),
            idx.wf(),
            idx.holds_entry(*e),
        ensures
            final(self).wf(),
            ({
                let after = old(self).knows().blocked_unless_excepted(
                    *pol,
                    registry@,
                    name@,
                    version@,
                    idx.says(*e),
                );
                &&& fits <==> after.fits()
                &&& fits ==> final(self).knows() == after
            }),
    {
        if pol.excepted(registry, name, version) {
            if self.stats.excepted == usize::MAX {
                return false;
            }
            self.count_excepted();
        } else {
            self.record(registry, name, version, idx, e);
        }
        true
    }

    /// Whether an entry reports a malicious package, as a whole and forever.
    fn wholly_malicious(idx: &Index, e: &Entry) -> (r: bool)
        requires
            idx.wf(),
            idx.holds_entry(*e),
        ensures
            r == is_wholly_malicious(idx.says(*e)),
    {
        proof {
            idx.lemma_says(*e);
        }
        match e.kind() {
            Kind::Malicious => idx.is_whole_package(e),
            Kind::Vulnerability => false,
        }
    }

    /// Meets the feed in proactive mode, as far as the exceptions can be counted.
    fn take_feed(&mut self, idx: &Index, eco: Ecosystem, pol: &Policy) -> (fits: bool)
        requires
            old(self).wf(),
            idx.wf(),
        ensures
            final(self).wf(),
            fits <==> old(self).knows().after_feed(*pol, eco, idx.groups()).fits(),
            fits ==> final(self).knows() == old(self).knows().after_feed(*pol, eco, idx.groups()),
    {
        if !pol.blocks_malicious() {
            return true;
        }
        let registry = eco.registry();
        let list = idx.iter_named();
        let ghost named = named_of(idx.groups());
        let ghost start = self.knows();
        proof {
            assert(named.take(0) =~= Seq::empty());
            assert(idx.named(list@).len() == list@.len());
        }
        for i in 0..list.len()
            invariant
                idx.wf(),
                registry@ == eco.registry_name(),
                named == named_of(idx.groups()),
                idx.named(list@) == named,
                list@.len() == named.len(),
                pol.stops_malicious(),
                start == old(self).knows(),
                forall|j: int| 0 <= j < list@.len() ==> idx.holds_entry(*(#[trigger] list@[j]).1),
                self.wf(),
                self.knows() == start.met_all(*pol, registry@, named.take(i as int)),
        {
            let (name, e) = list[i];
            proof {
                assert(idx.named(list@)[i as int] == (name@, idx.says(*e)));
                assert(named.take(i + 1).drop_last() =~= named.take(i as int));
                assert(named.take(i + 1).last() == named[i as int]);
                start.lemma_feed_counts(*pol, registry@, named, i + 1);
            }
            if Self::wholly_malicious(idx, e) {
                if !self.block_unless_excepted(pol, registry, name, "*", idx, e) {
                    return false;
                }
            }
        }
        proof {
            assert(named.take(list@.len() as int) =~= named);
        }
        true
    }

    /// Holds one package version against one advisory that the policy lets block,
    /// as far as it can be counted.
    fn hold_against(&mut self, pol: &Policy, eco: Ecosystem, item: &InvItem, idx: &Index, e: &Entry) -> (fits: bool)
        requires
            old(self).wf(),
            idx.wf(),
            idx.holds_entry(*e),
            is_gated(*pol, idx.says(*e)),
        ensures
            final(self).wf(),
            ({
                let after = old(self).knows().held_against(*pol, eco, item.name@, item.version@, idx.says(*e));
                &&& fits <==> after.fits()
                &&& fits ==> final(self).knows() == after
            }),
    {
        let registry = eco.registry();
        // A wholly-malicious package is one rule, not one per version.
        if Self::wholly_malicious(idx, e) {
            return self.block_unless_excepted(pol, registry, item.name.as_str(), "*", idx, e);
        }
        match version_verdict(idx, eco, item.version.as_str(), e) {
            Match::NotAffected => true,
            Match::Unknown => {
                if self.stats.unknown == usize::MAX {
                    return false;
                }
                self.note_undecided(item.name.as_str(), item.version.as_str());
                true
            },
            Match::Affected => self.block_unless_excepted(
                pol,
                registry,
                item.name.as_str(),
                item.version.as_str(),
                idx,
                e,
            ),
        }
    }

    /// Matches one inventory line against the feed, as far as it can be counted.
    fn take_item(&mut self, item: &InvItem, idx: &Index, eco: Ecosystem, pol: &Policy) -> (fits: bool)
        requires
            old(self).wf(),
            idx.wf(),
        ensures
            final(self).wf(),
            fits <==> old(self).knows().after_item(*pol, eco, idx.groups(), item@).fits(),
            fits ==> final(self).knows() == old(self).knows().after_item(*pol, eco, idx.groups(), item@),
    {
        let threshold: Option<Severity> = match pol.threshold() {
            Ok(t) => t,
            Err(_) => None,
        };
        let block_malicious: bool = pol.blocks_malicious();
        let registry = eco.registry();
        proof {
            self.knows().lemma_item_counts(*pol, eco, idx.groups(), item@);
        }
        if self.stats.inventory_items == usize::MAX {
            return false;
        }
        self.count_item();
        if !same_text(item.registry.as_str(), registry) {
            // Another registry is another ecosystem: a visible hole, never a
            // silent "safe".
            if self.stats.unknown == usize::MAX {
                return false;
            }
            self.note_undecided(item.name.as_str(), item.version.as_str());
            return true;
        }
        let found = idx.lookup(item.name.as_str());
        let ghost advisories = grouped_under(idx.groups(), item.name@);
        let ghost start = self.knows();
        proof {
            assert(idx.says_all(found@).len() == found@.len());
            assert(advisories.take(0) =~= Seq::empty());
        }
        for i in 0..found.len()
            invariant
                idx.wf(),
                registry@ == eco.registry_name(),
                item.registry@ == registry@,
                pol.set_threshold() matches Some(t) ==> threshold == t,
                pol.set_threshold() is None ==> threshold is None,
                block_malicious == pol.stops_malicious(),
                advisories == grouped_under(idx.groups(), item.name@),
                idx.says_all(found@) == advisories,
                found@.len() == advisories.len(),
                idx.holds_all(found@),
                start == old(self).knows().counted(),
                self.wf(),
                self.knows() == start.held_against_all(
                    *pol,
                    eco,
                    item.name@,
                    item.version@,
                    advisories.take(i as int),
                ),
        {
            let e = &found[i];
            proof {
                assert(idx.holds_entry(found@[i as int]));
                assert(idx.says_all(found@)[i as int] == idx.says(*e));
                assert(advisories.take(i + 1).drop_last() =~= advisories.take(i as int));
                assert(advisories.take(i + 1).last() == advisories[i as int]);
                idx.lemma_says(*e);
                start.lemma_held_counts(*pol, eco, item.name@, item.version@, advisories, i + 1);
            }
            let gated: bool = match e.kind() {
                Kind::Malicious => block_malicious,
                Kind::Vulnerability => match threshold {
                    Some(t) => e.severity().to_u8() >= t.to_u8(),
                    None => false,
                },
            };
            if gated {
                if !self.hold_against(pol, eco, item, idx, e) {
                    return false;
                }
            }
        }
        proof {
            assert(advisories.take(found@.len() as int) =~= advisories);
        }
        true
    }

    /// Matches an inventory against the feed, as far as it can be counted.
    fn take_inventory(&mut self, inventory: &[InvItem], idx: &Index, eco: Ecosystem, pol: &Policy) -> (fits: bool)
        requires
            old(self).wf(),
            idx.wf(),
        ensures
            final(self).wf(),
            ({
                let after = old(self).knows().after_inventory(*pol, eco, idx.groups(), item_texts(inventory@));
                &&& fits <==> after.fits()
                &&& fits ==> final(self).knows() == after
            }),
    {
        let ghost texts = item_texts(inventory@);
        let ghost groups = idx.groups();
        let ghost start = self.knows();
        proof {
            assert(texts.take(0) =~= Seq::empty());
        }
        for i in 0..inventory.len()
            invariant
                idx.wf(),
                groups == idx.groups(),
                texts == item_texts(inventory@),
                start == old(self).knows(),
                self.wf(),
                self.knows() == start.after_inventory(*pol, eco, groups, texts.take(i as int)),
        {
            proof {
                let now = texts.take(i + 1);
                assert(now.drop_last() =~= texts.take(i as int));
                assert(now.last() == inventory@[i as int]@);
                start.lemma_inventory_counts(*pol, eco, groups, texts, i + 1);
            }
            if !self.take_item(&inventory[i], idx, eco, pol) {
                return false;
            }
        }
        proof {
            assert(texts.take(inventory@.len() as int) =~= texts);
        }
        true
    }

    /// Emit every whole-package malicious rule in the feed, with no regard for
    /// what is currently cached. This is what makes the blocklist preventive
    /// rather than reactive: the package is refused before its first download.
    pub fn add_proactive(&mut self, idx: &Index, eco: Ecosystem, pol: &Policy)
        requires
            old(self).wf(),
            idx.wf(),
            old(self).knows().after_feed(*pol, eco, idx.groups()).fits(),
        ensures
            final(self).wf(),
            final(self).knows() == old(self).knows().after_feed(*pol, eco, idx.groups()),
    {
        self.take_feed(idx, eco, pol);
    }

    /// Match one inventory line against the feed.
    pub fn add_item(&mut self, item: &InvItem, idx: &Index, eco: Ecosystem, pol: &Policy)
        requires
            old(self).wf(),
            idx.wf(),
            old(self).knows().after_item(*pol, eco, idx.groups(), item@).fits(),
        ensures
            final(self).wf(),
            final(self).knows() == old(self).knows().after_item(*pol, eco, idx.groups(), item@),
    {
        self.take_item(item, idx, eco, pol);
    }

    /// Match the registry inventory against the feed.
    pub fn add_inventory(&mut self, inventory: &[InvItem], idx: &Index, eco: Ecosystem, pol: &Policy)
        requires
            old(self).wf(),
            idx.wf(),
            old(self).knows().after_inventory(*pol, eco, idx.groups(), item_texts(inventory@)).fits(),
        ensures
            final(self).wf(),
            final(self).knows() == old(self).knows().after_inventory(
                *pol,
                eco,
                idx.groups(),
                item_texts(inventory@),
            ),
    {
        self.take_inventory(inventory, idx, eco, pol);
    }

    /// [`Builder::add_proactive`], or none where the exceptions are more than can
    /// be counted.
    pub fn try_add_proactive(self, idx: &Index, eco: Ecosystem, pol: &Policy) -> (r: Option<Builder>)
        requires
            self.wf(),
            idx.wf(),
        ensures
            r is Some <==> self.knows().after_feed(*pol, eco, idx.groups()).fits(),
            r matches Some(b) ==> b.wf() && b.knows() == self.knows().after_feed(*pol, eco, idx.groups()),
    {
        let mut b = self;
        if b.take_feed(idx, eco, pol) {
            Some(b)
        } else {
            None
        }
    }

    /// [`Builder::add_item`], or none where there is more than can be counted.
    pub fn try_add_item(self, item: &InvItem, idx: &Index, eco: Ecosystem, pol: &Policy) -> (r: Option<Builder>)
        requires
            self.wf(),
            idx.wf(),
        ensures
            r is Some <==> self.knows().after_item(*pol, eco, idx.groups(), item@).fits(),
            r matches Some(b) ==> b.wf() && b.knows() == self.knows().after_item(*pol, eco, idx.groups(), item@),
    {
        let mut b = self;
        if b.take_item(item, idx, eco, pol) {
            Some(b)
        } else {
            None
        }
    }

    /// [`Builder::add_inventory`], or none where there is more than can be counted.
    pub fn try_add_inventory(
        self,
        inventory: &[InvItem],
        idx: &Index,
        eco: Ecosystem,
        pol: &Policy,
    ) -> (r: Option<Builder>)
        requires
            self.wf(),
            idx.wf(),
        ensures
            ({
                let after = self.knows().after_inventory(*pol, eco, idx.groups(), item_texts(inventory@));
                &&& r is Some <==> after.fits()
                &&& r matches Some(b) ==> b.wf() && b.knows() == after
            }),
    {
        let mut b = self;
        if b.take_inventory(inventory, idx, eco, pol) {
            Some(b)
        } else {
            None
        }
    }
}

/// A rule is owed for a key: something was found against it, and no rule for the
/// whole package covers it already.
pub open spec fn is_owed(hits: Map<Seq<Seq<char>>, HitText>, key: Seq<Seq<char>>) -> bool {
    hits.dom().contains(key) && (key[2] == "*"@ || !hits.dom().contains(rule_key(key[0], key[1], "*"@)))
}

/// Registry, name and version of each rule.
pub open spec fn rule_keys(rules: Seq<RuleText>) -> Seq<Seq<Seq<char>>> {
    Seq::new(rules.len(), |i: int| rule_key(rules[i].registry, rules[i].name, rules[i].version))
}

/// `rules` are the rules that the hits make: one for each key that is owed one,
/// sorted by registry, name and version.
pub open spec fn is_rules_of(rules: Seq<RuleText>, hits: Map<Seq<Seq<char>>, HitText>) -> bool {
    &&& keys_rise(rule_keys(rules))
    &&& forall|key: Seq<Seq<char>>| #[trigger] rule_keys(rules).contains(key) <==> is_owed(hits, key)
    &&& forall|i: int|
        0 <= i < rules.len() ==> #[trigger] rules[i] == rule_text(rule_keys(rules)[i], hits[rule_keys(rules)[i]])
}

/// How many of the rules are for a whole package.
pub open spec fn whole_count(rules: Seq<RuleText>) -> nat
    decreases rules.len(),
{
    if rules.len() == 0 {
        0
    } else {
        whole_count(rules.drop_last()) + if rules.last().version == "*"@ {
            1nat
        } else {
            0nat
        }
    }
}

/// Renders one hit.
fn render_rule(entry: &HitEntry) -> (rule: Rule)
    requires
        entry.hit.wf(),
    ensures
        rule@ == rule_text(entry.key(), entry.hit.text()),
{
    let hit = &entry.hit;
    proof {
        lemma_ids_set(hit.ids@);
        lemma_single_keys(views(hit.ids@));
        assert forall|t: Seq<char>| #[trigger] views(hit.ids@).contains(t) <==> hit.text().ids.contains(t) by {}
        lemma_in_order(views(hit.ids@), hit.text().ids);
    }
    let reason = reason_line(hit.ids.as_slice(), hit.severity, hit.malicious, &hit.fixed_in);
    let purl = purl_of(entry.registry.as_str(), entry.name.as_str(), entry.version.as_str());
    let mut osv: Vec<String> = Vec::new();
    for i in 0..hit.ids.len()
        invariant
            osv@.len() == i,
            forall|j: int| 0 <= j < i ==> (#[trigger] osv@[j])@ == hit.ids@[j]@,
    {
        osv.push(hit.ids[i].clone());
    }
    let fixed_in: Option<String> = match &hit.fixed_in {
        Some(f) => Some(f.clone()),
        None => None,
    };
    let kind = if hit.malicious {
        "malicious".to_string()
    } else {
        "vulnerability".to_string()
    };
    let rule = Rule {
        registry: entry.registry.clone(),
        name: entry.name.clone(),
        version: entry.version.clone(),
        reason,
        meta: RuleMeta { osv, severity: hit.severity.as_str().to_string(), kind, purl, fixed_in },
    };
    proof {
        assert(views(rule.meta.osv@) =~= views(hit.ids@));
        assert(rule@.meta =~= rule_text(entry.key(), entry.hit.text()).meta);
    }
    rule
}

/// Whether a rule for the whole package covers an entry that is for one version.
fn is_shadowed(hits: &Vec<HitEntry>, entry: &HitEntry) -> (r: bool)
    requires
        keys_rise(keys_of(hits@)),
    ensures
        r == !(entry.version@ == "*"@ || !hits_of(hits@).dom().contains(
            rule_key(entry.registry@, entry.name@, "*"@),
        )),
{
    if same_text(entry.version.as_str(), "*") {
        return false;
    }
    let whole = blank_entry(entry.registry.as_str(), entry.name.as_str(), "*");
    let (at, found) = place_of(hits.as_slice(), &whole);
    proof {
        lemma_stands_at(keys_of(hits@), whole.key(), at as int, found);
        lemma_hits_of(hits@);
        assert(hits_of(hits@).dom().contains(whole.key()) <==> keys_of(hits@).contains(whole.key()));
    }
    found
}

/// The rules made of the first `n` hits.
spec fn rules_so_far(rules: Seq<RuleText>, entries: Seq<HitEntry>, n: int) -> bool {
    let hits = hits_of(entries);
    &&& keys_rise(rule_keys(rules))
    &&& forall|key: Seq<Seq<char>>| #[trigger]
        rule_keys(rules).contains(key) <==> is_owed(hits, key) && keys_of(entries).take(n).contains(key)
    &&& forall|i: int|
        0 <= i < rules.len() ==> #[trigger] rules[i] == rule_text(rule_keys(rules)[i], hits[rule_keys(rules)[i]])
}

proof fn lemma_rule_skipped(rules: Seq<RuleText>, entries: Seq<HitEntry>, n: int)
    requires
        keys_rise(keys_of(entries)),
        0 <= n < entries.len(),
        rules_so_far(rules, entries, n),
        !is_owed(hits_of(entries), entries[n].key()),
    ensures
        rules_so_far(rules, entries, n + 1),
{
    let keys = keys_of(entries);
    assert(keys.take(n + 1) =~= keys.take(n).push(keys[n]));
    assert forall|key: Seq<Seq<char>>| #[trigger]
        rule_keys(rules).contains(key) <==> is_owed(hits_of(entries), key) && keys.take(n + 1).contains(key) by {
        if keys.take(n).contains(key) {
            let i = choose|i: int| 0 <= i < n && keys.take(n)[i] == key;
            assert(keys.take(n + 1)[i] == key);
        }
        if keys.take(n + 1).contains(key) {
            let wide = keys.take(n + 1);
            let i = choose|i: int| 0 <= i < wide.len() && wide[i] == key;
            if i < n {
                assert(keys.take(n)[i] == key);
            }
        }
    }
}

proof fn lemma_rule_added(rules: Seq<RuleText>, entries: Seq<HitEntry>, n: int, rule: RuleText)
    requires
        keys_rise(keys_of(entries)),
        0 <= n < entries.len(),
        rules_so_far(rules, entries, n),
        is_owed(hits_of(entries), entries[n].key()),
        rule == rule_text(entries[n].key(), entries[n].hit.text()),
    ensures
        rules_so_far(rules.push(rule), entries, n + 1),
{
    let keys = keys_of(entries);
    let hits = hits_of(entries);
    let key = entries[n].key();
    let more = rules.push(rule);
    lemma_hits_of(entries);
    assert(key =~= rule_key(rule.registry, rule.name, rule.version));
    assert(rule_keys(more) =~= rule_keys(rules).push(key));
    assert(keys[n] == key);
    assert forall|i: int, j: int| 0 <= i < j < more.len() implies key_before(
        #[trigger] rule_keys(more)[i],
        #[trigger] rule_keys(more)[j],
    ) by {
        if j == rules.len() {
            let k = rule_keys(rules)[i];
            assert(rule_keys(rules).contains(k));
            let m = choose|m: int| 0 <= m < n && keys.take(n)[m] == k;
            assert(key_before(keys[m], keys[n]));
        } else {
            assert(key_before(rule_keys(rules)[i], rule_keys(rules)[j]));
        }
    }
    assert forall|k: Seq<Seq<char>>| #[trigger]
        rule_keys(more).contains(k) <==> is_owed(hits, k) && keys.take(n + 1).contains(k) by {
        if rule_keys(more).contains(k) {
            let i = choose|i: int| 0 <= i < more.len() && rule_keys(more)[i] == k;
            if i < rules.len() {
                assert(rule_keys(rules)[i] == k);
                assert(rule_keys(rules).contains(k));
                let m = choose|m: int| 0 <= m < n && keys.take(n)[m] == k;
                assert(keys.take(n + 1)[m] == k);
            } else {
                assert(keys.take(n + 1)[n] == k);
            }
        }
        if is_owed(hits, k) && keys.take(n + 1).contains(k) {
            let wide = keys.take(n + 1);
            let m = choose|m: int| 0 <= m < wide.len() && wide[m] == k;
            if m < n {
                assert(keys.take(n)[m] == k);
                assert(rule_keys(rules).contains(k));
                let i = choose|i: int| 0 <= i < rules.len() && rule_keys(rules)[i] == k;
                assert(rule_keys(more)[i] == k);
            } else {
                assert(rule_keys(more)[rules.len() as int] == k);
            }
        }
    }
    assert forall|i: int| 0 <= i < more.len() implies #[trigger] more[i] == rule_text(
        rule_keys(more)[i],
        hits[rule_keys(more)[i]],
    ) by {
        if i < rules.len() {
            assert(rules[i] == rule_text(rule_keys(rules)[i], hits[rule_keys(rules)[i]]));
        }
    }
}

impl Builder {
    /// Collapse, sort and render. Per-version rules shadowed by a `*` rule for
    /// the same package are dropped: they can never change a decision.
    pub fn finish(self) -> (r: (Vec<Rule>, Unmatched, Stats))
        requires
            self.wf(),
        ensures
            is_rules_of(rule_texts(r.0@), self.knows().hits),
            r.1.count == self.knows().counts.unknown,
            views(r.1.sample@) == self.knows().samples,
            r.2.inventory_items == self.knows().counts.inventory_items,
            r.2.excepted == self.knows().counts.excepted,
            r.2.unknown == self.knows().counts.unknown,
            r.2.whole_package_rules == whole_count(rule_texts(r.0@)),
            r.2.version_rules == r.0@.len() - whole_count(rule_texts(r.0@)),
    {
        let Builder { hits, unknown_samples, mut stats } = self;
        let mut rules: Vec<Rule> = Vec::new();
        let ghost entries = hits@;
        proof {
            assert(rule_keys(rule_texts(rules@)) =~= Seq::empty());
            assert(keys_of(entries).take(0) =~= Seq::empty());
        }
        for i in 0..hits.len()
            invariant
                hits@ == entries,
                keys_rise(keys_of(entries)),
                forall|j: int| 0 <= j < entries.len() ==> (#[trigger] entries[j]).hit.wf(),
                rules_so_far(rule_texts(rules@), entries, i as int),
                rules@.len() <= i,
                stats.inventory_items == self.stats.inventory_items,
                stats.excepted == self.stats.excepted,
                stats.unknown == self.stats.unknown,
                stats.whole_package_rules == whole_count(rule_texts(rules@)),
                stats.version_rules == rules@.len() - whole_count(rule_texts(rules@)),
                whole_count(rule_texts(rules@)) <= rules@.len(),
        {
            let entry = &hits[i];
            proof {
                lemma_hits_of(entries);
                assert(keys_of(entries)[i as int] == entry.key());
                assert(keys_of(entries).contains(entry.key()));
                assert(hits_of(entries).dom().contains(entry.key()));
            }
            if is_shadowed(&hits, entry) {
                proof {
                    lemma_rule_skipped(rule_texts(rules@), entries, i as int);
                }
            } else {
                let rule = render_rule(entry);
                let ghost before = rule_texts(rules@);
                if same_text(entry.version.as_str(), "*") {
                    stats.whole_package_rules = stats.whole_package_rules + 1;
                } else {
                    stats.version_rules = stats.version_rules + 1;
                }
                rules.push(rule);
                proof {
                    lemma_rule_added(before, entries, i as int, rule@);
                    assert(rule_texts(rules@) =~= before.push(rule@));
                    assert(before.push(rule@).drop_last() =~= before);
                }
            }
        }
        proof {
            lemma_hits_of(entries);
            assert(keys_of(entries).take(entries.len() as int) =~= keys_of(entries));
            assert forall|key: Seq<Seq<char>>| #[trigger]
                rule_keys(rule_texts(rules@)).contains(key) <==> is_owed(hits_of(entries), key) by {
                assert(hits_of(entries).dom().contains(key) <==> keys_of(entries).contains(key));
            }
        }
        let unmatched = Unmatched { count: stats.unknown, sample: unknown_samples };
        (rules, unmatched, stats)
    }
}

} // verus!
