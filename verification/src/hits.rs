//! What the feed says against one package version, and what was made of it.
//!
//! A [`BuildText`] is what a build knows so far: a hit for each registry, name
//! and version that a rule is owed for, the versions that could not be decided,
//! and the counts. The functions on it say what one more advisory changes.

use crate::advisory::{Advisory, Kind, Severity};
use crate::index::{grouped_under, named_of, Group};
use crate::inventory::ItemText;
use crate::policy::Policy;
use crate::text::lower_case;
use crate::vers::{
    law_whole_package_covers_every_version, law_whole_range_has_no_end, match_of, semver_valid, BoundText, Ecosystem,
    Match,
};
use vstd::prelude::*;

verus! {

/// How many undecided versions are named. The rest are only counted.
pub const MAX_SAMPLES: usize = 20;

/// Registry, name and version (`"*"` for a whole package).
pub open spec fn rule_key(registry: Seq<char>, name: Seq<char>, version: Seq<char>) -> Seq<Seq<char>> {
    seq![registry, name, version]
}

/// What was found against one package version.
#[verifier::ext_equal]
pub struct HitText {
    pub ids: Set<Seq<char>>,
    pub severity: Severity,
    pub malicious: bool,
    pub fixed_in: Option<Seq<char>>,
}

/// What a build has counted.
#[verifier::ext_equal]
pub struct Counts {
    pub inventory_items: nat,
    pub excepted: nat,
    pub unknown: nat,
}

/// What a build knows so far.
#[verifier::ext_equal]
pub struct BuildText {
    pub hits: Map<Seq<Seq<char>>, HitText>,
    pub samples: Seq<Seq<char>>,
    pub counts: Counts,
}

/// The severity of two that weighs more.
pub open spec fn worse(a: Severity, b: Severity) -> Severity {
    if b.rank() > a.rank() {
        b
    } else {
        a
    }
}

/// Nothing found yet.
pub open spec fn no_hit() -> HitText {
    HitText { ids: Set::empty(), severity: Severity::Unknown, malicious: false, fixed_in: None }
}

impl HitText {
    /// One more advisory is found: its id is added, the worst severity stays, and
    /// so does the first fix.
    pub open spec fn with(self, a: Advisory) -> HitText {
        HitText {
            ids: self.ids.insert(a.id),
            severity: worse(self.severity, a.severity),
            malicious: self.malicious || a.kind == Kind::Malicious,
            fixed_in: if self.fixed_in is Some {
                self.fixed_in
            } else {
                a.fixed_in
            },
        }
    }
}

/// What the feed says about one version: it is affected where it is listed, or
/// where some range covers it; it is unknown where no range covers it and some
/// range could not be read.
pub open spec fn verdict_of(eco: Ecosystem, version: Seq<char>, a: Advisory) -> Match {
    if a.versions.contains(version) || exists|i: int|
        0 <= i < a.bounds.len() && match_of(eco, version, #[trigger] a.bounds[i]) == Match::Affected {
        Match::Affected
    } else if exists|i: int|
        0 <= i < a.bounds.len() && match_of(eco, version, #[trigger] a.bounds[i]) == Match::Unknown {
        Match::Unknown
    } else {
        Match::NotAffected
    }
}

/// The advisory reports a malicious package, as a whole and forever.
pub open spec fn is_wholly_malicious(a: Advisory) -> bool {
    a.kind == Kind::Malicious && a.is_whole()
}

/// The policy lets an advisory block: a malicious one by its own switch, any
/// other by the severity threshold.
pub open spec fn is_gated(policy: Policy, a: Advisory) -> bool {
    match a.kind {
        Kind::Malicious => policy.stops_malicious(),
        Kind::Vulnerability => policy.set_threshold() matches Some(Some(t)) && a.severity.rank() >= t.rank(),
    }
}

/// How an undecided version is named.
pub open spec fn sample_text(name: Seq<char>, version: Seq<char>) -> Seq<char> {
    name + "@"@ + version
}

/// A build that knows nothing.
pub open spec fn empty_build() -> BuildText {
    BuildText {
        hits: Map::empty(),
        samples: Seq::empty(),
        counts: Counts { inventory_items: 0, excepted: 0, unknown: 0 },
    }
}

impl BuildText {
    /// What was found so far against a key.
    pub open spec fn hit_at(self, key: Seq<Seq<char>>) -> HitText {
        if self.hits.dom().contains(key) {
            self.hits[key]
        } else {
            no_hit()
        }
    }

    /// An advisory is recorded against a key.
    pub open spec fn recorded(self, key: Seq<Seq<char>>, a: Advisory) -> BuildText {
        BuildText { hits: self.hits.insert(key, self.hit_at(key).with(a)), ..self }
    }

    /// An exception is counted.
    pub open spec fn let_pass(self) -> BuildText {
        BuildText { counts: Counts { excepted: self.counts.excepted + 1, ..self.counts }, ..self }
    }

    /// An undecided version is counted, and named while there is room.
    pub open spec fn undecided(self, name: Seq<char>, version: Seq<char>) -> BuildText {
        BuildText {
            samples: if self.samples.len() < MAX_SAMPLES {
                self.samples.push(sample_text(name, version))
            } else {
                self.samples
            },
            counts: Counts { unknown: self.counts.unknown + 1, ..self.counts },
            ..self
        }
    }

    /// An advisory is recorded against a key, unless an exception covers it.
    pub open spec fn blocked_unless_excepted(
        self,
        policy: Policy,
        registry: Seq<char>,
        name: Seq<char>,
        version: Seq<char>,
        a: Advisory,
    ) -> BuildText {
        if policy.lets_pass(registry, name, version) {
            self.let_pass()
        } else {
            self.recorded(rule_key(registry, name, version), a)
        }
    }

    /// One advisory of the feed is met in proactive mode.
    pub open spec fn met(
        self,
        policy: Policy,
        registry: Seq<char>,
        name: Seq<char>,
        a: Advisory,
    ) -> BuildText {
        if is_wholly_malicious(a) {
            self.blocked_unless_excepted(policy, registry, name, "*"@, a)
        } else {
            self
        }
    }

    /// All advisories of the feed are met in proactive mode.
    pub open spec fn met_all(
        self,
        policy: Policy,
        registry: Seq<char>,
        named: Seq<(Seq<char>, Advisory)>,
    ) -> BuildText
        decreases named.len(),
    {
        if named.len() == 0 {
            self
        } else {
            self.met_all(policy, registry, named.drop_last()).met(policy, registry, named.last().0, named.last().1)
        }
    }

    /// Proactive mode over a feed.
    pub open spec fn after_feed(self, policy: Policy, eco: Ecosystem, groups: Seq<Group>) -> BuildText {
        if policy.stops_malicious() {
            self.met_all(policy, eco.registry_name(), named_of(groups))
        } else {
            self
        }
    }

    /// One package version of the registry is held against one advisory.
    pub open spec fn held_against(
        self,
        policy: Policy,
        eco: Ecosystem,
        name: Seq<char>,
        version: Seq<char>,
        a: Advisory,
    ) -> BuildText {
        if !is_gated(policy, a) {
            self
        } else if is_wholly_malicious(a) {
            self.blocked_unless_excepted(policy, eco.registry_name(), name, "*"@, a)
        } else {
            match verdict_of(eco, version, a) {
                Match::NotAffected => self,
                Match::Unknown => self.undecided(name, version),
                Match::Affected => self.blocked_unless_excepted(policy, eco.registry_name(), name, version, a),
            }
        }
    }

    /// One package version is held against a list of advisories.
    pub open spec fn held_against_all(
        self,
        policy: Policy,
        eco: Ecosystem,
        name: Seq<char>,
        version: Seq<char>,
        advisories: Seq<Advisory>,
    ) -> BuildText
        decreases advisories.len(),
    {
        if advisories.len() == 0 {
            self
        } else {
            self.held_against_all(policy, eco, name, version, advisories.drop_last()).held_against(
                policy,
                eco,
                name,
                version,
                advisories.last(),
            )
        }
    }

    /// An inventory line is counted.
    pub open spec fn counted(self) -> BuildText {
        BuildText { counts: Counts { inventory_items: self.counts.inventory_items + 1, ..self.counts }, ..self }
    }

    /// One inventory line is matched against a feed. A line of another registry is
    /// one that the feed cannot decide.
    pub open spec fn after_item(
        self,
        policy: Policy,
        eco: Ecosystem,
        groups: Seq<Group>,
        item: ItemText,
    ) -> BuildText {
        if item.registry == eco.registry_name() {
            self.counted().held_against_all(
                policy,
                eco,
                item.name,
                item.version,
                grouped_under(groups, item.name),
            )
        } else {
            self.counted().undecided(item.name, item.version)
        }
    }

    /// An inventory is matched against a feed.
    pub open spec fn after_inventory(
        self,
        policy: Policy,
        eco: Ecosystem,
        groups: Seq<Group>,
        items: Seq<ItemText>,
    ) -> BuildText
        decreases items.len(),
    {
        if items.len() == 0 {
            self
        } else {
            self.after_inventory(policy, eco, groups, items.drop_last()).after_item(
                policy,
                eco,
                groups,
                items.last(),
            )
        }
    }
}

impl BuildText {
    /// The counts fit their counters.
    pub open spec fn fits(self) -> bool {
        &&& self.counts.inventory_items <= usize::MAX
        &&& self.counts.excepted <= usize::MAX
        &&& self.counts.unknown <= usize::MAX
    }

    /// No count is lower than it was.
    pub open spec fn counts_no_less(self, before: BuildText) -> bool {
        &&& before.counts.inventory_items <= self.counts.inventory_items
        &&& before.counts.excepted <= self.counts.excepted
        &&& before.counts.unknown <= self.counts.unknown
    }

    /// The counts never fall while a feed is met, and rise by no more than its
    /// advisories.
    pub proof fn lemma_feed_counts(
        self,
        policy: Policy,
        registry: Seq<char>,
        named: Seq<(Seq<char>, Advisory)>,
        n: int,
    )
        requires
            0 <= n <= named.len(),
        ensures
            self.met_all(policy, registry, named).counts_no_less(self.met_all(policy, registry, named.take(n))),
            self.met_all(policy, registry, named).counts.excepted <= self.counts.excepted + named.len(),
            self.met_all(policy, registry, named).counts.inventory_items == self.counts.inventory_items,
            self.met_all(policy, registry, named).counts.unknown == self.counts.unknown,
        decreases named.len(),
    {
        if n < named.len() {
            self.lemma_feed_counts(policy, registry, named.drop_last(), n);
            assert(named.drop_last().take(n) =~= named.take(n));
        } else {
            assert(named.take(n) =~= named);
            if named.len() > 0 {
                self.lemma_feed_counts(policy, registry, named.drop_last(), n - 1);
            }
        }
    }

    /// The counts never fall while a package version is held against advisories.
    pub proof fn lemma_held_counts(
        self,
        policy: Policy,
        eco: Ecosystem,
        name: Seq<char>,
        version: Seq<char>,
        advisories: Seq<Advisory>,
        n: int,
    )
        requires
            0 <= n <= advisories.len(),
        ensures
            self.held_against_all(policy, eco, name, version, advisories).counts_no_less(
                self.held_against_all(policy, eco, name, version, advisories.take(n)),
            ),
        decreases advisories.len(),
    {
        if n < advisories.len() {
            self.lemma_held_counts(policy, eco, name, version, advisories.drop_last(), n);
            assert(advisories.drop_last().take(n) =~= advisories.take(n));
        } else {
            assert(advisories.take(n) =~= advisories);
        }
    }

    /// The counts never fall with an inventory line.
    pub proof fn lemma_item_counts(self, policy: Policy, eco: Ecosystem, groups: Seq<Group>, item: ItemText)
        ensures
            self.after_item(policy, eco, groups, item).counts_no_less(self.counted()),
    {
        let all = grouped_under(groups, item.name);
        self.counted().lemma_held_counts(policy, eco, item.name, item.version, all, 0);
        assert(all.take(0) =~= Seq::empty());
    }

    /// The counts never fall along an inventory.
    pub proof fn lemma_inventory_counts(
        self,
        policy: Policy,
        eco: Ecosystem,
        groups: Seq<Group>,
        items: Seq<ItemText>,
        n: int,
    )
        requires
            0 <= n <= items.len(),
        ensures
            self.after_inventory(policy, eco, groups, items).counts_no_less(
                self.after_inventory(policy, eco, groups, items.take(n)),
            ),
        decreases items.len(),
    {
        if n < items.len() {
            let fewer = items.drop_last();
            self.lemma_inventory_counts(policy, eco, groups, fewer, n);
            assert(fewer.take(n) =~= items.take(n));
            self.after_inventory(policy, eco, groups, fewer).lemma_item_counts(policy, eco, groups, items.last());
        } else {
            assert(items.take(n) =~= items);
        }
    }
}

/// Every interval of an advisory counts. A version inside any one of them, or in
/// the advisory's list, is affected, whatever the others say; one that is
/// declared safe is outside every one of them and not in the list; and where
/// nothing covers it, one interval that cannot be decided leaves it undecided.
pub proof fn law_every_interval_counts(eco: Ecosystem, version: Seq<char>, a: Advisory)
    ensures
        forall|i: int|
            0 <= i < a.bounds.len() && match_of(eco, version, #[trigger] a.bounds[i]) == Match::Affected
                ==> verdict_of(eco, version, a) == Match::Affected,
        forall|i: int|
            0 <= i < a.versions.len() && #[trigger] a.versions[i] == version ==> verdict_of(eco, version, a)
                == Match::Affected,
        verdict_of(eco, version, a) == Match::NotAffected ==> !a.versions.contains(version) && forall|i: int|
            0 <= i < a.bounds.len() ==> match_of(eco, version, #[trigger] a.bounds[i]) == Match::NotAffected,
        verdict_of(eco, version, a) == Match::Affected ==> a.versions.contains(version) || exists|i: int|
            0 <= i < a.bounds.len() && match_of(eco, version, #[trigger] a.bounds[i]) == Match::Affected,
        verdict_of(eco, version, a) == Match::Unknown ==> exists|i: int|
            0 <= i < a.bounds.len() && match_of(eco, version, #[trigger] a.bounds[i]) == Match::Unknown,
{
    if verdict_of(eco, version, a) == Match::NotAffected {
        assert forall|i: int| 0 <= i < a.bounds.len() implies match_of(eco, version, #[trigger] a.bounds[i])
            == Match::NotAffected by {
            assert(match_of(eco, version, a.bounds[i]) != Match::Affected);
            assert(match_of(eco, version, a.bounds[i]) != Match::Unknown);
        }
    }
}

/// One more interval or listed version never makes a version safer.
pub proof fn law_more_intervals_cover_no_less(eco: Ecosystem, version: Seq<char>, less: Advisory, more: Advisory)
    requires
        forall|i: int| 0 <= i < less.bounds.len() ==> more.bounds.contains(#[trigger] less.bounds[i]),
        forall|i: int| 0 <= i < less.versions.len() ==> more.versions.contains(#[trigger] less.versions[i]),
        verdict_of(eco, version, less) == Match::Affected,
    ensures
        verdict_of(eco, version, more) == Match::Affected,
{
    law_every_interval_counts(eco, version, less);
    if less.versions.contains(version) {
        let i = choose|i: int| 0 <= i < less.versions.len() && less.versions[i] == version;
        assert(more.versions.contains(less.versions[i]));
    } else {
        let i = choose|i: int|
            0 <= i < less.bounds.len() && match_of(eco, version, #[trigger] less.bounds[i]) == Match::Affected;
        let j = choose|j: int| 0 <= j < more.bounds.len() && more.bounds[j] == less.bounds[i];
        assert(match_of(eco, version, more.bounds[j]) == Match::Affected);
    }
}

/// The word of the policy's threshold decides which vulnerabilities may block:
/// those of the severity that it names and of every worse one, and no others. The
/// word `off`, and one that is not known, lets none block.
pub proof fn law_threshold_word_decides(policy: Policy, a: Advisory)
    requires
        a.kind == Kind::Vulnerability,
    ensures
        ({
            let word = lower_case(policy.defaults.severity_threshold@);
            &&& word == "low"@ ==> (is_gated(policy, a) <==> a.severity != Severity::Unknown)
            &&& word == "moderate"@ || word == "medium"@ ==> (is_gated(policy, a) <==> a.severity
                == Severity::Moderate || a.severity == Severity::High || a.severity == Severity::Critical)
            &&& word == "high"@ ==> (is_gated(policy, a) <==> a.severity == Severity::High || a.severity
                == Severity::Critical)
            &&& word == "critical"@ ==> (is_gated(policy, a) <==> a.severity == Severity::Critical)
            &&& word != "low"@ && word != "moderate"@ && word != "medium"@ && word != "high"@ && word
                != "critical"@ ==> !is_gated(policy, a)
        }),
{
    lemma_threshold_words();
}

proof fn lemma_threshold_words()
    ensures
        "off"@.len() == 3 && "low"@.len() == 3 && "moderate"@.len() == 8 && "medium"@.len() == 6,
        "high"@.len() == 4 && "critical"@.len() == 8,
        "off"@[0] == 'o' && "low"@[0] == 'l' && "moderate"@[0] == 'm' && "critical"@[0] == 'c',
{
    reveal_strlit("off");
    reveal_strlit("low");
    reveal_strlit("moderate");
    reveal_strlit("medium");
    reveal_strlit("high");
    reveal_strlit("critical");
}

/// A vulnerability of the severity that the threshold names may block, and what
/// may block at one severity may block at every worse one.
pub proof fn law_worse_blocks_no_less(policy: Policy, a: Advisory, worse: Advisory)
    requires
        a.kind == worse.kind,
        a.severity.rank() <= worse.severity.rank(),
    ensures
        is_gated(policy, a) ==> is_gated(policy, worse),
        a.kind == Kind::Vulnerability && policy.set_threshold() == Some(Some(a.severity)) ==> is_gated(policy, worse),
{
}

/// What reports a malicious package goes by the switch alone, whatever the
/// threshold and the severity; the threshold alone decides of the rest.
pub proof fn law_malicious_switch_is_its_own(policy: Policy, other: Policy, a: Advisory, b: Advisory)
    ensures
        a.kind == Kind::Malicious ==> (is_gated(policy, a) <==> lower_case(policy.defaults.malicious@) == "block"@),
        a.kind == Kind::Vulnerability && b.kind == Kind::Vulnerability && a.severity == b.severity
            && policy.defaults.severity_threshold@ == other.defaults.severity_threshold@ ==> (is_gated(policy, a)
            <==> is_gated(other, b)),
{
}

/// An advisory reports a wholly malicious package just where it is malicious,
/// lists no versions, has a range, and every range of it runs from `0` without
/// end. Such an advisory covers every version that can be read.
pub proof fn law_wholly_malicious_is_every_version(a: Advisory, version: Seq<char>)
    ensures
        is_wholly_malicious(a) <==> {
            &&& a.kind == Kind::Malicious
            &&& a.versions.len() == 0
            &&& a.bounds.len() > 0
            &&& forall|i: int|
                0 <= i < a.bounds.len() ==> #[trigger] a.bounds[i] == (BoundText {
                    introduced: Some("0"@),
                    fixed: None,
                    last_affected: None,
                })
        },
        is_wholly_malicious(a) && semver_valid(version) ==> verdict_of(Ecosystem::Npm, version, a)
            == Match::Affected,
{
    assert forall|i: int| 0 <= i < a.bounds.len() implies ((#[trigger] a.bounds[i]).is_whole() <==> a.bounds[i] == (
    BoundText { introduced: Some("0"@), fixed: None, last_affected: None })) by {
        law_whole_range_has_no_end(a.bounds[i]);
    }
    if is_wholly_malicious(a) && semver_valid(version) {
        law_whole_package_covers_every_version(version, a.bounds[0]);
    }
}

} // verus!
