//! One run, decision by decision: may the policy be used, is there anything to
//! build from, and what goes into the file.
//!
//! A feed that cannot be read, a policy that cannot be used and an inventory that
//! is empty stop the run before anything is written: the existing blocklist is
//! never replaced by a thinner one.

use crate::blocklist::{
    body_tree, canonical_body, is_check_of, law_check_accepts_what_was_derived, rule_texts, rules_tree, stored_digest,
    text_trees, tree_digest, Check, Derivation, Output, Rule, Unmatched,
};
use crate::builder::{is_rules_of, whole_count, Builder, Stats};
use crate::digest::{digest_text, text_digest};
use crate::hits::{empty_build, BuildText};
use crate::index::{named_of, Index};
use crate::inventory::{item_texts, path_texts, InvItem, ItemText};
use crate::json::JsonTree;
use crate::laws::{compiled, law_rules_are_determined};
use crate::order::text_before;
use crate::policy::{expired_notices, law_expiry_goes_by_the_date, Policy, PolicyError};
use crate::text::{decimal, lower_case, views};
use crate::vers::Ecosystem;
use vstd::prelude::*;
use vstd::utf8::encode_utf8;

verus! {

/// The run did what it was asked to.
pub const EXIT_OK: u8 = 0;

/// Something went wrong that has no code of its own.
pub const EXIT_FAILURE: u8 = 1;

/// The feed is missing or unreadable.
pub const EXIT_FEED: u8 = 2;

/// The inventory is empty, or there is nothing to build from.
pub const EXIT_EMPTY_INVENTORY: u8 = 3;

/// An exception of the policy is past its date.
pub const EXIT_EXPIRED_EXCEPTION: u8 = 4;

/// The policy cannot be used.
pub const EXIT_POLICY: u8 = 5;

/// A blocklist is not the one that its digest was derived from.
pub const EXIT_DRIFT: u8 = 6;

/// Why a run stops before anything is written.
#[derive(Debug)]
pub enum Refusal {
    /// The policy cannot be used.
    Policy(PolicyError),
    /// An exception of the policy is past its date.
    Expired(PolicyError),
    /// The feed is missing or unreadable.
    Feed,
    /// The inventory holds nothing.
    EmptyInventory,
    /// Neither an inventory nor proactive mode was asked for.
    NothingToBuildFrom,
    /// More advisories than can be counted.
    TooLarge,
}

impl Refusal {
    /// The exit code of a refusal.
    pub open spec fn exit_code(self) -> u8 {
        match self {
            Refusal::Policy(_) => EXIT_POLICY,
            Refusal::Expired(_) => EXIT_EXPIRED_EXCEPTION,
            Refusal::Feed => EXIT_FEED,
            Refusal::EmptyInventory => EXIT_EMPTY_INVENTORY,
            Refusal::NothingToBuildFrom => EXIT_EMPTY_INVENTORY,
            Refusal::TooLarge => EXIT_FAILURE,
        }
    }

    /// Exit codes are part of the contract: CI branches on them.
    pub fn code(&self) -> (r: u8)
        ensures
            r == self.exit_code(),
    {
        match self {
            Refusal::Policy(_) => EXIT_POLICY,
            Refusal::Expired(_) => EXIT_EXPIRED_EXCEPTION,
            Refusal::Feed => EXIT_FEED,
            Refusal::EmptyInventory => EXIT_EMPTY_INVENTORY,
            Refusal::NothingToBuildFrom => EXIT_EMPTY_INVENTORY,
            Refusal::TooLarge => EXIT_FAILURE,
        }
    }
}

/// A run that was refused never looks like one that did its work.
pub proof fn law_refusal_is_never_success(refusal: Refusal)
    ensures
        refusal.exit_code() != EXIT_OK,
{
}

/// The exit code of a check.
pub fn check_code(check: &Check) -> (r: u8)
    ensures
        r == match *check {
            Check::Matches(_) => EXIT_OK,
            Check::Drift { .. } => EXIT_DRIFT,
            _ => EXIT_FAILURE,
        },
{
    match check {
        Check::Matches(_) => EXIT_OK,
        Check::Drift { .. } => EXIT_DRIFT,
        _ => EXIT_FAILURE,
    }
}

/// The policy may be used on a day: it is of a known version and threshold, and
/// none of its exceptions is past its date.
pub open spec fn is_usable(policy: Policy, today: Seq<char>) -> bool {
    &&& policy.version == 1
    &&& policy.set_threshold() is Some
    &&& forall|i: int|
        0 <= i < policy.exceptions@.len() ==> !(#[trigger] policy.exceptions@[i]).is_expired(today)
}

/// Lets a policy in, or stops the run. `read` holds the policy, or the reason why
/// the text is none.
pub fn admit_policy(read: Result<Policy, String>, today: &str) -> (r: Result<Policy, Refusal>)
    ensures
        r is Ok <==> (read matches Ok(policy) && is_usable(policy, today@)),
        r matches Ok(policy) ==> read == Ok::<Policy, String>(policy),
        r matches Err(e) ==> match read {
            Err(reason) => e == Refusal::Policy(PolicyError::Parse(reason)),
            Ok(policy) => if policy.version != 1 {
                e == Refusal::Policy(PolicyError::UnsupportedVersion(policy.version))
            } else if policy.set_threshold() is None {
                e matches Refusal::Policy(PolicyError::BadThreshold(word)) && word@ == lower_case(
                    policy.defaults.severity_threshold@,
                )
            } else {
                e matches Refusal::Expired(PolicyError::Expired(list)) && views(list@) == expired_notices(
                    policy.exceptions@,
                    today@,
                )
            },
        },
{
    let policy = match Policy::load(read) {
        Ok(p) => p,
        Err(e) => {
            return Err(Refusal::Policy(e));
        },
    };
    match policy.check_expiry(today) {
        Ok(()) => Ok(policy),
        Err(e) => Err(Refusal::Expired(e)),
    }
}

/// What a build gives.
#[derive(Debug)]
pub struct Build {
    pub rules: Vec<Rule>,
    pub unmatched: Unmatched,
    pub stats: Stats,
}

/// What an inventory says, where there is one.
pub open spec fn inventory_texts(inventory: Option<&[InvItem]>) -> Option<Seq<ItemText>> {
    match inventory {
        Some(items) => Some(item_texts(items@)),
        None => None,
    }
}

/// The build says what was compiled.
pub open spec fn is_build_of(build: Build, end: BuildText) -> bool {
    let rules = rule_texts(build.rules@);
    &&& is_rules_of(rules, end.hits)
    &&& build.unmatched.count == end.counts.unknown
    &&& views(build.unmatched.sample@) == end.samples
    &&& build.stats.inventory_items == end.counts.inventory_items
    &&& build.stats.excepted == end.counts.excepted
    &&& build.stats.unknown == end.counts.unknown
    &&& build.stats.whole_package_rules == whole_count(rules)
    &&& build.stats.version_rules == rules.len() - whole_count(rules)
}

/// Why a build from a feed that was read is refused, if it is: there is nothing
/// to build from, there is more than can be counted, or the inventory is empty.
pub open spec fn build_refusal(end: BuildText, inventory: Option<Seq<ItemText>>, proactive: bool) -> Option<Refusal> {
    if inventory is None && !proactive {
        Some(Refusal::NothingToBuildFrom)
    } else if !end.fits() {
        Some(Refusal::TooLarge)
    } else if (inventory matches Some(items) && items.len() == 0) && !proactive {
        Some(Refusal::EmptyInventory)
    } else {
        None
    }
}

/// Derives the rules from a feed, a policy and an inventory, or stops the run. A
/// feed that could not be read is a hard stop, and an empty inventory is a
/// signal, not a result.
pub fn derive_rules(
    feed: Option<&Index>,
    eco: Ecosystem,
    policy: &Policy,
    inventory: Option<&[InvItem]>,
    proactive: bool,
) -> (r: Result<Build, Refusal>)
    requires
        feed matches Some(idx) ==> idx.wf(),
    ensures
        match feed {
            None => r == Err::<Build, Refusal>(Refusal::Feed),
            Some(idx) => {
                let end = compiled(*policy, eco, idx.groups(), inventory_texts(inventory), proactive);
                match build_refusal(end, inventory_texts(inventory), proactive) {
                    Some(refusal) => r == Err::<Build, Refusal>(refusal),
                    None => r matches Ok(build) && is_build_of(build, end),
                }
            },
        },
{
    let idx = match feed {
        Some(idx) => idx,
        None => {
            return Err(Refusal::Feed);
        },
    };
    let mut builder = Builder::default();
    if proactive {
        let entries: usize = idx.entry_count();
        proof {
            let named = named_of(idx.groups());
            assert(entries == named.len());
            empty_build().lemma_feed_counts(*policy, eco.registry_name(), named, 0);
        }
        builder.add_proactive(idx, eco, policy);
    }
    match inventory {
        Some(items) => {
            builder = match builder.try_add_inventory(items, idx, eco, policy) {
                Some(more) => more,
                None => {
                    return Err(Refusal::TooLarge);
                },
            };
            if items.len() == 0 && !proactive {
                return Err(Refusal::EmptyInventory);
            }
        },
        None => {
            if !proactive {
                return Err(Refusal::NothingToBuildFrom);
            }
        },
    }
    let (rules, unmatched, stats) = builder.finish();
    Ok(Build { rules, unmatched, stats })
}

/// The name of the mode that a blocklist was derived in.
pub open spec fn mode_text(proactive: bool) -> Seq<char> {
    if proactive {
        "proactive"@
    } else {
        "inventory"@
    }
}

/// The digests that go into a derivation.
#[derive(Debug)]
pub struct Digests {
    pub policy: String,
    /// None where no inventory was given.
    pub inventory: Option<String>,
    pub feed: String,
    /// That of the canonical body.
    pub output: String,
}

/// Puts the blocklist file together: the rules, and the digests of all that went
/// in and of the body itself. `release` is the version of the program.
pub fn put_together(
    rules: Vec<Rule>,
    unmatched: Unmatched,
    digests: Digests,
    proactive: bool,
    release: &str,
) -> (out: Output)
    ensures
        out.version == 1,
        out.rules == rules,
        out.unmatched == unmatched,
        out.derivation.dozor@ == release@,
        out.derivation.matcher@ == "dozor-vers "@ + release@,
        out.derivation.policy == digests.policy,
        out.derivation.inventory@ == match digests.inventory {
            Some(d) => d@,
            None => "none"@,
        },
        out.derivation.mode@ == mode_text(proactive),
        out.derivation.snapshots@.len() == 1,
        out.derivation.snapshots@[0].0@ == "npm"@,
        out.derivation.snapshots@[0].1 == digests.feed,
        out.derivation.output == digests.output,
{
    let mut matcher = "dozor-vers ".to_string();
    matcher.append(release);
    let inventory = match digests.inventory {
        Some(d) => d,
        None => "none".to_string(),
    };
    let mode = if proactive {
        "proactive".to_string()
    } else {
        "inventory".to_string()
    };
    let mut snapshots: Vec<(String, String)> = Vec::new();
    snapshots.push(("npm".to_string(), digests.feed));
    Output {
        version: 1,
        rules,
        derivation: Derivation {
            dozor: release.to_string(),
            matcher,
            policy: digests.policy,
            inventory,
            mode,
            snapshots,
            output: digests.output,
        },
        unmatched,
    }
}

/// Puts the blocklist file together from what went in: the policy and the
/// canonical body are digested here, the files were digested as they were read.
pub fn assemble(
    rules: Vec<Rule>,
    unmatched: Unmatched,
    policy_text: &str,
    inventory_digest: Option<String>,
    feed_digest: String,
    proactive: bool,
    release: &str,
) -> (out: Output)
    ensures
        out.version == 1,
        out.rules == rules,
        out.unmatched == unmatched,
        out.derivation.dozor@ == release@,
        out.derivation.matcher@ == "dozor-vers "@ + release@,
        out.derivation.policy@ == digest_text(encode_utf8(policy_text@)),
        out.derivation.inventory@ == match inventory_digest {
            Some(d) => d@,
            None => "none"@,
        },
        out.derivation.mode@ == mode_text(proactive),
        out.derivation.snapshots@.len() == 1,
        out.derivation.snapshots@[0].0@ == "npm"@,
        out.derivation.snapshots@[0].1@ == feed_digest@,
        out.derivation.output@ == tree_digest(body_tree(rule_texts(rules@))),
{
    let (_, output) = canonical_body(rules.as_slice());
    let digests = Digests {
        policy: text_digest(policy_text),
        inventory: inventory_digest,
        feed: feed_digest,
        output,
    };
    put_together(rules, unmatched, digests, proactive, release)
}

/// The JSON of texts by name.
pub open spec fn snapshots_tree(snapshots: Seq<(String, String)>) -> Map<Seq<char>, JsonTree>
    decreases snapshots.len(),
{
    if snapshots.len() == 0 {
        Map::empty()
    } else {
        snapshots_tree(snapshots.drop_last()).insert(
            snapshots.last().0@,
            JsonTree::Text(snapshots.last().1@),
        )
    }
}

/// The JSON of a derivation.
pub open spec fn derivation_tree(d: Derivation) -> JsonTree {
    JsonTree::Record(
        Map::empty().insert("dozor"@, JsonTree::Text(d.dozor@)).insert("matcher"@, JsonTree::Text(d.matcher@)).insert(
            "policy"@,
            JsonTree::Text(d.policy@),
        ).insert("inventory"@, JsonTree::Text(d.inventory@)).insert("mode"@, JsonTree::Text(d.mode@)).insert(
            "snapshots"@,
            JsonTree::Record(snapshots_tree(d.snapshots@)),
        ).insert("output"@, JsonTree::Text(d.output@)),
    )
}

/// The JSON of the versions that could not be decided.
pub open spec fn unmatched_tree(u: Unmatched) -> JsonTree {
    JsonTree::Record(
        Map::empty().insert("count"@, JsonTree::Number(decimal(u.count as nat))).insert(
            "sample"@,
            JsonTree::List(text_trees(views(u.sample@))),
        ),
    )
}

/// The JSON of the blocklist file.
pub open spec fn output_tree(out: Output) -> JsonTree {
    JsonTree::Record(
        Map::empty().insert("version"@, JsonTree::Number(decimal(out.version as nat))).insert(
            "rules"@,
            rules_tree(rule_texts(out.rules@)),
        ).insert("x-dozor-derivation"@, derivation_tree(out.derivation)).insert(
            "x-dozor-unmatched"@,
            unmatched_tree(out.unmatched),
        ),
    )
}

/// A blocklist passes its own check: the file that was put together carries the
/// digest that is derived from it again, and one whose rules were changed since
/// passes only where the digest of its body is still the same.
pub proof fn law_blocklist_passes_its_own_check(out: Output, check: Check)
    requires
        out.version == 1,
        is_check_of(check, output_tree(out)),
    ensures
        check is Matches <==> out.derivation.output@ == tree_digest(body_tree(rule_texts(out.rules@))),
        check is Matches || check is Drift,
{
    let file = output_tree(out);
    reveal_strlit("version");
    reveal_strlit("rules");
    reveal_strlit("x-dozor-derivation");
    reveal_strlit("x-dozor-unmatched");
    assert("version"@[0] != "rules"@[0]);
    assert("version"@[0] != "x-dozor-derivation"@[0]);
    assert("version"@[0] != "x-dozor-unmatched"@[0]);
    assert("rules"@[0] != "x-dozor-derivation"@[0]);
    assert("rules"@[0] != "x-dozor-unmatched"@[0]);
    assert("x-dozor-derivation"@.len() != "x-dozor-unmatched"@.len());
    assert(file.field("version"@) == Some(JsonTree::Number(decimal(1))));
    assert(file.field("rules"@) == Some(rules_tree(rule_texts(out.rules@))));
    assert(file.field("x-dozor-derivation"@) == Some(derivation_tree(out.derivation)));
    assert(derivation_tree(out.derivation).field("output"@) == Some(JsonTree::Text(out.derivation.output@)));
    assert(stored_digest(file) == Some(out.derivation.output@));
    law_check_accepts_what_was_derived(file, rule_texts(out.rules@), check);
}

/// The same inputs build the same blocklist: two builds from one feed, one policy
/// and one inventory say the same, rule by rule.
pub proof fn law_builds_are_reproducible(a: Build, b: Build, end: BuildText)
    requires
        is_build_of(a, end),
        is_build_of(b, end),
    ensures
        rule_texts(a.rules@) == rule_texts(b.rules@),
        tree_digest(body_tree(rule_texts(a.rules@))) == tree_digest(body_tree(rule_texts(b.rules@))),
        a.unmatched.count == b.unmatched.count,
        views(a.unmatched.sample@) == views(b.unmatched.sample@),
        a.stats == b.stats,
{
    law_rules_are_determined(rule_texts(a.rules@), rule_texts(b.rules@), end.hits);
}

/// Each way in which a run can stop has its own exit code, and only a finished
/// run exits with success.
pub proof fn law_exit_codes_tell_why(refusal: Refusal)
    ensures
        refusal is Feed <==> refusal.exit_code() == 2,
        refusal is EmptyInventory || refusal is NothingToBuildFrom <==> refusal.exit_code() == 3,
        refusal is Expired <==> refusal.exit_code() == 4,
        refusal is Policy <==> refusal.exit_code() == 5,
        refusal is TooLarge <==> refusal.exit_code() == 1,
{
}

/// A policy that may be used has a threshold that is known, is of the one version
/// there is, and has no exception whose date comes before today's; every such
/// policy may be used.
pub proof fn law_usable_policies(policy: Policy, today: Seq<char>)
    ensures
        is_usable(policy, today) ==> policy.version == 1 && policy.set_threshold() is Some && forall|i: int|
            0 <= i < policy.exceptions@.len() ==> !text_before((#[trigger] policy.exceptions@[i]).expires@, today),
        policy.version == 1 && policy.set_threshold() is Some && (forall|i: int|
            0 <= i < policy.exceptions@.len() ==> !text_before((#[trigger] policy.exceptions@[i]).expires@, today))
            ==> is_usable(policy, today),
{
    assert forall|i: int| 0 <= i < policy.exceptions@.len() implies ((#[trigger] policy.exceptions@[i]).is_expired(
        today,
    ) <==> text_before(policy.exceptions@[i].expires@, today)) by {
        law_expiry_goes_by_the_date(policy.exceptions@[i], today);
    }
}

/// An existing blocklist is never replaced from nothing: without proactive mode, a
/// missing or empty inventory is always refused. What can be counted and is built
/// from something never is.
pub proof fn law_nothing_is_built_from_nothing(end: BuildText, inventory: Option<Seq<ItemText>>, proactive: bool)
    ensures
        !proactive && inventory is None ==> build_refusal(end, inventory, proactive) == Some(
            Refusal::NothingToBuildFrom,
        ),
        !proactive && end.fits() && inventory is Some && inventory->0.len() == 0 ==> build_refusal(
            end,
            inventory,
            proactive,
        ) == Some(Refusal::EmptyInventory),
        !proactive && inventory is Some && inventory->0.len() == 0 ==> build_refusal(end, inventory, proactive)
            is Some,
        build_refusal(end, inventory, proactive) is None <==> end.fits() && (proactive || (inventory is Some
            && inventory->0.len() > 0)),
{
}

/// A build hands out what was compiled: the rules of its hits, the undecided
/// versions that were counted and named, and the counts, where rules for whole
/// packages and for versions together are all rules.
pub proof fn law_build_hands_out_what_was_compiled(build: Build, end: BuildText)
    requires
        is_build_of(build, end),
    ensures
        is_rules_of(rule_texts(build.rules@), end.hits),
        build.unmatched.count == end.counts.unknown,
        build.unmatched.sample@.len() == end.samples.len(),
        forall|i: int| 0 <= i < end.samples.len() ==> (#[trigger] build.unmatched.sample@[i])@ == end.samples[i],
        build.stats.inventory_items == end.counts.inventory_items,
        build.stats.excepted == end.counts.excepted,
        build.stats.unknown == end.counts.unknown,
        build.stats.whole_package_rules + build.stats.version_rules == build.rules@.len(),
        build.stats.whole_package_rules == whole_count(rule_texts(build.rules@)),
{
    assert forall|i: int| 0 <= i < end.samples.len() implies (#[trigger] build.unmatched.sample@[i])@
        == end.samples[i] by {
        assert(views(build.unmatched.sample@)[i] == build.unmatched.sample@[i]@);
    }
}

/// The two modes have their own names.
pub proof fn law_modes_are_named()
    ensures
        mode_text(true) == "proactive"@,
        mode_text(false) == "inventory"@,
{
}

/// What lists say is what their items say, one by one.
pub proof fn law_lists_say_what_their_items_say(
    rules: Seq<Rule>,
    items: Seq<InvItem>,
    files: Seq<Vec<String>>,
    texts: Seq<String>,
    i: int,
)
    ensures
        rule_texts(rules).len() == rules.len(),
        item_texts(items).len() == items.len(),
        path_texts(files).len() == files.len(),
        views(texts).len() == texts.len(),
        0 <= i < rules.len() ==> rule_texts(rules)[i] == rules[i]@,
        0 <= i < items.len() ==> item_texts(items)[i] == (ItemText {
            registry: items[i].registry@,
            name: items[i].name@,
            version: items[i].version@,
        }),
        0 <= i < files.len() ==> path_texts(files)[i] == views(files[i]@),
        0 <= i < texts.len() ==> views(texts)[i] == texts[i]@,
{
}

} // verus!
