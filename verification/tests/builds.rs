use dozor::advisory::{RawAdvisory, RawAffected, RawDbSpecific, RawEvent, RawPackage, RawRange};
use dozor::blocklist::{canonical_body, check_text, Check, Rule};
use dozor::builder::{version_verdict, Builder};
use dozor::index::{fold, Index};
use dozor::inventory::{from_npm_lockfile, write_jsonl, InvItem};
use dozor::pipeline::{
    admit_policy, assemble, derive_rules, Build, Refusal, EXIT_EMPTY_INVENTORY, EXIT_EXPIRED_EXCEPTION, EXIT_FEED,
    EXIT_POLICY,
};
use dozor::policy::{Defaults, Exception, Policy};
use dozor::vers::{Ecosystem, Match};

fn advisory(
    id: &str,
    ecosystem: &str,
    name: &str,
    severity: Option<&str>,
    events: &[(Option<&str>, Option<&str>)],
    versions: &[&str],
) -> RawAdvisory {
    RawAdvisory {
        id: id.to_string(),
        affected: vec![RawAffected {
            package: Some(RawPackage { name: Some(name.to_string()), ecosystem: Some(ecosystem.to_string()) }),
            ranges: vec![RawRange {
                events: events
                    .iter()
                    .map(|(introduced, fixed)| RawEvent {
                        introduced: introduced.map(|s| s.to_string()),
                        fixed: fixed.map(|s| s.to_string()),
                        last_affected: None,
                    })
                    .collect(),
            }],
            versions: versions.iter().map(|v| v.to_string()).collect(),
        }],
        database_specific: severity.map(|s| RawDbSpecific { severity: Some(s.to_string()) }),
    }
}

fn feed() -> Index {
    let mut idx = Index::default();
    let always = [(Some("0"), None)];
    let until_two = [(Some("0"), None), (None, Some("2.0.0"))];
    for raw in [
        advisory("MAL-0001", "npm", "evil-pkg", None, &always, &[]),
        advisory("MAL-0002", "npm", "partly-evil", None, &[], &["1.0.1"]),
        advisory("GHSA-high", "npm", "vuln-pkg", Some("HIGH"), &until_two, &[]),
        advisory("GHSA-low", "npm", "low-pkg", Some("LOW"), &until_two, &[]),
        advisory("GHSA-weird", "npm", "weird-pkg", Some("CRITICAL"), &until_two, &[]),
        advisory("GHSA-py", "PyPI", "django", Some("CRITICAL"), &always, &[]),
    ] {
        fold(raw, Ecosystem::Npm, &mut idx);
    }
    idx.finish();
    idx
}

fn item(name: &str, version: &str) -> InvItem {
    InvItem { registry: "npm".to_string(), name: name.to_string(), version: version.to_string() }
}

fn inventory() -> Vec<InvItem> {
    vec![
        item("evil-pkg", "1.0.0"),
        item("evil-pkg", "1.2.3"),
        item("partly-evil", "1.0.1"),
        item("partly-evil", "1.0.2"),
        item("vuln-pkg", "1.0.0"),
        item("vuln-pkg", "2.0.0"),
        item("low-pkg", "1.0.0"),
        item("clean-pkg", "1.0.0"),
        item("weird-pkg", "not-a-semver"),
        item("django", "1.0.0"),
    ]
}

fn policy() -> Policy {
    Policy { version: 1, defaults: Defaults::default(), exceptions: Vec::new() }
}

fn exception(name: &str, version: &str, expires: &str) -> Exception {
    Exception {
        registry: "npm".to_string(),
        name: name.to_string(),
        version: version.to_string(),
        reason: "tracked".to_string(),
        expires: expires.to_string(),
    }
}

fn build(pol: &Policy, items: &[InvItem], proactive: bool) -> Build {
    derive_rules(Some(&feed()), Ecosystem::Npm, pol, Some(items), proactive).unwrap()
}

fn keys(rules: &[Rule]) -> Vec<(String, String)> {
    rules.iter().map(|r| (r.name.clone(), r.version.clone())).collect()
}

#[test]
fn determinism_two_builds_identical() {
    let a = build(&policy(), &inventory(), false);
    let b = build(&policy(), &inventory(), false);
    assert_eq!(canonical_body(&a.rules), canonical_body(&b.rules));

    // ...and the stored derivation digest must re-derive from the file itself.
    let out = assemble(a.rules, a.unmatched, "", None, "feed".to_string(), false, "0.1.0");
    let body = canonical_body(&out.rules).0;
    let file = format!(
        r#"{},"x-dozor-derivation":{{"output":"{}"}}}}"#,
        body.strip_suffix('}').unwrap(),
        out.derivation.output
    );
    assert!(matches!(check_text(&file).unwrap(), Check::Matches(_)));
}

#[test]
fn inventory_order_and_repeats_change_no_rule() {
    let one = build(&policy(), &inventory(), true);
    let mut items = inventory();
    items.reverse();
    items.push(item("vuln-pkg", "1.0.0"));
    let other = build(&policy(), &items, true);
    assert_eq!(canonical_body(&one.rules), canonical_body(&other.rules));
}

#[test]
fn missing_feed_exits_2_and_leaves_output_untouched() {
    let refused = derive_rules(None, Ecosystem::Npm, &policy(), Some(&inventory()), false).unwrap_err();
    assert!(matches!(refused, Refusal::Feed));
    assert_eq!(refused.code(), 2);
    assert_eq!(EXIT_FEED, 2);
    // ...whatever else there is to say against the build.
    assert!(matches!(
        derive_rules(None, Ecosystem::Npm, &policy(), Some(&[]), false),
        Err(Refusal::Feed)
    ));
}

#[test]
fn empty_inventory_exits_3_and_leaves_output_untouched() {
    let refused = derive_rules(Some(&feed()), Ecosystem::Npm, &policy(), Some(&[]), false).unwrap_err();
    assert!(matches!(refused, Refusal::EmptyInventory));
    assert_eq!(refused.code(), 3);
    assert_eq!(EXIT_EMPTY_INVENTORY, 3);
    let refused = derive_rules(Some(&feed()), Ecosystem::Npm, &policy(), None, false).unwrap_err();
    assert!(matches!(refused, Refusal::NothingToBuildFrom));
    assert_eq!(refused.code(), 3);
    assert!(derive_rules(Some(&feed()), Ecosystem::Npm, &policy(), Some(&[]), true).is_ok());
}

#[test]
fn expired_exception_exits_4() {
    let mut pol = policy();
    pol.exceptions.push(exception("vuln-pkg", "1.0.0", "2026-09-04"));
    let refused = admit_policy(Ok(pol), "2026-09-05").unwrap_err();
    assert_eq!(refused.code(), 4);
    assert_eq!(EXIT_EXPIRED_EXCEPTION, 4);
    match refused {
        Refusal::Expired(e) => assert!(e.message().contains("expired")),
        other => panic!("{other:?}"),
    }
    let mut pol = policy();
    pol.exceptions.push(exception("vuln-pkg", "1.0.0", "2026-09-05"));
    assert!(admit_policy(Ok(pol), "2026-09-05").is_ok());
}

#[test]
fn unusable_policy_exits_5() {
    let mut pol = policy();
    pol.defaults.severity_threshold = "kinda-bad".to_string();
    assert_eq!(admit_policy(Ok(pol), "2026-09-05").unwrap_err().code(), 5);
    let mut pol = policy();
    pol.version = 2;
    assert_eq!(admit_policy(Ok(pol), "2026-09-05").unwrap_err().code(), 5);
    assert_eq!(admit_policy(Err("no".to_string()), "2026-09-05").unwrap_err().code(), EXIT_POLICY);
}

#[test]
fn undecidable_version_is_reported_not_silently_allowed() {
    let done = build(&policy(), &inventory(), false);
    assert_eq!(done.unmatched.count, 1, "weird-pkg@not-a-semver must be counted");
    assert!(
        done.unmatched.sample.iter().any(|s| s == "weird-pkg@not-a-semver"),
        "the undecidable version must be named in the sample"
    );
    assert_eq!(done.stats.unknown, 1);
}

#[test]
fn only_the_first_undecided_versions_are_named() {
    let items: Vec<InvItem> = (0..25).map(|i| item("weird-pkg", &format!("v{i}"))).collect();
    let done = build(&policy(), &items, false);
    assert_eq!(done.unmatched.count, 25);
    assert_eq!(done.unmatched.sample.len(), 20);
    assert_eq!(done.unmatched.sample[19], "weird-pkg@v19");
}

#[test]
fn policy_decides_what_the_fixture_expects() {
    let done = build(&policy(), &inventory(), false);
    let keys = keys(&done.rules);

    // wholly malicious package -> one "*" rule, both cached versions collapsed
    assert!(keys.contains(&("evil-pkg".into(), "*".into())));
    assert_eq!(keys.iter().filter(|(n, _)| n == "evil-pkg").count(), 1);
    // malicious in one version only -> that version, not the package
    assert!(keys.contains(&("partly-evil".into(), "1.0.1".into())));
    assert!(!keys.contains(&("partly-evil".into(), "1.0.2".into())));
    // HIGH inside range blocks, the fixed version does not
    assert!(keys.contains(&("vuln-pkg".into(), "1.0.0".into())));
    assert!(!keys.contains(&("vuln-pkg".into(), "2.0.0".into())));
    // LOW under a HIGH threshold does not block
    assert!(!keys.iter().any(|(n, _)| n == "low-pkg"));
    // a package with no advisory is untouched
    assert!(!keys.iter().any(|(n, _)| n == "clean-pkg"));
    // PyPI advisories never leak into an npm blocklist
    assert!(!keys.iter().any(|(n, _)| n == "django"));

    assert_eq!(done.stats.inventory_items, 10);
    assert_eq!(done.stats.whole_package_rules, 1);
    assert_eq!(done.stats.version_rules, 2);
    assert_eq!(done.stats.excepted, 0);
}

#[test]
fn a_lower_threshold_blocks_more() {
    let mut pol = policy();
    pol.defaults.severity_threshold = "low".to_string();
    assert!(keys(&build(&pol, &inventory(), false).rules).contains(&("low-pkg".into(), "1.0.0".into())));
    pol.defaults.severity_threshold = "off".to_string();
    let off = keys(&build(&pol, &inventory(), false).rules);
    assert!(!off.contains(&("vuln-pkg".into(), "1.0.0".into())));
    assert!(off.contains(&("evil-pkg".into(), "*".into())));
}

#[test]
fn the_malicious_switch_is_its_own() {
    let mut pol = policy();
    pol.defaults.malicious = "audit".to_string();
    let got = keys(&build(&pol, &inventory(), true).rules);
    assert_eq!(got, vec![("vuln-pkg".to_string(), "1.0.0".to_string())]);
}

#[test]
fn exceptions_let_versions_pass() {
    let mut pol = policy();
    pol.exceptions.push(exception("vuln-pkg", "1.0.0", "2099-01-01"));
    pol.exceptions.push(exception("evil-pkg", "1.0.0", "2099-01-01"));
    let done = build(&pol, &inventory(), false);
    assert!(!keys(&done.rules).iter().any(|(n, _)| n == "vuln-pkg"));
    // one version is no exception for the whole package
    assert!(keys(&done.rules).contains(&("evil-pkg".into(), "*".into())));
    assert_eq!(done.stats.excepted, 1);
    pol.exceptions.push(exception("evil-pkg", "*", "2099-01-01"));
    let done = build(&pol, &inventory(), true);
    assert!(!keys(&done.rules).iter().any(|(n, _)| n == "evil-pkg"));
    assert_eq!(done.stats.excepted, 4);
}

#[test]
fn reason_carries_advisory_id_and_link() {
    let done = build(&policy(), &inventory(), false);
    let evil = done.rules.iter().find(|r| r.name == "evil-pkg").expect("evil-pkg rule");
    let reason = &evil.reason;
    assert!(reason.contains("MAL-0001"), "reason must name the advisory: {reason}");
    assert!(reason.contains("osv.dev"), "reason must link to the advisory: {reason}");
    assert_eq!(evil.meta.kind, "malicious");
    assert_eq!(evil.meta.purl, "pkg:npm/evil-pkg@*");
    assert_eq!(evil.meta.fixed_in, None);
    let vuln = done.rules.iter().find(|r| r.name == "vuln-pkg").expect("vuln-pkg rule");
    assert_eq!(vuln.meta.kind, "vulnerability");
    assert_eq!(vuln.meta.severity, "HIGH");
    assert_eq!(vuln.meta.fixed_in.as_deref(), Some("2.0.0"));
    assert_eq!(
        vuln.reason,
        "HIGH severity vulnerability (GHSA-high) · fix: 2.0.0 · https://osv.dev/vulnerability/GHSA-high"
    );
}

#[test]
fn proactive_blocks_packages_never_cached() {
    let done = derive_rules(Some(&feed()), Ecosystem::Npm, &policy(), None, true).unwrap();
    assert!(done.rules.iter().any(|r| r.name == "evil-pkg" && r.version == "*"));
    assert_eq!(done.rules.len(), 1);
    let out = assemble(done.rules, done.unmatched, "", None, "feed".to_string(), true, "0.1.0");
    assert_eq!(out.derivation.mode, "proactive");
}

#[test]
fn inventory_from_lockfile_feeds_build() {
    let items = from_npm_lockfile(
        r#"{"lockfileVersion":3,"packages":{"":{"name":"app"},
            "node_modules/evil-pkg":{"version":"1.2.3"},
            "node_modules/clean-pkg":{"version":"1.0.0"}}}"#,
    )
    .unwrap();
    let mut read: Vec<InvItem> = Vec::new();
    for line in write_jsonl(&items).lines() {
        let v: serde_json::Value = serde_json::from_str(line).unwrap();
        read.push(InvItem {
            registry: v["registry"].as_str().unwrap().to_string(),
            name: v["name"].as_str().unwrap().to_string(),
            version: v["version"].as_str().unwrap().to_string(),
        });
    }
    assert_eq!(read.len(), items.len());
    let done = build(&policy(), &read, false);
    assert!(done.rules.iter().any(|r| r.name == "evil-pkg"));
}

#[test]
fn several_advisories_make_one_rule() {
    let mut idx = Index::default();
    let until = |v: &'static str| [(Some("0"), None), (None, Some(v))];
    fold(advisory("GHSA-b", "npm", "p", Some("HIGH"), &until("3.0.0"), &[]), Ecosystem::Npm, &mut idx);
    fold(advisory("GHSA-a", "npm", "p", Some("CRITICAL"), &until("2.0.0"), &[]), Ecosystem::Npm, &mut idx);
    fold(advisory("GHSA-a", "npm", "p", Some("HIGH"), &until("4.0.0"), &[]), Ecosystem::Npm, &mut idx);
    idx.finish();
    let done = derive_rules(Some(&idx), Ecosystem::Npm, &policy(), Some(&[item("p", "1.0.0")]), false).unwrap();
    assert_eq!(done.rules.len(), 1);
    let meta = &done.rules[0].meta;
    assert_eq!(meta.osv, vec!["GHSA-a".to_string(), "GHSA-b".to_string()]);
    assert_eq!(meta.severity, "CRITICAL");
    assert_eq!(meta.fixed_in.as_deref(), Some("3.0.0"));
    assert_eq!(
        done.rules[0].reason,
        "CRITICAL severity vulnerability (GHSA-a, GHSA-b) · fix: 3.0.0 · https://osv.dev/vulnerability/GHSA-a"
    );
}

#[test]
fn a_whole_rule_stands_alone_and_rules_are_sorted() {
    let mut idx = Index::default();
    let always = [(Some("0"), None)];
    let until = [(Some("0"), None), (None, Some("9.0.0"))];
    fold(advisory("MAL-1", "npm", "z", None, &always, &[]), Ecosystem::Npm, &mut idx);
    fold(advisory("GHSA-1", "npm", "z", Some("CRITICAL"), &until, &[]), Ecosystem::Npm, &mut idx);
    fold(advisory("GHSA-2", "npm", "a", Some("CRITICAL"), &until, &[]), Ecosystem::Npm, &mut idx);
    idx.finish();
    let items = [item("z", "1.0.0"), item("a", "1.10.0"), item("a", "1.9.0")];
    let done = derive_rules(Some(&idx), Ecosystem::Npm, &policy(), Some(&items), false).unwrap();
    assert_eq!(
        keys(&done.rules),
        vec![
            ("a".to_string(), "1.10.0".to_string()),
            ("a".to_string(), "1.9.0".to_string()),
            ("z".to_string(), "*".to_string()),
        ]
    );
    assert_eq!(done.stats.whole_package_rules, 1);
    assert_eq!(done.stats.version_rules, 2);
}

#[test]
fn a_line_of_another_registry_is_reported_not_silently_allowed() {
    let mut other = item("evil-pkg", "1.0.0");
    other.registry = "pypi".to_string();
    let done = build(&policy(), &[other], false);
    assert_eq!(done.stats.inventory_items, 1);
    assert!(done.rules.is_empty());
    assert_eq!(done.unmatched.count, 1);
    assert_eq!(done.unmatched.sample, vec!["evil-pkg@1.0.0".to_string()]);
    assert_eq!(done.stats.unknown, 1);

    let mut django = item("django", "1.0");
    django.registry = "pypi".to_string();
    let done = build(&policy(), &[item("clean-pkg", "1.0.0"), django], false);
    assert_eq!(done.stats.inventory_items, 2);
    assert_eq!(done.stats.unknown, 1);
    assert_eq!(done.unmatched.sample, vec!["django@1.0".to_string()]);
}

#[test]
fn a_rule_says_what_several_calls_recorded() {
    let mut first = Index::default();
    let always = [(Some("0"), None)];
    let until = |v: &'static str| [(Some("0"), None), (None, Some(v))];
    fold(advisory("GHSA-b", "npm", "p", Some("HIGH"), &until("3.0.0"), &[]), Ecosystem::Npm, &mut first);
    fold(advisory("MAL-9", "npm", "q", None, &always, &[]), Ecosystem::Npm, &mut first);
    first.finish();
    let mut second = Index::default();
    fold(advisory("MAL-7", "npm", "p", None, &[], &["1.0.0"]), Ecosystem::Npm, &mut second);
    fold(advisory("GHSA-a", "npm", "p", Some("CRITICAL"), &until("2.0.0"), &[]), Ecosystem::Npm, &mut second);
    second.finish();
    let pol = policy();
    let builder = Builder::default().try_add_proactive(&first, Ecosystem::Npm, &pol).unwrap();
    let builder = builder.try_add_item(&item("p", "1.0.0"), &first, Ecosystem::Npm, &pol).unwrap();
    let builder = builder.try_add_inventory(&[item("p", "1.0.0")], &second, Ecosystem::Npm, &pol).unwrap();
    let (rules, _, _) = builder.finish();
    assert_eq!(keys(&rules), vec![("p".to_string(), "1.0.0".to_string()), ("q".to_string(), "*".to_string())]);
    let meta = &rules[0].meta;
    assert_eq!(meta.osv, vec!["GHSA-a".to_string(), "GHSA-b".to_string(), "MAL-7".to_string()]);
    assert_eq!(meta.kind, "malicious");
    assert_eq!(meta.severity, "CRITICAL");
    assert_eq!(meta.purl, "pkg:npm/p@1.0.0");
    for id in &meta.osv {
        assert!(rules[0].reason.contains(id.as_str()));
    }
    assert!(rules[0].reason.contains("https://osv.dev/vulnerability/GHSA-a"));
}

#[test]
fn lines_can_be_added_one_by_one() {
    let idx = feed();
    let pol = policy();
    let mut builder = Builder::default();
    builder.add_proactive(&idx, Ecosystem::Npm, &pol);
    for line in inventory() {
        builder.add_item(&line, &idx, Ecosystem::Npm, &pol);
    }
    assert_eq!(builder.stats.inventory_items, 10);
    let (rules, unmatched, _) = builder.finish();
    let mut at_once = Builder::default();
    at_once.add_inventory(&inventory(), &idx, Ecosystem::Npm, &pol);
    let (same, also, _) = at_once.finish();
    assert_eq!(canonical_body(&rules), canonical_body(&same));
    assert_eq!(unmatched.sample, also.sample);
}

#[test]
fn verdicts_go_by_lists_and_ranges() {
    let idx = feed();
    let verdict = |name: &str, version: &str| version_verdict(&idx, Ecosystem::Npm, version, &idx.lookup(name)[0]);
    assert_eq!(verdict("partly-evil", "1.0.1"), Match::Affected);
    assert_eq!(verdict("partly-evil", "1.0.2"), Match::NotAffected);
    assert_eq!(verdict("partly-evil", "junk"), Match::NotAffected);
    assert_eq!(verdict("vuln-pkg", "1.9.9"), Match::Affected);
    assert_eq!(verdict("vuln-pkg", "2.0.0"), Match::NotAffected);
    assert_eq!(verdict("vuln-pkg", "junk"), Match::Unknown);
}
