use dozor::advisory::Severity;
use dozor::blocklist::{
    canonical_body, check_parsed, check_text, compare_digests, digest_of_parsed, purl_of, reason_line, Check, Rule,
    RuleMeta, Unmatched,
};
use dozor::digest::{text_digest, write_hash, Fingerprint};
use dozor::json::{quote, read_json};
use dozor::pipeline::{assemble, check_code, put_together, Digests, EXIT_DRIFT, EXIT_FAILURE, EXIT_OK};

fn sample() -> Vec<Rule> {
    vec![Rule {
        registry: "npm".into(),
        name: "lodash".into(),
        version: "4.17.20".into(),
        reason: "r".into(),
        meta: RuleMeta {
            osv: vec!["GHSA-x".into()],
            severity: "HIGH".into(),
            kind: "vulnerability".into(),
            purl: "pkg:npm/lodash@4.17.20".into(),
            fixed_in: Some("4.17.21".into()),
        },
    }]
}

#[test]
fn canonical_body_is_stable_and_hashes() {
    let rules = vec![Rule {
        registry: "npm".into(),
        name: "lodash".into(),
        version: "4.17.20".into(),
        reason: "r".into(),
        meta: RuleMeta {
            osv: vec!["GHSA-x".into()],
            severity: "HIGH".into(),
            kind: "vulnerability".into(),
            purl: "pkg:npm/lodash@4.17.20".into(),
            fixed_in: Some("4.17.21".into()),
        },
    }];
    let (a, da) = canonical_body(&rules);
    let (b, db) = canonical_body(&rules);
    assert_eq!(a, b);
    assert_eq!(da, db);
    // keys are sorted, so `rules` precedes `version` at the top level
    assert!(a.starts_with(r#"{"rules":[{"name":"lodash""#), "{a}");
}

#[test]
fn the_body_is_key_sorted_json() {
    let (body, digest) = canonical_body(&sample());
    assert_eq!(
        body,
        r#"{"rules":[{"name":"lodash","reason":"r","registry":"npm","version":"4.17.20","x-dozor":{"fixed_in":"4.17.21","kind":"vulnerability","osv":["GHSA-x"],"purl":"pkg:npm/lodash@4.17.20","severity":"HIGH"}}],"version":1}"#
    );
    assert_eq!(digest, text_digest(&body));
    let mut rules = sample();
    rules[0].meta.fixed_in = None;
    let (body, _) = canonical_body(&rules);
    assert!(!body.contains("fixed_in"), "{body}");
    assert_eq!(canonical_body(&[]).0, r#"{"rules":[],"version":1}"#);
}

#[test]
fn digests_are_sha256_in_lowercase() {
    assert_eq!(text_digest(""), "sha256:e3b0c44298fc1c149afbf4c8996fb92427ae41e4649b934ca495991b7852b855");
    assert_eq!(text_digest("abc"), "sha256:ba7816bf8f01cfea414140de5dae2223b00361a396177a9cb410ff61f20015ad");
}

#[test]
fn a_digest_does_not_depend_on_the_pieces() {
    let mut print = Fingerprint::new();
    print.take(b"a");
    print.take(b"");
    print.take(b"bc");
    assert_eq!(print.text(), text_digest("abc"));
}

#[test]
fn a_parsed_body_has_the_digest_it_was_derived_with() {
    let (body, digest) = canonical_body(&sample());
    let parsed = read_json(&body).unwrap();
    assert_eq!(digest_of_parsed(&parsed), Some(digest.clone()));
    // Another order of keys, more keys, and white space change nothing.
    let reordered = r#"{ "version": 1, "extra": true, "rules": [ {"registry":"npm","name":"lodash","version":"4.17.20",
        "reason":"r","x-dozor":{"osv":["GHSA-x"],"severity":"HIGH","kind":"vulnerability",
        "purl":"pkg:npm/lodash@4.17.20","fixed_in":"4.17.21"}} ] }"#;
    assert_eq!(digest_of_parsed(&read_json(reordered).unwrap()), Some(digest));
    assert_eq!(digest_of_parsed(&read_json(r#"{"rules":[]}"#).unwrap()), None);
    assert_eq!(digest_of_parsed(&read_json(r#"{"version":1}"#).unwrap()), None);
    assert_eq!(digest_of_parsed(&read_json("[1]").unwrap()), None);
}

#[test]
fn a_fractional_version_is_kept_as_it_is() {
    let file = read_json(r#"{"version":1.50,"rules":[-1]}"#).unwrap();
    assert_eq!(digest_of_parsed(&file), Some(text_digest(r#"{"rules":[-1],"version":1.5}"#)));
}

fn file_with(digest: &str, rules: &str) -> String {
    format!(r#"{{"version":1,"rules":{rules},"x-dozor-derivation":{{"output":"{digest}"}}}}"#)
}

#[test]
fn a_check_tells_drift_from_a_match() {
    let digest = canonical_body(&[]).1;
    match check_text(&file_with(&digest, "[]")).unwrap() {
        Check::Matches(d) => assert_eq!(d, digest),
        other => panic!("{other:?}"),
    }
    let drift = check_text(&file_with(&digest, "[1]")).unwrap();
    assert_eq!(check_code(&drift), EXIT_DRIFT);
    match drift {
        Check::Drift { stored, recomputed } => {
            assert_eq!(stored, digest);
            assert_eq!(recomputed, text_digest(r#"{"rules":[1],"version":1}"#));
        }
        other => panic!("{other:?}"),
    }
    let bare = check_text(r#"{"version":1,"rules":[]}"#).unwrap();
    assert!(matches!(bare, Check::NoStoredDigest));
    assert_eq!(check_code(&bare), EXIT_FAILURE);
    let numeric = check_text(r#"{"x-dozor-derivation":{"output":5}}"#).unwrap();
    assert!(matches!(numeric, Check::NoStoredDigest));
    let empty = check_text(r#"{"x-dozor-derivation":{"output":"x"}}"#).unwrap();
    assert!(matches!(empty, Check::MalformedBody));
    assert_eq!(check_code(&empty), EXIT_FAILURE);
    assert!(check_text("not json").is_err());
}

#[test]
fn a_blocklist_passes_its_own_check() {
    let rules = sample();
    let out = assemble(rules, Unmatched::default(), "version = 1\n", None, "sha256:feed".into(), true, "0.1.0");
    assert_eq!(out.version, 1);
    assert_eq!(out.derivation.dozor, "0.1.0");
    assert_eq!(out.derivation.matcher, "dozor-vers 0.1.0");
    assert_eq!(out.derivation.policy, text_digest("version = 1\n"));
    assert_eq!(out.derivation.inventory, "none");
    assert_eq!(out.derivation.mode, "proactive");
    assert_eq!(out.derivation.snapshots, vec![("npm".to_string(), "sha256:feed".to_string())]);
    let body = canonical_body(&out.rules).0;
    let written = format!(
        r#"{},"x-dozor-derivation":{{"output":"{}"}}}}"#,
        body.strip_suffix('}').unwrap(),
        out.derivation.output
    );
    let check = check_parsed(&read_json(&written).unwrap());
    assert!(matches!(check, Check::Matches(_)));
    assert_eq!(check_code(&check), EXIT_OK);

    let out = assemble(Vec::new(), Unmatched::default(), "", Some("sha256:i".into()), "f".into(), false, "2");
    assert_eq!(out.derivation.inventory, "sha256:i");
    assert_eq!(out.derivation.mode, "inventory");
}

#[test]
fn reasons_say_what_how_bad_and_where() {
    let ids = vec!["GHSA-1".to_string(), "GHSA-2".to_string()];
    assert_eq!(
        reason_line(&ids, Severity::Critical, true, &None),
        "MALICIOUS package (GHSA-1, GHSA-2) — blocked by dozor · https://osv.dev/vulnerability/GHSA-1"
    );
    assert_eq!(
        reason_line(&ids[..1], Severity::High, false, &Some("1.2.3".to_string())),
        "HIGH severity vulnerability (GHSA-1) · fix: 1.2.3 · https://osv.dev/vulnerability/GHSA-1"
    );
    assert_eq!(
        reason_line(&[], Severity::Unknown, false, &None),
        "UNKNOWN severity vulnerability () · no fixed version published · https://osv.dev/vulnerability/"
    );
    assert_eq!(purl_of("npm", "@types/node", "*"), "pkg:npm/@types/node@*");
}

#[test]
fn texts_are_quoted() {
    assert_eq!(quote("plain"), "\"plain\"");
    assert_eq!(quote("a\"b\\c\n\u{1}"), "\"a\\\"b\\\\c\\n\\u0001\"");
}

#[test]
fn json_that_nests_too_deep_is_refused() {
    let deep = |n: usize| format!("{}{}", "[".repeat(n), "]".repeat(n));
    assert!(read_json(&deep(127)).is_ok());
    assert!(read_json(&deep(128)).is_err());
}

#[test]
fn hashes_are_written_in_hexadecimal() {
    assert_eq!(write_hash(&[]), "sha256:");
    assert_eq!(write_hash(&[0x00, 0x0f, 0xa9, 0xff]), "sha256:000fa9ff");
}

#[test]
fn digests_are_compared() {
    let d = || "sha256:1".to_string();
    assert!(matches!(compare_digests(None, Some(d())), Check::NoStoredDigest));
    assert!(matches!(compare_digests(None, None), Check::NoStoredDigest));
    assert!(matches!(compare_digests(Some("sha256:1"), None), Check::MalformedBody));
    assert!(matches!(compare_digests(Some("sha256:1"), Some(d())), Check::Matches(_)));
    assert!(matches!(compare_digests(Some("sha256:2"), Some(d())), Check::Drift { .. }));
}

#[test]
fn a_file_is_put_together_from_its_digests() {
    let digests = Digests {
        policy: "p".to_string(),
        inventory: Some("i".to_string()),
        feed: "f".to_string(),
        output: "o".to_string(),
    };
    let out = put_together(sample(), Unmatched { count: 3, sample: vec!["a@b".to_string()] }, digests, false, "1.2.3");
    assert_eq!(out.rules.len(), 1);
    assert_eq!(out.unmatched.count, 3);
    assert_eq!(out.derivation.matcher, "dozor-vers 1.2.3");
    assert_eq!(out.derivation.policy, "p");
    assert_eq!(out.derivation.inventory, "i");
    assert_eq!(out.derivation.mode, "inventory");
    assert_eq!(out.derivation.snapshots, vec![("npm".to_string(), "f".to_string())]);
    assert_eq!(out.derivation.output, "o");
}
