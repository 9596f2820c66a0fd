use dozor::advisory::Severity;
use dozor::policy::{default_malicious, default_threshold, Defaults, Exception, Policy, PolicyError};

const SAMPLE: &str = r#"
version = 1
[defaults]
severity_threshold = "high"
malicious = "block"

[[exception]]
registry = "npm"
name = "lodash"
version = "4.17.20"
reason = "pinned by legacy build, tracked in JIRA-42"
expires = "2026-12-31"
"#;

fn text_at(table: &toml::Table, key: &str) -> Result<String, String> {
    match table.get(key).and_then(|v| v.as_str()) {
        Some(s) => Ok(s.to_string()),
        None => Err(format!("missing field `{key}`")),
    }
}

fn read(text: &str) -> Result<Policy, String> {
    let table: toml::Table = toml::from_str(text).map_err(|e| e.to_string())?;
    let version = table.get("version").and_then(|v| v.as_integer()).ok_or("missing field `version`")?;
    let defaults = match table.get("defaults").and_then(|d| d.as_table()) {
        Some(d) => Defaults {
            severity_threshold: text_at(d, "severity_threshold").unwrap_or_else(|_| default_threshold()),
            malicious: text_at(d, "malicious").unwrap_or_else(|_| default_malicious()),
        },
        None => Defaults::default(),
    };
    let mut exceptions = Vec::new();
    if let Some(list) = table.get("exception").and_then(|e| e.as_array()) {
        for entry in list {
            let e = entry.as_table().ok_or("expected a table")?;
            exceptions.push(Exception {
                registry: text_at(e, "registry")?,
                name: text_at(e, "name")?,
                version: text_at(e, "version")?,
                reason: text_at(e, "reason")?,
                expires: text_at(e, "expires")?,
            });
        }
    }
    Ok(Policy { version: version as u32, defaults, exceptions })
}

#[test]
fn loads_and_reads_threshold() {
    let p = Policy::load(read(SAMPLE)).unwrap();
    assert_eq!(p.threshold().unwrap(), Some(Severity::High));
    assert!(p.blocks_malicious());
    assert!(p.excepted("npm", "lodash", "4.17.20"));
    assert!(!p.excepted("npm", "lodash", "4.17.19"));
}

#[test]
fn expired_exception_is_an_error() {
    let p = Policy::load(read(SAMPLE)).unwrap();
    assert!(p.check_expiry("2026-01-01").is_ok());
    assert!(p.check_expiry("2027-01-01").is_err());
}

#[test]
fn unknown_threshold_is_rejected_at_load() {
    let bad = SAMPLE.replace("\"high\"", "\"kinda-bad\"");
    assert!(Policy::load(read(&bad)).is_err());
}

#[test]
fn an_exception_holds_through_its_day() {
    let p = Policy::load(read(SAMPLE)).unwrap();
    assert!(p.check_expiry("2026-12-31").is_ok());
    match p.check_expiry("2027-01-01") {
        Err(PolicyError::Expired(list)) => {
            assert_eq!(list, vec!["npm/lodash@4.17.20 (expired 2026-12-31)".to_string()]);
        }
        _ => panic!("the exception must have expired"),
    }
}

#[test]
fn every_threshold_word_is_read() {
    for (word, level) in [
        ("off", None),
        ("low", Some(Severity::Low)),
        ("moderate", Some(Severity::Moderate)),
        ("medium", Some(Severity::Moderate)),
        ("HIGH", Some(Severity::High)),
        ("Critical", Some(Severity::Critical)),
    ] {
        let p = Policy::load(read(&SAMPLE.replace("\"high\"", &format!("\"{word}\"")))).unwrap();
        assert_eq!(p.threshold().unwrap(), level);
    }
}

#[test]
fn a_policy_without_defaults_has_them() {
    let p = Policy::load(read("version = 1\n")).unwrap();
    assert_eq!(p.threshold().unwrap(), Some(Severity::High));
    assert!(p.blocks_malicious());
    assert_eq!(p.defaults.severity_threshold, "high");
    assert_eq!(p.defaults.malicious, "block");
}

#[test]
fn the_malicious_switch_ignores_case() {
    let p = Policy::load(read(&SAMPLE.replace("\"block\"", "\"Block\""))).unwrap();
    assert!(p.blocks_malicious());
    let p = Policy::load(read(&SAMPLE.replace("\"block\"", "\"audit\""))).unwrap();
    assert!(!p.blocks_malicious());
}

#[test]
fn an_exception_for_the_whole_package_covers_every_version() {
    let p = Policy::load(read(&SAMPLE.replace("\"4.17.20\"", "\"*\""))).unwrap();
    assert!(p.excepted("npm", "lodash", "*"));
    assert!(p.excepted("npm", "lodash", "1.0.0"));
    assert!(!p.excepted("npm", "underscore", "1.0.0"));
    assert!(!p.excepted("pypi", "lodash", "1.0.0"));
}

#[test]
fn every_error_has_its_message() {
    let e = Policy::load(Err("unexpected end of file".to_string())).unwrap_err();
    assert!(matches!(e, PolicyError::Parse(_)));
    assert_eq!(e.message(), "policy parse error: unexpected end of file");

    let e = Policy::load(read(&SAMPLE.replace("version = 1", "version = 12"))).unwrap_err();
    assert!(matches!(e, PolicyError::UnsupportedVersion(12)));
    assert_eq!(e.message(), "unsupported policy version 12 (expected 1)");

    let e = Policy::load(read(&SAMPLE.replace("\"high\"", "\"Kinda-Bad\""))).unwrap_err();
    assert!(matches!(e, PolicyError::BadThreshold(_)));
    assert_eq!(e.message(), "unknown severity_threshold 'kinda-bad'");

    let two = format!(
        "{SAMPLE}\n[[exception]]\nregistry = \"npm\"\nname = \"old\"\nversion = \"*\"\nreason = \"r\"\nexpires = \"2020-01-01\"\n"
    );
    let e = Policy::load(read(&two)).unwrap().check_expiry("2027-06-01").unwrap_err();
    assert_eq!(
        e.message(),
        "expired exceptions (renew or drop them): npm/lodash@4.17.20 (expired 2026-12-31), npm/old@* (expired 2020-01-01)"
    );
}

#[test]
fn expiry_is_final() {
    let p = Policy::load(read(SAMPLE)).unwrap();
    for today in ["2027-01-01", "2027-02-01", "2030-12-31", "9999-12-31"] {
        assert!(p.check_expiry(today).is_err());
    }
}
