use dozor::advisory::{RawAdvisory, RawAffected, RawDbSpecific, RawEvent, RawPackage, RawRange};
use dozor::index::{fold, Index};
use dozor::report::{count_wholly_malicious, explain, peak_rss_kb, split_package};
use dozor::vers::Ecosystem;

fn feed() -> Index {
    let mut idx = Index::default();
    for (id, name, severity, fixed) in [
        ("MAL-2026-1", "@evil/pkg", None, None),
        ("GHSA-aaaa-bbbb-cccc", "vuln", Some("HIGH"), Some("2.0.0")),
    ] {
        let mut events =
            vec![RawEvent { introduced: Some("0".to_string()), fixed: None, last_affected: None }];
        if let Some(f) = fixed {
            let f: &str = f;
            events.push(RawEvent { introduced: None, fixed: Some(f.to_string()), last_affected: None });
        }
        fold(
            RawAdvisory {
                id: id.to_string(),
                affected: vec![RawAffected {
                    package: Some(RawPackage { name: Some(name.to_string()), ecosystem: Some("npm".to_string()) }),
                    ranges: vec![RawRange { events }],
                    versions: Vec::new(),
                }],
                database_specific: severity.map(|s: &str| RawDbSpecific { severity: Some(s.to_string()) }),
            },
            Ecosystem::Npm,
            &mut idx,
        );
    }
    idx.finish();
    idx
}

#[test]
fn a_package_is_split_at_its_last_at() {
    assert_eq!(split_package("lodash@4.17.20"), Some(("lodash".to_string(), "4.17.20".to_string())));
    assert_eq!(split_package("@types/node@20.1.0"), Some(("@types/node".to_string(), "20.1.0".to_string())));
    assert_eq!(split_package("@types/node"), Some(("".to_string(), "types/node".to_string())));
    assert_eq!(split_package("lodash"), None);
}

#[test]
fn explanations_are_aligned() {
    let idx = feed();
    assert_eq!(
        explain(&idx, Ecosystem::Npm, "vuln", "1.0.0"),
        vec![
            "vuln@1.0.0 — 1 advisories touch this package".to_string(),
            "  GHSA-aaaa-bbbb-cccc      HIGH      Vulnerability  Affected      fix=2.0.0".to_string(),
        ]
    );
    assert_eq!(
        explain(&idx, Ecosystem::Npm, "@evil/pkg", "9.9.9")[1],
        "  MAL-2026-1               UNKNOWN   Malicious      WholePackage  fix=-"
    );
    assert_eq!(
        explain(&idx, Ecosystem::Npm, "clean", "1.0.0"),
        vec!["clean: no advisories in this snapshot".to_string()]
    );
}

#[test]
fn an_undecided_version_is_not_shown_as_safe() {
    let idx = feed();
    assert!(explain(&idx, Ecosystem::Npm, "vuln", "junk")[1].contains(" Unknown "));
    assert!(explain(&idx, Ecosystem::Npm, "vuln", "2.0.0")[1].contains(" NotAffected "));
}

#[test]
fn wholly_malicious_packages_are_counted() {
    assert_eq!(count_wholly_malicious(&feed()), 1);
    assert_eq!(count_wholly_malicious(&Index::default()), 0);
}

#[test]
fn the_peak_is_read_from_the_status() {
    assert_eq!(peak_rss_kb("Name:\tdozor\nVmPeak:\t  9999 kB\nVmHWM:\t  177152 kB\nThreads:\t1\n"), Some(177_152));
    assert_eq!(peak_rss_kb("VmHWM: +5\r\n"), Some(5));
    assert_eq!(peak_rss_kb("VmHWM: 18446744073709551615"), Some(u64::MAX));
    assert_eq!(peak_rss_kb("VmHWM: 18446744073709551616"), None);
    assert_eq!(peak_rss_kb("VmHWM:\nVmHWM: 7 kB\n"), None);
    assert_eq!(peak_rss_kb("VmHWM: -7 kB\n"), None);
    assert_eq!(peak_rss_kb(" VmHWM: 7 kB\n"), None);
    assert_eq!(peak_rss_kb(""), None);
}
