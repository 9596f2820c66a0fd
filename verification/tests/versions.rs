use dozor::vers::{range_verdict, Bound, Ecosystem, Match, Reading};

fn b<'a>(introduced: &'a str, fixed: Option<&'a str>) -> Bound<'a> {
    Bound { introduced: Some(introduced), fixed, last_affected: None }
}

#[test]
fn npm_inside_range_is_affected() {
    assert_eq!(dozor::vers::matches(Ecosystem::Npm, "4.17.20", &b("0", Some("4.17.21"))), Match::Affected);
}

#[test]
fn npm_at_fix_is_not_affected() {
    assert_eq!(dozor::vers::matches(Ecosystem::Npm, "4.17.21", &b("0", Some("4.17.21"))), Match::NotAffected);
}

#[test]
fn npm_before_introduced_is_not_affected() {
    assert_eq!(dozor::vers::matches(Ecosystem::Npm, "1.0.0", &b("2.0.0", Some("3.0.0"))), Match::NotAffected);
}

#[test]
fn npm_open_ended_range_is_affected() {
    assert_eq!(dozor::vers::matches(Ecosystem::Npm, "9.9.9", &b("0", None)), Match::Affected);
}

#[test]
fn npm_last_affected_is_inclusive() {
    let bound = Bound { introduced: Some("0"), fixed: None, last_affected: Some("1.2.3") };
    assert_eq!(dozor::vers::matches(Ecosystem::Npm, "1.2.3", &bound), Match::Affected);
    assert_eq!(dozor::vers::matches(Ecosystem::Npm, "1.2.4", &bound), Match::NotAffected);
}

#[test]
fn prerelease_orders_below_release() {
    assert_eq!(dozor::vers::matches(Ecosystem::Npm, "4.17.21-beta.1", &b("0", Some("4.17.21"))), Match::Affected);
}

#[test]
fn unparsable_version_is_unknown_not_safe() {
    assert_eq!(dozor::vers::matches(Ecosystem::Npm, "not-a-version", &b("0", Some("1.0.0"))), Match::Unknown);
}

#[test]
fn unsupported_ecosystem_is_unknown_not_safe() {
    assert_eq!(dozor::vers::matches(Ecosystem::PyPI, "1.0.0", &b("0", Some("2.0.0"))), Match::Unknown);
}

#[test]
fn whole_package_is_detected() {
    assert!(b("0", None).is_whole_package());
    assert!(!b("0", Some("1.0.0")).is_whole_package());
    assert!(!b("1.0.0", None).is_whole_package());
}

#[test]
fn an_unreadable_end_is_unknown() {
    assert_eq!(dozor::vers::matches(Ecosystem::Npm, "1.0.0", &b("0", Some("soon"))), Match::Unknown);
    assert_eq!(dozor::vers::matches(Ecosystem::Npm, "1.0.0", &b("once", Some("2.0.0"))), Match::Unknown);
    let bound = Bound { introduced: Some("0"), fixed: None, last_affected: Some("latest") };
    assert_eq!(dozor::vers::matches(Ecosystem::Npm, "1.0.0", &bound), Match::Unknown);
}

#[test]
fn the_whole_package_covers_an_unreadable_version_of_no_ecosystem() {
    assert_eq!(dozor::vers::matches(Ecosystem::Other, "1.0.0", &b("0", None)), Match::Unknown);
    assert_eq!(dozor::vers::matches(Ecosystem::Npm, "0.0.1", &b("0", None)), Match::Affected);
}

#[test]
fn versions_are_compared_by_number_not_by_text() {
    assert_eq!(dozor::vers::matches(Ecosystem::Npm, "1.10.0", &b("0", Some("1.9.0"))), Match::NotAffected);
    assert_eq!(dozor::vers::matches(Ecosystem::Npm, "1.9.0", &b("1.10.0", None)), Match::NotAffected);
}

#[test]
fn a_range_decides_from_its_readings() {
    assert_eq!(range_verdict(Reading::Absent, Reading::Absent, Reading::Absent), Match::Affected);
    assert_eq!(range_verdict(Reading::Unreadable, Reading::Absent, Reading::Absent), Match::Unknown);
}

#[test]
fn ecosystems_are_read_and_named() {
    assert_eq!(Ecosystem::parse("npm"), Ecosystem::Npm);
    assert_eq!(Ecosystem::parse("PyPI"), Ecosystem::PyPI);
    assert_eq!(Ecosystem::parse("Maven"), Ecosystem::Other);
    assert_eq!(Ecosystem::Npm.registry(), "npm");
}

#[test]
fn what_lies_between_two_affected_versions_is_affected() {
    let bound = b("1.2.0", Some("3.0.0"));
    let verdict = |version: &str| dozor::vers::matches(Ecosystem::Npm, version, &bound);
    assert_eq!(verdict("1.2.0"), Match::Affected);
    assert_eq!(verdict("2.11.4"), Match::Affected);
    for version in ["1.2.0", "1.2.1-rc.1", "1.10.0", "2.0.0-alpha", "2.9.9", "2.11.4"] {
        assert_eq!(verdict(version), Match::Affected, "{version}");
    }
    assert_eq!(verdict("1.1.9"), Match::NotAffected);
    assert_eq!(verdict("3.0.1"), Match::NotAffected);
}
