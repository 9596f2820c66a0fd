use dozor::advisory::{
    Kind, RawAdvisory, RawAffected, RawDbSpecific, RawEvent, RawPackage, RawRange, Severity, MAX_EXPLICIT_VERSIONS,
};
use dozor::arena::{Arena, Str};
use dozor::index::{fold, is_advisory_file, take_entry, Index};
use dozor::vers::Ecosystem;
use serde_json::Value;

fn text_at(v: &Value, key: &str) -> Option<String> {
    v.get(key).and_then(|x| x.as_str()).map(|s| s.to_string())
}

fn list_at<'a>(v: &'a Value, key: &str) -> Vec<&'a Value> {
    match v.get(key).and_then(|x| x.as_array()) {
        Some(list) => list.iter().collect(),
        None => Vec::new(),
    }
}

fn event(v: &Value) -> RawEvent {
    RawEvent {
        introduced: text_at(v, "introduced"),
        fixed: text_at(v, "fixed"),
        last_affected: text_at(v, "last_affected"),
    }
}

fn affected(v: &Value) -> RawAffected {
    RawAffected {
        package: v.get("package").map(|p| RawPackage { name: text_at(p, "name"), ecosystem: text_at(p, "ecosystem") }),
        ranges: list_at(v, "ranges")
            .into_iter()
            .map(|r| RawRange { events: list_at(r, "events").into_iter().map(event).collect() })
            .collect(),
        versions: list_at(v, "versions").into_iter().map(|s| s.as_str().unwrap().to_string()).collect(),
    }
}

fn raw(json: &str) -> RawAdvisory {
    let v: Value = serde_json::from_str(json).unwrap();
    RawAdvisory {
        id: text_at(&v, "id").unwrap(),
        affected: list_at(&v, "affected").into_iter().map(affected).collect(),
        database_specific: v
            .get("database_specific")
            .map(|d| RawDbSpecific { severity: text_at(d, "severity") }),
    }
}

fn index_of(json: &str, eco: Ecosystem) -> Index {
    let mut idx = Index::default();
    fold(raw(json), eco, &mut idx);
    idx.finish();
    idx
}

#[test]
fn mal_prefix_is_malicious_and_whole_package() {
    let idx = index_of(
        r#"{"id":"MAL-2026-1","affected":[{"package":{"name":"evil","ecosystem":"npm"},
            "ranges":[{"events":[{"introduced":"0"}]}]}]}"#,
        Ecosystem::Npm,
    );
    let e = &idx.lookup("evil")[0];
    assert_eq!(e.kind(), Kind::Malicious);
    assert_eq!(e.severity(), Severity::Unknown);
    assert!(idx.is_whole_package(e));
}

#[test]
fn prose_fields_are_ignored_not_rejected() {
    let idx = index_of(
        r#"{"id":"GHSA-x","details":"long prose","references":[{"url":"http://x"}],
            "credits":[{"name":"someone"}],"database_specific":{"severity":"HIGH"},
            "affected":[{"package":{"name":"lodash","ecosystem":"npm"},
            "ranges":[{"events":[{"introduced":"0"},{"fixed":"4.17.21"}]}]}]}"#,
        Ecosystem::Npm,
    );
    let e = &idx.lookup("lodash")[0];
    assert_eq!(e.severity(), Severity::High);
    assert_eq!(idx.arena.get(e.fixed_in), "4.17.21");
    assert_eq!(idx.bounds_of(e).len(), 1);
    assert!(!idx.is_whole_package(e));
}

#[test]
fn other_ecosystem_is_dropped() {
    let idx = index_of(
        r#"{"id":"GHSA-y","affected":[{"package":{"name":"django","ecosystem":"PyPI"},
            "ranges":[{"events":[{"introduced":"0"}]}]}]}"#,
        Ecosystem::Npm,
    );
    assert_eq!(idx.names(), 0);
    assert!(idx.lookup("django").is_empty());
    assert!(idx.ids.is_empty());
    assert_eq!(idx.entry_count(), 0);
    assert_eq!(idx.advisories, 1);
}

#[test]
fn an_advisory_for_many_packages_has_one_id() {
    let text = r#"{"id":"GHSA-m","affected":[
        {"package":{"name":"a","ecosystem":"npm"},"ranges":[{"events":[{"introduced":"0"}]}]},
        {"package":{"name":"b","ecosystem":"PyPI"},"ranges":[{"events":[{"introduced":"0"}]}]},
        {"package":{"name":"c","ecosystem":"npm"},"versions":["1.0.0"]}]}"#;
    assert!(Index::default().has_room(&raw(text), Ecosystem::Npm));
    let idx = index_of(text, Ecosystem::Npm);
    assert_eq!(idx.ids.len(), 1);
    assert_eq!(idx.entry_count(), 2);
    assert_eq!(idx.names(), 2);
}

#[test]
fn lookup_finds_the_right_bucket() {
    let mut idx = Index::default();
    for (id, name) in [("MAL-1", "aaa"), ("MAL-2", "zzz"), ("MAL-3", "mmm"), ("MAL-4", "aaa")] {
        let advisory = raw(&format!(
            r#"{{"id":"{id}","affected":[{{"package":{{"name":"{name}","ecosystem":"npm"}},
                "ranges":[{{"events":[{{"introduced":"0"}}]}}]}}]}}"#
        ));
        fold(advisory, Ecosystem::Npm, &mut idx);
    }
    idx.finish();
    assert_eq!(idx.names(), 3);
    assert_eq!(idx.lookup("aaa").len(), 2);
    assert_eq!(idx.lookup("mmm").len(), 1);
    assert!(idx.lookup("nope").is_empty());

    let named: Vec<(&str, &str)> = idx.iter_named().into_iter().map(|(n, e)| (n, idx.id_str(e))).collect();
    assert_eq!(named, vec![("aaa", "MAL-1"), ("aaa", "MAL-4"), ("mmm", "MAL-3"), ("zzz", "MAL-2")]);
}

#[test]
fn explicit_versions_survive() {
    let idx = index_of(
        r#"{"id":"MAL-2026-9","affected":[{"package":{"name":"pkg","ecosystem":"npm"},
            "versions":["1.0.0","1.0.1"]}]}"#,
        Ecosystem::Npm,
    );
    let e = &idx.lookup("pkg")[0];
    assert_eq!(idx.versions_of(e), vec!["1.0.0", "1.0.1"]);
    assert!(!idx.is_whole_package(e));
}

#[test]
fn a_new_introduction_starts_a_new_interval() {
    let idx = index_of(
        r#"{"id":"GHSA-z","affected":[{"package":{"name":"p","ecosystem":"npm"},
            "ranges":[{"events":[{"introduced":"1.0.0"},{"fixed":"1.2.0"},{"introduced":"2.0.0"},
                {"last_affected":"2.3.0"}]},{"events":[{"fixed":"0.5.0"}]},{"events":[]}]}]}"#,
        Ecosystem::Npm,
    );
    let e = &idx.lookup("p")[0];
    let bounds = idx.bounds_of(e);
    assert_eq!(bounds.len(), 3);
    assert_eq!((bounds[0].introduced, bounds[0].fixed, bounds[0].last_affected), (Some("1.0.0"), Some("1.2.0"), None));
    assert_eq!((bounds[1].introduced, bounds[1].fixed, bounds[1].last_affected), (Some("2.0.0"), None, Some("2.3.0")));
    assert_eq!((bounds[2].introduced, bounds[2].fixed, bounds[2].last_affected), (None, Some("0.5.0"), None));
    assert_eq!(idx.fixed_in(e), Some("1.2.0"));
    assert_eq!(e.kind(), Kind::Vulnerability);
}

#[test]
fn an_advisory_that_says_nothing_is_left_out() {
    let idx = index_of(
        r#"{"id":"GHSA-n","affected":[{"package":{"name":"p","ecosystem":"npm"}},{"package":{"ecosystem":"npm"}},
            {"ranges":[{"events":[{"introduced":"0"}]}]}]}"#,
        Ecosystem::Npm,
    );
    assert_eq!(idx.names(), 0);
    assert_eq!(idx.entry_count(), 0);
    assert_eq!(idx.advisories, 1);
    assert_eq!(idx.skipped, 0);
}

#[test]
fn long_version_lists_are_dropped_and_counted() {
    let list = |n: usize| {
        (0..n).map(|i| format!("\"1.0.{i}\"")).collect::<Vec<String>>().join(",")
    };
    let text = |n: usize| {
        format!(
            r#"{{"id":"GHSA-l","affected":[{{"package":{{"name":"p","ecosystem":"npm"}},"versions":[{}],
                "ranges":[{{"events":[{{"introduced":"0"}},{{"fixed":"2.0.0"}}]}}]}}]}}"#,
            list(n)
        )
    };
    let kept = index_of(&text(MAX_EXPLICIT_VERSIONS), Ecosystem::Npm);
    assert_eq!(kept.skipped, 0);
    assert_eq!(kept.versions_of(&kept.lookup("p")[0]).len(), 64);
    let dropped = index_of(&text(MAX_EXPLICIT_VERSIONS + 1), Ecosystem::Npm);
    assert_eq!(dropped.skipped, 1);
    assert_eq!(dropped.versions_of(&dropped.lookup("p")[0]).len(), 0);
    assert_eq!(dropped.bounds_of(&dropped.lookup("p")[0]).len(), 1);
}

#[test]
fn what_cannot_be_read_is_counted() {
    let mut idx = Index::default();
    take_entry(None, Ecosystem::Npm, &mut idx);
    assert_eq!((idx.advisories, idx.skipped), (0, 1));
    let advisory = raw(r#"{"id":"MAL-1","affected":[]}"#);
    assert!(idx.has_room(&advisory, Ecosystem::Npm));
    take_entry(Some(advisory), Ecosystem::Npm, &mut idx);
    assert_eq!((idx.advisories, idx.skipped), (1, 1));
}

#[test]
fn only_json_entries_are_advisories() {
    assert!(is_advisory_file("GHSA-1.json"));
    assert!(is_advisory_file(".json"));
    assert!(!is_advisory_file("GHSA-1.json.sig"));
    assert!(!is_advisory_file("json"));
}

#[test]
fn the_arena_keeps_what_it_was_given() {
    let mut arena = Arena::default();
    let a = arena.push("naïve");
    let nothing = arena.push("");
    let b = arena.push("日本");
    assert_eq!(arena.get(a), "naïve");
    assert_eq!(arena.get(b), "日本");
    assert_eq!(arena.get(nothing), "");
    assert_eq!(arena.opt(nothing), None);
    assert_eq!(arena.opt(b), Some("日本"));
    assert_eq!(nothing, Str::empty());
    assert!(nothing.is_empty());
    assert!(!a.is_empty());
    assert_eq!(arena.bytes(), 12);
}

#[test]
fn the_footprint_is_counted() {
    let empty = Index::default();
    assert_eq!(empty.footprint(), 0);
    let idx = index_of(
        r#"{"id":"MAL-1","affected":[{"package":{"name":"ab","ecosystem":"npm"},
            "ranges":[{"events":[{"introduced":"0"}]}]}]}"#,
        Ecosystem::Npm,
    );
    // text 5 + 2 + 1, one id, one name, two starts, one entry, one bound
    assert_eq!(idx.footprint(), 8 + 8 + 8 + 8 + std::mem::size_of::<dozor::index::Entry>() + 24);
}

#[test]
fn severities_are_read_and_named() {
    for (word, level) in [
        ("low", Severity::Low),
        ("Moderate", Severity::Moderate),
        ("MEDIUM", Severity::Moderate),
        ("high", Severity::High),
        ("CRITICAL", Severity::Critical),
        ("whatever", Severity::Unknown),
    ] {
        assert_eq!(Severity::parse(word), level);
        assert_eq!(Severity::parse(level.as_str()), level);
        assert_eq!(Severity::from_u8(level.to_u8()), level);
    }
    assert!(Severity::Unknown < Severity::Low && Severity::High < Severity::Critical);
}

#[test]
fn names_are_sorted_by_character() {
    let mut idx = Index::default();
    for name in ["b", "@a/b", "B", "a", "aé", "aa"] {
        let advisory = raw(&format!(
            r#"{{"id":"MAL-{name}","affected":[{{"package":{{"name":"{name}","ecosystem":"npm"}},"versions":["1.0.0"]}}]}}"#
        ));
        fold(advisory, Ecosystem::Npm, &mut idx);
    }
    idx.finish();
    let names: Vec<&str> = idx.iter_named().into_iter().map(|(n, _)| n).collect();
    assert_eq!(names, vec!["@a/b", "B", "a", "aa", "aé", "b"]);
    for name in names {
        assert_eq!(idx.lookup(name).len(), 1);
    }
}

#[test]
fn laying_out_keeps_texts_and_ids() {
    let mut idx = Index::default();
    for (id, name, fixed) in [("GHSA-2", "z", "2.0.0"), ("GHSA-1", "a", "1.5.0"), ("GHSA-3", "z", "3.0.0")] {
        let advisory = raw(&format!(
            r#"{{"id":"{id}","affected":[{{"package":{{"name":"{name}","ecosystem":"npm"}},"versions":["1.0.0"],
                "ranges":[{{"events":[{{"introduced":"0"}},{{"fixed":"{fixed}"}}]}}]}}]}}"#
        ));
        fold(advisory, Ecosystem::Npm, &mut idx);
    }
    let texts = |idx: &Index| idx.ids.iter().map(|s| idx.arena.get(*s).to_string()).collect::<Vec<String>>();
    let ids = texts(&idx);
    let bytes = idx.arena.bytes();
    let refs = idx.ids.clone();
    assert_eq!(ids, vec!["GHSA-2".to_string(), "GHSA-1".to_string(), "GHSA-3".to_string()]);
    idx.finish();
    assert_eq!(texts(&idx), ids);
    assert_eq!(idx.ids, refs);
    assert_eq!(idx.arena.bytes(), bytes);
    assert_eq!((idx.names(), idx.entry_count()), (2, 3));
    let found: Vec<(String, String)> = idx
        .lookup("z")
        .iter()
        .map(|e| (idx.id_str(e).to_string(), idx.bounds_of(e)[0].fixed.unwrap().to_string()))
        .collect();
    assert_eq!(
        found,
        vec![("GHSA-2".to_string(), "2.0.0".to_string()), ("GHSA-3".to_string(), "3.0.0".to_string())]
    );
}
