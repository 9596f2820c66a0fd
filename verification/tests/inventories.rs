use dozor::inventory::{
    from_npm_lockfile, npm_root, push_line, scan_nora_storage, stored_version, take_line, write_jsonl, InvItem, NpmRoot,
};

fn pairs(items: &[InvItem]) -> Vec<(String, String)> {
    items.iter().map(|i| (i.name.clone(), i.version.clone())).collect()
}

fn path(text: &str) -> Vec<String> {
    text.split('/').map(|p| p.to_string()).collect()
}

fn item(name: &str, version: &str) -> InvItem {
    InvItem { registry: "npm".to_string(), name: name.to_string(), version: version.to_string() }
}

#[test]
fn lockfile_v3_packages() {
    let items = from_npm_lockfile(
        r#"{"lockfileVersion":3,"packages":{
            "":{"name":"app","version":"1.0.0"},
            "node_modules/lodash":{"version":"4.17.20"},
            "node_modules/@types/node":{"version":"20.1.0"},
            "node_modules/a/node_modules/b":{"version":"0.1.0"}}}"#,
    )
    .unwrap();
    let got: Vec<(String, String)> = pairs(&items);
    assert_eq!(
        got,
        vec![
            ("@types/node".to_string(), "20.1.0".to_string()),
            ("b".to_string(), "0.1.0".to_string()),
            ("lodash".to_string(), "4.17.20".to_string()),
        ]
    );
}

#[test]
fn lockfile_v1_dependencies_nested() {
    let items = from_npm_lockfile(
        r#"{"lockfileVersion":1,"dependencies":{
            "lodash":{"version":"4.17.20","dependencies":{"tiny":{"version":"0.0.1"}}}}}"#,
    )
    .unwrap();
    assert_eq!(items.len(), 2);
    assert_eq!(items[0].name, "lodash");
    assert_eq!(items[1].name, "tiny");
}

#[test]
fn storage_scan_reads_tarballs_and_scoped_packages() {
    let files = vec![
        path("lodash/tarballs/lodash-4.17.21.tgz"),
        path("lodash/tarballs/lodash-4.17.21.tgz.sha256"),
        path("lodash/metadata.json"),
        path("@types/node/tarballs/node-20.1.0.tgz"),
        path("hosted-pkg/versions/1.2.3.json"),
    ];
    let items = scan_nora_storage(&files);
    assert_eq!(
        pairs(&items),
        vec![
            ("@types/node".to_string(), "20.1.0".to_string()),
            ("hosted-pkg".to_string(), "1.2.3".to_string()),
            ("lodash".to_string(), "4.17.21".to_string()),
        ],
        "sha256 sidecars and metadata.json must not become inventory entries"
    );
    assert!(items.iter().all(|i| i.registry == "npm"));
}

#[test]
fn storage_order_is_no_matter() {
    let mut files = vec![
        path("b/tarballs/b-1.10.0.tgz"),
        path("a/versions/2.0.0.json"),
        path("b/tarballs/b-1.9.0.tgz"),
        path("a/tarballs/a-2.0.0.tgz"),
    ];
    let one = write_jsonl(&scan_nora_storage(&files));
    files.reverse();
    files.push(path("a/versions/2.0.0.json"));
    let other = write_jsonl(&scan_nora_storage(&files));
    assert_eq!(one, other);
    assert_eq!(
        one,
        "{\"registry\":\"npm\",\"name\":\"a\",\"version\":\"2.0.0\"}\n\
         {\"registry\":\"npm\",\"name\":\"b\",\"version\":\"1.10.0\"}\n\
         {\"registry\":\"npm\",\"name\":\"b\",\"version\":\"1.9.0\"}\n"
    );
}

#[test]
fn only_versions_and_tarballs_are_read() {
    assert_eq!(stored_version(&path("x/versions/.json")), None);
    assert_eq!(stored_version(&path("x/tarballs/x-.tgz")), None);
    assert_eq!(stored_version(&path("x/tarballs/y-1.0.0.tgz")), None);
    assert_eq!(stored_version(&path("x/other/x-1.0.0.tgz")), None);
    assert_eq!(stored_version(&path("tarballs/x-1.0.0.tgz")), None);
    assert_eq!(
        stored_version(&path("@scope/x/tarballs/x-1.0.0-rc.1.tgz")),
        Some(("@scope/x".to_string(), "1.0.0-rc.1".to_string()))
    );
}

#[test]
fn lines_without_a_package_version_are_passed_over() {
    let mut items = Vec::new();
    take_line(Some(item("a", "1.0.0")), &mut items);
    take_line(None, &mut items);
    take_line(Some(item("b", "2.0.0")), &mut items);
    assert_eq!(pairs(&items), vec![("a".to_string(), "1.0.0".to_string()), ("b".to_string(), "2.0.0".to_string())]);
}

#[test]
fn the_storage_root_is_found() {
    assert_eq!(npm_root(false, true, true, true), NpmRoot::StorageNpm);
    assert_eq!(npm_root(false, false, true, true), NpmRoot::Npm);
    assert_eq!(npm_root(false, false, false, true), NpmRoot::Itself);
    assert_eq!(npm_root(false, false, false, false), NpmRoot::StorageNpm);
}

#[test]
fn a_data_directory_is_found_whatever_its_path() {
    assert_eq!(npm_root(true, true, false, true), NpmRoot::StorageNpm);
    assert_eq!(npm_root(true, true, true, true), NpmRoot::StorageNpm);
}

#[test]
fn a_root_named_storage_npm_is_taken_itself() {
    assert_eq!(npm_root(true, false, true, true), NpmRoot::Itself);
    assert_eq!(npm_root(true, false, false, true), NpmRoot::Itself);
    assert_eq!(npm_root(true, false, true, false), NpmRoot::Npm);
    assert_eq!(npm_root(true, false, false, false), NpmRoot::StorageNpm);
}

#[test]
fn a_lockfile_that_is_not_json_is_an_error() {
    let e = from_npm_lockfile("{").unwrap_err();
    assert!(e.cause.is_eof());
    assert!(from_npm_lockfile("").is_err());
    assert_eq!(from_npm_lockfile("[]").unwrap().len(), 0);
    assert_eq!(from_npm_lockfile("{\"packages\":[],\"dependencies\":7}").unwrap().len(), 0);
}

#[test]
fn a_lockfile_is_deduplicated_over_both_formats() {
    let items = from_npm_lockfile(
        r#"{"packages":{"node_modules/a":{"version":"1.0.0"},"node_modules/x/node_modules/a":{"version":"1.0.0"},
            "node_modules/":{"version":"9.9.9"},"src/a":{"version":"8.8.8"},"node_modules/b":{"version":2}},
            "dependencies":{"a":{"version":"1.0.0"},"b":{"dependencies":{"a":{"version":"0.9.0"}}}}}"#,
    )
    .unwrap();
    assert_eq!(
        pairs(&items),
        vec![("a".to_string(), "0.9.0".to_string()), ("a".to_string(), "1.0.0".to_string())]
    );
}

#[test]
fn lines_are_escaped() {
    let text = write_jsonl(&[item("say \"hi\"", "1\\2"), item("tab\there", "é")]);
    assert_eq!(
        text,
        "{\"registry\":\"npm\",\"name\":\"say \\\"hi\\\"\",\"version\":\"1\\\\2\"}\n\
         {\"registry\":\"npm\",\"name\":\"tab\\there\",\"version\":\"é\"}\n"
    );
    let first: serde_json::Value = serde_json::from_str(text.lines().next().unwrap()).unwrap();
    assert_eq!(first["name"], "say \"hi\"");
    assert_eq!(first["version"], "1\\2");
}

#[test]
fn a_line_is_made_of_json_texts() {
    let mut out = "x\n".to_string();
    push_line(&mut out, "\"npm\"", "\"lodash\"", "\"4.17.20\"");
    assert_eq!(out, "x\n{\"registry\":\"npm\",\"name\":\"lodash\",\"version\":\"4.17.20\"}\n");
}
