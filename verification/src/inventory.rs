//! Where the inventory comes from.
//!
//! Two sources, both files, no API required:
//!
//! * a NORA data directory: the layout is
//!   `<data>/storage/npm/<package>/tarballs/<base>-<version>.tgz` for proxied
//!   packages and `<data>/storage/npm/<package>/versions/<version>.json` for
//!   hosted ones. Scoped packages nest: `npm/@types/node/...`.
//! * an npm lockfile, for people who want to gate a project rather than a cache.
//!
//! Output is sorted and deduplicated, so the inventory file is itself
//! deterministic and diffs cleanly in git.

use crate::json::{
    field_of, fields_in, json_parse, json_render, lists_fields, quote, read_json, text_in, value_tree, JsonError,
    JsonTree, MAX_NESTING,
};
use crate::order::{keys_of, keys_rise, lemma_rising_is_determined, put_in_order, same_text, Keyed};
use crate::text::{
    before_suffix, join_texts, joined, past_prefix, rsplit_once, said, split_at_last, strip_prefix, strip_suffix,
    views,
};
use vstd::prelude::*;

verus! {

/// One line of the inventory: what the registry actually holds.
#[derive(Debug)]
pub struct InvItem {
    pub registry: String,
    pub name: String,
    pub version: String,
}

/// What an inventory line says.
#[verifier::ext_equal]
pub struct ItemText {
    pub registry: Seq<char>,
    pub name: Seq<char>,
    pub version: Seq<char>,
}

impl View for InvItem {
    type V = ItemText;

    open spec fn view(&self) -> ItemText {
        ItemText { registry: self.registry@, name: self.name@, version: self.version@ }
    }
}

/// What a list of inventory lines says.
pub open spec fn item_texts(items: Seq<InvItem>) -> Seq<ItemText> {
    Seq::new(items.len(), |i: int| items[i]@)
}

/// The names and versions of a list of inventory lines.
pub open spec fn item_keys(items: Seq<ItemText>) -> Seq<Seq<Seq<char>>> {
    Seq::new(items.len(), |i: int| seq![items[i].name, items[i].version])
}

/// `items` lists the npm packages of which `holds` is true, each once, sorted by
/// name and version.
pub open spec fn is_inventory(items: Seq<ItemText>, holds: spec_fn(Seq<char>, Seq<char>) -> bool) -> bool {
    &&& forall|i: int| 0 <= i < items.len() ==> (#[trigger] items[i]).registry == "npm"@
    &&& keys_rise(item_keys(items))
    &&& forall|name: Seq<char>, version: Seq<char>|
        item_keys(items).contains(#[trigger] seq![name, version]) <==> holds(name, version)
}

/// Takes what was read from one line of an inventory file. A line that holds no
/// package version is passed over.
pub fn take_line(read: Option<InvItem>, items: &mut Vec<InvItem>)
    ensures
        final(items)@ == match read {
            Some(item) => old(items)@.push(item),
            None => old(items)@,
        },
{
    match read {
        Some(item) => items.push(item),
        None => {},
    }
}

/// The directory under which a NORA data directory keeps its npm packages.
#[derive(Debug, Clone, Copy, PartialEq, Eq, Structural)]
pub enum NpmRoot {
    /// `storage/npm` under the directory.
    StorageNpm,
    /// `npm` under the directory.
    Npm,
    /// The directory itself.
    Itself,
}

/// Locate the npm storage root, accepting either a NORA data directory, its
/// `storage/` subdirectory, or the `storage/npm` directory itself. The first
/// argument says that the given path ends in `storage/npm`: a directory `npm` in
/// it is then the package of that name, and does not make it a `storage/`. The
/// others say which of the three are directories.
pub fn npm_root(named_storage_npm: bool, storage_npm: bool, npm: bool, itself: bool) -> (r: NpmRoot)
    ensures
        r == (if storage_npm {
            NpmRoot::StorageNpm
        } else if named_storage_npm && itself {
            NpmRoot::Itself
        } else if npm {
            NpmRoot::Npm
        } else if itself {
            NpmRoot::Itself
        } else {
            NpmRoot::StorageNpm
        }),
{
    if storage_npm {
        NpmRoot::StorageNpm
    } else if named_storage_npm && itself {
        NpmRoot::Itself
    } else if npm {
        NpmRoot::Npm
    } else if itself {
        NpmRoot::Itself
    } else {
        NpmRoot::StorageNpm
    }
}

/// The last part of a package name: the name without its scope.
pub open spec fn base_name(package: Seq<char>) -> Seq<char> {
    match split_at_last(package, "/"@) {
        Some(p) => p.1,
        None => package,
    }
}

/// The version that a file name gives, by the directory that holds the file.
pub open spec fn file_version(kind: Seq<char>, file: Seq<char>, package: Seq<char>) -> Option<Seq<char>> {
    if kind == "versions"@ {
        before_suffix(file, ".json"@)
    } else if kind == "tarballs"@ {
        match before_suffix(file, ".tgz"@) {
            Some(stem) => past_prefix(stem, base_name(package) + "-"@),
            None => None,
        }
    } else {
        None
    }
}

/// The package name and version that a stored file stands for. `path` is the
/// file's path under the npm storage root, part by part.
pub open spec fn stored(path: Seq<Seq<char>>) -> Option<(Seq<char>, Seq<char>)> {
    if path.len() < 3 {
        None
    } else {
        let n = path.len() as int;
        let package = joined(path.take(n - 2), "/"@);
        match file_version(path[n - 2], path[n - 1], package) {
            Some(version) => if package.len() > 0 && version.len() > 0 {
                Some((package, version))
            } else {
                None
            },
            None => None,
        }
    }
}

/// What a list of paths says.
pub open spec fn path_texts(files: Seq<Vec<String>>) -> Seq<Seq<Seq<char>>> {
    Seq::new(files.len(), |i: int| views(files[i]@))
}

/// Some file of the storage stands for the package version.
pub open spec fn storage_holds(files: Seq<Seq<Seq<char>>>, name: Seq<char>, version: Seq<char>) -> bool {
    exists|i: int| 0 <= i < files.len() && stored(#[trigger] files[i]) == Some((name, version))
}

fn base_name_of(package: &str) -> (r: String)
    ensures
        r@ == base_name(package@),
{
    match rsplit_once(package, "/") {
        Some(p) => p.1,
        None => package.to_string(),
    }
}

fn version_of_file(kind: &str, file: &str, package: &str) -> (r: Option<String>)
    ensures
        said(r) == file_version(kind@, file@, package@),
{
    if same_text(kind, "versions") {
        strip_suffix(file, ".json")
    } else if same_text(kind, "tarballs") {
        // The tarball is named after the unscoped package basename.
        match strip_suffix(file, ".tgz") {
            Some(stem) => {
                let mut head = base_name_of(package);
                head.append("-");
                strip_prefix(stem.as_str(), head.as_str())
            },
            None => None,
        }
    } else {
        None
    }
}

/// Reads the path of one stored file.
pub fn stored_version(path: &[String]) -> (r: Option<(String, String)>)
    ensures
        r matches Some(p) ==> stored(views(path@)) == Some((p.0@, p.1@)),
        r is None ==> stored(views(path@)) is None,
{
    if path.len() < 3 {
        return None;
    }
    let n: usize = path.len();
    let head = vstd::slice::slice_subrange(path, 0, n - 2);
    let package = join_texts(head, "/");
    proof {
        assert(views(head@) =~= views(path@).take(n - 2));
    }
    if package.as_str().is_empty() {
        return None;
    }
    match version_of_file(path[n - 2].as_str(), path[n - 1].as_str(), package.as_str()) {
        Some(version) => {
            if version.as_str().is_empty() {
                None
            } else {
                Some((package, version))
            }
        },
        None => None,
    }
}

/// Makes inventory lines of sorted names and versions.
fn npm_items(pairs: Vec<(String, String)>) -> (items: Vec<InvItem>)
    ensures
        item_keys(item_texts(items@)) == keys_of(pairs@),
        forall|i: int| 0 <= i < items@.len() ==> (#[trigger] item_texts(items@)[i]).registry == "npm"@,
{
    let mut items: Vec<InvItem> = Vec::new();
    for i in 0..pairs.len()
        invariant
            items@.len() == i,
            forall|j: int|
                0 <= j < i ==> {
                    &&& (#[trigger] items@[j]).registry@ == "npm"@
                    &&& items@[j].name@ == pairs@[j].0@
                    &&& items@[j].version@ == pairs@[j].1@
                },
    {
        items.push(
            InvItem { registry: "npm".to_string(), name: pairs[i].0.clone(), version: pairs[i].1.clone() },
        );
    }
    proof {
        assert(item_keys(item_texts(items@)) =~= keys_of(pairs@));
    }
    items
}

/// `pairs` lists what `holds`, each once, sorted.
spec fn pairs_list(pairs: Seq<(String, String)>, holds: spec_fn(Seq<char>, Seq<char>) -> bool) -> bool {
    &&& keys_rise(keys_of(pairs))
    &&& forall|name: Seq<char>, version: Seq<char>|
        keys_of(pairs).contains(#[trigger] seq![name, version]) <==> holds(name, version)
}

proof fn lemma_pair_eq(a: Seq<char>, b: Seq<char>, c: Seq<char>, d: Seq<char>)
    ensures
        seq![a, b] == seq![c, d] <==> a == c && b == d,
{
    assert(seq![a, b][0] == a && seq![a, b][1] == b);
    assert(seq![c, d][0] == c && seq![c, d][1] == d);
}

/// Puts a name and version into a sorted list, unless it is there.
fn put_pair(
    pairs: &mut Vec<(String, String)>,
    name: &str,
    version: &str,
    Ghost(holds): Ghost<spec_fn(Seq<char>, Seq<char>) -> bool>,
)
    requires
        pairs_list(old(pairs)@, holds),
    ensures
        pairs_list(final(pairs)@, |n: Seq<char>, v: Seq<char>| holds(n, v) || (n == name@ && v == version@)),
{
    let pair = (name.to_string(), version.to_string());
    proof {
        assert(pair.key() == seq![name@, version@]);
        assert forall|n: Seq<char>, v: Seq<char>| #[trigger] seq![n, v] == seq![name@, version@] <==> n == name@ && v
            == version@ by {
            lemma_pair_eq(n, v, name@, version@);
        }
    }
    put_in_order(pairs, pair);
}

/// Report every npm package version that a NORA data directory holds. Each file
/// is given by its path under the npm storage root, part by part.
pub fn scan_nora_storage(files: &[Vec<String>]) -> (items: Vec<InvItem>)
    ensures
        is_inventory(
            item_texts(items@),
            |name: Seq<char>, version: Seq<char>| storage_holds(path_texts(files@), name, version),
        ),
{
    let mut pairs: Vec<(String, String)> = Vec::new();
    let ghost paths = path_texts(files@);
    for i in 0..files.len()
        invariant
            paths == path_texts(files@),
            pairs_list(pairs@, |n: Seq<char>, v: Seq<char>| storage_holds(paths.take(i as int), n, v)),
    {
        let ghost before = |n: Seq<char>, v: Seq<char>| storage_holds(paths.take(i as int), n, v);
        let ghost after = |n: Seq<char>, v: Seq<char>| storage_holds(paths.take(i + 1), n, v);
        let found = stored_version(files[i].as_slice());
        proof {
            let now = paths.take(i + 1);
            assert(now[i as int] == views(files@[i as int]@));
            assert forall|n: Seq<char>, v: Seq<char>| #[trigger] after(n, v) <==> before(n, v) || stored(
                now[i as int],
            ) == Some((n, v)) by {
                if before(n, v) {
                    let j = choose|j: int|
                        0 <= j < i && stored(#[trigger] paths.take(i as int)[j]) == Some((n, v));
                    assert(stored(now[j]) == Some((n, v)));
                }
                if after(n, v) {
                    let j = choose|j: int| 0 <= j < now.len() && stored(#[trigger] now[j]) == Some((n, v));
                    if j < i {
                        assert(stored(paths.take(i as int)[j]) == Some((n, v)));
                    }
                }
            }
        }
        match found {
            Some(p) => {
                put_pair(&mut pairs, p.0.as_str(), p.1.as_str(), Ghost(before));
                proof {
                    assert forall|name: Seq<char>, version: Seq<char>|
                        keys_of(pairs@).contains(#[trigger] seq![name, version]) <==> after(name, version) by {}
                }
            },
            None => {
                proof {
                    assert forall|name: Seq<char>, version: Seq<char>|
                        keys_of(pairs@).contains(#[trigger] seq![name, version]) <==> after(name, version) by {
                        assert(after(name, version) <==> before(name, version));
                    }
                }
            },
        }
    }
    proof {
        assert(paths.take(files@.len() as int) =~= paths);
    }
    npm_items(pairs)
}

/// The package that a path of a lockfile's `packages` stands for. The empty path
/// is the project itself; everything else is `node_modules/<name>`, possibly
/// nested: `node_modules/a/node_modules/b`.
pub open spec fn path_package(path: Seq<char>) -> Option<Seq<char>> {
    match split_at_last(path, "node_modules/"@) {
        Some(p) => if p.1.len() > 0 {
            Some(p.1)
        } else {
            None
        },
        None => None,
    }
}

/// The version that a lockfile gives for one package.
pub open spec fn locked_version(spec_tree: JsonTree) -> Option<Seq<char>> {
    match spec_tree.field("version"@) {
        Some(v) => v.text(),
        None => None,
    }
}

/// The record under a key.
pub open spec fn record_at(tree: JsonTree, key: Seq<char>) -> Option<Map<Seq<char>, JsonTree>> {
    match tree.field(key) {
        Some(JsonTree::Record(fields)) => Some(fields),
        _ => None,
    }
}

/// The `packages` of a lockfile hold the package version.
pub open spec fn packages_hold(
    packages: Map<Seq<char>, JsonTree>,
    name: Seq<char>,
    version: Seq<char>,
) -> bool {
    exists|path: Seq<char>| #[trigger]
        packages.dom().contains(path) && path_package(path) == Some(name) && locked_version(packages[path]) == Some(
            version,
        )
}

/// The `dependencies` of a lockfile, nested at most `depth` deep, hold the
/// package version.
pub open spec fn dependencies_hold(
    deps: Map<Seq<char>, JsonTree>,
    depth: nat,
    name: Seq<char>,
    version: Seq<char>,
) -> bool
    decreases depth,
{
    ||| deps.dom().contains(name) && locked_version(deps[name]) == Some(version)
    ||| depth > 0 && exists|k: Seq<char>| #[trigger]
        deps.dom().contains(k) && record_at(deps[k], "dependencies"@) is Some && dependencies_hold(
            record_at(deps[k], "dependencies"@)->0,
            (depth - 1) as nat,
            name,
            version,
        )
}

/// A lockfile holds the package version: in its `packages` (v2 and v3) or in its
/// `dependencies` (v1).
pub open spec fn lockfile_holds(root: JsonTree, name: Seq<char>, version: Seq<char>) -> bool {
    ||| record_at(root, "packages"@) matches Some(packages) && packages_hold(packages, name, version)
    ||| record_at(root, "dependencies"@) matches Some(deps) && dependencies_hold(
        deps,
        MAX_NESTING as nat,
        name,
        version,
    )
}

fn version_in<'a>(v: &'a serde_json::Value) -> (r: Option<&'a str>)
    ensures
        r matches Some(s) ==> locked_version(value_tree(*v)) == Some(s@),
        r is None ==> locked_version(value_tree(*v)) is None,
{
    match field_of(v, "version") {
        Some(x) => text_in(x),
        None => None,
    }
}

fn package_in_path(path: &str) -> (r: Option<String>)
    ensures
        said(r) == path_package(path@),
{
    match rsplit_once(path, "node_modules/") {
        Some(p) => if p.1.as_str().is_empty() {
            None
        } else {
            Some(p.1)
        },
        None => None,
    }
}

/// The first `n` fields of `packages` hold the package version.
spec fn entries_hold(
    entries: Seq<(&str, &serde_json::Value)>,
    n: int,
    name: Seq<char>,
    version: Seq<char>,
) -> bool {
    exists|i: int|
        0 <= i < n && path_package((#[trigger] entries[i]).0@) == Some(name) && locked_version(
            value_tree(*entries[i].1),
        ) == Some(version)
}

fn collect_packages(
    packages: &serde_json::Value,
    pairs: &mut Vec<(String, String)>,
    Ghost(holds): Ghost<spec_fn(Seq<char>, Seq<char>) -> bool>,
)
    requires
        pairs_list(old(pairs)@, holds),
    ensures
        match value_tree(*packages) {
            JsonTree::Record(fields) => pairs_list(
                final(pairs)@,
                |n: Seq<char>, v: Seq<char>| holds(n, v) || packages_hold(fields, n, v),
            ),
            _ => pairs_list(final(pairs)@, holds),
        },
{
    let entries = match fields_in(packages) {
        Some(entries) => entries,
        None => {
            return ;
        },
    };
    let ghost fields = value_tree(*packages)->Record_0;
    for i in 0..entries.len()
        invariant
            pairs_list(pairs@, |n: Seq<char>, v: Seq<char>| holds(n, v) || entries_hold(entries@, i as int, n, v)),
    {
        let (path, about) = entries[i];
        let ghost before = |n: Seq<char>, v: Seq<char>| holds(n, v) || entries_hold(entries@, i as int, n, v);
        let ghost after = |n: Seq<char>, v: Seq<char>| holds(n, v) || entries_hold(entries@, i + 1, n, v);
        proof {
            assert forall|n: Seq<char>, v: Seq<char>| #[trigger] after(n, v) <==> before(n, v) || (path_package(path@)
                == Some(n) && locked_version(value_tree(*about)) == Some(v)) by {
                if path_package(path@) == Some(n) && locked_version(value_tree(*about)) == Some(v) {
                    assert(path_package(entries@[i as int].0@) == Some(n));
                }
                if entries_hold(entries@, i as int, n, v) {
                    let j = choose|j: int|
                        0 <= j < i && path_package((#[trigger] entries@[j]).0@) == Some(n) && locked_version(
                            value_tree(*entries@[j].1),
                        ) == Some(v);
                    assert(path_package(entries@[j].0@) == Some(n));
                }
            }
        }
        match package_in_path(path) {
            Some(name) => match version_in(about) {
                Some(version) => {
                    put_pair(pairs, name.as_str(), version, Ghost(before));
                },
                None => {},
            },
            None => {},
        }
        proof {
            assert forall|name: Seq<char>, version: Seq<char>|
                keys_of(pairs@).contains(#[trigger] seq![name, version]) <==> after(name, version) by {
                assert(after(name, version) <==> before(name, version) || (path_package(path@) == Some(name)
                    && locked_version(value_tree(*about)) == Some(version)));
            }
        }
    }
    proof {
        let last = |n: Seq<char>, v: Seq<char>| holds(n, v) || packages_hold(fields, n, v);
        assert forall|n: Seq<char>, v: Seq<char>|
            entries_hold(entries@, entries@.len() as int, n, v) <==> #[trigger] packages_hold(fields, n, v) by {
            if entries_hold(entries@, entries@.len() as int, n, v) {
                let j = choose|j: int|
                    0 <= j < entries@.len() && path_package((#[trigger] entries@[j]).0@) == Some(n)
                        && locked_version(value_tree(*entries@[j].1)) == Some(v);
                assert(fields.dom().contains(entries@[j].0@));
            }
            if packages_hold(fields, n, v) {
                let path = choose|path: Seq<char>| #[trigger]
                    fields.dom().contains(path) && path_package(path) == Some(n) && locked_version(fields[path])
                        == Some(v);
                let j = choose|j: int| 0 <= j < entries@.len() && (#[trigger] entries@[j]).0@ == path;
                assert(path_package(entries@[j].0@) == Some(n));
            }
        }
        assert forall|name: Seq<char>, version: Seq<char>|
            keys_of(pairs@).contains(#[trigger] seq![name, version]) <==> last(name, version) by {
            assert(entries_hold(entries@, entries@.len() as int, name, version) <==> packages_hold(
                fields,
                name,
                version,
            ));
        }
    }
}

/// One field of `dependencies` holds the package version, itself or in what it
/// nests.
spec fn dependency_holds(
    key: Seq<char>,
    about: JsonTree,
    depth: nat,
    name: Seq<char>,
    version: Seq<char>,
) -> bool {
    ||| key == name && locked_version(about) == Some(version)
    ||| depth > 0 && record_at(about, "dependencies"@) is Some && dependencies_hold(
        record_at(about, "dependencies"@)->0,
        (depth - 1) as nat,
        name,
        version,
    )
}

/// The first `n` fields of `dependencies` hold the package version.
spec fn dependencies_so_far(
    entries: Seq<(&str, &serde_json::Value)>,
    n: int,
    depth: nat,
    name: Seq<char>,
    version: Seq<char>,
) -> bool {
    exists|i: int|
        0 <= i < n && dependency_holds(
            (#[trigger] entries[i]).0@,
            value_tree(*entries[i].1),
            depth,
            name,
            version,
        )
}

proof fn lemma_dependencies_listed(
    entries: Seq<(&str, &serde_json::Value)>,
    fields: Map<Seq<char>, JsonTree>,
    depth: nat,
    name: Seq<char>,
    version: Seq<char>,
)
    requires
        lists_fields(entries, fields),
    ensures
        dependencies_so_far(entries, entries.len() as int, depth, name, version) <==> dependencies_hold(
            fields,
            depth,
            name,
            version,
        ),
{
    if dependencies_so_far(entries, entries.len() as int, depth, name, version) {
        let i = choose|i: int|
            0 <= i < entries.len() && dependency_holds(
                (#[trigger] entries[i]).0@,
                value_tree(*entries[i].1),
                depth,
                name,
                version,
            );
        assert(fields.dom().contains(entries[i].0@));
    }
    if dependencies_hold(fields, depth, name, version) {
        if fields.dom().contains(name) && locked_version(fields[name]) == Some(version) {
            let i = choose|i: int| 0 <= i < entries.len() && (#[trigger] entries[i]).0@ == name;
            assert(dependency_holds(entries[i].0@, value_tree(*entries[i].1), depth, name, version));
        } else {
            let k = choose|k: Seq<char>| #[trigger]
                fields.dom().contains(k) && record_at(fields[k], "dependencies"@) is Some && dependencies_hold(
                    record_at(fields[k], "dependencies"@)->0,
                    (depth - 1) as nat,
                    name,
                    version,
                );
            let i = choose|i: int| 0 <= i < entries.len() && (#[trigger] entries[i]).0@ == k;
            assert(dependency_holds(entries[i].0@, value_tree(*entries[i].1), depth, name, version));
        }
    }
}

fn collect_v1(
    deps: &serde_json::Value,
    pairs: &mut Vec<(String, String)>,
    Ghost(depth): Ghost<nat>,
    Ghost(holds): Ghost<spec_fn(Seq<char>, Seq<char>) -> bool>,
)
    requires
        value_tree(*deps).within(depth),
        pairs_list(old(pairs)@, holds),
    ensures
        match value_tree(*deps) {
            JsonTree::Record(fields) => pairs_list(
                final(pairs)@,
                |n: Seq<char>, v: Seq<char>| holds(n, v) || dependencies_hold(fields, depth, n, v),
            ),
            _ => pairs_list(final(pairs)@, holds),
        },
    decreases depth,
{
    let entries = match fields_in(deps) {
        Some(entries) => entries,
        None => {
            return ;
        },
    };
    let ghost fields = value_tree(*deps)->Record_0;
    for i in 0..entries.len()
        invariant
            value_tree(*deps) == JsonTree::Record(fields),
            value_tree(*deps).within(depth),
            depth > 0,
            lists_fields(entries@, fields),
            pairs_list(
                pairs@,
                |n: Seq<char>, v: Seq<char>| holds(n, v) || dependencies_so_far(entries@, i as int, depth, n, v),
            ),
    {
        let (name, about) = entries[i];
        let ghost before = |n: Seq<char>, v: Seq<char>|
            holds(n, v) || dependencies_so_far(entries@, i as int, depth, n, v);
        let ghost middle = |n: Seq<char>, v: Seq<char>|
            before(n, v) || (n == name@ && locked_version(value_tree(*about)) == Some(v));
        let ghost after = |n: Seq<char>, v: Seq<char>|
            holds(n, v) || dependencies_so_far(entries@, i + 1, depth, n, v);
        proof {
            assert(fields.dom().contains(entries@[i as int].0@));
            assert forall|n: Seq<char>, v: Seq<char>| #[trigger] after(n, v) <==> before(n, v) || dependency_holds(
                name@,
                value_tree(*about),
                depth,
                n,
                v,
            ) by {
                if dependency_holds(name@, value_tree(*about), depth, n, v) {
                    assert(dependency_holds(
                        entries@[i as int].0@,
                        value_tree(*entries@[i as int].1),
                        depth,
                        n,
                        v,
                    ));
                }
                if dependencies_so_far(entries@, i as int, depth, n, v) {
                    let j = choose|j: int|
                        0 <= j < i && dependency_holds(
                            (#[trigger] entries@[j]).0@,
                            value_tree(*entries@[j].1),
                            depth,
                            n,
                            v,
                        );
                    assert(dependency_holds(entries@[j].0@, value_tree(*entries@[j].1), depth, n, v));
                }
            }
        }
        match version_in(about) {
            Some(version) => {
                put_pair(pairs, name, version, Ghost(before));
            },
            None => {},
        }
        proof {
            assert forall|n: Seq<char>, v: Seq<char>|
                keys_of(pairs@).contains(#[trigger] seq![n, v]) <==> middle(n, v) by {}
        }
        match field_of(about, "dependencies") {
            Some(nested) => {
                proof {
                    let inner = value_tree(*about)->Record_0;
                    assert(inner.dom().contains("dependencies"@));
                    assert(value_tree(*about).within((depth - 1) as nat));
                    assert(inner["dependencies"@].within((depth - 2) as nat));
                    crate::json::lemma_within_deeper(value_tree(*nested), (depth - 2) as nat, (depth - 1) as nat);
                }
                collect_v1(nested, pairs, Ghost((depth - 1) as nat), Ghost(middle));
            },
            None => {},
        }
        proof {
            assert forall|n: Seq<char>, v: Seq<char>|
                keys_of(pairs@).contains(#[trigger] seq![n, v]) <==> after(n, v) by {
                assert(after(n, v) <==> before(n, v) || dependency_holds(name@, value_tree(*about), depth, n, v));
            }
        }
    }
    proof {
        let last = |n: Seq<char>, v: Seq<char>| holds(n, v) || dependencies_hold(fields, depth, n, v);
        assert forall|n: Seq<char>, v: Seq<char>|
            keys_of(pairs@).contains(#[trigger] seq![n, v]) <==> last(n, v) by {
            lemma_dependencies_listed(entries@, fields, depth, n, v);
        }
    }
}

/// The package versions that an npm lockfile holds (v1 `dependencies` or v2/v3
/// `packages`).
pub fn lockfile_items(root: &serde_json::Value) -> (items: Vec<InvItem>)
    requires
        value_tree(*root).within(MAX_NESTING as nat),
    ensures
        is_inventory(
            item_texts(items@),
            |name: Seq<char>, version: Seq<char>| lockfile_holds(value_tree(*root), name, version),
        ),
{
    let mut pairs: Vec<(String, String)> = Vec::new();
    let ghost tree = value_tree(*root);
    let ghost nothing = |n: Seq<char>, v: Seq<char>| false;
    let ghost first = |n: Seq<char>, v: Seq<char>|
        record_at(tree, "packages"@) matches Some(packages) && packages_hold(packages, n, v);
    let ghost both = |n: Seq<char>, v: Seq<char>| lockfile_holds(tree, n, v);
    proof {
        assert forall|n: Seq<char>, v: Seq<char>|
            keys_of(pairs@).contains(#[trigger] seq![n, v]) <==> nothing(n, v) by {}
    }
    match field_of(root, "packages") {
        Some(packages) => {
            collect_packages(packages, &mut pairs, Ghost(nothing));
        },
        None => {},
    }
    proof {
        assert forall|n: Seq<char>, v: Seq<char>|
            keys_of(pairs@).contains(#[trigger] seq![n, v]) <==> first(n, v) by {}
    }
    match field_of(root, "dependencies") {
        Some(deps) => {
            proof {
                let fields = tree->Record_0;
                assert(fields.dom().contains("dependencies"@));
                assert(fields["dependencies"@].within((MAX_NESTING - 1) as nat));
                crate::json::lemma_within_deeper(value_tree(*deps), (MAX_NESTING - 1) as nat, MAX_NESTING as nat);
            }
            collect_v1(deps, &mut pairs, Ghost(MAX_NESTING as nat), Ghost(first));
        },
        None => {},
    }
    proof {
        assert forall|n: Seq<char>, v: Seq<char>|
            keys_of(pairs@).contains(#[trigger] seq![n, v]) <==> both(n, v) by {}
    }
    npm_items(pairs)
}

/// Read an npm lockfile (v1 `dependencies` or v2/v3 `packages`).
pub fn from_npm_lockfile(text: &str) -> (r: Result<Vec<InvItem>, JsonError>)
    ensures
        r is Ok <==> json_parse(text@) is Some,
        r matches Ok(items) ==> is_inventory(
            item_texts(items@),
            |name: Seq<char>, version: Seq<char>| lockfile_holds(json_parse(text@)->0, name, version),
        ),
{
    match read_json(text) {
        Ok(root) => Ok(lockfile_items(&root)),
        Err(e) => Err(e),
    }
}

/// One inventory line, without its newline, of three texts in JSON.
pub open spec fn line_text(registry: Seq<char>, name: Seq<char>, version: Seq<char>) -> Seq<char> {
    "{\"registry\":"@ + registry + ",\"name\":"@ + name + ",\"version\":"@ + version + "}"@
}

/// One inventory line, without its newline.
pub open spec fn item_line(item: ItemText) -> Seq<char> {
    line_text(
        json_render(JsonTree::Text(item.registry)),
        json_render(JsonTree::Text(item.name)),
        json_render(JsonTree::Text(item.version)),
    )
}

/// An inventory file: one line after the other.
pub open spec fn inventory_text(items: Seq<ItemText>) -> Seq<char>
    decreases items.len(),
{
    if items.len() == 0 {
        Seq::empty()
    } else {
        inventory_text(items.drop_last()) + item_line(items.last()) + "\n"@
    }
}

/// Appends one inventory line. The three texts are JSON already.
pub fn push_line(out: &mut String, registry: &str, name: &str, version: &str)
    ensures
        final(out)@ == old(out)@ + line_text(registry@, name@, version@) + "\n"@,
{
    let ghost before = out@;
    out.append("{\"registry\":");
    out.append(registry);
    out.append(",\"name\":");
    out.append(name);
    out.append(",\"version\":");
    out.append(version);
    out.append("}");
    out.append("\n");
    proof {
        assert(out@ =~= before + line_text(registry@, name@, version@) + "\n"@);
    }
}

/// Serialise as JSONL in a stable field order.
pub fn write_jsonl(items: &[InvItem]) -> (out: String)
    ensures
        out@ == inventory_text(item_texts(items@)),
{
    let mut out = String::new();
    let ghost texts = item_texts(items@);
    proof {
        assert(texts.take(0) =~= Seq::empty());
        assert(out@ =~= inventory_text(texts.take(0)));
    }
    for i in 0..items.len()
        invariant
            texts == item_texts(items@),
            out@ == inventory_text(texts.take(i as int)),
    {
        let item = &items[i];
        let ghost before = out@;
        push_line(
            &mut out,
            quote(item.registry.as_str()).as_str(),
            quote(item.name.as_str()).as_str(),
            quote(item.version.as_str()).as_str(),
        );
        proof {
            assert(texts.take(i + 1).drop_last() =~= texts.take(i as int));
            assert(texts.take(i + 1).last() == item@);
            assert(out@ =~= before + item_line(item@) + "\n"@);
        }
    }
    proof {
        assert(texts.take(items@.len() as int) =~= texts);
    }
    out
}

/// An inventory is determined by what it holds: however its source is walked,
/// the same package versions give the same lines.
pub proof fn law_inventory_is_determined(
    a: Seq<ItemText>,
    b: Seq<ItemText>,
    holds: spec_fn(Seq<char>, Seq<char>) -> bool,
)
    requires
        is_inventory(a, holds),
        is_inventory(b, holds),
    ensures
        a == b,
        inventory_text(a) == inventory_text(b),
{
    let x = item_keys(a);
    let y = item_keys(b);
    assert forall|k: Seq<Seq<char>>| x.contains(k) <==> y.contains(k) by {
        if x.contains(k) || y.contains(k) {
            assert(k =~= seq![k[0], k[1]]);
        }
        let pair = seq![k[0], k[1]];
        assert(x.contains(pair) <==> holds(k[0], k[1]));
        assert(y.contains(pair) <==> holds(k[0], k[1]));
    }
    lemma_rising_is_determined(x, y);
    assert(x.len() == a.len() && y.len() == b.len());
    assert forall|i: int| 0 <= i < a.len() implies a[i] == b[i] by {
        assert(x[i] == y[i]);
        lemma_pair_eq(a[i].name, a[i].version, b[i].name, b[i].version);
    }
    assert(a =~= b);
}

/// The order in which a storage directory is walked, and files that are met
/// twice, make no difference to the inventory.
pub proof fn law_storage_order_is_no_matter(a: Seq<Seq<Seq<char>>>, b: Seq<Seq<Seq<char>>>)
    requires
        forall|path: Seq<Seq<char>>| a.contains(path) <==> b.contains(path),
    ensures
        forall|name: Seq<char>, version: Seq<char>| #[trigger]
            storage_holds(a, name, version) <==> storage_holds(b, name, version),
{
    assert forall|name: Seq<char>, version: Seq<char>| #[trigger]
        storage_holds(a, name, version) <==> storage_holds(b, name, version) by {
        if storage_holds(a, name, version) {
            let i = choose|i: int| 0 <= i < a.len() && stored(#[trigger] a[i]) == Some((name, version));
            assert(a.contains(a[i]));
            assert(b.contains(a[i]));
            let j = choose|j: int| 0 <= j < b.len() && b[j] == a[i];
            assert(stored(b[j]) == Some((name, version)));
        }
        if storage_holds(b, name, version) {
            let i = choose|i: int| 0 <= i < b.len() && stored(#[trigger] b[i]) == Some((name, version));
            assert(b.contains(b[i]));
            assert(a.contains(b[i]));
            let j = choose|j: int| 0 <= j < a.len() && a[j] == b[i];
            assert(stored(a[j]) == Some((name, version)));
        }
    }
}

} // verus!
