//! What an inventory holds, said of the files and lockfiles themselves: which
//! paths stand for which package versions, which fields of a lockfile do, and
//! what is written of them.

use crate::inventory::{
    base_name, dependencies_hold, inventory_text, is_inventory, item_keys, item_line, lockfile_holds, packages_hold,
    path_package, record_at, storage_holds, stored, ItemText,
};
use crate::json::{json_render, JsonTree, MAX_NESTING};
use crate::order::{key_before, keys_differ_first_at, law_first_different_text_decides, text_before};
use crate::text::{
    before_suffix, joined, law_ends_come_off, law_split_at_a_character, law_split_is_at_the_last_place,
    law_split_takes_apart_what_was_joined, split_at_last, stands_in,
};
use vstd::prelude::*;

verus! {

/// The name without its scope is the part after the last slash, whatever else is
/// in it.
pub proof fn law_base_name_is_the_last_part(scope: Seq<char>, base: Seq<char>)
    requires
        !base.contains('/'),
    ensures
        base_name(scope + "/"@ + base) == base,
        base_name(base) == base,
{
    reveal_strlit("/");
    law_split_at_a_character(scope, "/"@, base);
}

proof fn lemma_base_of_path(dirs: Seq<Seq<char>>)
    requires
        dirs.len() > 0,
        !dirs.last().contains('/'),
    ensures
        base_name(joined(dirs, "/"@)) == dirs.last(),
{
    let head = dirs.drop_last();
    law_base_name_is_the_last_part(joined(head, "/"@), dirs.last());
}

/// A proxied tarball stands for its version: the file
/// `<package>/tarballs/<base>-<version>.tgz`, where `<base>` is the last part of
/// the package's path, is that version of that package, whatever hyphens, dots or
/// digits name and version hold.
pub proof fn law_tarball_stands_for_its_version(dirs: Seq<Seq<char>>, version: Seq<char>)
    requires
        dirs.len() > 0,
        !dirs.last().contains('/'),
        joined(dirs, "/"@).len() > 0,
        version.len() > 0,
    ensures
        stored(dirs.push("tarballs"@).push(dirs.last() + "-"@ + version + ".tgz"@)) == Some(
            (joined(dirs, "/"@), version),
        ),
{
    let file = dirs.last() + "-"@ + version + ".tgz"@;
    let path = dirs.push("tarballs"@).push(file);
    let n = path.len() as int;
    assert(path.take(n - 2) =~= dirs);
    reveal_strlit("versions");
    reveal_strlit("tarballs");
    assert("versions"@[0] != "tarballs"@[0]);
    lemma_base_of_path(dirs);
    law_ends_come_off(dirs.last() + "-"@ + version, ".tgz"@, file);
    law_ends_come_off(version, dirs.last() + "-"@, file);
}

/// A hosted version stands for itself: the file
/// `<package>/versions/<version>.json` is that version of that package.
pub proof fn law_hosted_file_stands_for_its_version(dirs: Seq<Seq<char>>, version: Seq<char>)
    requires
        dirs.len() > 0,
        joined(dirs, "/"@).len() > 0,
        version.len() > 0,
    ensures
        stored(dirs.push("versions"@).push(version + ".json"@)) == Some((joined(dirs, "/"@), version)),
{
    let path = dirs.push("versions"@).push(version + ".json"@);
    let n = path.len() as int;
    assert(path.take(n - 2) =~= dirs);
    law_ends_come_off(version, ".json"@, version + ".json"@);
}

/// Nothing else in a storage stands for a version: a file that does has its
/// package's path before it, and is a hosted version's `<version>.json` or a
/// tarball that is named after the last part of the package.
pub proof fn law_only_the_layout_stands_for_versions(path: Seq<Seq<char>>, name: Seq<char>, version: Seq<char>)
    requires
        stored(path) == Some((name, version)),
    ensures
        path.len() >= 3,
        name == joined(path.take(path.len() - 2), "/"@),
        name.len() > 0,
        version.len() > 0,
        ({
            let kind = path[path.len() - 2];
            let file = path[path.len() - 1];
            ||| kind == "versions"@ && file == version + ".json"@
            ||| kind == "tarballs"@ && exists|base: Seq<char>|
                file == base + "-"@ + version + ".tgz"@ && #[trigger] is_last_part(name, base)
        }),
{
    let kind = path[path.len() - 2];
    let file = path[path.len() - 1];
    let base = base_name(name);
    law_ends_come_off(version, ".json"@, file);
    if kind != "versions"@ {
        law_ends_come_off(version, ".tgz"@, file);
        let stem = before_suffix(file, ".tgz"@)->0;
        law_ends_come_off(version, base + "-"@, stem);
        assert(file == base + "-"@ + version + ".tgz"@);
        lemma_base_is_last(name);
    }
}

/// `base` is what stands after the last slash of a name, or all of it where there
/// is none.
pub open spec fn is_last_part(name: Seq<char>, base: Seq<char>) -> bool {
    &&& !base.contains('/')
    &&& name == base || exists|scope: Seq<char>| name == #[trigger] (scope + "/"@ + base)
}

proof fn lemma_base_is_last(name: Seq<char>)
    ensures
        is_last_part(name, base_name(name)),
{
    let base = base_name(name);
    reveal_strlit("/");
    law_split_is_at_the_last_place(name, "/"@);
    if base.contains('/') {
        let i = choose|i: int| 0 <= i < base.len() && base[i] == '/';
        assert(base =~= base.take(i) + "/"@ + base.skip(i + 1));
        match split_at_last(name, "/"@) {
            Some(p) => {
                let before = p.0 + "/"@ + base.take(i);
                assert(name =~= before + "/"@ + base.skip(i + 1));
                assert(stands_in(name, "/"@, before.len() as int));
            },
            None => {
                assert(stands_in(name, "/"@, i));
            },
        }
    }
}

/// A storage holds a version just where one of its files stands for it; more
/// files never hold less.
pub proof fn law_storage_holds_what_its_files_stand_for(
    files: Seq<Seq<Seq<char>>>,
    more: Seq<Seq<Seq<char>>>,
    name: Seq<char>,
    version: Seq<char>,
)
    ensures
        forall|i: int|
            0 <= i < files.len() && stored(#[trigger] files[i]) == Some((name, version)) ==> storage_holds(
                files,
                name,
                version,
            ),
        storage_holds(files + more, name, version) <==> storage_holds(files, name, version) || storage_holds(
            more,
            name,
            version,
        ),
        !storage_holds(Seq::empty(), name, version),
{
    let all = files + more;
    if storage_holds(files, name, version) {
        let i = choose|i: int| 0 <= i < files.len() && stored(#[trigger] files[i]) == Some((name, version));
        assert(stored(all[i]) == Some((name, version)));
    }
    if storage_holds(more, name, version) {
        let i = choose|i: int| 0 <= i < more.len() && stored(#[trigger] more[i]) == Some((name, version));
        assert(stored(all[files.len() + i]) == Some((name, version)));
    }
    if storage_holds(all, name, version) {
        let i = choose|i: int| 0 <= i < all.len() && stored(#[trigger] all[i]) == Some((name, version));
        if i < files.len() {
            assert(stored(files[i]) == Some((name, version)));
        } else {
            assert(stored(more[i - files.len()]) == Some((name, version)));
        }
    }
}

/// A path of a lockfile stands for the package after its last `node_modules/`,
/// scoped or not, however deep it is nested.
pub proof fn law_path_stands_for_its_last_package(outer: Seq<char>, name: Seq<char>)
    requires
        name.len() > 0,
        forall|at: int| !#[trigger] stands_in(name, "node_modules/"@, at),
    ensures
        path_package(outer + "node_modules/"@ + name) == Some(name),
{
    let sep = "node_modules/"@;
    let path = outer + sep + name;
    reveal_strlit("node_modules/");
    assert(sep.len() == 13 && sep[12] == '/');
    assert(forall|k: int| 0 <= k < 12 ==> sep[k] != '/');
    assert forall|at: int| #[trigger] stands_in(path, sep, at) implies at <= outer.len() by {
        let (before, after) = choose|before: Seq<char>, after: Seq<char>|
            path == #[trigger] (before + sep + after) && before.len() == at;
        if at > outer.len() {
            if at < outer.len() + 13 {
                let slash = outer.len() + 12;
                assert(path[slash as int] == '/');
                assert(path[slash as int] == sep[slash - at]);
            } else {
                let from = at - outer.len() - 13;
                assert(name =~= name.take(from) + sep + after) by {
                    assert(name =~= path.skip((outer.len() + 13) as int));
                }
                assert(stands_in(name, sep, from));
            }
        }
    }
    law_split_takes_apart_what_was_joined(outer, sep, name);
}

/// A path of a lockfile stands for a package only where it ends in
/// `node_modules/` and the package's name: the project itself, and every other
/// path, stand for none.
pub proof fn law_only_node_modules_hold_packages(path: Seq<char>)
    ensures
        path_package(path) matches Some(name) ==> name.len() > 0 && exists|outer: Seq<char>|
            path == #[trigger] (outer + "node_modules/"@ + name),
        path_package(path) is None && (exists|at: int| #[trigger] stands_in(path, "node_modules/"@, at))
            ==> exists|outer: Seq<char>| path == #[trigger] (outer + "node_modules/"@),
{
    let sep = "node_modules/"@;
    law_split_is_at_the_last_place(path, sep);
    if path_package(path) is None && (exists|at: int| #[trigger] stands_in(path, sep, at)) {
        let p = split_at_last(path, sep)->0;
        assert(path =~= p.0 + sep);
    }
}

/// Each path of a lockfile's `packages` with a version is held.
pub proof fn law_locked_packages_are_held(
    root: JsonTree,
    packages: Map<Seq<char>, JsonTree>,
    path: Seq<char>,
    name: Seq<char>,
    version: Seq<char>,
)
    requires
        root.field("packages"@) == Some(JsonTree::Record(packages)),
        packages.dom().contains(path),
        path_package(path) == Some(name),
        packages[path].field("version"@) == Some(JsonTree::Text(version)),
    ensures
        lockfile_holds(root, name, version),
{
    assert(packages_hold(packages, name, version));
}

/// Each of a lockfile's `dependencies` with a version is held, and so is what
/// they nest.
pub proof fn law_locked_dependencies_are_held(
    deps: Map<Seq<char>, JsonTree>,
    depth: nat,
    name: Seq<char>,
    version: Seq<char>,
    outer: Seq<char>,
    inner: Map<Seq<char>, JsonTree>,
)
    ensures
        deps.dom().contains(name) && deps[name].field("version"@) == Some(JsonTree::Text(version))
            ==> dependencies_hold(deps, depth, name, version),
        deps.dom().contains(outer) && deps[outer].field("dependencies"@) == Some(JsonTree::Record(inner))
            && dependencies_hold(inner, depth, name, version) ==> dependencies_hold(deps, depth + 1, name, version),
        forall|root: JsonTree|
            root.field("dependencies"@) == Some(JsonTree::Record(deps)) && dependencies_hold(
                deps,
                MAX_NESTING as nat,
                name,
                version,
            ) ==> #[trigger] lockfile_holds(root, name, version),
{
    if deps.dom().contains(outer) && deps[outer].field("dependencies"@) == Some(JsonTree::Record(inner))
        && dependencies_hold(inner, depth, name, version) {
        assert(record_at(deps[outer], "dependencies"@) == Some(inner));
        assert((depth + 1 - 1) as nat == depth);
    }
}

/// A lockfile holds nothing but what its `packages` or its `dependencies` give a
/// version for.
pub proof fn law_lockfile_holds_nothing_else(root: JsonTree, name: Seq<char>, version: Seq<char>)
    requires
        lockfile_holds(root, name, version),
    ensures
        ({
            ||| root.field("packages"@) matches Some(JsonTree::Record(packages)) && exists|path: Seq<char>| #[trigger]
                packages.dom().contains(path) && path_package(path) == Some(name) && packages[path].field("version"@)
                    == Some(JsonTree::Text(version))
            ||| root.field("dependencies"@) matches Some(JsonTree::Record(deps)) && dependencies_hold(
                deps,
                MAX_NESTING as nat,
                name,
                version,
            )
        }),
{
    if record_at(root, "packages"@) is Some && packages_hold(record_at(root, "packages"@)->0, name, version) {
        let packages = record_at(root, "packages"@)->0;
        let path = choose|path: Seq<char>| #[trigger]
            packages.dom().contains(path) && path_package(path) == Some(name) && crate::inventory::locked_version(
                packages[path],
            ) == Some(version);
        assert(packages[path].field("version"@) == Some(JsonTree::Text(version)));
    }
}

/// What `dependencies` hold, one of them gives a version for or nests.
pub proof fn law_dependencies_hold_nothing_else(
    deps: Map<Seq<char>, JsonTree>,
    depth: nat,
    name: Seq<char>,
    version: Seq<char>,
)
    requires
        dependencies_hold(deps, depth, name, version),
    ensures
        ({
            ||| deps.dom().contains(name) && deps[name].field("version"@) == Some(JsonTree::Text(version))
            ||| depth > 0 && exists|k: Seq<char>, inner: Map<Seq<char>, JsonTree>|
                #![trigger deps.dom().contains(k), dependencies_hold(inner, (depth - 1) as nat, name, version)]
                deps.dom().contains(k) && deps[k].field("dependencies"@) == Some(JsonTree::Record(inner))
                    && dependencies_hold(inner, (depth - 1) as nat, name, version)
        }),
{
    if !(deps.dom().contains(name) && crate::inventory::locked_version(deps[name]) == Some(version)) {
        let k = choose|k: Seq<char>| #[trigger]
            deps.dom().contains(k) && record_at(deps[k], "dependencies"@) is Some && dependencies_hold(
                record_at(deps[k], "dependencies"@)->0,
                (depth - 1) as nat,
                name,
                version,
            );
        let inner = record_at(deps[k], "dependencies"@)->0;
        assert(deps[k].field("dependencies"@) == Some(JsonTree::Record(inner)));
    }
}

/// An inventory lists what is held and nothing else, each once, as npm packages,
/// by name and then by version.
pub proof fn law_inventory_lists_what_is_held(
    items: Seq<ItemText>,
    holds: spec_fn(Seq<char>, Seq<char>) -> bool,
    name: Seq<char>,
    version: Seq<char>,
)
    requires
        is_inventory(items, holds),
    ensures
        holds(name, version) <==> items.contains(ItemText { registry: "npm"@, name, version }),
        forall|i: int| 0 <= i < items.len() ==> (#[trigger] items[i]).registry == "npm"@,
        forall|i: int, j: int|
            0 <= i < j < items.len() ==> text_before((#[trigger] items[i]).name, (#[trigger] items[j]).name) || (
            items[i].name == items[j].name && text_before(items[i].version, items[j].version)),
{
    let keys = item_keys(items);
    let pair = seq![name, version];
    let item = ItemText { registry: "npm"@, name, version };
    assert(keys.contains(pair) <==> holds(name, version));
    if keys.contains(pair) {
        let i = choose|i: int| 0 <= i < keys.len() && keys[i] == pair;
        assert(keys[i][0] == pair[0] && keys[i][1] == pair[1]);
        assert(items[i] == item);
    }
    if items.contains(item) {
        let i = choose|i: int| 0 <= i < items.len() && items[i] == item;
        assert(keys[i] == pair);
    }
    assert forall|i: int, j: int| 0 <= i < j < items.len() implies text_before(
        (#[trigger] items[i]).name,
        (#[trigger] items[j]).name,
    ) || (items[i].name == items[j].name && text_before(items[i].version, items[j].version)) by {
        let a = keys[i];
        let b = keys[j];
        assert(key_before(a, b));
        law_first_different_text_decides(a, b);
        let k = choose|k: int| #[trigger] keys_differ_first_at(a, b, k);
        assert(a[0] == items[i].name && b[0] == items[j].name);
        assert(a[1] == items[i].version && b[1] == items[j].version);
        if k > 0 {
            assert(a[0] == b[0]);
        }
    }
}

/// An inventory file has one line for each package version, in their order: the
/// registry, the name and the version as JSON texts, under their own names.
pub proof fn law_inventory_file_has_a_line_each(a: Seq<ItemText>, b: Seq<ItemText>, item: ItemText)
    ensures
        inventory_text(a + b) == inventory_text(a) + inventory_text(b),
        inventory_text(seq![item]) == "{\"registry\":"@ + json_render(JsonTree::Text(item.registry)) + ",\"name\":"@
            + json_render(JsonTree::Text(item.name)) + ",\"version\":"@ + json_render(JsonTree::Text(item.version))
            + "}"@ + "\n"@,
        inventory_text(Seq::empty()) == Seq::<char>::empty(),
    decreases b.len(),
{
    assert(seq![item].drop_last() =~= Seq::empty());
    assert(inventory_text(seq![item].drop_last()) =~= Seq::empty());
    assert(inventory_text(seq![item]) =~= item_line(item) + "\n"@);
    if b.len() == 0 {
        assert(a + b =~= a);
        assert(inventory_text(a) + inventory_text(b) =~= inventory_text(a));
    } else {
        law_inventory_file_has_a_line_each(a, b.drop_last(), item);
        assert((a + b).drop_last() =~= a + b.drop_last());
        assert(inventory_text(a + b) =~= inventory_text(a) + inventory_text(b));
    }
}

} // verus!
