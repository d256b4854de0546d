//! Decoding a TOML table into a manifest or a lock file.
//!
//! The shapes accepted here are the library's own rules. A manifest may hold
//! a `package` table with a string field `name`, tables
//! `dependencies` and `dev-dependencies`, and a table `target` of tables that
//! each may hold those two. A dependency is a string, or a table whose
//! `version`, if present, is a string and whose `features`, if present, is an
//! array of strings. Other keys are passed over. A dependency table that is
//! present and malformed rejects the manifest, and so does a `target` that
//! is no table. A `package` without a string `name` declares no package, and
//! a malformed entry of `target` drops the targets; neither rejects the
//! manifest. A lock file holds an
//! array `package` of tables with string fields `name` and `version`.
use vstd::prelude::*;
use toml::Table;
use toml::Value;
use crate::document::parse_table;
use crate::document::parsed_table;
use crate::document::table_entries;
use crate::document::table_get;
use crate::document::table_keys;
use crate::document::value_as_array;
use crate::document::value_as_str;
use crate::document::value_as_table;
use crate::document::value_items;
use crate::document::value_table;
use crate::document::value_text;
use crate::parser::data::CLockFile;
use crate::parser::data::CTomlFile;
use crate::parser::data::Dependency;
use crate::parser::data::DependencyDetails;
use crate::parser::data::DependencyView;
use crate::parser::data::ManifestView;
use crate::parser::data::Package;
use crate::parser::data::PackageView;
use crate::parser::data::Targets;
use crate::parser::data::packages_view;
use crate::parser::data::sentinel;
use crate::parser::tables::DependencyTable;
use crate::parser::tables::Target;
use crate::parser::tables::TargetTable;
use crate::parser::tables::TargetView;
use crate::parser::tables::optional_table;
use crate::text::optional_text;
use crate::text::optional_texts;
use crate::text::texts;

verus! {

/// The texts of an array of strings; `None` for a value that is no array or
/// holds an item that is no string.
pub open spec fn text_list_of(value: Value) -> Option<Seq<Seq<char>>> {
    match value_items(value) {
        Some(items) => if forall|i: int| 0 <= i < items.len() ==> value_text(#[trigger] items[i]) is Some {
            Some(Seq::new(items.len(), |i: int| value_text(items[i])->0))
        } else {
            None
        },
        None => None,
    }
}

/// The detailed dependency that a table declares; `None` where `version` is
/// present and no string, or `features` is present and no array of strings.
pub open spec fn details_of(table: Table) -> Option<DependencyView> {
    let e = table_entries(table);
    let version_ok = e.contains_key("version"@) ==> value_text(e["version"@]) is Some;
    let features_ok = e.contains_key("features"@) ==> text_list_of(e["features"@]) is Some;
    if version_ok && features_ok {
        Some(
            DependencyView::Detailed(
                if e.contains_key("version"@) {
                    value_text(e["version"@])
                } else {
                    None
                },
                if e.contains_key("features"@) {
                    text_list_of(e["features"@])
                } else {
                    None
                },
            ),
        )
    } else {
        None
    }
}

/// The dependency that a value declares: a string is a bare version, a table
/// is the detailed form, anything else is malformed (`None`).
pub open spec fn dependency_of(value: Value) -> Option<DependencyView> {
    match value_text(value) {
        Some(version) => Some(DependencyView::Simple(version)),
        None => match value_table(value) {
            Some(table) => details_of(table),
            None => None,
        },
    }
}

/// The dependency table that a value declares: a table whose every entry is
/// a dependency. `None` for anything else.
pub open spec fn dependencies_of(value: Value) -> Option<Map<Seq<char>, DependencyView>> {
    match value_table(value) {
        Some(table) => {
            let e = table_entries(table);
            if forall|k: Seq<char>| e.contains_key(k) ==> dependency_of(#[trigger] e[k]) is Some {
                Some(Map::new(|k: Seq<char>| e.contains_key(k), |k: Seq<char>| dependency_of(e[k])->0))
            } else {
                None
            }
        },
        None => None,
    }
}

/// The dependency table under `key`: `Some(None)` where the key is absent,
/// `Some(Some(..))` where it holds a dependency table, `None` where what it
/// holds is malformed.
pub open spec fn keyed_dependencies_of(table: Table, key: Seq<char>) -> Option<Option<Map<Seq<char>, DependencyView>>> {
    let e = table_entries(table);
    if !e.contains_key(key) {
        Some(None)
    } else {
        match dependencies_of(e[key]) {
            Some(m) => Some(Some(m)),
            None => None,
        }
    }
}

/// The target that a value declares: a table whose `dependencies` and
/// `dev-dependencies`, where present, are dependency tables.
pub open spec fn target_of(value: Value) -> Option<TargetView> {
    match value_table(value) {
        Some(table) => match (
            keyed_dependencies_of(table, "dev-dependencies"@),
            keyed_dependencies_of(table, "dependencies"@),
        ) {
            (Some(dev), Some(deps)) => Some(TargetView { dev_dependencies: dev, dependencies: deps }),
            _ => None,
        },
        None => None,
    }
}

/// The targets of a `target` table; `None` where some entry is no target.
pub open spec fn targets_of(table: Table) -> Option<Map<Seq<char>, TargetView>> {
    let e = table_entries(table);
    if forall|k: Seq<char>| e.contains_key(k) ==> target_of(#[trigger] e[k]) is Some {
        Some(Map::new(|k: Seq<char>| e.contains_key(k), |k: Seq<char>| target_of(e[k])->0))
    } else {
        None
    }
}

/// The package that an entry of a lock file declares: a table with strings
/// under `name` and `version`.
pub open spec fn package_of(value: Value) -> Option<PackageView> {
    match value_table(value) {
        Some(table) => {
            let e = table_entries(table);
            if e.contains_key("name"@) && value_text(e["name"@]) is Some && e.contains_key("version"@)
                && value_text(e["version"@]) is Some {
                Some(PackageView { name: value_text(e["name"@])->0, version: value_text(e["version"@])->0 })
            } else {
                None
            }
        },
        None => None,
    }
}

/// The package that a manifest declares under `package`: a table with a
/// string under `name`. Its version is the string under `version`, or the
/// sentinel where there is none. Anything else declares no package.
pub open spec fn manifest_package_of(value: Value) -> Option<PackageView> {
    match value_table(value) {
        Some(table) => {
            let e = table_entries(table);
            if e.contains_key("name"@) && value_text(e["name"@]) is Some {
                Some(
                    PackageView {
                        name: value_text(e["name"@])->0,
                        version: if e.contains_key("version"@) && value_text(e["version"@]) is Some {
                            value_text(e["version"@])->0
                        } else {
                            sentinel()
                        },
                    },
                )
            } else {
                None
            }
        },
        None => None,
    }
}

/// Whether each dependency table of a manifest table that is present is
/// well formed, and `target`, if present, is a table.
pub open spec fn manifest_well_formed(table: Table) -> bool {
    let e = table_entries(table);
    &&& keyed_dependencies_of(table, "dependencies"@) is Some
    &&& keyed_dependencies_of(table, "dev-dependencies"@) is Some
    &&& e.contains_key("target"@) ==> value_table(e["target"@]) is Some
}

/// The manifest that a table declares; `None` where a part is malformed.
pub open spec fn manifest_of_table(table: Table) -> Option<ManifestView> {
    let e = table_entries(table);
    if manifest_well_formed(table) {
        Some(
            ManifestView {
                package: if e.contains_key("package"@) {
                    manifest_package_of(e["package"@])
                } else {
                    None
                },
                dependencies: keyed_dependencies_of(table, "dependencies"@)->0,
                dev_dependencies: keyed_dependencies_of(table, "dev-dependencies"@)->0,
                target: if e.contains_key("target"@) {
                    Some(targets_of(value_table(e["target"@])->0))
                } else {
                    None
                },
            },
        )
    } else {
        None
    }
}

/// The manifest that a text declares; `None` where the text is no TOML or
/// the table it gives is no manifest.
pub open spec fn manifest_of_text(text: Seq<char>) -> Option<ManifestView> {
    match parsed_table(text) {
        Some(table) => manifest_of_table(table),
        None => None,
    }
}

/// The packages of a lock table: the entries of the array `package`, in
/// order. `None` where the array is missing or an entry is no package.
pub open spec fn lock_of_table(table: Table) -> Option<Seq<PackageView>> {
    let e = table_entries(table);
    if e.contains_key("package"@) {
        match value_items(e["package"@]) {
            Some(items) => if forall|i: int| 0 <= i < items.len() ==> package_of(#[trigger] items[i]) is Some {
                Some(Seq::new(items.len(), |i: int| package_of(items[i])->0))
            } else {
                None
            },
            None => None,
        }
    } else {
        None
    }
}

/// The packages that a lock text declares.
pub open spec fn lock_of_text(text: Seq<char>) -> Option<Seq<PackageView>> {
    match parsed_table(text) {
        Some(table) => lock_of_table(table),
        None => None,
    }
}

/// The string that a value holds, as an owned `String`.
fn decode_text(value: &Value) -> (r: Option<String>)
    ensures
        optional_text(r) == value_text(*value),
{
    match value_as_str(value) {
        Some(text) => Some(text.to_owned()),
        None => None,
    }
}

/// The strings that an array holds, as owned `String`s.
fn decode_text_list(value: &Value) -> (r: Option<Vec<String>>)
    ensures
        optional_texts(r) == text_list_of(*value),
{
    match value_as_array(value) {
        None => None,
        Some(items) => {
            let mut out: Vec<String> = Vec::new();
            let mut i: usize = 0;
            while i < items.len()
                invariant
                    0 <= i <= items.len(),
                    value_items(*value) == Some(items@),
                    out@.len() == i,
                    forall|j: int| 0 <= j < i ==> value_text(#[trigger] items@[j]) == Some(out@[j]@),
                decreases items.len() - i,
            {
                match decode_text(&items[i]) {
                    None => {
                        assert(value_text(items@[i as int]) is None);
                        return None;
                    },
                    Some(text) => {
                        out.push(text);
                    },
                }
                i += 1;
            }
            assert(texts(out@) =~= Seq::new(items@.len(), |i: int| value_text(items@[i])->0));
            Some(out)
        },
    }
}

/// The detailed dependency that a table declares.
fn decode_details(table: &Table) -> (r: Option<DependencyDetails>)
    ensures
        r is Some <==> details_of(*table) is Some,
        r is Some ==> r->0@ == details_of(*table)->0,
{
    let version = match table_get(table, "version") {
        None => None,
        Some(value) => match decode_text(value) {
            None => {
                return None;
            },
            Some(text) => Some(text),
        },
    };
    let features = match table_get(table, "features") {
        None => None,
        Some(value) => match decode_text_list(value) {
            None => {
                return None;
            },
            Some(list) => Some(list),
        },
    };
    Some(DependencyDetails { version, features })
}

/// The dependency that a value declares.
fn decode_dependency(value: &Value) -> (r: Option<Dependency>)
    ensures
        r is Some <==> dependency_of(*value) is Some,
        r is Some ==> r->0@ == dependency_of(*value)->0,
{
    match decode_text(value) {
        Some(version) => Some(Dependency::Simple(version)),
        None => match value_as_table(value) {
            None => None,
            Some(table) => match decode_details(table) {
                None => None,
                Some(details) => Some(Dependency::Detailed(details)),
            },
        },
    }
}

/// A key is among the first `i + 1` items exactly if it is among the first
/// `i` or is the item at `i`.
proof fn lemma_take_contains(s: Seq<Seq<char>>, i: int, k: Seq<char>)
    requires
        0 <= i < s.len(),
    ensures
        s.take(i + 1).contains(k) <==> s.take(i).contains(k) || s[i] == k,
{
    let long = s.take(i + 1);
    let short = s.take(i);
    if long.contains(k) {
        let j = choose|j: int| 0 <= j < long.len() && long[j] == k;
        if j < i {
            assert(short[j] == k);
        }
    }
    if short.contains(k) {
        let j = choose|j: int| 0 <= j < short.len() && short[j] == k;
        assert(long[j] == k);
    }
    if s[i] == k {
        assert(long[i] == k);
    }
}

/// The dependency table that a value declares.
fn decode_dependency_table(value: &Value) -> (r: Option<DependencyTable>)
    ensures
        r is Some <==> dependencies_of(*value) is Some,
        r is Some ==> r->0@ == dependencies_of(*value)->0,
{
    match value_as_table(value) {
        None => None,
        Some(table) => {
            let keys = table_keys(table);
            let mut out = DependencyTable::new();
            let ghost e = table_entries(*table);
            let ghost names = texts(keys@);
            let mut i: usize = 0;
            while i < keys.len()
                invariant
                    0 <= i <= keys.len(),
                    e == table_entries(*table),
                    value_table(*value) == Some(*table),
                    names == texts(keys@),
                    names.no_duplicates(),
                    forall|k: Seq<char>| #[trigger] names.contains(k) <==> e.contains_key(k),
                    forall|k: Seq<char>| #[trigger] out@.contains_key(k) <==> names.take(i as int).contains(k),
                    forall|k: Seq<char>| #[trigger]
                        out@.contains_key(k) ==> dependency_of(e[k]) == Some(out@[k]),
                decreases keys.len() - i,
            {
                let key = &keys[i];
                assert(names[i as int] == key@);
                assert(names.contains(key@));
                proof {
                    assert forall|k: Seq<char>| #[trigger]
                        names.take(i + 1).contains(k) <==> names.take(i as int).contains(k) || names[i as int]
                            == k by {
                        lemma_take_contains(names, i as int, k);
                    }
                }
                match table_get(table, key.as_str()) {
                    None => {
                        return None;
                    },
                    Some(item) => match decode_dependency(item) {
                        None => {
                            assert(dependency_of(e[key@]) is None);
                            return None;
                        },
                        Some(dependency) => {
                            out.insert(key.clone(), dependency);
                        },
                    },
                }
                i += 1;
            }
            proof {
                assert(names.take(i as int) =~= names);
                assert forall|k: Seq<char>| e.contains_key(k) implies dependency_of(#[trigger] e[k]) is Some by {
                    assert(names.contains(k));
                    assert(out@.contains_key(k));
                }
                assert(out@ =~= Map::new(
                    |k: Seq<char>| e.contains_key(k),
                    |k: Seq<char>| dependency_of(e[k])->0,
                ));
            }
            Some(out)
        },
    }
}

/// The dependency table under `key`, where the table has that key.
fn decode_keyed_dependencies(table: &Table, key: &str) -> (r: Option<Option<DependencyTable>>)
    ensures
        r is Some <==> keyed_dependencies_of(*table, key@) is Some,
        r is Some ==> optional_table(r->0) == keyed_dependencies_of(*table, key@)->0,
{
    match table_get(table, key) {
        None => Some(None),
        Some(value) => match decode_dependency_table(value) {
            None => None,
            Some(dependencies) => Some(Some(dependencies)),
        },
    }
}

/// The target that a value declares.
fn decode_target(value: &Value) -> (r: Option<Target>)
    ensures
        r is Some <==> target_of(*value) is Some,
        r is Some ==> r->0@ == target_of(*value)->0,
{
    match value_as_table(value) {
        None => None,
        Some(table) => {
            let dev_dependencies = match decode_keyed_dependencies(table, "dev-dependencies") {
                None => {
                    return None;
                },
                Some(d) => d,
            };
            let dependencies = match decode_keyed_dependencies(table, "dependencies") {
                None => {
                    return None;
                },
                Some(d) => d,
            };
            Some(Target { dev_dependencies, dependencies })
        },
    }
}

/// The targets of a `target` table, or none where an entry is malformed.
fn decode_targets(table: &Table) -> (r: Targets)
    ensures
        r@ == targets_of(*table),
{
    let keys = table_keys(table);
    let mut out = TargetTable::new();
    let ghost e = table_entries(*table);
    let ghost names = texts(keys@);
    let mut i: usize = 0;
    while i < keys.len()
        invariant
            0 <= i <= keys.len(),
            e == table_entries(*table),
            names == texts(keys@),
            names.no_duplicates(),
            forall|k: Seq<char>| #[trigger] names.contains(k) <==> e.contains_key(k),
            forall|k: Seq<char>| #[trigger] out@.contains_key(k) <==> names.take(i as int).contains(k),
            forall|k: Seq<char>| #[trigger] out@.contains_key(k) ==> target_of(e[k]) == Some(out@[k]),
        decreases keys.len() - i,
    {
        let key = &keys[i];
        assert(names[i as int] == key@);
        assert(names.contains(key@));
        proof {
            assert forall|k: Seq<char>| #[trigger]
                names.take(i + 1).contains(k) <==> names.take(i as int).contains(k) || names[i as int] == k by {
                lemma_take_contains(names, i as int, k);
            }
        }
        match table_get(table, key.as_str()) {
            None => {
                return Targets { targets: None };
            },
            Some(item) => match decode_target(item) {
                None => {
                    assert(target_of(e[key@]) is None);
                    return Targets { targets: None };
                },
                Some(target) => {
                    out.insert(key.clone(), target);
                },
            },
        }
        i += 1;
    }
    proof {
        assert(names.take(i as int) =~= names);
        assert forall|k: Seq<char>| e.contains_key(k) implies target_of(#[trigger] e[k]) is Some by {
            assert(names.contains(k));
            assert(out@.contains_key(k));
        }
        assert(out@ =~= Map::new(|k: Seq<char>| e.contains_key(k), |k: Seq<char>| target_of(e[k])->0));
    }
    Targets { targets: Some(out) }
}

/// The package that a manifest declares under `package`.
fn decode_manifest_package(value: &Value) -> (r: Option<Package>)
    ensures
        r is Some <==> manifest_package_of(*value) is Some,
        r is Some ==> r->0@ == manifest_package_of(*value)->0,
{
    match value_as_table(value) {
        None => None,
        Some(table) => {
            let name = match table_get(table, "name") {
                None => {
                    return None;
                },
                Some(v) => match decode_text(v) {
                    None => {
                        return None;
                    },
                    Some(text) => text,
                },
            };
            let version = match table_get(table, "version") {
                None => "-".to_owned(),
                Some(v) => match decode_text(v) {
                    None => "-".to_owned(),
                    Some(text) => text,
                },
            };
            Some(Package { name, version })
        },
    }
}

/// The package that an entry of a lock file declares.
fn decode_package(value: &Value) -> (r: Option<Package>)
    ensures
        r is Some <==> package_of(*value) is Some,
        r is Some ==> r->0@ == package_of(*value)->0,
{
    match value_as_table(value) {
        None => None,
        Some(table) => {
            let name = match table_get(table, "name") {
                None => {
                    return None;
                },
                Some(v) => match decode_text(v) {
                    None => {
                        return None;
                    },
                    Some(text) => text,
                },
            };
            let version = match table_get(table, "version") {
                None => {
                    return None;
                },
                Some(v) => match decode_text(v) {
                    None => {
                        return None;
                    },
                    Some(text) => text,
                },
            };
            Some(Package { name, version })
        },
    }
}

impl CTomlFile {
    /// Decodes a manifest from a parsed table. The result is `None` exactly
    /// where a part of the table that a manifest may hold is malformed.
    pub fn from_table(table: &Table) -> (r: Option<CTomlFile>)
        ensures
            r is Some <==> manifest_of_table(*table) is Some,
            r is Some ==> r->0@ == manifest_of_table(*table)->0,
    {
        let package = match table_get(table, "package") {
            None => None,
            Some(value) => decode_manifest_package(value),
        };
        let dependencies = match decode_keyed_dependencies(table, "dependencies") {
            None => {
                return None;
            },
            Some(d) => d,
        };
        let dev_dependencies = match decode_keyed_dependencies(table, "dev-dependencies") {
            None => {
                return None;
            },
            Some(d) => d,
        };
        let target = match table_get(table, "target") {
            None => None,
            Some(value) => match value_as_table(value) {
                None => {
                    return None;
                },
                Some(targets) => Some(decode_targets(targets)),
            },
        };
        Some(CTomlFile { package, dependencies, dev_dependencies, target })
    }

    /// Parses and decodes a manifest. The result is `None` exactly where the
    /// text is no TOML, or the table it gives is no manifest.
    pub fn from_text(text: &str) -> (r: Option<CTomlFile>)
        ensures
            r is Some <==> manifest_of_text(text@) is Some,
            r is Some ==> r->0@ == manifest_of_text(text@)->0,
    {
        match parse_table(text) {
            None => None,
            Some(table) => CTomlFile::from_table(&table),
        }
    }
}

impl CLockFile {
    /// Decodes a lock file from a parsed table. The result is `None` exactly
    /// where the table has no array `package`, or an entry of it is no
    /// package.
    pub fn from_table(table: &Table) -> (r: Option<CLockFile>)
        ensures
            r is Some <==> lock_of_table(*table) is Some,
            r is Some ==> r->0@ == lock_of_table(*table)->0,
    {
        match table_get(table, "package") {
            None => None,
            Some(value) => match value_as_array(value) {
                None => None,
                Some(items) => {
                    let mut out: Vec<Package> = Vec::new();
                    let mut i: usize = 0;
                    while i < items.len()
                        invariant
                            0 <= i <= items.len(),
                            table_entries(*table).contains_key("package"@),
                            *value == table_entries(*table)["package"@],
                            value_items(*value) == Some(items@),
                            out@.len() == i,
                            forall|j: int| 0 <= j < i ==> package_of(#[trigger] items@[j]) == Some(out@[j]@),
                        decreases items.len() - i,
                    {
                        match decode_package(&items[i]) {
                            None => {
                                assert(package_of(items@[i as int]) is None);
                                return None;
                            },
                            Some(package) => {
                                out.push(package);
                            },
                        }
                        i += 1;
                    }
                    assert(packages_view(out@) =~= Seq::new(items@.len(), |i: int| package_of(items@[i])->0));
                    Some(CLockFile { package: out })
                },
            },
        }
    }

    /// Parses and decodes a lock file. The result is `None` exactly where
    /// the text is no TOML, or the table it gives is no lock file.
    pub fn from_text(text: &str) -> (r: Option<CLockFile>)
        ensures
            r is Some <==> lock_of_text(text@) is Some,
            r is Some ==> r->0@ == lock_of_text(text@)->0,
    {
        match parse_table(text) {
            None => None,
            Some(table) => CLockFile::from_table(&table),
        }
    }
}

} // verus!
