//! The grouping of rows by package, as the structured output has it.
use vstd::prelude::*;
use crate::parser::data::OutputRow;
use crate::parser::data::OutputRowView;
use crate::parser::data::rows_view;
use crate::text::key_order;
use crate::text::lemma_key_order;
use crate::text::lists_in_order;
use crate::text::sort_texts;
use crate::text::texts;

verus! {

/// One occurrence of the dependency in a package: the version and the file.
#[derive(Debug, Clone)]
pub struct DepInfo {
    pub version: String,
    pub path: String,
}

/// The mathematical value of a [`DepInfo`].
pub struct DepInfoView {
    pub version: Seq<char>,
    pub path: Seq<char>,
}

impl View for DepInfo {
    type V = DepInfoView;

    open spec fn view(&self) -> DepInfoView {
        DepInfoView { version: self.version@, path: self.path@ }
    }
}

/// The values of a sequence of occurrences, in order.
pub open spec fn infos_view(infos: Seq<DepInfo>) -> Seq<DepInfoView> {
    infos.map_values(|i: DepInfo| i@)
}

/// The occurrences of each package: a hash map of the `hashbrown` crate,
/// keyed by package name.
#[verifier::external_body]
#[derive(Debug)]
pub struct Groups {
    entries: hashbrown::HashMap<String, Vec<DepInfo>>,
}

/// What the groups hold: the occurrences of each package, in order.
pub uninterp spec fn group_entries(groups: Groups) -> Map<Seq<char>, Seq<DepInfoView>>;

impl View for Groups {
    type V = Map<Seq<char>, Seq<DepInfoView>>;

    open spec fn view(&self) -> Map<Seq<char>, Seq<DepInfoView>> {
        group_entries(*self)
    }
}

/// The occurrences that the groups hold for a package; none for a package
/// that they do not hold.
pub open spec fn group_of(groups: Map<Seq<char>, Seq<DepInfoView>>, name: Seq<char>) -> Seq<DepInfoView> {
    if groups.contains_key(name) {
        groups[name]
    } else {
        Seq::empty()
    }
}

/// Trusted: `hashbrown::HashMap::new`, which makes a map without entries.
#[verifier::external_body]
fn groups_new() -> (groups: Groups)
    ensures
        (group_entries(groups) == Map::<Seq<char>, Seq<DepInfoView>>::empty()),
{
    Groups { entries: hashbrown::HashMap::new() }
}

/// Trusted: `hashbrown::HashMap::remove`. It takes the key out of the map
/// and returns the value that was bound to it, or `None` where the key was
/// not bound; the other entries stay.
#[verifier::external_body]
fn groups_remove(groups: &mut Groups, name: &str) -> (r: Option<Vec<DepInfo>>)
    ensures
        r is Some <==> group_entries(*old(groups)).contains_key(name@),
        r is Some ==> infos_view(r->0@) == group_entries(*old(groups))[name@],
        group_entries(*final(groups)) == group_entries(*old(groups)).remove(name@),
{
    groups.entries.remove(name)
}

/// Trusted: `hashbrown::HashMap::insert`. The key is bound to the new value,
/// whether or not it was bound before; the other entries stay.
#[verifier::external_body]
fn groups_insert(groups: &mut Groups, name: String, infos: Vec<DepInfo>)
    ensures
        group_entries(*final(groups)) == group_entries(*old(groups)).insert(name@, infos_view(infos@)),
{
    groups.entries.insert(name, infos);
}

/// Trusted: `hashbrown::HashMap::get`. It returns the value bound to the
/// key, and `None` where the key is not bound.
#[verifier::external_body]
fn groups_get<'a>(groups: &'a Groups, name: &str) -> (r: Option<&'a Vec<DepInfo>>)
    ensures
        r is Some <==> group_entries(*groups).contains_key(name@),
        r is Some ==> infos_view(r->0@) == group_entries(*groups)[name@],
{
    groups.entries.get(name)
}

/// Trusted: `hashbrown::HashMap::keys`, collected. Every key of the map
/// comes out once and nothing else does; the order is the map's own and
/// nothing is said of it.
#[verifier::external_body]
fn groups_keys(groups: &Groups) -> (r: Vec<String>)
    ensures
        texts(r@).no_duplicates(),
        forall|k: Seq<char>| #[trigger] texts(r@).contains(k) <==> group_entries(*groups).contains_key(k),
{
    groups.entries.keys().cloned().collect()
}

impl Groups {
    /// The occurrences of the package `name`, if the groups hold it.
    pub fn get(&self, name: &str) -> (r: Option<&Vec<DepInfo>>)
        ensures
            r is Some <==> self@.contains_key(name@),
            r is Some ==> infos_view(r->0@) == self@[name@],
    {
        groups_get(self, name)
    }

    /// The names of the packages, each once, in ascending order.
    pub fn names(&self) -> (r: Vec<String>)
        ensures
            lists_in_order(texts(r@), self@),
            texts(r@) == key_order(self@),
    {
        let mut names = groups_keys(self);
        sort_texts(&mut names);
        proof {
            lemma_key_order(texts(names@), self@);
        }
        names
    }
}

/// The test that a row belongs to the package `name`.
pub open spec fn of_package(name: Seq<char>) -> spec_fn(OutputRowView) -> bool {
    |r: OutputRowView| r.package_name == name
}

/// The occurrence that a row reports.
pub open spec fn info_of(row: OutputRowView) -> DepInfoView {
    DepInfoView { version: row.dep_version, path: row.path }
}

/// The occurrences of the package `name` among the rows, in their order.
pub open spec fn occurrences(rows: Seq<OutputRowView>, name: Seq<char>) -> Seq<DepInfoView> {
    rows.filter(of_package(name)).map_values(|r: OutputRowView| info_of(r))
}

/// Whether `groups` is the grouping of `rows`: it holds the packages that
/// have a row, each with its occurrences in the order of the rows.
pub open spec fn groups_rows(groups: Map<Seq<char>, Seq<DepInfoView>>, rows: Seq<OutputRowView>) -> bool {
    &&& forall|name: Seq<char>| #[trigger]
        groups.contains_key(name) <==> occurrences(rows, name).len() > 0
    &&& forall|name: Seq<char>| #[trigger] group_of(groups, name) == occurrences(rows, name)
}

/// Groups the rows by package name: each package with the versions and
/// paths of its rows, in the order of the rows.
pub fn group_rows(rows: &Vec<OutputRow>) -> (groups: Groups)
    ensures
        groups_rows(groups@, rows_view(rows@)),
{
    let mut groups = groups_new();
    let ghost all = rows_view(rows@);
    let mut i: usize = 0;
    proof {
        reveal(Seq::filter);
        assert(all.take(0) =~= Seq::<OutputRowView>::empty());
        assert forall|name: Seq<char>| #[trigger] group_of(groups@, name) == occurrences(all.take(0), name) by {
            assert(occurrences(all.take(0), name) =~= Seq::<DepInfoView>::empty());
        }
    }
    while i < rows.len()
        invariant
            0 <= i <= rows.len(),
            all == rows_view(rows@),
            groups_rows(groups@, all.take(i as int)),
        decreases rows.len() - i,
    {
        let row = &rows[i];
        let ghost before = groups@;
        let mut infos: Vec<DepInfo> = match groups_remove(&mut groups, row.package_name.as_str()) {
            Some(infos) => infos,
            None => Vec::new(),
        };
        let ghost earlier = infos_view(infos@);
        assert(earlier =~= group_of(before, row@.package_name));
        infos.push(DepInfo { version: row.dep_version.clone(), path: row.path.clone() });
        assert(infos_view(infos@) =~= earlier.push(info_of(row@)));
        groups_insert(&mut groups, row.package_name.clone(), infos);
        assert(groups@ =~= before.insert(row@.package_name, earlier.push(info_of(row@))));
        proof {
            reveal(Seq::filter);
            assert(all.take(i + 1).drop_last() =~= all.take(i as int));
            assert(all.take(i + 1).last() == row@);
            assert forall|name: Seq<char>| #[trigger]
                group_of(groups@, name) == occurrences(all.take(i + 1), name) by {
                assert(group_of(before, name) == occurrences(all.take(i as int), name));
                if name == row@.package_name {
                    assert(occurrences(all.take(i + 1), name) =~= occurrences(all.take(i as int), name).push(
                        info_of(row@),
                    ));
                } else {
                    assert(occurrences(all.take(i + 1), name) =~= occurrences(all.take(i as int), name));
                }
            }
            assert forall|name: Seq<char>| #[trigger]
                groups@.contains_key(name) <==> occurrences(all.take(i + 1), name).len() > 0 by {
                assert(before.contains_key(name) <==> occurrences(all.take(i as int), name).len() > 0);
                assert(group_of(groups@, name) == occurrences(all.take(i + 1), name));
                assert(group_of(before, name) == occurrences(all.take(i as int), name));
            }
        }
        i += 1;
    }
    assert(all.take(i as int) =~= all);
    groups
}

} // verus!
