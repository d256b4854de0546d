//! The keyed tables of a decoded manifest. Each is a hash map of the
//! `hashbrown` crate behind a handful of trusted functions; what a table
//! holds is named by a specification function.
//!
//! The map is held in a private field of a struct whose inside Verus does
//! not read. Its own type cannot be declared to Verus: its allocator
//! parameter is bound by a trait that `hashbrown` does not export.
use vstd::prelude::*;
use crate::parser::data::Dependency;
use crate::parser::data::DependencyView;
use crate::text::key_order;
use crate::text::lemma_key_order;
use crate::text::lists_in_order;
use crate::text::sort_texts;
use crate::text::texts;

verus! {

/// A dependency table: dependency names, each bound to its declaration.
#[verifier::external_body]
#[derive(Debug)]
pub struct DependencyTable {
    entries: hashbrown::HashMap<String, Dependency>,
}

/// What a dependency table holds: the value of each declaration, by name.
pub uninterp spec fn dependency_entries(table: DependencyTable) -> Map<Seq<char>, DependencyView>;

impl View for DependencyTable {
    type V = Map<Seq<char>, DependencyView>;

    open spec fn view(&self) -> Map<Seq<char>, DependencyView> {
        dependency_entries(*self)
    }
}

/// Trusted: `hashbrown::HashMap::new`, which makes a map without entries.
#[verifier::external_body]
fn dependency_table_new() -> (table: DependencyTable)
    ensures
        (dependency_entries(table) == Map::<Seq<char>, DependencyView>::empty()),
{
    DependencyTable { entries: hashbrown::HashMap::new() }
}

/// Trusted: `hashbrown::HashMap::insert`. The key is bound to the new value,
/// whether or not it was bound before; the other entries stay.
#[verifier::external_body]
fn dependency_table_insert(table: &mut DependencyTable, name: String, dependency: Dependency)
    ensures
        dependency_entries(*final(table)) == dependency_entries(*old(table)).insert(name@, dependency@),
{
    table.entries.insert(name, dependency);
}

/// Trusted: `hashbrown::HashMap::get`. It returns the value bound to the
/// key, and `None` where the key is not bound.
#[verifier::external_body]
fn dependency_table_get<'a>(table: &'a DependencyTable, name: &str) -> (r: Option<&'a Dependency>)
    ensures
        r is Some <==> dependency_entries(*table).contains_key(name@),
        r is Some ==> r->0@ == dependency_entries(*table)[name@],
{
    table.entries.get(name)
}

impl DependencyTable {
    /// A table without entries.
    pub fn new() -> (table: DependencyTable)
        ensures
            table@ == Map::<Seq<char>, DependencyView>::empty(),
    {
        dependency_table_new()
    }

    /// Binds `name` to `dependency`, in place of what it was bound to.
    pub fn insert(&mut self, name: String, dependency: Dependency)
        ensures
            final(self)@ == old(self)@.insert(name@, dependency@),
    {
        dependency_table_insert(self, name, dependency)
    }

    /// The declaration bound to `name`, if there is one.
    pub fn get(&self, name: &str) -> (r: Option<&Dependency>)
        ensures
            r is Some <==> self@.contains_key(name@),
            r is Some ==> r->0@ == self@[name@],
    {
        dependency_table_get(self, name)
    }
}

/// The two dependency tables of one platform-conditional target.
#[derive(Debug)]
pub struct Target {
    pub dev_dependencies: Option<DependencyTable>,
    pub dependencies: Option<DependencyTable>,
}

/// The value of an optional dependency table.
pub open spec fn optional_table(table: Option<DependencyTable>) -> Option<Map<Seq<char>, DependencyView>> {
    match table {
        Some(t) => Some(t@),
        None => None,
    }
}

/// The mathematical value of a [`Target`].
pub struct TargetView {
    pub dev_dependencies: Option<Map<Seq<char>, DependencyView>>,
    pub dependencies: Option<Map<Seq<char>, DependencyView>>,
}

impl View for Target {
    type V = TargetView;

    open spec fn view(&self) -> TargetView {
        TargetView {
            dev_dependencies: optional_table(self.dev_dependencies),
            dependencies: optional_table(self.dependencies),
        }
    }
}

/// A table of targets: platform conditions, each bound to its target.
#[verifier::external_body]
#[derive(Debug)]
pub struct TargetTable {
    entries: hashbrown::HashMap<String, Target>,
}

/// What a target table holds: the value of each target, by its condition.
pub uninterp spec fn target_entries(table: TargetTable) -> Map<Seq<char>, TargetView>;

impl View for TargetTable {
    type V = Map<Seq<char>, TargetView>;

    open spec fn view(&self) -> Map<Seq<char>, TargetView> {
        target_entries(*self)
    }
}

/// Trusted: `hashbrown::HashMap::new`, which makes a map without entries.
#[verifier::external_body]
fn target_table_new() -> (table: TargetTable)
    ensures
        (target_entries(table) == Map::<Seq<char>, TargetView>::empty()),
{
    TargetTable { entries: hashbrown::HashMap::new() }
}

/// Trusted: `hashbrown::HashMap::insert`. The key is bound to the new value,
/// whether or not it was bound before; the other entries stay.
#[verifier::external_body]
fn target_table_insert(table: &mut TargetTable, condition: String, target: Target)
    ensures
        target_entries(*final(table)) == target_entries(*old(table)).insert(condition@, target@),
{
    table.entries.insert(condition, target);
}

/// Trusted: `hashbrown::HashMap::get`. It returns the value bound to the
/// key, and `None` where the key is not bound.
#[verifier::external_body]
fn target_table_get<'a>(table: &'a TargetTable, condition: &str) -> (r: Option<&'a Target>)
    ensures
        r is Some <==> target_entries(*table).contains_key(condition@),
        r is Some ==> r->0@ == target_entries(*table)[condition@],
{
    table.entries.get(condition)
}

/// Trusted: `hashbrown::HashMap::keys`, collected. Every key of the map
/// comes out once and nothing else does; the order is the map's own and
/// nothing is said of it.
#[verifier::external_body]
fn target_table_keys(table: &TargetTable) -> (r: Vec<String>)
    ensures
        texts(r@).no_duplicates(),
        forall|k: Seq<char>| #[trigger] texts(r@).contains(k) <==> target_entries(*table).contains_key(k),
{
    table.entries.keys().cloned().collect()
}

impl TargetTable {
    /// A table without entries.
    pub fn new() -> (table: TargetTable)
        ensures
            table@ == Map::<Seq<char>, TargetView>::empty(),
    {
        target_table_new()
    }

    /// Binds `condition` to `target`, in place of what it was bound to.
    pub fn insert(&mut self, condition: String, target: Target)
        ensures
            final(self)@ == old(self)@.insert(condition@, target@),
    {
        target_table_insert(self, condition, target)
    }

    /// The target bound to `condition`, if there is one.
    pub fn get(&self, condition: &str) -> (r: Option<&Target>)
        ensures
            r is Some <==> self@.contains_key(condition@),
            r is Some ==> r->0@ == self@[condition@],
    {
        target_table_get(self, condition)
    }

    /// The conditions of the table, each once, in ascending order.
    pub fn conditions(&self) -> (r: Vec<String>)
        ensures
            lists_in_order(texts(r@), self@),
            texts(r@) == key_order(self@),
    {
        let mut conditions = target_table_keys(self);
        sort_texts(&mut conditions);
        proof {
            lemma_key_order(texts(conditions@), self@);
        }
        conditions
    }
}

} // verus!
