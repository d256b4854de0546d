//! The decisions of the tree explorer: which directory entries to descend
//! into, which files to collect, and how the files found are folded into
//! the mapping from project directory to project files.
//!
//! The walk itself (reading directories, following links) is the work of the
//! caller; it describes each directory entry as an [`Entry`].
use vstd::prelude::*;
use crate::text::key_order;
use crate::text::lemma_key_order;
use crate::text::lists_in_order;
use crate::text::optional_text;
use crate::text::sort_texts;
use crate::text::text_eq;
use crate::text::texts;

verus! {

/// The name of a manifest file.
pub const CTOML: &'static str = "Cargo.toml";

/// The extension of a manifest file.
pub const ETOML: &'static str = "toml";

/// The name of a lock file.
pub const CLOCK: &'static str = "Cargo.lock";

/// The extension of a lock file.
pub const ELOCK: &'static str = "lock";

/// The number of workers of a walk by many workers. It is fixed, whatever the
/// machine, so that a large tree does not take more of it.
pub const WORKERS: usize = 4;

/// The files of one project: the path of its manifest and the path of its
/// lock file, as far as they were found.
#[derive(Debug, Clone)]
pub struct CargoFiles {
    pub ctoml: Option<String>,
    pub clock: Option<String>,
}

/// The mathematical value of a [`CargoFiles`].
pub struct CargoFilesView {
    pub ctoml: Option<Seq<char>>,
    pub clock: Option<Seq<char>>,
}

impl View for CargoFiles {
    type V = CargoFilesView;

    open spec fn view(&self) -> CargoFilesView {
        CargoFilesView { ctoml: optional_text(self.ctoml), clock: optional_text(self.clock) }
    }
}

impl Default for CargoFiles {
    fn default() -> (files: CargoFiles)
        ensures
            files.ctoml is None,
            files.clock is None,
    {
        CargoFiles { ctoml: None, clock: None }
    }
}

/// A copy of an optional string.
fn copy_text(text: &Option<String>) -> (r: Option<String>)
    ensures
        optional_text(r) == optional_text(*text),
{
    match text {
        Some(t) => Some(t.clone()),
        None => None,
    }
}

impl CargoFiles {
    /// The lock file to read for this project: its lock file, if it has a
    /// manifest too. The lock file of a project without a manifest is left
    /// alone.
    pub fn lock_to_read(&self) -> (r: Option<String>)
        ensures
            optional_text(r) == (if self.ctoml is Some {
                optional_text(self.clock)
            } else {
                None
            }),
    {
        match &self.ctoml {
            Some(_) => copy_text(&self.clock),
            None => None,
        }
    }
}

/// The mapping from project directory to the files of the project: a hash
/// map of the `hashbrown` crate, keyed by the directory's path.
#[verifier::external_body]
#[derive(Debug)]
pub struct ProjectFiles {
    entries: hashbrown::HashMap<String, CargoFiles>,
}

/// What the mapping holds: the files of each project, by directory.
pub uninterp spec fn project_entries(files: ProjectFiles) -> Map<Seq<char>, CargoFilesView>;

impl View for ProjectFiles {
    type V = Map<Seq<char>, CargoFilesView>;

    open spec fn view(&self) -> Map<Seq<char>, CargoFilesView> {
        project_entries(*self)
    }
}

/// Trusted: `hashbrown::HashMap::new`, which makes a map without entries.
#[verifier::external_body]
fn project_files_new() -> (files: ProjectFiles)
    ensures
        (project_entries(files) == Map::<Seq<char>, CargoFilesView>::empty()),
{
    ProjectFiles { entries: hashbrown::HashMap::new() }
}

/// Trusted: `hashbrown::HashMap::insert`. The key is bound to the new value,
/// whether or not it was bound before; the other entries stay.
#[verifier::external_body]
fn project_files_insert(files: &mut ProjectFiles, key: String, value: CargoFiles)
    ensures
        project_entries(*final(files)) == project_entries(*old(files)).insert(key@, value@),
{
    files.entries.insert(key, value);
}

/// Trusted: `hashbrown::HashMap::get`. It returns the value bound to the
/// key, and `None` where the key is not bound.
#[verifier::external_body]
fn project_files_get<'a>(files: &'a ProjectFiles, key: &str) -> (r: Option<&'a CargoFiles>)
    ensures
        r is Some <==> project_entries(*files).contains_key(key@),
        r is Some ==> r->0@ == project_entries(*files)[key@],
{
    files.entries.get(key)
}

/// Trusted: `hashbrown::HashMap::keys`, collected. Every key of the map
/// comes out once and nothing else does; the order is the map's own and
/// nothing is said of it.
#[verifier::external_body]
fn project_files_keys(files: &ProjectFiles) -> (r: Vec<String>)
    ensures
        texts(r@).no_duplicates(),
        forall|k: Seq<char>| #[trigger] texts(r@).contains(k) <==> project_entries(*files).contains_key(k),
{
    files.entries.keys().cloned().collect()
}

impl ProjectFiles {
    /// A mapping without projects.
    pub fn new() -> (files: ProjectFiles)
        ensures
            files@ == Map::<Seq<char>, CargoFilesView>::empty(),
    {
        project_files_new()
    }

    /// Binds the directory `key` to `value`, in place of what it was bound
    /// to.
    pub fn insert(&mut self, key: String, value: CargoFiles)
        ensures
            final(self)@ == old(self)@.insert(key@, value@),
    {
        project_files_insert(self, key, value)
    }

    /// The files of the project in the directory `key`, if there is one.
    pub fn get(&self, key: &str) -> (r: Option<&CargoFiles>)
        ensures
            r is Some <==> self@.contains_key(key@),
            r is Some ==> r->0@ == self@[key@],
    {
        project_files_get(self, key)
    }

    /// The directories of the mapping, each once, in ascending order.
    pub fn keys(&self) -> (r: Vec<String>)
        ensures
            lists_in_order(texts(r@), self@),
            texts(r@) == key_order(self@),
    {
        let mut keys = project_files_keys(self);
        sort_texts(&mut keys);
        proof {
            lemma_key_order(texts(keys@), self@);
        }
        keys
    }
}

/// What the explorer knows of one directory entry.
#[derive(Debug, Clone)]
pub struct Entry {
    /// The path of the entry.
    pub path: String,
    /// The path of the directory that holds it, resolved to its canonical
    /// form; `None` where it has none.
    pub parent: Option<String>,
    /// The last component of the path, where it is valid text.
    pub file_name: Option<String>,
    /// The extension of the file name, where it has one: the text behind its
    /// last dot (see `well_formed`).
    pub extension: Option<String>,
    /// Whether the path leads to a directory, links followed.
    pub is_dir: bool,
    /// Whether the path leads to a regular file, links followed.
    pub is_file: bool,
    /// Whether the entry itself is a symbolic link.
    pub is_symlink: bool,
}

/// The mathematical value of an [`Entry`].
pub struct EntryView {
    pub path: Seq<char>,
    pub parent: Option<Seq<char>>,
    pub file_name: Option<Seq<char>>,
    pub extension: Option<Seq<char>>,
    pub is_dir: bool,
    pub is_file: bool,
    pub is_symlink: bool,
}

impl View for Entry {
    type V = EntryView;

    open spec fn view(&self) -> EntryView {
        EntryView {
            path: self.path@,
            parent: optional_text(self.parent),
            file_name: optional_text(self.file_name),
            extension: optional_text(self.extension),
            is_dir: self.is_dir,
            is_file: self.is_file,
            is_symlink: self.is_symlink,
        }
    }
}

/// The values of a sequence of entries, in order.
pub open spec fn entries_view(entries: Seq<Entry>) -> Seq<EntryView> {
    entries.map_values(|e: Entry| e@)
}

/// Whether `i` is the place of the last dot of `name`.
pub open spec fn is_last_dot(name: Seq<char>, i: int) -> bool {
    &&& 0 <= i < name.len()
    &&& name[i] == '.'
    &&& forall|j: int| i < j < name.len() ==> #[trigger] name[j] != '.'
}

/// The extension of a file name: the text behind its last dot. A name
/// without a dot has none, nor has a name whose only dot is its first
/// character.
pub open spec fn extension_of(name: Seq<char>) -> Option<Seq<char>> {
    if exists|i: int| is_last_dot(name, i) {
        let i = choose|i: int| is_last_dot(name, i);
        if i == 0 {
            None
        } else {
            Some(name.skip(i + 1))
        }
    } else {
        None
    }
}

/// Whether an entry hangs together: where it has a file name, its extension
/// is that of the name.
pub open spec fn well_formed(entry: EntryView) -> bool {
    entry.file_name is Some ==> entry.extension == extension_of(entry.file_name->0)
}

/// A name has one last dot.
proof fn lemma_one_last_dot(name: Seq<char>, i: int, j: int)
    requires
        is_last_dot(name, i),
        is_last_dot(name, j),
    ensures
        i == j,
{
    if i < j {
        assert(name[j] != '.');
    }
    if j < i {
        assert(name[i] != '.');
    }
}

/// A manifest has the extension of manifests, a lock file that of lock
/// files.
pub proof fn lemma_extensions_of_names()
    ensures
        extension_of(CTOML@) == Some(ETOML@),
        extension_of(CLOCK@) == Some(ELOCK@),
{
    reveal_strlit("Cargo.toml");
    reveal_strlit("Cargo.lock");
    reveal_strlit("toml");
    reveal_strlit("lock");
    assert(is_last_dot(CTOML@, 5)) by {
        assert forall|j: int| 5 < j < CTOML@.len() implies #[trigger] CTOML@[j] != '.' by {
            assert(j == 6 || j == 7 || j == 8 || j == 9);
        }
    }
    assert(is_last_dot(CLOCK@, 5)) by {
        assert forall|j: int| 5 < j < CLOCK@.len() implies #[trigger] CLOCK@[j] != '.' by {
            assert(j == 6 || j == 7 || j == 8 || j == 9);
        }
    }
    lemma_one_last_dot(CTOML@, 5, choose|i: int| is_last_dot(CTOML@, i));
    lemma_one_last_dot(CLOCK@, 5, choose|i: int| is_last_dot(CLOCK@, i));
    assert(CTOML@.skip(6) =~= ETOML@);
    assert(CLOCK@.skip(6) =~= ELOCK@);
}

/// Whether an entry is a directory to descend into: a directory that is no
/// symbolic link, or any directory where links are followed.
pub open spec fn descends(entry: EntryView, symlinks: bool) -> bool {
    entry.is_dir && (!entry.is_symlink || symlinks)
}

/// Whether an entry has the extension of a manifest, or that of a lock file
/// in a deep search.
pub open spec fn has_cargo_extension(entry: EntryView, deep: bool) -> bool {
    entry.extension == Some(ETOML@) || (deep && entry.extension == Some(ELOCK@))
}

/// Whether an entry is of interest to the explorer at all.
pub open spec fn passes_filter(entry: EntryView, deep: bool, symlinks: bool) -> bool {
    descends(entry, symlinks) || has_cargo_extension(entry, deep)
}

/// The test that an entry passes the filter.
pub open spec fn wanted(deep: bool, symlinks: bool) -> spec_fn(EntryView) -> bool {
    |e: EntryView| passes_filter(e, deep, symlinks)
}

fn entry_has_cargo_extension(entry: &Entry, deep: bool) -> (r: bool)
    ensures
        r == has_cargo_extension(entry@, deep),
{
    match &entry.extension {
        Some(extension) => text_eq(extension.as_str(), ETOML) || (deep && text_eq(extension.as_str(), ELOCK)),
        None => false,
    }
}

/// The filter where links are followed at the caller's choice.
pub fn filter_entry_with_symlinks(entry: &Entry, deep: bool, symlinks: bool) -> (r: bool)
    ensures
        r == passes_filter(entry@, deep, symlinks),
{
    entry.is_dir && (!entry.is_symlink || symlinks) || entry_has_cargo_extension(entry, deep)
}

/// The filter where links are not followed.
pub fn filter_entry(entry: &Entry, deep: bool) -> (r: bool)
    ensures
        r == passes_filter(entry@, deep, false),
{
    entry.is_dir && !entry.is_symlink || entry_has_cargo_extension(entry, deep)
}

/// The entries of a listing that pass the filter, in the order of the
/// listing.
pub fn filter_entries(entries: &Vec<Entry>, deep: bool, symlinks: bool) -> (r: Vec<Entry>)
    ensures
        entries_view(r@) == entries_view(entries@).filter(wanted(deep, symlinks)),
{
    let mut out: Vec<Entry> = Vec::new();
    let ghost all = entries_view(entries@);
    let ghost keep = wanted(deep, symlinks);
    let mut i: usize = 0;
    proof {
        reveal(Seq::filter);
        assert(all.take(0) =~= Seq::<EntryView>::empty());
        assert(entries_view(out@) =~= all.take(0).filter(keep));
    }
    while i < entries.len()
        invariant
            0 <= i <= entries.len(),
            all == entries_view(entries@),
            keep == wanted(deep, symlinks),
            entries_view(out@) == all.take(i as int).filter(keep),
        decreases entries.len() - i,
    {
        let entry = &entries[i];
        let ghost before = entries_view(out@);
        proof {
            reveal(Seq::filter);
            assert(all.take(i + 1).drop_last() =~= all.take(i as int));
            assert(all.take(i + 1).last() == entry@);
        }
        let pass = if symlinks {
            filter_entry_with_symlinks(entry, deep, symlinks)
        } else {
            filter_entry(entry, deep)
        };
        if pass {
            out.push(
                Entry {
                    path: entry.path.clone(),
                    parent: copy_text(&entry.parent),
                    file_name: copy_text(&entry.file_name),
                    extension: copy_text(&entry.extension),
                    is_dir: entry.is_dir,
                    is_file: entry.is_file,
                    is_symlink: entry.is_symlink,
                },
            );
            assert(entries_view(out@) =~= before.push(entry@));
        }
        i += 1;
    }
    assert(all.take(i as int) =~= all);
    out
}

/// What the explorer does with one directory entry.
#[derive(Debug, Clone, Copy, PartialEq, Eq, Structural)]
pub enum EntryAction {
    /// Walk the directory that the entry leads to.
    Descend,
    /// Record the entry as the manifest of its directory.
    CollectManifest,
    /// Record the entry as the lock file of its directory.
    CollectLock,
    /// Pass over the entry.
    Ignore,
}

/// Whether an entry is a file that has a name and a directory.
pub open spec fn is_placed_file(entry: EntryView) -> bool {
    entry.is_file && entry.parent is Some && entry.file_name is Some
}

/// The action for an entry: descend into a directory (one behind a link
/// only where links are followed); collect a file named as a manifest;
/// collect a file named as a lock file in a deep search; else ignore.
pub open spec fn action_of(entry: EntryView, deep: bool, symlinks: bool) -> EntryAction {
    if descends(entry, symlinks) {
        EntryAction::Descend
    } else if entry.is_dir {
        EntryAction::Ignore
    } else if is_placed_file(entry) && entry.file_name == Some(CTOML@) {
        EntryAction::CollectManifest
    } else if is_placed_file(entry) && entry.file_name == Some(CLOCK@) && deep {
        EntryAction::CollectLock
    } else {
        EntryAction::Ignore
    }
}

/// Decides what to do with one directory entry.
pub fn classify(entry: &Entry, deep: bool, symlinks: bool) -> (action: EntryAction)
    ensures
        action == action_of(entry@, deep, symlinks),
{
    if entry.is_dir {
        if !entry.is_symlink || symlinks {
            EntryAction::Descend
        } else {
            EntryAction::Ignore
        }
    } else if entry.is_file && entry.parent.is_some() {
        match &entry.file_name {
            Some(name) => {
                if text_eq(name.as_str(), CTOML) {
                    EntryAction::CollectManifest
                } else if deep && text_eq(name.as_str(), CLOCK) {
                    EntryAction::CollectLock
                } else {
                    EntryAction::Ignore
                }
            },
            None => EntryAction::Ignore,
        }
    } else {
        EntryAction::Ignore
    }
}

/// A link to a directory is not descended into unless links are followed.
pub proof fn lemma_links_not_followed(entry: EntryView, deep: bool)
    requires
        entry.is_symlink,
    ensures
        action_of(entry, deep, false) != EntryAction::Descend,
{
}

/// A file that was found: the directory of its project, its name, and its
/// path.
#[derive(Debug, Clone)]
pub struct Found {
    pub key: String,
    pub file_name: String,
    pub path: String,
}

/// The mathematical value of a [`Found`].
pub struct FoundView {
    pub key: Seq<char>,
    pub file_name: Seq<char>,
    pub path: Seq<char>,
}

impl View for Found {
    type V = FoundView;

    open spec fn view(&self) -> FoundView {
        FoundView { key: self.key@, file_name: self.file_name@, path: self.path@ }
    }
}

/// The values of a sequence of found files, in order.
pub open spec fn found_view(found: Seq<Found>) -> Seq<FoundView> {
    found.map_values(|f: Found| f@)
}

/// The value of an optional found file.
pub open spec fn optional_found(found: Option<Found>) -> Option<FoundView> {
    match found {
        Some(f) => Some(f@),
        None => None,
    }
}

/// The file that an entry reports: itself, where it is collected.
pub open spec fn report_of(entry: EntryView, deep: bool, symlinks: bool) -> Option<FoundView> {
    match action_of(entry, deep, symlinks) {
        EntryAction::CollectManifest => Some(
            FoundView { key: entry.parent->0, file_name: entry.file_name->0, path: entry.path },
        ),
        EntryAction::CollectLock => Some(
            FoundView { key: entry.parent->0, file_name: entry.file_name->0, path: entry.path },
        ),
        _ => None,
    }
}

/// The file that an entry reports, if it is one to collect.
pub fn report(entry: &Entry, deep: bool, symlinks: bool) -> (r: Option<Found>)
    ensures
        optional_found(r) == report_of(entry@, deep, symlinks),
{
    match classify(entry, deep, symlinks) {
        EntryAction::CollectManifest | EntryAction::CollectLock => {
            match (&entry.parent, &entry.file_name) {
                (Some(parent), Some(name)) => Some(
                    Found { key: parent.clone(), file_name: name.clone(), path: entry.path.clone() },
                ),
                _ => None,
            }
        },
        _ => None,
    }
}

/// A search that is not deep reports manifests only.
pub proof fn lemma_shallow_search(entry: EntryView, symlinks: bool)
    ensures
        report_of(entry, false, symlinks) is Some ==> report_of(entry, false, symlinks)->0.file_name == CTOML@,
{
}

/// The files of the project in a directory, as far as the mapping has them.
pub open spec fn files_at(files: Map<Seq<char>, CargoFilesView>, key: Seq<char>) -> CargoFilesView {
    if files.contains_key(key) {
        files[key]
    } else {
        CargoFilesView { ctoml: None, clock: None }
    }
}

/// The mapping after a found file is recorded: a manifest becomes the
/// manifest of its directory, a lock file its lock file; a file of another
/// name leaves the mapping as it is.
pub open spec fn recorded(files: Map<Seq<char>, CargoFilesView>, found: FoundView) -> Map<Seq<char>, CargoFilesView> {
    let at = files_at(files, found.key);
    if found.file_name == CTOML@ {
        files.insert(found.key, CargoFilesView { ctoml: Some(found.path), clock: at.clock })
    } else if found.file_name == CLOCK@ {
        files.insert(found.key, CargoFilesView { ctoml: at.ctoml, clock: Some(found.path) })
    } else {
        files
    }
}

/// The mapping after an optional found file is recorded.
pub open spec fn recorded_if(files: Map<Seq<char>, CargoFilesView>, found: Option<FoundView>) -> Map<
    Seq<char>,
    CargoFilesView,
> {
    match found {
        Some(f) => recorded(files, f),
        None => files,
    }
}

/// Records a found file in the mapping.
pub fn record(target: &mut ProjectFiles, found: &Found)
    ensures
        final(target)@ == recorded(old(target)@, found@),
{
    let is_manifest = text_eq(found.file_name.as_str(), CTOML);
    let is_lock = text_eq(found.file_name.as_str(), CLOCK);
    if is_manifest || is_lock {
        let (ctoml, clock) = match target.get(found.key.as_str()) {
            Some(files) => (copy_text(&files.ctoml), copy_text(&files.clock)),
            None => (None, None),
        };
        let files = if is_manifest {
            CargoFiles { ctoml: Some(found.path.clone()), clock }
        } else {
            CargoFiles { ctoml, clock: Some(found.path.clone()) }
        };
        target.insert(found.key.clone(), files);
    }
}

/// One step of the walk in one thread: records the entry if it is a file to
/// collect, and says whether it is a directory to descend into.
pub fn visit(entry: &Entry, target: &mut ProjectFiles, deep: bool, symlinks: bool) -> (descend: bool)
    ensures
        descend == (action_of(entry@, deep, symlinks) == EntryAction::Descend),
        final(target)@ == recorded_if(old(target)@, report_of(entry@, deep, symlinks)),
{
    match report(entry, deep, symlinks) {
        Some(found) => {
            record(target, &found);
            false
        },
        None => classify(entry, deep, symlinks) == EntryAction::Descend,
    }
}

/// The mapping that a sequence of found files gives, recorded one after the
/// other.
pub open spec fn folded(found: Seq<FoundView>) -> Map<Seq<char>, CargoFilesView>
    decreases found.len(),
{
    if found.len() == 0 {
        Map::empty()
    } else {
        recorded(folded(found.drop_last()), found.last())
    }
}

/// Folds the files that the workers of a walk reported into the mapping.
pub fn collect_files(found: &Vec<Found>) -> (files: ProjectFiles)
    ensures
        files@ == folded(found_view(found@)),
{
    let mut files = ProjectFiles::new();
    let ghost all = found_view(found@);
    let mut i: usize = 0;
    assert(all.take(0) =~= Seq::<FoundView>::empty());
    while i < found.len()
        invariant
            0 <= i <= found.len(),
            all == found_view(found@),
            files@ == folded(all.take(i as int)),
        decreases found.len() - i,
    {
        assert(all.take(i + 1).drop_last() =~= all.take(i as int));
        assert(all.take(i + 1).last() == found@[i as int]@);
        record(&mut files, &found[i]);
        i += 1;
    }
    assert(all.take(i as int) =~= all);
    files
}

/// The mapping after the entries of a listing are visited one after the
/// other.
pub open spec fn visited(
    files: Map<Seq<char>, CargoFilesView>,
    entries: Seq<EntryView>,
    deep: bool,
    symlinks: bool,
) -> Map<Seq<char>, CargoFilesView>
    decreases entries.len(),
{
    if entries.len() == 0 {
        files
    } else {
        recorded_if(visited(files, entries.drop_last(), deep, symlinks), report_of(entries.last(), deep, symlinks))
    }
}

/// The test that an entry is a directory to descend into.
pub open spec fn to_descend(deep: bool, symlinks: bool) -> spec_fn(EntryView) -> bool {
    |e: EntryView| action_of(e, deep, symlinks) == EntryAction::Descend
}

/// The paths of the directories of a listing that are to be descended
/// into, in the order of the listing.
pub open spec fn directories_of(entries: Seq<EntryView>, deep: bool, symlinks: bool) -> Seq<Seq<char>> {
    entries.filter(to_descend(deep, symlinks)).map_values(|e: EntryView| e.path)
}

/// Visits the entries of one directory: records the files to collect, and
/// returns the paths of the directories to descend into.
pub fn visit_all(entries: &Vec<Entry>, target: &mut ProjectFiles, deep: bool, symlinks: bool) -> (directories: Vec<
    String,
>)
    ensures
        final(target)@ == visited(old(target)@, entries_view(entries@), deep, symlinks),
        texts(directories@) == directories_of(entries_view(entries@), deep, symlinks),
{
    let mut directories: Vec<String> = Vec::new();
    let ghost all = entries_view(entries@);
    let ghost start = target@;
    let mut i: usize = 0;
    proof {
        reveal(Seq::filter);
        assert(all.take(0) =~= Seq::<EntryView>::empty());
        assert(texts(directories@) =~= directories_of(all.take(0), deep, symlinks));
    }
    while i < entries.len()
        invariant
            0 <= i <= entries.len(),
            all == entries_view(entries@),
            target@ == visited(start, all.take(i as int), deep, symlinks),
            texts(directories@) == directories_of(all.take(i as int), deep, symlinks),
        decreases entries.len() - i,
    {
        let entry = &entries[i];
        let ghost before = texts(directories@);
        proof {
            reveal(Seq::filter);
            assert(all.take(i + 1).drop_last() =~= all.take(i as int));
            assert(all.take(i + 1).last() == entry@);
        }
        if visit(entry, target, deep, symlinks) {
            directories.push(entry.path.clone());
            assert(texts(directories@) =~= before.push(entry@.path));
            assert(directories_of(all.take(i + 1), deep, symlinks) =~= before.push(entry@.path));
        }
        i += 1;
    }
    assert(all.take(i as int) =~= all);
    directories
}

/// The files that the entries of a listing report, in the order of the
/// listing.
pub open spec fn reports_of(entries: Seq<EntryView>, deep: bool, symlinks: bool) -> Seq<FoundView> {
    entries.filter_map(|e: EntryView| report_of(e, deep, symlinks))
}

/// Visiting one listing and then another is visiting the two as one. So
/// the listings of a whole walk, visited one after the other with one
/// mapping, are one sequence of entries: those of the tree in the order in
/// which the walk meets them.
pub proof fn lemma_visited_in_turn(
    files: Map<Seq<char>, CargoFilesView>,
    first: Seq<EntryView>,
    second: Seq<EntryView>,
    deep: bool,
    symlinks: bool,
)
    ensures
        visited(visited(files, first, deep, symlinks), second, deep, symlinks) == visited(
            files,
            first + second,
            deep,
            symlinks,
        ),
    decreases second.len(),
{
    if second.len() == 0 {
        assert(first + second =~= first);
    } else {
        lemma_visited_in_turn(files, first, second.drop_last(), deep, symlinks);
        assert((first + second).drop_last() =~= first + second.drop_last());
        assert((first + second).last() == second.last());
    }
}

/// Visiting entries one by one, from an empty mapping, gives the mapping
/// that folding their reports gives.
pub proof fn lemma_visited_is_folded(entries: Seq<EntryView>, deep: bool, symlinks: bool)
    ensures
        visited(Map::empty(), entries, deep, symlinks) == folded(reports_of(entries, deep, symlinks)),
    decreases entries.len(),
{
    if entries.len() > 0 {
        let rest = entries.drop_last();
        lemma_visited_is_folded(rest, deep, symlinks);
        let earlier = reports_of(rest, deep, symlinks);
        match report_of(entries.last(), deep, symlinks) {
            Some(found) => {
                assert(reports_of(entries, deep, symlinks) == earlier + seq![found]);
                assert((earlier + seq![found]).drop_last() =~= earlier);
                assert((earlier + seq![found]).last() == found);
            },
            None => {
                assert(reports_of(entries, deep, symlinks) == earlier);
            },
        }
    }
}

/// Notes that the walk enters a directory, named by its canonical path,
/// and says whether it does so for the first time. A directory that links
/// lead back to is entered once.
pub fn first_visit(seen: &mut Vec<String>, directory: &str) -> (first: bool)
    ensures
        first == !texts(old(seen)@).contains(directory@),
        first ==> texts(final(seen)@) == texts(old(seen)@).push(directory@),
        !first ==> final(seen)@ == old(seen)@,
        texts(old(seen)@).no_duplicates() ==> texts(final(seen)@).no_duplicates(),
{
    let ghost before = texts(seen@);
    let mut i: usize = 0;
    while i < seen.len()
        invariant
            0 <= i <= seen.len(),
            seen@ == old(seen)@,
            before == texts(seen@),
            forall|k: int| 0 <= k < i ==> before[k] != directory@,
        decreases seen.len() - i,
    {
        if text_eq(seen[i].as_str(), directory) {
            assert(before[i as int] == directory@);
            return false;
        }
        i += 1;
    }
    seen.push(directory.to_owned());
    assert(texts(seen@) =~= before.push(directory@));
    true
}

/// The path of the last found file with the given directory and name.
pub open spec fn last_path(found: Seq<FoundView>, key: Seq<char>, file_name: Seq<char>) -> Option<Seq<char>>
    decreases found.len(),
{
    if found.len() == 0 {
        None
    } else if found.last().key == key && found.last().file_name == file_name {
        Some(found.last().path)
    } else {
        last_path(found.drop_last(), key, file_name)
    }
}

/// The name of a manifest and the name of a lock file are two names.
pub proof fn lemma_names_differ()
    ensures
        CTOML@ != CLOCK@,
{
    reveal_strlit("Cargo.toml");
    reveal_strlit("Cargo.lock");
    assert(CTOML@[6] == 't');
    assert(CLOCK@[6] == 'l');
}

/// The mapping that found files give holds a directory exactly where one of
/// them is its manifest or its lock file, and binds it to the last of each.
pub proof fn lemma_folded_shape(found: Seq<FoundView>, key: Seq<char>)
    ensures
        folded(found).contains_key(key) <==> (last_path(found, key, CTOML@) is Some || last_path(
            found,
            key,
            CLOCK@,
        ) is Some),
        files_at(folded(found), key) == (CargoFilesView {
            ctoml: last_path(found, key, CTOML@),
            clock: last_path(found, key, CLOCK@),
        }),
    decreases found.len(),
{
    lemma_names_differ();
    if found.len() > 0 {
        lemma_folded_shape(found.drop_last(), key);
        lemma_folded_shape(found.drop_last(), found.last().key);
    }
}

/// Whether the found files agree: two of one directory and one name have
/// one path.
pub open spec fn consistent(found: Seq<FoundView>) -> bool {
    forall|i: int, j: int|
        0 <= i < found.len() && 0 <= j < found.len() && (#[trigger] found[i]).key == (#[trigger] found[j]).key
            && found[i].file_name == found[j].file_name ==> found[i].path == found[j].path
}

/// Among found files that agree, the path of the last one with a directory
/// and a name is the path of any one with them.
proof fn lemma_last_path(found: Seq<FoundView>, key: Seq<char>, file_name: Seq<char>, path: Seq<char>)
    requires
        consistent(found),
    ensures
        last_path(found, key, file_name) == Some(path) <==> found.contains(
            FoundView { key: key, file_name: file_name, path: path },
        ),
    decreases found.len(),
{
    let wanted = FoundView { key: key, file_name: file_name, path: path };
    if found.len() > 0 {
        let rest = found.drop_last();
        let last = found.last();
        assert(found[found.len() - 1] == last);
        assert(consistent(rest)) by {
            assert forall|i: int, j: int|
                0 <= i < rest.len() && 0 <= j < rest.len() && (#[trigger] rest[i]).key == (#[trigger] rest[j]).key
                    && rest[i].file_name == rest[j].file_name implies rest[i].path == rest[j].path by {
                assert(rest[i] == found[i] && rest[j] == found[j]);
            }
        }
        lemma_last_path(rest, key, file_name, path);
        if rest.contains(wanted) {
            let i = choose|i: int| 0 <= i < rest.len() && rest[i] == wanted;
            assert(found[i] == wanted);
        }
        if found.contains(wanted) {
            let i = choose|i: int| 0 <= i < found.len() && found[i] == wanted;
            if i < rest.len() {
                assert(rest[i] == wanted);
            }
        }
        if last.key == key && last.file_name == file_name {
            if found.contains(wanted) {
                let i = choose|i: int| 0 <= i < found.len() && found[i] == wanted;
                assert(found[i].path == found[found.len() - 1].path);
            }
            if last.path == path {
                assert(last == wanted);
            }
        }
    }
}

/// Whether two sequences hold the same found files, in whatever order and
/// however often.
pub open spec fn same_files(a: Seq<FoundView>, b: Seq<FoundView>) -> bool {
    forall|f: FoundView| #[trigger] a.contains(f) <==> b.contains(f)
}

proof fn lemma_same_last_path(a: Seq<FoundView>, b: Seq<FoundView>, key: Seq<char>, file_name: Seq<char>)
    requires
        same_files(a, b),
        consistent(a),
        consistent(b),
    ensures
        last_path(a, key, file_name) == last_path(b, key, file_name),
{
    match last_path(a, key, file_name) {
        Some(path) => {
            lemma_last_path(a, key, file_name, path);
            lemma_last_path(b, key, file_name, path);
            assert(a.contains(FoundView { key: key, file_name: file_name, path: path }));
        },
        None => {
            match last_path(b, key, file_name) {
                Some(path) => {
                    lemma_last_path(a, key, file_name, path);
                    lemma_last_path(b, key, file_name, path);
                    assert(b.contains(FoundView { key: key, file_name: file_name, path: path }));
                },
                None => {},
            }
        },
    }
}

/// The order in which found files are recorded does not change the mapping:
/// two sequences that hold the same files, each file of a directory found
/// under one path, give equal mappings. So a walk in one thread and a walk
/// by many workers, which find the same files in different orders, give the
/// same mapping.
pub proof fn lemma_order_of_discovery(a: Seq<FoundView>, b: Seq<FoundView>)
    requires
        same_files(a, b),
        consistent(a),
    ensures
        folded(a) == folded(b),
{
    assert(consistent(b)) by {
        assert forall|i: int, j: int|
            0 <= i < b.len() && 0 <= j < b.len() && (#[trigger] b[i]).key == (#[trigger] b[j]).key
                && b[i].file_name == b[j].file_name implies b[i].path == b[j].path by {
            assert(b.contains(b[i]));
            assert(b.contains(b[j]));
            assert(a.contains(b[i]));
            assert(a.contains(b[j]));
            let x = choose|x: int| 0 <= x < a.len() && a[x] == b[i];
            let y = choose|y: int| 0 <= y < a.len() && a[y] == b[j];
            assert(a[x].path == a[y].path);
        }
    }
    assert forall|key: Seq<char>| #[trigger] folded(a).contains_key(key) == folded(b).contains_key(key) by {
        lemma_folded_shape(a, key);
        lemma_folded_shape(b, key);
        lemma_same_last_path(a, b, key, CTOML@);
        lemma_same_last_path(a, b, key, CLOCK@);
    }
    assert forall|key: Seq<char>| folded(a).contains_key(key) implies #[trigger] folded(a)[key] == folded(b)[key] by {
        lemma_folded_shape(a, key);
        lemma_folded_shape(b, key);
        lemma_same_last_path(a, b, key, CTOML@);
        lemma_same_last_path(a, b, key, CLOCK@);
    }
    assert(folded(a) =~= folded(b));
}

/// A walk in one thread and a walk by many workers give the same mapping.
/// `entries` are the entries of the tree in the order in which one thread
/// meets them, `received` the reports of the workers in the order in which
/// they arrived: visiting the entries one by one gives what folding the
/// reports gives, as long as each file of a directory was found under one
/// path. It is, where each directory is entered once.
pub proof fn lemma_one_walk_or_many_workers(
    entries: Seq<EntryView>,
    received: Seq<FoundView>,
    deep: bool,
    symlinks: bool,
)
    requires
        same_files(reports_of(entries, deep, symlinks), received),
        consistent(reports_of(entries, deep, symlinks)),
    ensures
        visited(Map::empty(), entries, deep, symlinks) == folded(received),
{
    lemma_visited_is_folded(entries, deep, symlinks);
    lemma_order_of_discovery(reports_of(entries, deep, symlinks), received);
}

/// An entry that is acted on passes the filter, where it hangs together:
/// the filter, which goes by kind and extension, lets through what the
/// classification, which goes by kind and name, descends into or collects.
pub proof fn lemma_acted_on_passes(entry: EntryView, deep: bool, symlinks: bool)
    requires
        well_formed(entry),
        action_of(entry, deep, symlinks) != EntryAction::Ignore,
    ensures
        passes_filter(entry, deep, symlinks),
{
    lemma_extensions_of_names();
}

/// Filtering a listing before it is visited changes nothing of what the
/// visit records, nor of the directories it finds to descend into.
pub proof fn lemma_filter_then_visit(
    files: Map<Seq<char>, CargoFilesView>,
    entries: Seq<EntryView>,
    deep: bool,
    symlinks: bool,
)
    requires
        forall|i: int| 0 <= i < entries.len() ==> well_formed(#[trigger] entries[i]),
    ensures
        visited(files, entries.filter(wanted(deep, symlinks)), deep, symlinks) == visited(
            files,
            entries,
            deep,
            symlinks,
        ),
        entries.filter(wanted(deep, symlinks)).filter(to_descend(deep, symlinks)) == entries.filter(
            to_descend(deep, symlinks),
        ),
        directories_of(entries.filter(wanted(deep, symlinks)), deep, symlinks) == directories_of(
            entries,
            deep,
            symlinks,
        ),
    decreases entries.len(),
{
    reveal(Seq::filter);
    let keep = wanted(deep, symlinks);
    let down = to_descend(deep, symlinks);
    if entries.len() > 0 {
        let rest = entries.drop_last();
        let last = entries.last();
        assert forall|i: int| 0 <= i < rest.len() implies well_formed(#[trigger] rest[i]) by {
            assert(rest[i] == entries[i]);
        }
        lemma_filter_then_visit(files, rest, deep, symlinks);
        assert(well_formed(entries[entries.len() - 1]));
        if action_of(last, deep, symlinks) != EntryAction::Ignore {
            lemma_acted_on_passes(last, deep, symlinks);
        }
        if keep(last) {
            let kept = rest.filter(keep).push(last);
            assert(entries.filter(keep) == kept);
            assert(kept.drop_last() =~= rest.filter(keep));
            assert(kept.last() == last);
        } else {
            assert(entries.filter(keep) == rest.filter(keep));
            assert(report_of(last, deep, symlinks) is None);
            assert(!down(last));
        }
    }
}

/// Whether every project of the mapping has a manifest and no lock file.
pub open spec fn manifests_only(files: Map<Seq<char>, CargoFilesView>) -> bool {
    forall|key: Seq<char>| #[trigger] files.contains_key(key) ==> files[key].ctoml is Some && files[key].clock is None
}

/// A search that is not deep records no lock file: every project that it
/// finds has a manifest, and a directory that holds a lock file alone is no
/// project.
pub proof fn lemma_shallow_visit(files: Map<Seq<char>, CargoFilesView>, entries: Seq<EntryView>, symlinks: bool)
    requires
        manifests_only(files),
    ensures
        manifests_only(visited(files, entries, false, symlinks)),
    decreases entries.len(),
{
    if entries.len() > 0 {
        lemma_shallow_visit(files, entries.drop_last(), symlinks);
        lemma_shallow_search(entries.last(), symlinks);
    }
}

/// Where links are not followed, every directory that a listing gives to
/// descend into is a directory of the listing that is no link.
pub proof fn lemma_links_not_listed(entries: Seq<EntryView>, deep: bool, directory: Seq<char>)
    requires
        directories_of(entries, deep, false).contains(directory),
    ensures
        exists|i: int|
            0 <= i < entries.len() && (#[trigger] entries[i]).path == directory && entries[i].is_dir
                && !entries[i].is_symlink,
{
    let down = to_descend(deep, false);
    let kept = entries.filter(down);
    let j = choose|j: int| 0 <= j < directories_of(entries, deep, false).len() && directories_of(
        entries,
        deep,
        false,
    )[j] == directory;
    assert(kept[j].path == directory);
    entries.lemma_filter_pred(down, j);
    assert(kept.contains(kept[j]));
    entries.lemma_filter_contains_rev(down, kept[j]);
    let i = choose|i: int| 0 <= i < entries.len() && entries[i] == kept[j];
    assert(entries[i].path == directory && entries[i].is_dir && !entries[i].is_symlink);
}

} // verus!
