//! The manifest parser, the lock parser and the aggregation of their rows.
pub mod data;
pub mod declarations;
pub mod decode;
pub mod order;
pub mod projects;
pub mod tables;

use vstd::prelude::*;
use crate::parser::data::CLockFile;
use crate::parser::data::CTomlFile;
use crate::parser::data::DependencyView;
use crate::parser::data::ManifestView;
use crate::parser::data::OutputRow;
use crate::parser::data::OutputRowView;
use crate::parser::data::PackageView;
use crate::parser::data::effective_version;
use crate::parser::data::rows_view;
use crate::parser::data::sentinel;
use crate::parser::decode::lock_of_text;
use crate::parser::decode::manifest_of_text;
use crate::parser::order::sort_rows;
use crate::parser::order::sorts_by_path;
use crate::parser::tables::DependencyTable;
use crate::parser::tables::Target;
use crate::parser::tables::TargetView;
use crate::parser::tables::optional_table;
use crate::text::key_order;
use crate::text::lemma_key_order;
use crate::text::lists_in_order;
use crate::text::text_eq;
use crate::text::texts;

verus! {

/// The text of a file, with the path under which it was found.
#[derive(Debug, Clone)]
pub struct FileText {
    pub path: String,
    pub text: String,
}

/// The mathematical value of a [`FileText`].
pub struct FileTextView {
    pub path: Seq<char>,
    pub text: Seq<char>,
}

impl View for FileText {
    type V = FileTextView;

    open spec fn view(&self) -> FileTextView {
        FileTextView { path: self.path@, text: self.text@ }
    }
}

/// The files of one project, as far as they were found and read.
#[derive(Debug, Clone)]
pub struct ProjectSource {
    pub manifest: Option<FileText>,
    pub lock: Option<FileText>,
}

/// The mathematical value of a [`ProjectSource`].
pub struct ProjectSourceView {
    pub manifest: Option<FileTextView>,
    pub lock: Option<FileTextView>,
}

/// The value of an optional file.
pub open spec fn optional_file(file: Option<FileText>) -> Option<FileTextView> {
    match file {
        Some(f) => Some(f@),
        None => None,
    }
}

impl View for ProjectSource {
    type V = ProjectSourceView;

    open spec fn view(&self) -> ProjectSourceView {
        ProjectSourceView { manifest: optional_file(self.manifest), lock: optional_file(self.lock) }
    }
}

/// The values of a sequence of projects, in order.
pub open spec fn sources_view(sources: Seq<ProjectSource>) -> Seq<ProjectSourceView> {
    sources.map_values(|s: ProjectSource| s@)
}

/// The parser of manifests and lock files. It holds no state.
#[derive(Default)]
pub struct FileParser;

/// The row that a declaration gives: the effective version of the
/// dependency, under the name of the package and the path of the manifest.
pub open spec fn declared_row(dependency: DependencyView, path: Seq<char>, package_name: Seq<char>) -> OutputRowView {
    OutputRowView { package_name: package_name, dep_version: effective_version(dependency), path: path }
}

/// The row that a dependency table gives for `target_dep`: one row where the
/// table binds that name, none where it does not or the table is absent.
pub open spec fn table_rows(
    table: Option<Map<Seq<char>, DependencyView>>,
    target_dep: Seq<char>,
    path: Seq<char>,
    package_name: Seq<char>,
) -> Seq<OutputRowView> {
    match table {
        Some(t) => if t.contains_key(target_dep) {
            seq![declared_row(t[target_dep], path, package_name)]
        } else {
            Seq::empty()
        },
        None => Seq::empty(),
    }
}

/// The name of a manifest's package, or the sentinel where it declares none.
pub open spec fn package_name_of(manifest: ManifestView) -> Seq<char> {
    match manifest.package {
        Some(p) => p.name,
        None => sentinel(),
    }
}

/// The rows of one target: of its plain table, then of its dev table.
pub open spec fn target_rows(
    target: TargetView,
    target_dep: Seq<char>,
    path: Seq<char>,
    package_name: Seq<char>,
) -> Seq<OutputRowView> {
    table_rows(target.dependencies, target_dep, path, package_name) + table_rows(
        target.dev_dependencies,
        target_dep,
        path,
        package_name,
    )
}

/// The rows of the targets that `order` names, in that order. A name that
/// the table does not bind gives no row.
pub open spec fn targets_rows(
    targets: Map<Seq<char>, TargetView>,
    order: Seq<Seq<char>>,
    target_dep: Seq<char>,
    path: Seq<char>,
    package_name: Seq<char>,
) -> Seq<OutputRowView>
    decreases order.len(),
{
    if order.len() == 0 {
        Seq::empty()
    } else {
        targets_rows(targets, order.drop_last(), target_dep, path, package_name) + (if targets.contains_key(
            order.last(),
        ) {
            target_rows(targets[order.last()], target_dep, path, package_name)
        } else {
            Seq::empty()
        })
    }
}

/// The targets of a manifest; none where it has no `target` table or the
/// table holds a malformed entry.
pub open spec fn manifest_targets(manifest: ManifestView) -> Map<Seq<char>, TargetView> {
    match manifest.target {
        Some(Some(targets)) => targets,
        _ => Map::empty(),
    }
}

/// The rows of a manifest for `target_dep`: of its plain table, of its dev
/// table, then of its targets in the given order.
pub open spec fn manifest_rows(
    manifest: ManifestView,
    order: Seq<Seq<char>>,
    target_dep: Seq<char>,
    path: Seq<char>,
) -> Seq<OutputRowView> {
    let name = package_name_of(manifest);
    table_rows(manifest.dependencies, target_dep, path, name) + table_rows(
        manifest.dev_dependencies,
        target_dep,
        path,
        name,
    ) + targets_rows(manifest_targets(manifest), order, target_dep, path, name)
}

/// Whether the key order of the manifest's targets lists them, each once,
/// in ascending order. It does for every manifest that was decoded.
pub open spec fn targets_listed(manifest: ManifestView) -> bool {
    lists_in_order(key_order(manifest_targets(manifest)), manifest_targets(manifest))
}

/// The rows of a manifest for `target_dep`: of its plain table, of its dev
/// table, then of its targets in ascending order of their conditions.
pub open spec fn ordered_rows(manifest: ManifestView, target_dep: Seq<char>, path: Seq<char>) -> Seq<OutputRowView> {
    manifest_rows(manifest, key_order(manifest_targets(manifest)), target_dep, path)
}

/// The rows of a manifest text for `target_dep`. A text that is no manifest
/// gives no row.
pub open spec fn manifest_text_rows(text: Seq<char>, target_dep: Seq<char>, path: Seq<char>) -> Seq<OutputRowView> {
    match manifest_of_text(text) {
        Some(manifest) => ordered_rows(manifest, target_dep, path),
        None => Seq::empty(),
    }
}

/// Whether the targets of the manifest that a text declares are listed by
/// their key order. They are for every text that was parsed.
pub open spec fn text_targets_listed(text: Seq<char>) -> bool {
    match manifest_of_text(text) {
        Some(manifest) => targets_listed(manifest),
        None => true,
    }
}

/// The package name that a manifest text declares; the sentinel where the
/// text is no manifest or declares no package.
pub open spec fn name_of_text(text: Seq<char>) -> Seq<char> {
    match manifest_of_text(text) {
        Some(manifest) => package_name_of(manifest),
        None => sentinel(),
    }
}

/// The test that a package bears the given name.
pub open spec fn named(dependency_name: Seq<char>) -> spec_fn(PackageView) -> bool {
    |p: PackageView| p.name == dependency_name
}

/// The row that a resolved package gives: its version, under the name of the
/// project and the path of the lock file.
pub open spec fn lock_row(path: Seq<char>, package_name: Seq<char>) -> spec_fn(PackageView) -> OutputRowView {
    |p: PackageView| (OutputRowView { package_name: package_name, dep_version: p.version, path: path })
}

/// The rows of a lock file's packages for `dependency_name`: one row for
/// each package of that name, in the order of the file.
pub open spec fn lock_rows(
    packages: Seq<PackageView>,
    dependency_name: Seq<char>,
    path: Seq<char>,
    package_name: Seq<char>,
) -> Seq<OutputRowView> {
    packages.filter(named(dependency_name)).map_values(lock_row(path, package_name))
}

/// The rows of a lock text. A text that is no lock file gives no row.
pub open spec fn lock_text_rows(
    text: Seq<char>,
    dependency_name: Seq<char>,
    path: Seq<char>,
    package_name: Seq<char>,
) -> Seq<OutputRowView> {
    match lock_of_text(text) {
        Some(packages) => lock_rows(packages, dependency_name, path, package_name),
        None => Seq::empty(),
    }
}

/// The package name of the first row that has one other than the sentinel.
pub open spec fn first_real_name(rows: Seq<OutputRowView>) -> Option<Seq<char>>
    decreases rows.len(),
{
    if rows.len() == 0 {
        None
    } else if rows[0].package_name != sentinel() {
        Some(rows[0].package_name)
    } else {
        first_real_name(rows.drop_first())
    }
}

/// The name under which a project's lock rows are reported: that of the
/// first manifest row with a real name, else the name that the manifest
/// text declares.
pub open spec fn resolved_name(rows: Seq<OutputRowView>, text: Seq<char>) -> Seq<char> {
    match first_real_name(rows) {
        Some(name) => name,
        None => name_of_text(text),
    }
}

/// The rows of a lock file, if the project has one.
pub open spec fn lock_part(lock: Option<FileTextView>, dependency_name: Seq<char>, package_name: Seq<char>) -> Seq<
    OutputRowView,
> {
    match lock {
        Some(l) => lock_text_rows(l.text, dependency_name, l.path, package_name),
        None => Seq::empty(),
    }
}

/// The rows of one project: those of its manifest, then those of its lock
/// file under the name that the manifest declares. A project without a
/// manifest gives no row.
pub open spec fn project_rows(source: ProjectSourceView, target_dep: Seq<char>) -> Seq<OutputRowView> {
    match source.manifest {
        Some(m) => manifest_text_rows(m.text, target_dep, m.path) + lock_part(
            source.lock,
            target_dep,
            name_of_text(m.text),
        ),
        None => Seq::empty(),
    }
}

/// The paths of the files of a project that were read and are rejected: the
/// manifest where its text is no manifest, then the lock file where its
/// text is no lock file. These files give no rows.
pub open spec fn unparsable_of(source: ProjectSourceView) -> Seq<Seq<char>> {
    match source.manifest {
        Some(m) => (if manifest_of_text(m.text) is None {
            seq![m.path]
        } else {
            Seq::empty()
        }) + (match source.lock {
            Some(l) => if lock_of_text(l.text) is None {
                seq![l.path]
            } else {
                Seq::empty()
            },
            None => Seq::empty(),
        }),
        None => Seq::empty(),
    }
}

/// The rows of all projects, one project after the other.
pub open spec fn all_rows(sources: Seq<ProjectSourceView>, target_dep: Seq<char>) -> Seq<OutputRowView>
    decreases sources.len(),
{
    if sources.len() == 0 {
        Seq::empty()
    } else {
        all_rows(sources.drop_last(), target_dep) + project_rows(sources.last(), target_dep)
    }
}

/// All rows of a manifest bear the name of its package.
pub proof fn lemma_targets_rows_name(
    targets: Map<Seq<char>, TargetView>,
    order: Seq<Seq<char>>,
    target_dep: Seq<char>,
    path: Seq<char>,
    package_name: Seq<char>,
)
    ensures
        forall|i: int|
            0 <= i < targets_rows(targets, order, target_dep, path, package_name).len() ==> (#[trigger] targets_rows(
                targets,
                order,
                target_dep,
                path,
                package_name,
            )[i]).package_name == package_name,
    decreases order.len(),
{
    let rows = targets_rows(targets, order, target_dep, path, package_name);
    if order.len() > 0 {
        lemma_targets_rows_name(targets, order.drop_last(), target_dep, path, package_name);
        let head = targets_rows(targets, order.drop_last(), target_dep, path, package_name);
        assert forall|i: int| 0 <= i < rows.len() implies (#[trigger] rows[i]).package_name == package_name by {
            if i < head.len() {
                assert(rows[i] == head[i]);
            } else {
                let tail = target_rows(targets[order.last()], target_dep, path, package_name);
                assert(targets.contains_key(order.last()));
                assert(rows[i] == tail[i - head.len()]);
            }
        }
    }
}

/// Where all rows bear one name, the first real name among them is that
/// name, if there is one.
pub proof fn lemma_first_real_name(rows: Seq<OutputRowView>, name: Seq<char>)
    requires
        forall|i: int| 0 <= i < rows.len() ==> (#[trigger] rows[i]).package_name == name,
    ensures
        first_real_name(rows) is Some ==> first_real_name(rows) == Some(name),
        name == sentinel() ==> first_real_name(rows) is None,
    decreases rows.len(),
{
    if rows.len() > 0 {
        assert(rows[0].package_name == name);
        let rest = rows.drop_first();
        assert forall|i: int| 0 <= i < rest.len() implies (#[trigger] rest[i]).package_name == name by {
            assert(rest[i] == rows[i + 1]);
        }
        lemma_first_real_name(rest, name);
    }
}

/// The name resolved from the rows of a manifest text is the name that the
/// text declares.
pub proof fn lemma_resolved_name(text: Seq<char>, target_dep: Seq<char>, path: Seq<char>)
    ensures
        resolved_name(manifest_text_rows(text, target_dep, path), text) == name_of_text(text),
{
    let rows = manifest_text_rows(text, target_dep, path);
    let name = name_of_text(text);
    match manifest_of_text(text) {
        Some(manifest) => {
            let order = key_order(manifest_targets(manifest));
            lemma_targets_rows_name(manifest_targets(manifest), order, target_dep, path, name);
            assert forall|i: int| 0 <= i < rows.len() implies (#[trigger] rows[i]).package_name == name by {}
            lemma_first_real_name(rows, name);
        },
        None => {
            assert(first_real_name(rows) is None);
        },
    }
}

impl FileParser {
    /// A parser.
    pub fn new() -> (parser: Self)
        ensures
            parser == FileParser,
    {
        FileParser
    }

    /// The row for `target_dep` in one dependency table, if the table
    /// declares it.
    pub fn parse_dependencies(
        &self,
        dependencies: &DependencyTable,
        target_dep: &str,
        path: &str,
        package_name: &str,
    ) -> (r: Option<OutputRow>)
        ensures
            r is Some <==> dependencies@.contains_key(target_dep@),
            r is Some ==> r->0@ == declared_row(dependencies@[target_dep@], path@, package_name@),
    {
        match dependencies.get(target_dep) {
            None => None,
            Some(dependency) => Some(
                OutputRow {
                    package_name: package_name.to_owned(),
                    dep_version: dependency.version(),
                    path: path.to_owned(),
                },
            ),
        }
    }

    /// Adds to `rows` the row of an optional dependency table.
    fn push_table_rows(
        &self,
        rows: &mut Vec<OutputRow>,
        table: &Option<DependencyTable>,
        target_dep: &str,
        path: &str,
        package_name: &str,
    )
        ensures
            rows_view(final(rows)@) == rows_view(old(rows)@) + table_rows(
                optional_table(*table),
                target_dep@,
                path@,
                package_name@,
            ),
    {
        let ghost before = rows_view(rows@);
        if let Some(dependencies) = table {
            if let Some(row) = self.parse_dependencies(dependencies, target_dep, path, package_name) {
                rows.push(row);
                assert(rows_view(rows@) =~= before + seq![row@]);
                return ;
            }
        }
        assert(rows_view(rows@) =~= before + Seq::<OutputRowView>::empty());
    }

    /// The rows of a decoded manifest for `target_dep`, its targets taken in
    /// the order that `order` gives.
    pub fn rows_in_order(&self, manifest: &CTomlFile, order: &Vec<String>, target_dep: &str, path: &str) -> (rows:
        Vec<OutputRow>)
        ensures
            rows_view(rows@) == manifest_rows(manifest@, texts(order@), target_dep@, path@),
    {
        let package_name: String = match &manifest.package {
            Some(package) => package.name.clone(),
            None => "-".to_owned(),
        };
        let name = package_name.as_str();
        let mut rows: Vec<OutputRow> = Vec::new();
        assert(rows_view(rows@) =~= Seq::<OutputRowView>::empty());
        self.push_table_rows(&mut rows, &manifest.dependencies, target_dep, path, name);
        self.push_table_rows(&mut rows, &manifest.dev_dependencies, target_dep, path, name);
        let ghost base = rows_view(rows@);
        let ghost targets = manifest_targets(manifest@);
        let ghost names = texts(order@);
        assert(names.take(0) =~= Seq::<Seq<char>>::empty());
        let mut i: usize = 0;
        while i < order.len()
            invariant
                0 <= i <= order.len(),
                names == texts(order@),
                targets == manifest_targets(manifest@),
                name@ == package_name_of(manifest@),
                rows_view(rows@) == base + targets_rows(targets, names.take(i as int), target_dep@, path@, name@),
            decreases order.len() - i,
        {
            let ghost before = rows_view(rows@);
            assert(names.take(i + 1).drop_last() =~= names.take(i as int));
            assert(names.take(i + 1).last() == order@[i as int]@);
            let found: Option<&Target> = match &manifest.target {
                Some(holder) => match &holder.targets {
                    Some(table) => table.get(order[i].as_str()),
                    None => None,
                },
                None => None,
            };
            match found {
                Some(target) => {
                    self.push_table_rows(&mut rows, &target.dependencies, target_dep, path, name);
                    self.push_table_rows(&mut rows, &target.dev_dependencies, target_dep, path, name);
                    assert(rows_view(rows@) =~= before + target_rows(target@, target_dep@, path@, name@));
                },
                None => {
                    assert(rows_view(rows@) =~= before + Seq::<OutputRowView>::empty());
                },
            }
            i += 1;
        }
        assert(names.take(i as int) =~= names);
        rows
    }

    /// The rows of a decoded manifest for `target_dep`: of its plain table,
    /// of its dev table, then of its targets in ascending order of their
    /// conditions.
    pub fn rows_of_manifest(&self, manifest: &CTomlFile, target_dep: &str, path: &str) -> (rows: Vec<OutputRow>)
        ensures
            targets_listed(manifest@),
            rows_view(rows@) == ordered_rows(manifest@, target_dep@, path@),
    {
        let order: Vec<String> = match &manifest.target {
            Some(holder) => match &holder.targets {
                Some(table) => table.conditions(),
                None => Vec::new(),
            },
            None => Vec::new(),
        };
        proof {
            if !(manifest@.target matches Some(Some(_))) {
                assert(texts(order@) =~= Seq::<Seq<char>>::empty());
            }
            assert(lists_in_order(texts(order@), manifest_targets(manifest@)));
            lemma_key_order(texts(order@), manifest_targets(manifest@));
        }
        self.rows_in_order(manifest, &order, target_dep, path)
    }

    /// The rows of a manifest text for `target_dep`. A text that is no
    /// manifest gives no row.
    pub fn parse_toml(&self, contents: &str, target_dep: &str, path: &str) -> (rows: Vec<OutputRow>)
        ensures
            text_targets_listed(contents@),
            rows_view(rows@) == manifest_text_rows(contents@, target_dep@, path@),
    {
        match CTomlFile::from_text(contents) {
            Some(manifest) => self.rows_of_manifest(&manifest, target_dep, path),
            None => {
                let rows: Vec<OutputRow> = Vec::new();
                assert(rows_view(rows@) =~= Seq::<OutputRowView>::empty());
                rows
            },
        }
    }

    /// The rows of a decoded lock file: one for each package named
    /// `dependency_name`, in the order of the file.
    pub fn rows_of_lock(&self, lock: &CLockFile, dependency_name: &str, path: &str, package_name: &str) -> (rows:
        Vec<OutputRow>)
        ensures
            rows_view(rows@) == lock_rows(lock@, dependency_name@, path@, package_name@),
    {
        let mut rows: Vec<OutputRow> = Vec::new();
        let ghost packages = lock@;
        let ghost wanted = named(dependency_name@);
        let ghost to_row = lock_row(path@, package_name@);
        let mut i: usize = 0;
        proof {
            reveal(Seq::filter);
            assert(packages.take(0) =~= Seq::<PackageView>::empty());
            assert(rows_view(rows@) =~= packages.take(0).filter(wanted).map_values(to_row));
        }
        while i < lock.package.len()
            invariant
                0 <= i <= lock.package.len(),
                packages == lock@,
                wanted == named(dependency_name@),
                to_row == lock_row(path@, package_name@),
                rows_view(rows@) == packages.take(i as int).filter(wanted).map_values(to_row),
            decreases lock.package.len() - i,
        {
            let package = &lock.package[i];
            let ghost before = rows_view(rows@);
            proof {
                reveal(Seq::filter);
                assert(packages.take(i + 1).drop_last() =~= packages.take(i as int));
                assert(packages.take(i + 1).last() == package@);
            }
            if text_eq(package.name.as_str(), dependency_name) {
                rows.push(
                    OutputRow {
                        package_name: package_name.to_owned(),
                        dep_version: package.version.clone(),
                        path: path.to_owned(),
                    },
                );
                assert(rows_view(rows@) =~= before.push(to_row(package@)));
                assert(packages.take(i + 1).filter(wanted).map_values(to_row) =~= before.push(to_row(package@)));
            }
            i += 1;
        }
        assert(packages.take(i as int) =~= packages);
        rows
    }

    /// The rows of a lock text for `dependency_name`. A text that is no lock
    /// file gives no row.
    pub fn parse_lock(&self, contents: &str, dependency_name: &str, path: &str, package_name: String) -> (rows:
        Vec<OutputRow>)
        ensures
            rows_view(rows@) == lock_text_rows(contents@, dependency_name@, path@, package_name@),
    {
        match CLockFile::from_text(contents) {
            Some(lock) => self.rows_of_lock(&lock, dependency_name, path, package_name.as_str()),
            None => {
                let rows: Vec<OutputRow> = Vec::new();
                assert(rows_view(rows@) =~= Seq::<OutputRowView>::empty());
                rows
            },
        }
    }

    /// The package name that a manifest text declares; the sentinel where
    /// the text is no manifest or declares no package.
    pub fn parse_name(&self, contents: &str) -> (name: String)
        ensures
            name@ == name_of_text(contents@),
    {
        match CTomlFile::from_text(contents) {
            Some(manifest) => match manifest.package {
                Some(package) => package.name,
                None => "-".to_owned(),
            },
            None => "-".to_owned(),
        }
    }

    /// The name under which a project's lock rows are reported, from the
    /// rows of its manifest and the manifest's text.
    pub fn project_name(&self, rows: &Vec<OutputRow>, contents: &str) -> (name: String)
        ensures
            name@ == resolved_name(rows_view(rows@), contents@),
    {
        let ghost all = rows_view(rows@);
        let mut i: usize = 0;
        assert(all.skip(0) =~= all);
        while i < rows.len()
            invariant
                0 <= i <= rows.len(),
                all == rows_view(rows@),
                first_real_name(all) == first_real_name(all.skip(i as int)),
            decreases rows.len() - i,
        {
            assert(all.skip(i as int)[0] == rows@[i as int]@);
            assert(all.skip(i as int).drop_first() =~= all.skip(i + 1));
            if !text_eq(rows[i].package_name.as_str(), "-") {
                return rows[i].package_name.clone();
            }
            i += 1;
        }
        self.parse_name(contents)
    }

    /// The rows of one project: those of its manifest, then those of its
    /// lock file under the name that the manifest declares.
    pub fn parse_project(&self, source: &ProjectSource, target_dep: &str) -> (rows: Vec<OutputRow>)
        ensures
            rows_view(rows@) == project_rows(source@, target_dep@),
    {
        match &source.manifest {
            None => {
                let rows: Vec<OutputRow> = Vec::new();
                assert(rows_view(rows@) =~= Seq::<OutputRowView>::empty());
                rows
            },
            Some(manifest) => {
                let mut rows = self.parse_toml(manifest.text.as_str(), target_dep, manifest.path.as_str());
                let ghost first = rows_view(rows@);
                let package_name = self.project_name(&rows, manifest.text.as_str());
                proof {
                    lemma_resolved_name(manifest.text@, target_dep@, manifest.path@);
                }
                if let Some(lock) = &source.lock {
                    let mut found = self.parse_lock(
                        lock.text.as_str(),
                        target_dep,
                        lock.path.as_str(),
                        package_name,
                    );
                    let ghost second = rows_view(found@);
                    rows.append(&mut found);
                    assert(rows_view(rows@) =~= first + second);
                } else {
                    assert(rows_view(rows@) =~= first + Seq::<OutputRowView>::empty());
                }
                rows
            },
        }
    }

    /// The paths of the files of a project that are rejected and so give no
    /// rows, for the caller to report.
    pub fn unparsable(&self, source: &ProjectSource) -> (paths: Vec<String>)
        ensures
            texts(paths@) == unparsable_of(source@),
    {
        let mut paths: Vec<String> = Vec::new();
        if let Some(manifest) = &source.manifest {
            if CTomlFile::from_text(manifest.text.as_str()).is_none() {
                paths.push(manifest.path.clone());
            }
            if let Some(lock) = &source.lock {
                if CLockFile::from_text(lock.text.as_str()).is_none() {
                    paths.push(lock.path.clone());
                }
            }
        }
        assert(texts(paths@) =~= unparsable_of(source@));
        paths
    }

    /// The rows of all projects for `target_dep`, sorted by path. Rows of
    /// one path keep the order in which their project gave them.
    pub fn parse(&self, files: &Vec<ProjectSource>, target_dep: &str) -> (rows: Vec<OutputRow>)
        ensures
            sorts_by_path(all_rows(sources_view(files@), target_dep@), rows_view(rows@)),
    {
        let mut found: Vec<OutputRow> = Vec::new();
        let ghost sources = sources_view(files@);
        let mut i: usize = 0;
        proof {
            assert(sources.take(0) =~= Seq::<ProjectSourceView>::empty());
            assert(rows_view(found@) =~= all_rows(sources.take(0), target_dep@));
        }
        while i < files.len()
            invariant
                0 <= i <= files.len(),
                sources == sources_view(files@),
                rows_view(found@) == all_rows(sources.take(i as int), target_dep@),
            decreases files.len() - i,
        {
            let mut part = self.parse_project(&files[i], target_dep);
            let ghost before = rows_view(found@);
            let ghost added = rows_view(part@);
            proof {
                assert(sources.take(i + 1).drop_last() =~= sources.take(i as int));
                assert(sources.take(i + 1).last() == files@[i as int]@);
            }
            found.append(&mut part);
            assert(rows_view(found@) =~= before + added);
            i += 1;
        }
        assert(sources.take(i as int) =~= sources);
        sort_rows(&mut found);
        found
    }
}

} // verus!
