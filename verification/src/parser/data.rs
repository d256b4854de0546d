//! The data that the parsers produce: result rows, and the decoded forms of
//! a manifest and of a lock file.
use vstd::prelude::*;
use crate::parser::tables::DependencyTable;
use crate::parser::tables::TargetTable;
use crate::parser::tables::TargetView;
use crate::parser::tables::optional_table;
use crate::text::optional_text;
use crate::text::optional_texts;

verus! {

/// The placeholder that stands for an absent package name or version.
pub open spec fn sentinel() -> Seq<char> {
    "-"@
}

/// One match: the package that declares the dependency, the version it
/// names, and the file in which it was found.
#[derive(Debug, Clone)]
pub struct OutputRow {
    pub package_name: String,
    pub dep_version: String,
    pub path: String,
}

/// The mathematical value of an [`OutputRow`].
pub struct OutputRowView {
    pub package_name: Seq<char>,
    pub dep_version: Seq<char>,
    pub path: Seq<char>,
}

impl View for OutputRow {
    type V = OutputRowView;

    open spec fn view(&self) -> OutputRowView {
        OutputRowView {
            package_name: self.package_name@,
            dep_version: self.dep_version@,
            path: self.path@,
        }
    }
}

/// The values of a sequence of rows, in order.
pub open spec fn rows_view(rows: Seq<OutputRow>) -> Seq<OutputRowView> {
    rows.map_values(|r: OutputRow| r@)
}

/// A dependency as a manifest declares it: a bare version, or a table of
/// details.
#[derive(Debug, Clone)]
pub enum Dependency {
    Simple(String),
    Detailed(DependencyDetails),
}

/// The detailed form of a dependency. Either field may be left out.
#[derive(Debug, Clone)]
pub struct DependencyDetails {
    pub version: Option<String>,
    pub features: Option<Vec<String>>,
}

/// The mathematical value of a [`Dependency`].
pub enum DependencyView {
    Simple(Seq<char>),
    Detailed(Option<Seq<char>>, Option<Seq<Seq<char>>>),
}

impl View for DependencyDetails {
    type V = DependencyView;

    open spec fn view(&self) -> DependencyView {
        DependencyView::Detailed(optional_text(self.version), optional_texts(self.features))
    }
}

impl View for Dependency {
    type V = DependencyView;

    open spec fn view(&self) -> DependencyView {
        match *self {
            Dependency::Simple(version) => DependencyView::Simple(version@),
            Dependency::Detailed(details) => details@,
        }
    }
}

/// The version that a dependency stands for: the bare version, or the
/// `version` of the detailed form, or the sentinel where that is left out.
pub open spec fn effective_version(dependency: DependencyView) -> Seq<char> {
    match dependency {
        DependencyView::Simple(version) => version,
        DependencyView::Detailed(Some(version), _) => version,
        DependencyView::Detailed(None, _) => sentinel(),
    }
}

impl Dependency {
    /// The version that this dependency stands for.
    pub fn version(&self) -> (v: String)
        ensures
            v@ == effective_version(self@),
    {
        match self {
            Dependency::Simple(version) => version.clone(),
            Dependency::Detailed(details) => match &details.version {
                Some(version) => version.clone(),
                None => "-".to_owned(),
            },
        }
    }
}

/// A package entry: of a manifest's `package` table, or of a lock file's
/// `package` list. A manifest need not give its package a version; the
/// sentinel stands for one that it leaves out.
#[derive(Debug, Clone)]
pub struct Package {
    pub name: String,
    pub version: String,
}

/// The mathematical value of a [`Package`].
pub struct PackageView {
    pub name: Seq<char>,
    pub version: Seq<char>,
}

impl View for Package {
    type V = PackageView;

    open spec fn view(&self) -> PackageView {
        PackageView { name: self.name@, version: self.version@ }
    }
}

/// The values of a sequence of packages, in order.
pub open spec fn packages_view(packages: Seq<Package>) -> Seq<PackageView> {
    packages.map_values(|p: Package| p@)
}

/// The `target` table of a manifest. `targets` is `None` where some entry of
/// the table is not a well-formed target.
#[derive(Debug)]
pub struct Targets {
    pub targets: Option<TargetTable>,
}

/// A decoded manifest. A table that the manifest leaves out is `None`; one
/// that is there and empty is an empty table.
#[derive(Debug)]
pub struct CTomlFile {
    pub package: Option<Package>,
    pub dependencies: Option<DependencyTable>,
    pub dev_dependencies: Option<DependencyTable>,
    pub target: Option<Targets>,
}

/// The mathematical value of a [`CTomlFile`].
pub struct ManifestView {
    pub package: Option<PackageView>,
    pub dependencies: Option<Map<Seq<char>, DependencyView>>,
    pub dev_dependencies: Option<Map<Seq<char>, DependencyView>>,
    pub target: Option<Option<Map<Seq<char>, TargetView>>>,
}

impl View for Targets {
    type V = Option<Map<Seq<char>, TargetView>>;

    open spec fn view(&self) -> Option<Map<Seq<char>, TargetView>> {
        match self.targets {
            Some(t) => Some(t@),
            None => None,
        }
    }
}

impl View for CTomlFile {
    type V = ManifestView;

    open spec fn view(&self) -> ManifestView {
        ManifestView {
            package: match self.package {
                Some(p) => Some(p@),
                None => None,
            },
            dependencies: optional_table(self.dependencies),
            dev_dependencies: optional_table(self.dev_dependencies),
            target: match self.target {
                Some(t) => Some(t@),
                None => None,
            },
        }
    }
}

/// A decoded lock file: its resolved packages, in the order of the file.
#[derive(Debug)]
pub struct CLockFile {
    pub package: Vec<Package>,
}

impl View for CLockFile {
    type V = Seq<PackageView>;

    open spec fn view(&self) -> Seq<PackageView> {
        packages_view(self.package@)
    }
}

} // verus!
