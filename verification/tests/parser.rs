use mole::parser::data::{CTomlFile, OutputRow};
use mole::parser::order::sort_rows;
use mole::parser::tables::{DependencyTable, Target, TargetTable};
use mole::parser::data::Dependency;
use mole::parser::{FileParser, FileText, ProjectSource};

fn triple(row: &OutputRow) -> (String, String, String) {
    (row.package_name.clone(), row.dep_version.clone(), row.path.clone())
}

fn triples(rows: &[OutputRow]) -> Vec<(String, String, String)> {
    rows.iter().map(triple).collect()
}

fn t(name: &str, version: &str, path: &str) -> (String, String, String) {
    (name.to_string(), version.to_string(), path.to_string())
}

fn row(name: &str, version: &str, path: &str) -> OutputRow {
    OutputRow { package_name: name.to_string(), dep_version: version.to_string(), path: path.to_string() }
}

const HEAD: &str = "[package]\nname = \"proj\"\nversion = \"0.1.0\"\n";

#[test]
fn dependency_in_the_plain_table_gives_one_row() {
    let text = format!("{HEAD}[dependencies]\nserde = \"1.0.136\"\nother = \"2\"\n");
    let rows = FileParser::new().parse_toml(&text, "serde", "proj/Cargo.toml");
    assert_eq!(triples(&rows), vec![t("proj", "1.0.136", "proj/Cargo.toml")]);
}

#[test]
fn dependency_in_the_dev_table_gives_one_row() {
    let text = format!("{HEAD}[dev-dependencies]\nserde = {{ version = \"1.1\" }}\n");
    let rows = FileParser::new().parse_toml(&text, "serde", "p");
    assert_eq!(triples(&rows), vec![t("proj", "1.1", "p")]);
}

#[test]
fn dependency_in_a_target_table_gives_one_row() {
    let text = format!("{HEAD}[target.'cfg(unix)'.dependencies]\nserde = \"1.2\"\n[target.'cfg(windows)'.dependencies]\nwinapi = \"0.3\"\n");
    let rows = FileParser::new().parse_toml(&text, "serde", "p");
    assert_eq!(triples(&rows), vec![t("proj", "1.2", "p")]);
}

#[test]
fn dependency_in_a_target_dev_table_gives_one_row() {
    let text = format!("{HEAD}[target.'cfg(unix)'.dev-dependencies]\nserde = \"1.3\"\n");
    let rows = FileParser::new().parse_toml(&text, "serde", "p");
    assert_eq!(triples(&rows), vec![t("proj", "1.3", "p")]);
}

#[test]
fn dependency_in_two_tables_gives_two_rows() {
    let text = format!("{HEAD}[dependencies]\nserde = \"1.0\"\n[target.'cfg(unix)'.dependencies]\nserde = \"1.5\"\n");
    let rows = FileParser::new().parse_toml(&text, "serde", "p");
    assert_eq!(triples(&rows), vec![t("proj", "1.0", "p"), t("proj", "1.5", "p")]);
}

#[test]
fn plain_row_comes_before_dev_row() {
    let text = format!("{HEAD}[dev-dependencies]\nserde = \"2.0\"\n[dependencies]\nserde = \"1.0\"\n");
    let rows = FileParser::new().parse_toml(&text, "serde", "p");
    assert_eq!(triples(&rows), vec![t("proj", "1.0", "p"), t("proj", "2.0", "p")]);
}

#[test]
fn rows_of_two_targets_come_once_each() {
    let text = format!("{HEAD}[target.a.dependencies]\nserde = \"1\"\n[target.b.dev-dependencies]\nserde = \"2\"\n");
    let rows = FileParser::new().parse_toml(&text, "serde", "p");
    assert_eq!(triples(&rows), vec![t("proj", "1", "p"), t("proj", "2", "p")]);
}

#[test]
fn target_rows_come_in_ascending_order_of_their_conditions() {
    let text = format!(
        "{HEAD}[target.zeta.dependencies]\nserde = \"26\"\n[target.'cfg(unix)'.dependencies]\nserde = \"3\"\n[target.alpha.dev-dependencies]\nserde = \"1\"\n[target.Beta.dependencies]\nserde = \"0\"\n"
    );
    let rows = FileParser::new().parse_toml(&text, "serde", "p");
    let versions: Vec<String> = rows.iter().map(|r| r.dep_version.clone()).collect();
    assert_eq!(versions, vec!["0", "1", "3", "26"]);
}

#[test]
fn absent_dependency_gives_no_row() {
    let text = format!("{HEAD}[dependencies]\nserde = \"1.0\"\n");
    assert!(FileParser::new().parse_toml(&text, "tokio", "p").is_empty());
}

#[test]
fn detailed_dependency_without_version_gives_the_sentinel() {
    let text = format!("{HEAD}[dependencies]\nlocal = {{ path = \"../local\" }}\n");
    let rows = FileParser::new().parse_toml(&text, "local", "p");
    assert_eq!(triples(&rows), vec![t("proj", "-", "p")]);
}

#[test]
fn manifest_without_package_gives_the_sentinel_name() {
    let rows = FileParser::new().parse_toml("[dependencies]\nserde = \"1.0\"\n", "serde", "p");
    assert_eq!(triples(&rows), vec![t("-", "1.0", "p")]);
    assert_eq!(FileParser::new().parse_name("[dependencies]\nserde = \"1.0\"\n"), "-");
}

#[test]
fn unparsable_manifest_gives_no_row() {
    let parser = FileParser::new();
    assert!(parser.parse_toml("[dependencies\nserde = ", "serde", "p").is_empty());
    assert_eq!(parser.parse_name("[dependencies\nserde = "), "-");
}

#[test]
fn parse_name_reads_the_package_name() {
    assert_eq!(FileParser::new().parse_name(HEAD), "proj");
}

#[test]
fn parse_dependencies_looks_the_name_up() {
    let mut table = DependencyTable::new();
    table.insert("serde".to_string(), Dependency::Simple("1.0".to_string()));
    table.insert("serde".to_string(), Dependency::Simple("1.1".to_string()));
    table.insert("rand".to_string(), Dependency::Simple("0.8".to_string()));
    let parser = FileParser::new();
    let found = parser.parse_dependencies(&table, "serde", "p", "proj").unwrap();
    assert_eq!(triple(&found), t("proj", "1.1", "p"));
    assert!(parser.parse_dependencies(&table, "toml", "p", "proj").is_none());
}

#[test]
fn rows_in_order_follow_the_given_order() {
    let mut a = DependencyTable::new();
    a.insert("serde".to_string(), Dependency::Simple("1".to_string()));
    let mut b = DependencyTable::new();
    b.insert("serde".to_string(), Dependency::Simple("2".to_string()));
    let mut targets = TargetTable::new();
    targets.insert("a".to_string(), Target { dev_dependencies: None, dependencies: Some(a) });
    targets.insert("b".to_string(), Target { dev_dependencies: Some(b), dependencies: None });
    targets.insert("B".to_string(), Target { dev_dependencies: None, dependencies: None });
    assert_eq!(targets.conditions(), vec!["B".to_string(), "a".to_string(), "b".to_string()]);
    let manifest = CTomlFile {
        package: None,
        dependencies: None,
        dev_dependencies: None,
        target: Some(mole::parser::data::Targets { targets: Some(targets) }),
    };
    let parser = FileParser::new();
    let forward = parser.rows_in_order(&manifest, &vec!["a".to_string(), "b".to_string()], "serde", "p");
    assert_eq!(triples(&forward), vec![t("-", "1", "p"), t("-", "2", "p")]);
    let backward = parser.rows_in_order(&manifest, &vec!["b".to_string(), "missing".to_string(), "a".to_string()], "serde", "p");
    assert_eq!(triples(&backward), vec![t("-", "2", "p"), t("-", "1", "p")]);
    assert_eq!(parser.rows_of_manifest(&manifest, "serde", "p").len(), 2);
}

#[test]
fn lock_rows_follow_the_file() {
    let lock = "[[package]]\nname = \"serde\"\nversion = \"1.0.140\"\n\n[[package]]\nname = \"rand\"\nversion = \"0.8.5\"\n\n[[package]]\nname = \"serde\"\nversion = \"0.9.0\"\n";
    let rows = FileParser::new().parse_lock(lock, "serde", "proj/Cargo.lock", "proj".to_string());
    assert_eq!(
        triples(&rows),
        vec![t("proj", "1.0.140", "proj/Cargo.lock"), t("proj", "0.9.0", "proj/Cargo.lock")]
    );
}

#[test]
fn malformed_lock_gives_no_row() {
    let parser = FileParser::new();
    assert!(parser.parse_lock("[[package]\n", "serde", "l", "proj".to_string()).is_empty());
    assert!(parser.parse_lock("[[package]]\nname = \"serde\"\n", "serde", "l", "proj".to_string()).is_empty());
}

#[test]
fn project_name_takes_the_first_real_name() {
    let parser = FileParser::new();
    let rows = vec![row("-", "1", "p"), row("real", "2", "p"), row("other", "3", "p")];
    assert_eq!(parser.project_name(&rows, HEAD), "real");
    assert_eq!(parser.project_name(&vec![row("-", "1", "p")], HEAD), "proj");
    assert_eq!(parser.project_name(&Vec::new(), "not toml ["), "-");
}

fn source(manifest: Option<(&str, &str)>, lock: Option<(&str, &str)>) -> ProjectSource {
    ProjectSource {
        manifest: manifest.map(|(path, text)| FileText { path: path.to_string(), text: text.to_string() }),
        lock: lock.map(|(path, text)| FileText { path: path.to_string(), text: text.to_string() }),
    }
}

const MANIFEST: &str = "[package]\nname = \"proj\"\nversion = \"0.1.0\"\n\n[dependencies]\nserde = \"1.0.136\"\n";
const LOCK: &str = "[[package]]\nname = \"proj\"\nversion = \"0.1.0\"\n\n[[package]]\nname = \"serde\"\nversion = \"1.0.140\"\n";

#[test]
fn manifest_and_lock_give_two_rows_sorted_by_path() {
    let files = vec![source(Some(("proj/Cargo.toml", MANIFEST)), Some(("proj/Cargo.lock", LOCK)))];
    let rows = FileParser::new().parse(&files, "serde");
    assert_eq!(
        triples(&rows),
        vec![t("proj", "1.0.140", "proj/Cargo.lock"), t("proj", "1.0.136", "proj/Cargo.toml")]
    );
    let mut expected = vec![t("proj", "1.0.136", "proj/Cargo.toml"), t("proj", "1.0.140", "proj/Cargo.lock")];
    expected.sort_by(|a, b| a.2.cmp(&b.2));
    assert_eq!(triples(&rows), expected);
}

#[test]
fn manifest_alone_gives_the_manifest_row_only() {
    let files = vec![source(Some(("proj/Cargo.toml", MANIFEST)), None)];
    let rows = FileParser::new().parse(&files, "serde");
    assert_eq!(triples(&rows), vec![t("proj", "1.0.136", "proj/Cargo.toml")]);
}

#[test]
fn project_rows_are_manifest_rows_then_lock_rows() {
    let project = source(Some(("proj/Cargo.toml", MANIFEST)), Some(("proj/Cargo.lock", LOCK)));
    let rows = FileParser::new().parse_project(&project, "serde");
    assert_eq!(
        triples(&rows),
        vec![t("proj", "1.0.136", "proj/Cargo.toml"), t("proj", "1.0.140", "proj/Cargo.lock")]
    );
}

#[test]
fn lock_without_manifest_gives_no_row() {
    let files = vec![source(None, Some(("proj/Cargo.lock", LOCK)))];
    assert!(FileParser::new().parse(&files, "serde").is_empty());
}

#[test]
fn unparsable_manifest_does_not_stop_its_siblings() {
    let files = vec![
        source(Some(("z/Cargo.toml", MANIFEST)), None),
        source(Some(("broken/Cargo.toml", "[package\n")), Some(("broken/Cargo.lock", LOCK))),
        source(Some(("a/Cargo.toml", MANIFEST)), None),
    ];
    let rows = FileParser::new().parse(&files, "serde");
    assert_eq!(
        triples(&rows),
        vec![
            t("proj", "1.0.136", "a/Cargo.toml"),
            t("-", "1.0.140", "broken/Cargo.lock"),
            t("proj", "1.0.136", "z/Cargo.toml"),
        ]
    );
}

#[test]
fn result_is_the_same_for_any_order_of_projects() {
    let a = source(Some(("a/Cargo.toml", MANIFEST)), Some(("a/Cargo.lock", LOCK)));
    let b = source(Some(("b/Cargo.toml", MANIFEST)), None);
    let c = source(Some(("c/Cargo.toml", MANIFEST)), Some(("c/Cargo.lock", LOCK)));
    let parser = FileParser::new();
    let one = parser.parse(&vec![a.clone(), b.clone(), c.clone()], "serde");
    let two = parser.parse(&vec![c, a, b], "serde");
    assert_eq!(triples(&one), triples(&two));
    let paths: Vec<String> = one.iter().map(|r| r.path.clone()).collect();
    assert_eq!(paths, vec!["a/Cargo.lock", "a/Cargo.toml", "b/Cargo.toml", "c/Cargo.lock", "c/Cargo.toml"]);
}

#[test]
fn sort_is_stable_and_ascending() {
    let mut rows = vec![
        row("p", "1", "b"),
        row("p", "2", "a"),
        row("p", "3", "b"),
        row("p", "4", "ab"),
        row("p", "5", "a"),
        row("p", "6", ""),
        row("p", "7", "B"),
        row("p", "8", "é"),
    ];
    sort_rows(&mut rows);
    let got: Vec<(String, String)> = rows.iter().map(|r| (r.path.clone(), r.dep_version.clone())).collect();
    let want: Vec<(String, String)> = [("", "6"), ("B", "7"), ("a", "2"), ("a", "5"), ("ab", "4"), ("b", "1"), ("b", "3"), ("é", "8")]
        .iter()
        .map(|(p, v)| (p.to_string(), v.to_string()))
        .collect();
    assert_eq!(got, want);
}

#[test]
fn sorting_sorted_rows_changes_nothing() {
    let mut rows = vec![row("p", "1", "a"), row("q", "2", "a"), row("p", "3", "b")];
    sort_rows(&mut rows);
    let once = triples(&rows);
    sort_rows(&mut rows);
    assert_eq!(triples(&rows), once);
    assert_eq!(once, vec![t("p", "1", "a"), t("q", "2", "a"), t("p", "3", "b")]);
    let mut none: Vec<OutputRow> = Vec::new();
    sort_rows(&mut none);
    assert!(none.is_empty());
}

#[test]
fn rejected_files_are_named() {
    let parser = FileParser::new();
    let broken = source(Some(("b/Cargo.toml", "[package\n")), Some(("b/Cargo.lock", "version = 3\n")));
    assert_eq!(parser.unparsable(&broken), vec!["b/Cargo.toml".to_string(), "b/Cargo.lock".to_string()]);
    let fine = source(Some(("a/Cargo.toml", MANIFEST)), Some(("a/Cargo.lock", LOCK)));
    assert!(parser.unparsable(&fine).is_empty());
    let lock_only = source(None, Some(("c/Cargo.lock", "[[package]\n")));
    assert!(parser.unparsable(&lock_only).is_empty());
}

#[test]
fn package_without_version_still_gives_its_row() {
    let text = "[package]\nname = 'p'\n[dependencies]\nserde = '1.0'\n";
    let rows = FileParser::new().parse_toml(text, "serde", "p/Cargo.toml");
    assert_eq!(triples(&rows), vec![t("p", "1.0", "p/Cargo.toml")]);
    assert_eq!(FileParser::new().parse_name(text), "p");
}

#[test]
fn package_without_name_gives_the_sentinel_name() {
    let text = "[package]\nversion = '0.1.0'\n[dependencies]\nserde = '1.0'\n";
    let rows = FileParser::new().parse_toml(text, "serde", "p/Cargo.toml");
    assert_eq!(triples(&rows), vec![t("-", "1.0", "p/Cargo.toml")]);
}

#[test]
fn rows_follow_the_places_plain_dev_then_targets() {
    let text = format!(
        "{HEAD}[target.b.dev-dependencies]\nserde = \"5\"\n[target.b.dependencies]\nserde = \"4\"\n[target.a.dependencies]\nserde = \"3\"\n[dev-dependencies]\nserde = \"2\"\n[dependencies]\nserde = \"1\"\nrand = \"9\"\n"
    );
    let rows = FileParser::new().parse_toml(&text, "serde", "p");
    let versions: Vec<String> = rows.iter().map(|r| r.dep_version.clone()).collect();
    assert_eq!(versions, vec!["1", "2", "3", "4", "5"]);
    assert_eq!(FileParser::new().parse_toml(&text, "rand", "p").len(), 1);
}
