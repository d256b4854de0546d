use mole::cli::Args;
use mole::parser::data::OutputRow;
use mole::printer::json::group_rows;
use mole::printer::pretty_table::{max_by_column, max_non_last_value};
use mole::printer::PrintFormat;
use std::str::FromStr;

fn row(name: &str, version: &str, path: &str) -> OutputRow {
    OutputRow { package_name: name.to_string(), dep_version: version.to_string(), path: path.to_string() }
}

fn cells(a: &str, b: &str, c: &str) -> [String; 3] {
    [a.to_string(), b.to_string(), c.to_string()]
}

#[test]
fn format_names_are_read_in_any_case() {
    assert_eq!(PrintFormat::from_str("table"), Ok(PrintFormat::Table));
    assert_eq!(PrintFormat::from_str("JSON"), Ok(PrintFormat::Json));
    assert_eq!(PrintFormat::from_str("Table"), Ok(PrintFormat::Table));
    assert_eq!(PrintFormat::named("json"), Some(PrintFormat::Json));
    assert_eq!(PrintFormat::named("JSON"), None);
}

#[test]
fn unknown_format_is_rejected_with_its_text() {
    assert_eq!(PrintFormat::from_str("Yaml"), Err("Invalid value: Yaml".to_string()));
    assert_eq!(PrintFormat::from_str(""), Err("Invalid value: ".to_string()));
}

#[test]
fn column_widths_are_the_widest_cell_or_header() {
    let headers = ["PACKAGE", "VERSION", "PATH"];
    let rows = vec![cells("a", "1.0.136", "some/long/path/Cargo.toml"), cells("longer-name", "1", "p")];
    assert_eq!(max_by_column(&headers, &rows), vec![11, 7, 25]);
    assert_eq!(max_by_column(&headers, &[]), vec![7, 7, 4]);
    assert_eq!(max_by_column(&headers[..1], &rows), vec![11]);
    assert_eq!(max_by_column(&[], &rows), Vec::<usize>::new());
}

#[test]
fn widths_count_bytes() {
    let rows = vec![cells("é", "", "")];
    assert_eq!(max_by_column(&["", "", ""], &rows), vec![2, 0, 0]);
}

#[test]
fn widest_value_leaves_the_last_column_aside() {
    let headers = ["PACKAGE", "VERSION", "A VERY LONG LAST HEADER"];
    let rows = vec![
        vec!["a".to_string(), "1.0.136-beta".to_string(), "some/long/path/Cargo.toml".to_string()],
        vec!["b".to_string(), "1".to_string()],
        vec!["the last cell of a row of one".to_string()],
    ];
    assert_eq!(max_non_last_value(&headers, &rows), 12);
    assert_eq!(max_non_last_value(&headers, &[]), 7);
    assert_eq!(max_non_last_value(&["ONLY"], &[]), 0);
}

#[test]
fn rows_are_grouped_by_package_in_order() {
    let rows = vec![row("b", "2", "b/Cargo.toml"), row("a", "1", "a/Cargo.toml"), row("a", "3", "a/Cargo.lock")];
    let groups = group_rows(&rows);
    assert_eq!(groups.names(), vec!["a".to_string(), "b".to_string()]);
    let a: Vec<(String, String)> = groups.get("a").unwrap().iter().map(|i| (i.version.clone(), i.path.clone())).collect();
    assert_eq!(a, vec![("1".to_string(), "a/Cargo.toml".to_string()), ("3".to_string(), "a/Cargo.lock".to_string())]);
    assert_eq!(groups.get("b").unwrap().len(), 1);
    assert!(groups.get("c").is_none());
    assert!(group_rows(&Vec::new()).names().is_empty());
}

#[test]
fn plain_arguments() {
    let args = Args::new("serde".to_string());
    assert_eq!(args.name, "serde");
    assert_eq!(args.path, ".");
    assert!(args.filter.is_none());
    assert_eq!(args.output, PrintFormat::Table);
    assert!(!args.deep && !args.threaded && !args.symlinks);
}

#[test]
fn headers_alone_may_be_more_than_three() {
    assert_eq!(max_by_column(&["A", "BB", "CCC", "DDDD"], &[]), vec![1, 2, 3, 4]);
}
