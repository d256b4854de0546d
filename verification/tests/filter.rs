use mole::error::MoleError;
use mole::parser::data::OutputRow;
use mole::semver_filter::{filter, parse_filter, row_passes};

fn row(version: &str) -> OutputRow {
    OutputRow { package_name: "p".to_string(), dep_version: version.to_string(), path: "p/Cargo.toml".to_string() }
}

fn versions(rows: &[OutputRow]) -> Vec<String> {
    rows.iter().map(|r| r.dep_version.clone()).collect()
}

#[test]
fn no_filter_keeps_every_row() {
    let rows = vec![row("1.5.0"), row("-"), row("0.9.0"), row("abcdef1")];
    let kept = filter(None, rows);
    assert_eq!(versions(&kept), vec!["1.5.0", "-", "0.9.0", "abcdef1"]);
    assert_eq!(kept[0].package_name, "p");
    assert_eq!(kept[0].path, "p/Cargo.toml");
}

#[test]
fn range_filter_keeps_what_it_admits() {
    let requirement = parse_filter(Some(">=1.0.0, <2.0.0")).unwrap();
    assert!(requirement.is_some());
    let rows = vec![row("1.5.0"), row("0.9.0"), row("-"), row("2.0.0"), row("1.0.0")];
    let kept = filter(requirement, rows);
    assert_eq!(versions(&kept), vec!["1.5.0", "1.0.0"]);
}

#[test]
fn row_passes_decides_one_row() {
    let requirement = parse_filter(Some(">=1.0.0, <2.0.0")).unwrap();
    assert!(row_passes(&requirement, &row("1.5.0")));
    assert!(!row_passes(&requirement, &row("0.9.0")));
    assert!(!row_passes(&requirement, &row("-")));
    assert!(row_passes(&None, &row("-")));
}

#[test]
fn no_expression_gives_no_filter() {
    assert!(parse_filter(None).unwrap().is_none());
}

#[test]
fn invalid_expression_is_a_semver_error() {
    match parse_filter(Some("not a range")) {
        Err(MoleError::SemverError(e)) => {
            let text = MoleError::SemverError(e).message();
            assert!(text.starts_with("SemverError: "));
            assert!(text.len() > "SemverError: ".len());
        }
        other => panic!("expected a semver error, got {:?}", other.map(|_| ())),
    }
}

#[test]
fn messages_name_the_kind() {
    assert_eq!(MoleError::IoError("gone".to_string()).message(), "IoError: gone");
    assert_eq!(MoleError::SendError("closed".to_string()).message(), "SendError: closed");
    assert_eq!(MoleError::ThreadPoolBuildError("no".to_string()).message(), "ThreadPoolBuildError: no");
}
