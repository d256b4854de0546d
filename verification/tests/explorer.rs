use mole::file_explorer::{
    classify, collect_files, filter_entries, filter_entry, filter_entry_with_symlinks, record, report, visit,
    visit_all, first_visit, CargoFiles, Entry, EntryAction, Found, ProjectFiles, CLOCK, CTOML, ELOCK, ETOML, WORKERS,
};

fn file(parent: &str, name: &str) -> Entry {
    let extension = name.rsplit_once('.').map(|(_, e)| e.to_string());
    Entry {
        path: format!("{parent}/{name}"),
        parent: Some(parent.to_string()),
        file_name: Some(name.to_string()),
        extension,
        is_dir: false,
        is_file: true,
        is_symlink: false,
    }
}

fn dir(parent: &str, name: &str, is_symlink: bool) -> Entry {
    Entry {
        path: format!("{parent}/{name}"),
        parent: Some(parent.to_string()),
        file_name: Some(name.to_string()),
        extension: None,
        is_dir: true,
        is_file: false,
        is_symlink,
    }
}

fn found(key: &str, name: &str, path: &str) -> Found {
    Found { key: key.to_string(), file_name: name.to_string(), path: path.to_string() }
}

fn contents(files: &ProjectFiles) -> Vec<(String, Option<String>, Option<String>)> {
    let mut out: Vec<(String, Option<String>, Option<String>)> = files
        .keys()
        .into_iter()
        .map(|k| {
            let f = files.get(&k).unwrap();
            (k.clone(), f.ctoml.clone(), f.clock.clone())
        })
        .collect();
    out.sort();
    out
}

#[test]
fn names_and_extensions() {
    assert_eq!(CTOML, "Cargo.toml");
    assert_eq!(ETOML, "toml");
    assert_eq!(CLOCK, "Cargo.lock");
    assert_eq!(ELOCK, "lock");
}

#[test]
fn default_project_has_no_files() {
    let files = CargoFiles::default();
    assert!(files.ctoml.is_none());
    assert!(files.clock.is_none());
}

#[test]
fn lock_is_read_only_beside_a_manifest() {
    let both = CargoFiles { ctoml: Some("p/Cargo.toml".to_string()), clock: Some("p/Cargo.lock".to_string()) };
    assert_eq!(both.lock_to_read(), Some("p/Cargo.lock".to_string()));
    let lock_only = CargoFiles { ctoml: None, clock: Some("p/Cargo.lock".to_string()) };
    assert_eq!(lock_only.lock_to_read(), None);
    let manifest_only = CargoFiles { ctoml: Some("p/Cargo.toml".to_string()), clock: None };
    assert_eq!(manifest_only.lock_to_read(), None);
}

#[test]
fn classify_each_outcome() {
    assert_eq!(classify(&dir("r", "sub", false), false, false), EntryAction::Descend);
    assert_eq!(classify(&file("r", "Cargo.toml"), false, false), EntryAction::CollectManifest);
    assert_eq!(classify(&file("r", "Cargo.lock"), true, false), EntryAction::CollectLock);
    assert_eq!(classify(&file("r", "Cargo.lock"), false, false), EntryAction::Ignore);
    assert_eq!(classify(&file("r", "other.toml"), true, false), EntryAction::Ignore);
    assert_eq!(classify(&file("r", "main.rs"), true, true), EntryAction::Ignore);
    let mut orphan = file("r", "Cargo.toml");
    orphan.parent = None;
    assert_eq!(classify(&orphan, true, true), EntryAction::Ignore);
}

#[test]
fn linked_directory_is_descended_only_when_links_are_followed() {
    let link = dir("r", "loop", true);
    assert_eq!(classify(&link, true, false), EntryAction::Ignore);
    assert_eq!(classify(&link, true, true), EntryAction::Descend);
    assert!(!filter_entry(&link, true));
    assert!(filter_entry_with_symlinks(&link, true, true));
    assert!(!filter_entry_with_symlinks(&link, true, false));
}

#[test]
fn filter_by_kind_and_extension() {
    assert!(filter_entry(&dir("r", "sub", false), false));
    assert!(filter_entry(&file("r", "Cargo.toml"), false));
    assert!(filter_entry(&file("r", "other.toml"), false));
    assert!(!filter_entry(&file("r", "Cargo.lock"), false));
    assert!(filter_entry(&file("r", "Cargo.lock"), true));
    assert!(!filter_entry(&file("r", "main.rs"), true));
    assert!(!filter_entry(&file("r", "Makefile"), true));
}

#[test]
fn filter_entries_keeps_order() {
    let listing = vec![
        file("r", "main.rs"),
        file("r", "Cargo.toml"),
        dir("r", "link", true),
        dir("r", "sub", false),
        file("r", "Cargo.lock"),
    ];
    let shallow: Vec<String> = filter_entries(&listing, false, false).into_iter().map(|e| e.path).collect();
    assert_eq!(shallow, vec!["r/Cargo.toml", "r/sub"]);
    let deep: Vec<String> = filter_entries(&listing, true, true).into_iter().map(|e| e.path).collect();
    assert_eq!(deep, vec!["r/Cargo.toml", "r/link", "r/sub", "r/Cargo.lock"]);
}

#[test]
fn report_names_directory_file_and_path() {
    let got = report(&file("proj", "Cargo.toml"), false, false).unwrap();
    assert_eq!((got.key.as_str(), got.file_name.as_str(), got.path.as_str()), ("proj", "Cargo.toml", "proj/Cargo.toml"));
    assert!(report(&file("proj", "Cargo.lock"), false, false).is_none());
    assert!(report(&file("proj", "Cargo.lock"), true, false).is_some());
    assert!(report(&dir("proj", "src", false), true, false).is_none());
}

#[test]
fn record_updates_the_project_of_the_directory() {
    let mut files = ProjectFiles::new();
    record(&mut files, &found("p", "Cargo.toml", "p/Cargo.toml"));
    assert_eq!(contents(&files), vec![("p".to_string(), Some("p/Cargo.toml".to_string()), None)]);
    record(&mut files, &found("p", "Cargo.lock", "p/Cargo.lock"));
    record(&mut files, &found("p", "notes.txt", "p/notes.txt"));
    record(&mut files, &found("q", "Cargo.lock", "q/Cargo.lock"));
    assert_eq!(
        contents(&files),
        vec![
            ("p".to_string(), Some("p/Cargo.toml".to_string()), Some("p/Cargo.lock".to_string())),
            ("q".to_string(), None, Some("q/Cargo.lock".to_string())),
        ]
    );
    assert!(files.get("r").is_none());
}

#[test]
fn visit_records_files_and_reports_directories() {
    let mut files = ProjectFiles::new();
    assert!(visit(&dir("r", "sub", false), &mut files, true, false));
    assert!(!visit(&dir("r", "link", true), &mut files, true, false));
    assert!(!visit(&file("r", "Cargo.toml"), &mut files, true, false));
    assert!(!visit(&file("r", "Cargo.lock"), &mut files, false, false));
    assert_eq!(contents(&files), vec![("r".to_string(), Some("r/Cargo.toml".to_string()), None)]);
}

#[test]
fn visit_all_returns_the_directories_in_order() {
    let listing = vec![
        dir("r", "b", false),
        file("r", "Cargo.lock"),
        dir("r", "link", true),
        file("r", "Cargo.toml"),
        dir("r", "a", false),
    ];
    let mut files = ProjectFiles::new();
    let directories = visit_all(&listing, &mut files, true, false);
    assert_eq!(directories, vec!["r/b".to_string(), "r/a".to_string()]);
    assert_eq!(
        contents(&files),
        vec![("r".to_string(), Some("r/Cargo.toml".to_string()), Some("r/Cargo.lock".to_string()))]
    );
}

#[test]
fn one_walk_and_many_workers_find_the_same_projects() {
    let listing = vec![
        file("a", "Cargo.toml"),
        file("a", "Cargo.lock"),
        file("b", "Cargo.toml"),
        file("b", "README.md"),
        file("c", "Cargo.lock"),
    ];
    let mut sequential = ProjectFiles::new();
    visit_all(&listing, &mut sequential, true, false);

    let mut reports: Vec<Found> = listing.iter().filter_map(|e| report(e, true, false)).collect();
    reports.reverse();
    reports.swap(0, 2);
    let concurrent = collect_files(&reports);
    assert_eq!(contents(&sequential), contents(&concurrent));
    assert_eq!(contents(&concurrent).len(), 3);
}

#[test]
fn two_routes_to_one_directory_give_one_project() {
    let reports = vec![
        found("/real/proj", "Cargo.toml", "/real/proj/Cargo.toml"),
        found("/real/proj", "Cargo.toml", "/real/link/../proj/Cargo.toml"),
    ];
    let files = collect_files(&reports);
    assert_eq!(
        contents(&files),
        vec![("/real/proj".to_string(), Some("/real/link/../proj/Cargo.toml".to_string()), None)]
    );
    assert!(contents(&collect_files(&Vec::new())).is_empty());
}

#[test]
fn a_directory_is_entered_once() {
    let mut seen: Vec<String> = Vec::new();
    assert!(first_visit(&mut seen, "/real/proj"));
    assert!(first_visit(&mut seen, "/real/other"));
    assert!(!first_visit(&mut seen, "/real/proj"));
    assert_eq!(seen, vec!["/real/proj".to_string(), "/real/other".to_string()]);
}

#[test]
fn pool_has_four_workers() {
    assert_eq!(WORKERS, 4);
}

#[test]
fn directories_are_listed_in_ascending_order() {
    let mut files = ProjectFiles::new();
    for key in ["m", "z", "a", "M", "k"] {
        record(&mut files, &found(key, "Cargo.toml", "x"));
    }
    assert_eq!(files.keys(), vec!["M".to_string(), "a".to_string(), "k".to_string(), "m".to_string(), "z".to_string()]);
    files.insert("a".to_string(), CargoFiles { ctoml: None, clock: Some("a/Cargo.lock".to_string()) });
    assert_eq!(files.keys().len(), 5);
    assert_eq!(files.get("a").unwrap().clock, Some("a/Cargo.lock".to_string()));
    assert!(files.get("a").unwrap().ctoml.is_none());
}

#[test]
fn shallow_search_leaves_the_lock_file_alone() {
    let listing = vec![file("proj", "Cargo.toml"), file("proj", "Cargo.lock")];
    let mut shallow = ProjectFiles::new();
    visit_all(&listing, &mut shallow, false, false);
    let project = shallow.get("proj").unwrap();
    assert_eq!(project.ctoml, Some("proj/Cargo.toml".to_string()));
    assert!(project.clock.is_none());
    assert!(project.lock_to_read().is_none());

    let mut deep = ProjectFiles::new();
    visit_all(&listing, &mut deep, true, false);
    assert_eq!(deep.get("proj").unwrap().lock_to_read(), Some("proj/Cargo.lock".to_string()));
}
