use mole::parser::data::{CLockFile, CTomlFile, Dependency};

#[test]
fn deserialize_simple() {
    let toml_content = r#"
        [package]
        name = "test"
        version = "0.1.0"
        edition = "2021"
            
        [dependencies]
        serde = "1.0"

        [dev-dependencies]
        io = "1.0"
        "#;

    let parsed: CTomlFile = CTomlFile::from_text(toml_content).unwrap();
    assert!(parsed.dependencies.is_some());
    assert!(parsed.dev_dependencies.is_some());
}

#[test]
fn deserialize_nested() {
    let toml_content = r#"
        [package]
        name = "test"
        version = "0.1.0"
        edition = "2021"
            
        [dependencies]
        serde = "1.0"

        [dev-dependencies]
        io = "1.0"
    
        [dependencies.toml]
        features = ["derive"]
        version = "1.0.136"
        "#;

    let parsed: CTomlFile = CTomlFile::from_text(toml_content).unwrap();
    assert!(parsed.dependencies.is_some());
    assert!(parsed.dev_dependencies.is_some());
    assert!(parsed.dependencies.unwrap().get("toml").is_some());
}

#[test]
fn test_deserialize_targets() {
    let toml_str = r#"
            [package]
            name = "core_simd"
            version = "0.1.0"
            edition = "2021"
            homepage = ""
            repository = ""
            keywords = ["core", "simd", "intrinsics"]
            categories = ["hardware-support", "no-std"]
            license = "MIT OR Apache-2.0"
                
            [features]
            default = ["as_crate"]
            as_crate = []
            std = []
            all_lane_counts = []
                
            [target.'cfg(target_arch = "wasm32")'.dev-dependencies]
            wasm-bindgen = "0.2"
            wasm-bindgen-test = "0.3"
                
            [dev-dependencies.proptest]
            version = "0.10"
            default-features = false
            features = ["alloc"]
                
            [dev-dependencies.test_helpers]
            path = "../test_helpers"
                
            [dev-dependencies]
            std_float = { path = "../std_float/", features = ["as_crate"] }
        "#;

    let toml: CTomlFile = CTomlFile::from_text(toml_str).unwrap();
    assert!(toml.dev_dependencies.is_some());
    assert!(toml.target.is_some());
    assert!(toml
        .target
        .unwrap()
        .targets
        .is_some_and(|t| t.get("cfg(target_arch = \"wasm32\")").is_some()));
}

#[test]
fn deserialize_lock() {
    let toml_str = r#"
        [[package]]
        name = "anstyle"
        version = "1.0.10"
        source = "registry+https://github.com/rust-lang/crates.io-index"
        checksum = "55cc3b69f167a1ef2e161439aa98aed94e6028e5f9a59be9a6ffb47aef1651f9"

        [[package]]
        name = "anstyle-parse"
        version = "0.2.6"
        source = "registry+https://github.com/rust-lang/crates.io-index"
        checksum = "3b2d16507662817a6a20a9ea92df6652ee4f94f914589377d69f3b21bc5798a9"
        dependencies = [
         "utf8parse",
        ]

        [[package]]
        name = "anstyle-query"
        version = "1.1.2"
        source = "registry+https://github.com/rust-lang/crates.io-index"
        checksum = "79947af37f4177cfead1110013d678905c37501914fba0efea834c3fe9a8d60c"
        dependencies = [
         "windows-sys",
        ]
        "#;

    let lock: CLockFile = CLockFile::from_text(toml_str).unwrap();
    assert!(lock.package.len() == 3);
}

#[test]
fn lock_packages_keep_their_order_and_fields() {
    let lock = CLockFile::from_text(
        "[[package]]\nname = \"b\"\nversion = \"2.0.0\"\n\n[[package]]\nname = \"a\"\nversion = \"1.0.0\"\n",
    )
    .unwrap();
    assert_eq!(lock.package.len(), 2);
    assert_eq!(lock.package[0].name, "b");
    assert_eq!(lock.package[0].version, "2.0.0");
    assert_eq!(lock.package[1].name, "a");
    assert_eq!(lock.package[1].version, "1.0.0");
}

#[test]
fn lock_without_package_list_is_rejected() {
    assert!(CLockFile::from_text("version = 3\n").is_none());
    assert!(CLockFile::from_text("package = \"x\"\n").is_none());
    assert!(CLockFile::from_text("[[package]]\nname = \"a\"\n").is_none());
}

#[test]
fn text_that_is_no_toml_is_rejected() {
    assert!(CTomlFile::from_text("[package\nname = ").is_none());
    assert!(CLockFile::from_text("[[package]\n").is_none());
}

#[test]
fn absent_tables_differ_from_empty_tables() {
    let none = CTomlFile::from_text("[package]\nname = \"p\"\nversion = \"0.1.0\"\n").unwrap();
    assert!(none.dependencies.is_none());
    assert!(none.dev_dependencies.is_none());
    assert!(none.target.is_none());
    assert_eq!(none.package.unwrap().name, "p");

    let empty = CTomlFile::from_text("[dependencies]\n[dev-dependencies]\n[target]\n").unwrap();
    assert!(empty.package.is_none());
    assert!(empty.dependencies.unwrap().get("serde").is_none());
    assert!(empty.dev_dependencies.is_some());
    assert!(empty.target.unwrap().targets.unwrap().conditions().is_empty());
}

#[test]
fn dependency_forms_and_their_versions() {
    let parsed = CTomlFile::from_text(
        "[dependencies]\na = \"1.2.3\"\nb = { version = \"0.5\", features = [\"x\", \"y\"] }\nc = { path = \"../c\" }\n",
    )
    .unwrap();
    let table = parsed.dependencies.unwrap();
    match table.get("a").unwrap() {
        Dependency::Simple(v) => assert_eq!(v, "1.2.3"),
        Dependency::Detailed(_) => panic!("a is a bare version"),
    }
    match table.get("b").unwrap() {
        Dependency::Detailed(d) => {
            assert_eq!(d.version.as_deref(), Some("0.5"));
            assert_eq!(d.features, Some(vec!["x".to_string(), "y".to_string()]));
        }
        Dependency::Simple(_) => panic!("b is detailed"),
    }
    assert_eq!(table.get("a").unwrap().version(), "1.2.3");
    assert_eq!(table.get("b").unwrap().version(), "0.5");
    assert_eq!(table.get("c").unwrap().version(), "-");
    assert!(table.get("d").is_none());
}

#[test]
fn malformed_parts_reject_the_manifest() {
    assert!(CTomlFile::from_text("[dependencies]\na = 1\n").is_none());
    assert!(CTomlFile::from_text("[dependencies]\na = { version = 1 }\n").is_none());
    assert!(CTomlFile::from_text("[dependencies]\na = { features = [1] }\n").is_none());
    assert!(CTomlFile::from_text("dependencies = \"x\"\n").is_none());
    assert!(CTomlFile::from_text("target = 1\n").is_none());
}

#[test]
fn malformed_target_drops_the_targets_only() {
    let parsed = CTomlFile::from_text("[dependencies]\na = \"1\"\n[target.x.dependencies]\nb = 2\n").unwrap();
    assert!(parsed.dependencies.is_some());
    assert!(parsed.target.unwrap().targets.is_none());
}

#[test]
fn decoding_from_a_parsed_table() {
    let table: toml::Table = "[dependencies]\nserde = \"1.0\"\n".parse().unwrap();
    let parsed = CTomlFile::from_table(&table).unwrap();
    assert_eq!(parsed.dependencies.unwrap().get("serde").unwrap().version(), "1.0");
    let lock_table: toml::Table = "[[package]]\nname = \"a\"\nversion = \"1\"\n".parse().unwrap();
    assert_eq!(CLockFile::from_table(&lock_table).unwrap().package.len(), 1);
}

#[test]
fn sorting_texts_orders_by_code_point() {
    let mut names: Vec<String> = ["b", "a", "", "ab", "B", "é", "a"].iter().map(|s| s.to_string()).collect();
    mole::text::sort_texts(&mut names);
    assert_eq!(names, vec!["", "B", "a", "a", "ab", "b", "é"]);
}

#[test]
fn package_needs_a_name_only() {
    let named = CTomlFile::from_text("[package]\nname = \"p\"\n").unwrap();
    let package = named.package.unwrap();
    assert_eq!(package.name, "p");
    assert_eq!(package.version, "-");

    let inherited = CTomlFile::from_text("[package]\nname = \"p\"\nversion.workspace = true\n").unwrap();
    assert_eq!(inherited.package.unwrap().version, "-");

    let versioned = CTomlFile::from_text("[package]\nname = \"p\"\nversion = \"0.3.0\"\n").unwrap();
    assert_eq!(versioned.package.unwrap().version, "0.3.0");
}

#[test]
fn package_without_a_name_is_no_package() {
    assert!(CTomlFile::from_text("[package]\nversion = \"0.1.0\"\n").unwrap().package.is_none());
    assert!(CTomlFile::from_text("[package]\nname = 1\n").unwrap().package.is_none());
    assert!(CTomlFile::from_text("package = 1\n").unwrap().package.is_none());
}
