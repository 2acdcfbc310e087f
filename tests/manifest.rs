use manifest_frobber::{
    frob_table, parse_manifest, render_manifest, rewrite_manifest, ErrorKind, Item, Table,
};

fn parse(text: &str) -> Table {
    parse_manifest(text, "Cargo.toml").unwrap()
}

fn child<'a>(t: &'a Table, key: &str) -> &'a Table {
    match t.get(key) {
        Some(Item::Table(c)) => c,
        other => panic!("{} is no table: {:?}", key, other),
    }
}

fn keys(t: &Table) -> Vec<String> {
    t.entries.iter().map(|(k, _)| k.clone()).collect()
}

const EXAMPLE: &str = r#"
workspace = ".."

[package]
name = "foo"
version = "1.0"

[dependencies]
bar = { version = "1.0", path = "../bar" }

[target."cfg(unix)".dependencies]
quux = { version = "1.0", path = "../quux" }
"#;

#[test]
fn example_manifest_is_rewritten() {
    let out = rewrite_manifest(parse(EXAMPLE), "foo", "1.0").unwrap().unwrap();
    let t = parse(&out);
    assert!(!t.contains_key("workspace"));
    let bar = child(child(&t, "dependencies"), "bar");
    assert_eq!(keys(bar), vec!["version".to_string()]);
    assert_eq!(bar.get("version"), Some(&Item::String("1.0".to_string())));
    let quux = child(child(child(child(&t, "target"), "cfg(unix)"), "dependencies"), "quux");
    assert_eq!(keys(quux), vec!["version".to_string()]);
}

#[test]
fn manifest_without_paths_is_not_rewritten() {
    let text = "[package]\nname = \"foo\"\n\n[dependencies]\nbar = \"1.0\"\n";
    assert!(matches!(rewrite_manifest(parse(text), "foo", "1.0"), Ok(None)));
    let mut t = parse(text);
    assert!(!frob_table(&mut t, "foo", "1.0"));
    assert_eq!(t, parse(text));
}

#[test]
fn rewriting_the_output_again_changes_nothing() {
    let out = rewrite_manifest(parse(EXAMPLE), "foo", "1.0").unwrap().unwrap();
    let mut again = parse(&out);
    assert!(!frob_table(&mut again, "foo", "1.0"));
    assert_eq!(again, parse(&out));
    assert!(matches!(rewrite_manifest(parse(&out), "foo", "1.0"), Ok(None)));
}

#[test]
fn path_removal_keeps_sibling_keys_in_order() {
    let text = "[dev-dependencies]\nbaz = { version = \"2\", path = \"../baz\", features = [\"x\"], optional = true }\n";
    let mut t = parse(text);
    assert!(frob_table(&mut t, "foo", "1.0"));
    let baz = child(child(&t, "dev-dependencies"), "baz");
    assert_eq!(keys(baz), vec!["version".to_string(), "features".to_string(), "optional".to_string()]);
}

#[test]
fn version_string_dependencies_are_untouched() {
    let text = "[build-dependencies]\ncc = \"1.0\"\nlocal = { path = \"../local\" }\n";
    let mut t = parse(text);
    assert!(frob_table(&mut t, "foo", "1.0"));
    let deps = child(&t, "build-dependencies");
    assert_eq!(deps.get("cc"), Some(&Item::String("1.0".to_string())));
    assert_eq!(keys(child(deps, "local")), Vec::<String>::new());
}

#[test]
fn root_workspace_of_any_shape_is_removed() {
    for text in ["workspace = \"..\"\n", "workspace = 3\n", "[workspace]\nmembers = [\"a\"]\n"] {
        let mut t = parse(text);
        assert!(frob_table(&mut t, "foo", "1.0"));
        assert!(!t.contains_key("workspace"));
        assert_eq!(t.len(), 0);
    }
}

#[test]
fn package_workspace_is_removed_on_its_own() {
    let mut t = parse("[package]\nname = \"foo\"\nworkspace = \"..\"\n");
    assert!(frob_table(&mut t, "foo", "1.0"));
    let package = child(&t, "package");
    assert!(!package.contains_key("workspace"));
    assert_eq!(package.get("name"), Some(&Item::String("foo".to_string())));
}

#[test]
fn both_workspace_keys_are_removed() {
    let mut t = parse("workspace = \"..\"\n[package]\nname = \"foo\"\nworkspace = \"..\"\n");
    assert!(frob_table(&mut t, "foo", "1.0"));
    assert!(!t.contains_key("workspace"));
    assert!(!child(&t, "package").contains_key("workspace"));
}

#[test]
fn target_sections_are_frobbed_like_top_level_ones() {
    let text = "[dependencies]\na = { version = \"1\", path = \"p\" }\n\
                [target.'cfg(windows)'.build-dependencies]\na = { version = \"1\", path = \"p\" }\n";
    let mut t = parse(text);
    assert!(frob_table(&mut t, "foo", "1.0"));
    let top = child(child(&t, "dependencies"), "a");
    let windows = child(child(child(child(&t, "target"), "cfg(windows)"), "build-dependencies"), "a");
    assert_eq!(top, windows);
    assert_eq!(keys(top), vec!["version".to_string()]);
}

#[test]
fn odd_shapes_are_skipped() {
    let text = "target = \"x\"\ndependencies = \"y\"\n[package]\nname = \"foo\"\n";
    let mut t = parse(text);
    assert!(!frob_table(&mut t, "foo", "1.0"));
    assert_eq!(t, parse(text));
}

#[test]
fn path_outside_dependency_sections_stays() {
    let text = "[package]\npath = \"x\"\n[lib]\npath = \"src/lib.rs\"\n";
    let mut t = parse(text);
    assert!(!frob_table(&mut t, "foo", "1.0"));
    assert_eq!(child(&t, "lib").get("path"), Some(&Item::String("src/lib.rs".to_string())));
}

#[test]
fn invalid_text_is_a_parse_error() {
    match parse_manifest("[package\nname = ", "/tmp/pkg/Cargo.toml") {
        Err(ErrorKind::ManifestParse { path, .. }) => assert_eq!(path, "/tmp/pkg/Cargo.toml"),
        other => panic!("expected a parse error, got {:?}", other),
    }
}

#[test]
fn repeated_key_is_decoded_once() {
    let t = parse_manifest("a = 1\na = 2\n", "Cargo.toml").unwrap();
    assert_eq!(t.len(), 1);
}

#[test]
fn decoded_values_keep_their_shapes() {
    let t = parse("n = 7\n[package]\nname = \"foo\"\n");
    assert_eq!(t.get("n"), Some(&Item::Other(toml::Value::Integer(7))));
    assert_eq!(child(&t, "package").get("name"), Some(&Item::String("foo".to_string())));
    assert_eq!(t.len(), 2);
    assert!(parse("").len() == 0);
}

#[test]
fn rendered_manifest_decodes_to_the_same_table() {
    let text = "[package]\nname = \"foo\"\nedition = 2018\n[dependencies]\nbar = { version = \"1.0\" }\n";
    let out = render_manifest(parse(text)).unwrap();
    assert!(out.contains("[package]"));
    assert_eq!(parse(&out), parse(text));
}

#[test]
fn decoded_tables_keep_document_order() {
    let t = parse("zeta = 1\nalpha = 2\n[package]\nversion = \"1\"\nname = \"x\"\n");
    assert_eq!(keys(&t), vec!["zeta".to_string(), "alpha".to_string(), "package".to_string()]);
    assert_eq!(keys(child(&t, "package")), vec!["version".to_string(), "name".to_string()]);
    let out = render_manifest(t).unwrap();
    assert!(out.find("zeta").unwrap() < out.find("alpha").unwrap());
}

#[test]
fn table_insert_replaces_and_remove_takes_out() {
    let mut t = Table::new();
    assert!(t.insert("a".to_string(), Item::String("1".to_string())).is_none());
    assert!(t.insert("b".to_string(), Item::String("2".to_string())).is_none());
    assert_eq!(
        t.insert("a".to_string(), Item::String("3".to_string())),
        Some(Item::String("1".to_string()))
    );
    assert_eq!(keys(&t), vec!["a".to_string(), "b".to_string()]);
    assert_eq!(t.get("a"), Some(&Item::String("3".to_string())));
    assert_eq!(t.remove("a"), Some(Item::String("3".to_string())));
    assert_eq!(t.remove("a"), None);
    assert_eq!(keys(&t), vec!["b".to_string()]);
    assert_eq!(t.position(&"b".to_string()), Some(0));
}
