use manifest_frobber::{frob_table, Item, Table};

fn string(s: &str) -> Item {
    Item::String(s.to_string())
}

fn table(entries: Vec<(&str, Item)>) -> Table {
    let mut t = Table::new();
    for (k, v) in entries {
        t.insert(k.to_string(), v);
    }
    t
}

fn sub(entries: Vec<(&str, Item)>) -> Item {
    Item::Table(table(entries))
}

fn noop_manifest() -> Table {
    table(vec![
        ("package", sub(vec![("name", string("foo")), ("version", string("1.0"))])),
        ("dependencies", sub(vec![("bar", string("1.0"))])),
        ("dev-dependencies", sub(vec![("baz", string("1.0"))])),
        (
            "target",
            sub(vec![(
                "cfg(unix)",
                sub(vec![("dependencies", sub(vec![("quux", string("1.0"))]))]),
            )]),
        ),
    ])
}

#[test]
fn test_frob_table_noop() {
    let mut toml = noop_manifest();
    let result = noop_manifest();

    assert!(!frob_table(&mut toml, "foo", "1.0"));
    assert_eq!(toml, result);
}

#[test]
fn test_frob_table_changes() {
    let mut toml = table(vec![
        (
            "package",
            sub(vec![
                ("name", string("foo")),
                ("version", string("1.0")),
                ("workspace", string("..")),
            ]),
        ),
        (
            "dependencies",
            sub(vec![(
                "bar",
                sub(vec![("version", string("1.0")), ("path", string("../bar"))]),
            )]),
        ),
        (
            "dev-dependencies",
            sub(vec![(
                "baz",
                sub(vec![("version", string("1.0")), ("path", string("../baz"))]),
            )]),
        ),
        (
            "target",
            sub(vec![(
                "cfg(unix)",
                sub(vec![(
                    "dependencies",
                    sub(vec![(
                        "quux",
                        sub(vec![("version", string("1.0")), ("path", string("../quux"))]),
                    )]),
                )]),
            )]),
        ),
        (
            "workspace",
            sub(vec![("members", Item::Other(toml::Value::Array(vec![])))]),
        ),
    ]);

    let result = table(vec![
        ("package", sub(vec![("name", string("foo")), ("version", string("1.0"))])),
        ("dependencies", sub(vec![("bar", sub(vec![("version", string("1.0"))]))])),
        ("dev-dependencies", sub(vec![("baz", sub(vec![("version", string("1.0"))]))])),
        (
            "target",
            sub(vec![(
                "cfg(unix)",
                sub(vec![(
                    "dependencies",
                    sub(vec![("quux", sub(vec![("version", string("1.0"))]))]),
                )]),
            )]),
        ),
    ]);

    assert!(frob_table(&mut toml, "foo", "1.0"));
    assert_eq!(toml, result);
}
