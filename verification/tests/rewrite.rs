use cargo_patch::rewrite::{normalize, rewrite_document, rewrite_manifest, rewrite_section, RewriteError};
use cargo_patch::source::{Replacement, Substitutions};
use toml::Value;

fn subs(pairs: &[(&str, Replacement)]) -> Substitutions {
    let mut s = Substitutions::new();
    for (name, r) in pairs {
        s.insert(name.to_string(), r.clone());
    }
    s
}

fn remote(url: &str) -> Replacement {
    Replacement::Remote(url.to_string())
}

fn local(path: &str) -> Replacement {
    Replacement::Local(path.to_string())
}

fn table(entries: &[(&str, Value)]) -> Value {
    let mut map = toml::value::Table::new();
    for (key, value) in entries {
        map.insert(key.to_string(), value.clone());
    }
    Value::Table(map)
}

fn text(s: &str) -> Value {
    Value::String(s.to_string())
}

fn parse(s: &str) -> Value {
    toml::from_str::<Value>(s).unwrap()
}

#[test]
fn version_string_becomes_a_git_table() {
    let out = normalize(text("1.0"), &remote("https://x/b"));
    assert_eq!(out, Ok(table(&[("git", text("https://x/b"))])));
}

#[test]
fn version_string_becomes_a_path_table() {
    let out = normalize(text("1.0"), &local("/cwd/cargo-patch/B"));
    assert_eq!(out, Ok(table(&[("path", text("/cwd/cargo-patch/B"))])));
}

#[test]
fn table_loses_version_path_and_git_and_keeps_the_rest() {
    let entry = table(&[
        ("version", text("1.0")),
        ("path", text("../old")),
        ("git", text("https://old")),
        ("features", Value::Array(vec![text("derive")])),
        ("optional", Value::Boolean(true)),
    ]);
    let out = normalize(entry, &local("wd/B"));
    assert_eq!(
        out,
        Ok(table(&[
            ("path", text("wd/B")),
            ("features", Value::Array(vec![text("derive")])),
            ("optional", Value::Boolean(true)),
        ]))
    );
}

#[test]
fn table_with_path_changes_to_git() {
    let entry = table(&[("path", text("../old")), ("branch", text("main"))]);
    let out = normalize(entry, &remote("https://x/b"));
    assert_eq!(out, Ok(table(&[("git", text("https://x/b")), ("branch", text("main"))])));
}

#[test]
fn other_shapes_are_handed_back() {
    assert_eq!(normalize(Value::Integer(3), &remote("u")), Err(Value::Integer(3)));
    assert_eq!(normalize(Value::Boolean(true), &remote("u")), Err(Value::Boolean(true)));
    let array = Value::Array(vec![text("1.0")]);
    assert_eq!(normalize(array.clone(), &local("p")), Err(array));
}

#[test]
fn normalizing_twice_changes_nothing_more() {
    let entry = table(&[("version", text("1.0")), ("features", Value::Array(vec![]))]);
    let once = normalize(entry, &remote("u")).unwrap();
    let twice = normalize(once.clone(), &remote("u")).unwrap();
    assert_eq!(once, twice);
}

#[test]
fn section_rewrites_only_named_entries() {
    let section = table(&[("a", text("1")), ("b", text("2")), ("c", table(&[("version", text("3"))]))]);
    let out = rewrite_section(section, &subs(&[("a", remote("ua")), ("c", local("pc")), ("z", remote("uz"))]));
    assert_eq!(
        out,
        Ok(table(&[
            ("a", table(&[("git", text("ua"))])),
            ("b", text("2")),
            ("c", table(&[("path", text("pc"))])),
        ]))
    );
}

#[test]
fn section_that_is_no_table_is_left_alone() {
    assert_eq!(rewrite_section(text("x"), &subs(&[("a", remote("u"))])), Ok(text("x")));
    assert_eq!(rewrite_section(Value::Integer(1), &subs(&[("a", remote("u"))])), Ok(Value::Integer(1)));
}

#[test]
fn section_reports_the_malformed_entry() {
    let section = table(&[("a", text("1")), ("b", Value::Integer(2))]);
    let out = rewrite_section(section, &subs(&[("a", remote("ua")), ("b", remote("ub"))]));
    assert_eq!(out, Err("b".to_string()));
}

#[test]
fn malformed_entry_without_substitution_is_no_error() {
    let section = table(&[("a", text("1")), ("b", Value::Integer(2))]);
    let out = rewrite_section(section, &subs(&[("a", remote("ua"))]));
    assert_eq!(out, Ok(table(&[("a", table(&[("git", text("ua"))])), ("b", Value::Integer(2))])));
}

#[test]
fn document_is_rewritten_under_all_three_tables() {
    let doc = parse(
        r#"
[package]
name = "A"
version = "0.1.0"

[dependencies]
B = "1.0"
other = "2"

[dev-dependencies]
B = { version = "1.0", features = ["x"] }

[build-dependencies]
B = { path = "../b" }

[target.dependencies]
B = "1.0"
"#,
    );
    let out = rewrite_document(doc, &subs(&[("B", remote("https://x/b"))])).unwrap();
    let expected = parse(
        r#"
[package]
name = "A"
version = "0.1.0"

[dependencies]
B = { git = "https://x/b" }
other = "2"

[dev-dependencies]
B = { git = "https://x/b", features = ["x"] }

[build-dependencies]
B = { git = "https://x/b" }

[target.dependencies]
B = "1.0"
"#,
    );
    assert_eq!(out, expected);
}

#[test]
fn document_without_dependency_tables_is_unchanged() {
    let doc = parse("[package]\nname = \"A\"\n");
    let out = rewrite_document(doc.clone(), &subs(&[("B", remote("u"))])).unwrap();
    assert_eq!(out, doc);
}

#[test]
fn dependency_key_that_is_no_table_is_ignored() {
    let doc = parse("dependencies = \"none\"\n[dev-dependencies]\nB = \"1\"\n");
    let out = rewrite_document(doc, &subs(&[("B", local("wd/B"))])).unwrap();
    assert_eq!(out, parse("dependencies = \"none\"\n[dev-dependencies]\nB = { path = \"wd/B\" }\n"));
}

#[test]
fn document_reports_the_malformed_dependency() {
    let doc = parse("[dependencies]\nA = \"1\"\n[build-dependencies]\nB = 7\n");
    let out = rewrite_document(doc, &subs(&[("A", remote("ua")), ("B", remote("ub"))]));
    assert_eq!(out, Err("B".to_string()));
}

#[test]
fn substituted_name_that_is_not_a_dependency_is_ignored() {
    let doc = parse("[dependencies]\nA = \"1\"\n");
    let out = rewrite_document(doc.clone(), &subs(&[("Z", remote("u"))])).unwrap();
    assert_eq!(out, doc);
}

#[test]
fn manifest_text_of_direct_rule() {
    let text = "[package]\nname = \"A\"\n\n[dependencies]\nB = \"1.0\"\n";
    let out = rewrite_manifest(text, &subs(&[("B", remote("https://x/b"))])).unwrap();
    assert_ne!(out, text);
    assert_eq!(
        parse(&out),
        parse("[package]\nname = \"A\"\n\n[dependencies]\nB = { git = \"https://x/b\" }\n")
    );
}

#[test]
fn manifest_text_of_local_copy() {
    let text = "[dependencies]\nB = { version = \"1.0\", optional = true }\n";
    let out = rewrite_manifest(text, &subs(&[("B", local("/cwd/cargo-patch/B"))])).unwrap();
    assert_eq!(
        parse(&out),
        parse("[dependencies]\nB = { path = \"/cwd/cargo-patch/B\", optional = true }\n")
    );
}

#[test]
fn manifest_text_rewritten_twice_is_the_same() {
    let text = "[package]\nname = \"B\"\n[dependencies]\nC = \"1.0\"\nD = { version = \"2\" }\n";
    let s = subs(&[("C", remote("https://x/c"))]);
    let once = rewrite_manifest(text, &s).unwrap();
    let twice = rewrite_manifest(&once, &s).unwrap();
    assert_eq!(once, twice);
}

#[test]
fn manifest_text_without_substitutions_is_printed_again() {
    let text = "[dependencies]\nB = \"1.0\"\n";
    let out = rewrite_manifest(text, &Substitutions::new()).unwrap();
    assert_eq!(parse(&out), parse(text));
}

#[test]
fn manifest_text_that_is_no_toml_is_a_syntax_error() {
    let out = rewrite_manifest("[dependencies\nB = ", &subs(&[("B", remote("u"))]));
    assert!(matches!(out, Err(RewriteError::Syntax(_))));
}

#[test]
fn manifest_text_with_malformed_dependency_is_a_shape_error() {
    let out = rewrite_manifest("[dependencies]\nB = [1, 2]\n", &subs(&[("B", remote("u"))]));
    match out {
        Err(RewriteError::Shape(name)) => assert_eq!(name, "B"),
        other => panic!("unexpected result {:?}", other),
    }
}
