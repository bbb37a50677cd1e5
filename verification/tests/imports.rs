use shorts::imports::{extract_imports, parse_import_statements, resolve_relative};
use shorts::pyast::{Alias, Expr, Stmt};

// The top-level statements of small Python sources, written out.

fn alias(name: &str) -> Alias {
    Alias { name: name.to_string(), asname: None }
}

fn alias_as(name: &str, asname: &str) -> Alias {
    Alias { name: name.to_string(), asname: Some(asname.to_string()) }
}

/// `import a, b, ...`
fn import(names: &[&str]) -> Stmt {
    Stmt::Import(names.iter().map(|n| alias(n)).collect())
}

/// `from <dots><module> import a, b, ...`
fn import_from(level: u32, module: Option<&str>, names: Vec<Alias>) -> Stmt {
    Stmt::ImportFrom { module: module.map(|m| m.to_string()), names, level }
}

fn has(v: &[String], s: &str) -> bool {
    v.iter().any(|x| x == s)
}

#[test]
fn test_simple_import() {
    // import foo
    let result = extract_imports("", &vec![import(&["foo"])]);
    assert!(has(&result, "foo"));
    assert!(has(&result, "foo.__init__"));
}

#[test]
fn test_multiple_imports() {
    // import foo
    // import bar
    let result = extract_imports("", &vec![import(&["foo"]), import(&["bar"])]);
    assert!(has(&result, "foo"));
    assert!(has(&result, "foo.__init__"));
    assert!(has(&result, "bar"));
    assert!(has(&result, "bar.__init__"));
}

#[test]
fn test_comma_separated_imports() {
    // import foo, bar, baz
    let result = extract_imports("myapp", &vec![import(&["foo", "bar", "baz"])]);
    assert!(has(&result, "foo"));
    assert!(has(&result, "bar"));
    assert!(has(&result, "baz"));
}

#[test]
fn test_from_import() {
    // from foo import baz
    let result = extract_imports("", &vec![import_from(0, Some("foo"), vec![alias("baz")])]);
    assert!(has(&result, "foo.baz"));
    assert!(has(&result, "foo"));
    assert!(has(&result, "foo.baz.__init__"));
}

#[test]
fn test_from_import_multiline() {
    // from foo import (bar,
    //     baz,
    //     biffo, bert)
    let stmts = vec![import_from(0, Some("foo"), vec![alias("bar"), alias("baz"), alias("biffo"), alias("bert")])];
    let result = extract_imports("", &stmts);
    for name in &["foo.bar", "foo.baz", "foo.biffo", "foo.bert", "foo"] {
        assert!(has(&result, name), "missing {name}");
    }
}

#[test]
fn test_relative_import_single_dot() {
    // from .sibling import foo, bar, baz
    let stmts = vec![import_from(1, Some("sibling"), vec![alias("foo"), alias("bar"), alias("baz")])];
    let result = extract_imports("myapp.__init__", &stmts);
    assert!(has(&result, "myapp.sibling.foo"));
    assert!(has(&result, "myapp.sibling.bar"));
    assert!(has(&result, "myapp.sibling.baz"));
    assert!(has(&result, "myapp.sibling"));
}

#[test]
fn test_relative_import_double_dot() {
    // from ..aunt import foo
    let stmts = vec![import_from(2, Some("aunt"), vec![alias("foo")])];
    let result = extract_imports("myapp.utils.__init__", &stmts);
    assert!(has(&result, "myapp.aunt.foo"));
    assert!(has(&result, "myapp.aunt"));
}

#[test]
fn test_absolute_from_import() {
    // from myapp.deploy.services import foo, bar
    let stmts = vec![import_from(0, Some("myapp.deploy.services"), vec![alias("foo"), alias("bar")])];
    let result = extract_imports("myapp.utils.__init__", &stmts);
    assert!(has(&result, "myapp.deploy.services.foo"));
    assert!(has(&result, "myapp.deploy.services.bar"));
    assert!(has(&result, "myapp.deploy.services"));
}

#[test]
fn test_dotted_import_parent_package() {
    // import foo.bar.baz
    let result = extract_imports("", &vec![import(&["foo.bar.baz"])]);
    assert!(has(&result, "foo.bar.baz"));
    assert!(has(&result, "foo.bar.baz.__init__"));
    assert!(has(&result, "foo.bar"), "should include parent package");
}

#[test]
fn test_import_in_comment_ignored() {
    // # import foo
    // import bar
    // (a comment is no statement)
    let result = extract_imports("", &vec![import(&["bar"])]);
    assert!(!has(&result, "foo"));
    assert!(has(&result, "bar"));
}

#[test]
fn test_import_in_string_ignored() {
    // x = 'import foo'
    // import bar
    let stmts = vec![
        Stmt::Assign { targets: vec![Expr::Name("x".to_string())], value: Expr::Other },
        import(&["bar"]),
    ];
    let result = extract_imports("", &stmts);
    assert!(!has(&result, "foo"));
    assert!(has(&result, "bar"));
}

#[test]
fn test_parsed_from_import() {
    // from foo import bar, baz
    let imports = parse_import_statements("", &vec![import_from(0, Some("foo"), vec![alias("bar"), alias("baz")])]);
    assert_eq!(imports.len(), 1);
    assert_eq!(imports[0].module, "foo");
    assert!(!imports[0].is_star);
    assert!(!imports[0].is_module_import);
    assert_eq!(imports[0].names.len(), 2);
    assert_eq!(imports[0].names[0].name, "bar");
    assert_eq!(imports[0].names[0].local, "bar");
    assert_eq!(imports[0].names[1].name, "baz");
}

#[test]
fn test_parsed_import_module() {
    // import foo
    let imports = parse_import_statements("", &vec![import(&["foo"])]);
    assert_eq!(imports.len(), 1);
    assert_eq!(imports[0].module, "foo");
    assert!(imports[0].is_module_import);
    assert!(imports[0].names.is_empty());
}

#[test]
fn test_parsed_star_import() {
    // from foo import *
    let imports = parse_import_statements("", &vec![import_from(0, Some("foo"), vec![alias("*")])]);
    assert_eq!(imports.len(), 1);
    assert!(imports[0].is_star);
    assert_eq!(imports[0].module, "foo");
}

#[test]
fn test_parsed_aliased_import() {
    // from foo import bar as b
    let imports = parse_import_statements("", &vec![import_from(0, Some("foo"), vec![alias_as("bar", "b")])]);
    assert_eq!(imports[0].names[0].name, "bar");
    assert_eq!(imports[0].names[0].local, "b");
}

#[test]
fn relative_imports_resolve_against_the_package() {
    assert_eq!(resolve_relative("myapp.utils", 1, Some("sibling")), Some("myapp.sibling".to_string()));
    assert_eq!(resolve_relative("myapp.utils.__init__", 2, Some("aunt")), Some("myapp.aunt".to_string()));
    assert_eq!(resolve_relative("myapp.utils", 1, None), Some("myapp".to_string()));
    assert_eq!(resolve_relative("top", 2, Some("x")), None);
}

#[test]
fn only_top_level_imports_are_read() {
    // def f():
    //     import inner
    let stmts = vec![Stmt::FunctionDef {
        name: "f".to_string(),
        decorators: Vec::new(),
        params: Vec::new(),
        return_type: None,
        body: vec![import(&["inner"])],
    }];
    let result = extract_imports("", &stmts);
    let parsed = parse_import_statements("", &stmts);
    assert!(result.is_empty());
    assert!(parsed.is_empty());
}

#[test]
fn aliased_plain_import_keeps_its_alias() {
    let imports = parse_import_statements("", &vec![Stmt::Import(vec![alias_as("foo.bar", "fb"), alias("baz")])]);
    assert_eq!(imports.len(), 2);
    assert!(imports[0].is_module_import);
    assert_eq!(imports[0].module, "foo.bar");
    assert_eq!(imports[0].names.len(), 1);
    assert_eq!(imports[0].names[0].name, "foo.bar");
    assert_eq!(imports[0].names[0].local, "fb");
    assert!(imports[1].is_module_import);
    assert!(imports[1].names.is_empty());
}
