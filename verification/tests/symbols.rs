use shorts::symbols::Symbol;
use shorts::hashes::{extract_symbol_hashes, semantic_hash, Token};
use shorts::cache::entry_of_parse;
use shorts::pyast::{Alias, Expr, Param, Stmt};
use shorts::refs::extract_intra_module_deps;
use shorts::symbols::{propagate_intra_module_changes, SymbolUsage};
use shorts::usage::extract_symbol_usage;
use shorts::graph::{FileResult, Tree, Trees};
use shorts::imports::extract_imports;

#[test]
fn test_symbol_cache_key_roundtrip() {
    let symbols = vec![
        Symbol::Function("foo".into()),
        Symbol::Class("Bar".into()),
        Symbol::Variable("X".into()),
        Symbol::ModuleBody,
    ];
    for sym in symbols {
        let key = sym.cache_key();
        let restored = Symbol::from_cache_key(&key).unwrap();
        assert_eq!(sym, restored);
    }
}

#[test]
fn cache_keys_are_tagged_by_kind() {
    assert_eq!(Symbol::Function("f".into()).cache_key(), "fn:f");
    assert_eq!(Symbol::Class("C".into()).cache_key(), "cls:C");
    assert_eq!(Symbol::Variable("V".into()).cache_key(), "var:V");
    assert_eq!(Symbol::ModuleBody.cache_key(), "__body__");
    assert_eq!(Symbol::from_cache_key("mod:x"), None);
    assert_eq!(Symbol::from_cache_key("fn:"), Some(Symbol::Function(String::new())));
}


// ---------------------------------------------------------------------------
// A small tokenizer for the sources of these tests: names, numbers, strings,
// single-character operators, comments (trivia), newlines (trivia when the line
// holds nothing else), indents and dedents; and the byte range of each
// top-level statement.
// ---------------------------------------------------------------------------

const NAME: u8 = 1;
const NUMBER: u8 = 2;
const STRING: u8 = 3;
const OP: u8 = 4;
const COMMENT: u8 = 5;
const NEWLINE: u8 = 6;
const NL: u8 = 7;
const INDENT: u8 = 8;
const DEDENT: u8 = 9;

fn lex(src: &str) -> (Vec<Token>, Vec<(usize, usize)>) {
    let b = src.as_bytes();
    let mut toks: Vec<Token> = Vec::new();
    let mut ranges: Vec<(usize, usize)> = Vec::new();
    let mut indents: Vec<usize> = vec![0];
    let mut i = 0;
    let tok = |kind: u8, start: usize, end: usize, trivia: bool| Token { kind, start, end, trivia };
    while i < b.len() {
        // start of a line
        let line_start = i;
        let mut j = i;
        while j < b.len() && b[j] == b' ' {
            j += 1;
        }
        let width = j - line_start;
        let blank = j >= b.len() || b[j] == b'\n' || b[j] == b'#';
        if !blank {
            if width > *indents.last().unwrap() {
                indents.push(width);
                toks.push(tok(INDENT, line_start, j, false));
            }
            while width < *indents.last().unwrap() {
                indents.pop();
                toks.push(tok(DEDENT, j, j, false));
            }
            if width == 0 {
                ranges.push((j, j));
            }
        }
        i = j;
        let mut meaningful = false;
        while i < b.len() && b[i] != b'\n' {
            let c = b[i];
            if c == b' ' {
                i += 1;
            } else if c == b'#' {
                let s = i;
                while i < b.len() && b[i] != b'\n' {
                    i += 1;
                }
                toks.push(tok(COMMENT, s, i, true));
            } else if c.is_ascii_alphabetic() || c == b'_' {
                let s = i;
                while i < b.len() && (b[i].is_ascii_alphanumeric() || b[i] == b'_') {
                    i += 1;
                }
                toks.push(tok(NAME, s, i, false));
                meaningful = true;
            } else if c.is_ascii_digit() {
                let s = i;
                while i < b.len() && b[i].is_ascii_digit() {
                    i += 1;
                }
                toks.push(tok(NUMBER, s, i, false));
                meaningful = true;
            } else if c == b'\'' || c == b'"' {
                let s = i;
                i += 1;
                while i < b.len() && b[i] != c {
                    i += 1;
                }
                i += 1;
                toks.push(tok(STRING, s, i, false));
                meaningful = true;
            } else {
                toks.push(tok(OP, i, i + 1, false));
                i += 1;
                meaningful = true;
            }
            if meaningful {
                if let Some(last) = ranges.last_mut() {
                    last.1 = i;
                }
            }
        }
        if i < b.len() {
            toks.push(tok(if meaningful { NEWLINE } else { NL }, i, i + 1, !meaningful));
            i += 1;
        }
    }
    while indents.len() > 1 {
        indents.pop();
        toks.push(tok(DEDENT, b.len(), b.len(), false));
    }
    (toks, ranges)
}

fn hashes(src: &str, stmts: &Vec<Stmt>) -> Vec<(Symbol, u64)> {
    let (toks, ranges) = lex(src);
    assert_eq!(ranges.len(), stmts.len(), "one range per statement");
    extract_symbol_hashes(src, stmts, &ranges, &toks)
}

fn hash_of(hs: &[(Symbol, u64)], s: &Symbol) -> Option<u64> {
    hs.iter().find(|(k, _)| k == s).map(|(_, h)| *h)
}

fn has_key(hs: &[(Symbol, u64)], s: &Symbol) -> bool {
    hash_of(hs, s).is_some()
}

fn name(n: &str) -> Expr {
    Expr::Name(n.to_string())
}

fn call(f: Expr, args: Vec<Expr>) -> Expr {
    Expr::Call(Box::new(f), args, Vec::new())
}

fn attr(v: Expr, a: &str) -> Expr {
    Expr::Attribute(Box::new(v), a.to_string())
}

fn def(n: &str, body: Vec<Stmt>) -> Stmt {
    Stmt::FunctionDef { name: n.to_string(), decorators: Vec::new(), params: Vec::new(), return_type: None, body }
}

fn method(n: &str, body: Vec<Stmt>) -> Stmt {
    Stmt::FunctionDef {
        name: n.to_string(),
        decorators: Vec::new(),
        params: vec![Param { annotation: None, default: None }],
        return_type: None,
        body,
    }
}

fn class(n: &str, bases: Vec<Expr>, body: Vec<Stmt>) -> Stmt {
    Stmt::ClassDef { name: n.to_string(), decorators: Vec::new(), bases, keywords: Vec::new(), body }
}

fn assign(n: &str, value: Expr) -> Stmt {
    Stmt::Assign { targets: vec![name(n)], value }
}

fn ret(e: Expr) -> Stmt {
    Stmt::Return(Some(e))
}

fn import(names: &[&str]) -> Stmt {
    Stmt::Import(names.iter().map(|n| Alias { name: n.to_string(), asname: None }).collect())
}

fn import_from(module: &str, names: &[(&str, Option<&str>)]) -> Stmt {
    Stmt::ImportFrom {
        module: Some(module.to_string()),
        names: names.iter().map(|(n, a)| Alias { name: n.to_string(), asname: a.map(|x| x.to_string()) }).collect(),
        level: 0,
    }
}

fn expr_stmt(e: Expr) -> Stmt {
    Stmt::Expr(e)
}

#[test]
fn test_classify_function() {
    let hs = hashes("def foo():\n    pass\n", &vec![def("foo", vec![Stmt::Other])]);
    assert!(has_key(&hs, &Symbol::Function("foo".into())));
}

#[test]
fn test_classify_class() {
    let hs = hashes("class Foo:\n    pass\n", &vec![class("Foo", Vec::new(), vec![Stmt::Other])]);
    assert!(has_key(&hs, &Symbol::Class("Foo".into())));
}

#[test]
fn test_classify_variable() {
    let hs = hashes("X = 1\n", &vec![assign("X", Expr::Other)]);
    assert!(has_key(&hs, &Symbol::Variable("X".into())));
}

#[test]
fn test_classify_annotated_variable() {
    let stmt = Stmt::AnnAssign { target: name("X"), annotation: name("int"), value: Some(Expr::Other) };
    let hs = hashes("X: int = 1\n", &vec![stmt]);
    assert!(has_key(&hs, &Symbol::Variable("X".into())));
}

#[test]
fn test_imports_are_module_body() {
    let stmts = vec![import(&["foo"]), import_from("bar", &[("baz", None)])];
    let hs = hashes("import foo\nfrom bar import baz\n", &stmts);
    assert!(has_key(&hs, &Symbol::ModuleBody));
    assert!(!has_key(&hs, &Symbol::Function("foo".into())));
}

#[test]
fn test_changing_one_function_doesnt_affect_another() {
    let stmts = vec![def("foo", vec![ret(Expr::Other)]), def("bar", vec![ret(Expr::Other)])];
    let v1 = hashes("def foo():\n    return 1\n\ndef bar():\n    return 2\n", &stmts);
    let v2 = hashes("def foo():\n    return 99\n\ndef bar():\n    return 2\n", &stmts);
    let foo = Symbol::Function("foo".into());
    let bar = Symbol::Function("bar".into());
    assert_ne!(hash_of(&v1, &foo), hash_of(&v2, &foo));
    assert_eq!(hash_of(&v1, &bar), hash_of(&v2, &bar));
}

#[test]
fn test_class_hash_includes_methods() {
    let stmts = vec![class("Foo", Vec::new(), vec![method("method", vec![ret(Expr::Other)])])];
    let v1 = hashes("class Foo:\n    def method(self):\n        return 1\n", &stmts);
    let v2 = hashes("class Foo:\n    def method(self):\n        return 2\n", &stmts);
    let foo = Symbol::Class("Foo".into());
    assert_ne!(hash_of(&v1, &foo), hash_of(&v2, &foo));
}

#[test]
fn test_comment_in_function_doesnt_change_hash() {
    let stmts = vec![def("foo", vec![ret(Expr::Other)])];
    let v1 = hashes("def foo():\n    return 1\n", &stmts);
    let v2 = hashes("def foo():\n    # a comment\n    return 1\n", &stmts);
    let foo = Symbol::Function("foo".into());
    assert_eq!(hash_of(&v1, &foo), hash_of(&v2, &foo));
}

fn sem(src: &str) -> u64 {
    let (toks, _) = lex(src);
    semantic_hash(src, &toks)
}

#[test]
fn test_semantic_hash_ignores_comments() {
    assert_eq!(sem("import foo\nx = 1\n"), sem("import foo\n# this is a comment\nx = 1\n"));
}

#[test]
fn test_semantic_hash_ignores_inline_comment() {
    assert_eq!(sem("x = 1\n"), sem("x = 1  # inline comment\n"));
}

#[test]
fn test_semantic_hash_detects_code_change() {
    assert_ne!(sem("x = 1\n"), sem("x = 2\n"));
}

#[test]
fn test_semantic_hash_detects_import_change() {
    assert_ne!(sem("import foo\n"), sem("import bar\n"));
}

#[test]
fn test_semantic_hash_ignores_blank_lines() {
    assert_eq!(sem("import foo\nx = 1\n"), sem("import foo\n\n\nx = 1\n"));
}

#[test]
fn statements_of_one_symbol_share_a_hash() {
    // X = 1 / X = 2: both statements define the variable X
    let stmts = vec![assign("X", Expr::Other), assign("X", Expr::Other)];
    let hs = hashes("X = 1\nX = 2\n", &stmts);
    assert_eq!(hs.iter().filter(|(k, _)| *k == Symbol::Variable("X".into())).count(), 1);
    let other = hashes("X = 1\nX = 3\n", &stmts);
    assert_ne!(hash_of(&hs, &Symbol::Variable("X".into())), hash_of(&other, &Symbol::Variable("X".into())));
}

// ---------------------------------------------------------------------------
// Symbol usage
// ---------------------------------------------------------------------------

fn specific(u: &shorts::symbols::ModuleSymbolUsage, module: &str) -> Vec<String> {
    match u.get(module) {
        Some(SymbolUsage::Specific(v)) => v.clone(),
        other => panic!("expected Specific usage of {module}, got {:?}", other),
    }
}

#[test]
fn test_usage_from_import_specific() {
    // from foo import bar, baz
    // bar()
    let stmts = vec![import_from("foo", &[("bar", None), ("baz", None)]), expr_stmt(call(name("bar"), Vec::new()))];
    let usage = extract_symbol_usage("", &stmts);
    assert!(specific(&usage, "foo").contains(&"bar".to_string()));
}

#[test]
fn test_usage_import_attribute() {
    // import foo
    // foo.bar()
    let stmts = vec![import(&["foo"]), expr_stmt(call(attr(name("foo"), "bar"), Vec::new()))];
    let usage = extract_symbol_usage("", &stmts);
    assert!(specific(&usage, "foo").contains(&"bar".to_string()));
}

#[test]
fn test_usage_star_import() {
    // from foo import *
    let usage = extract_symbol_usage("", &vec![import_from("foo", &[("*", None)])]);
    assert!(matches!(usage.get("foo"), Some(SymbolUsage::All)));
}

#[test]
fn test_usage_bare_module_name() {
    // import foo
    // x = foo
    let usage = extract_symbol_usage("", &vec![import(&["foo"]), assign("x", name("foo"))]);
    assert!(matches!(usage.get("foo"), Some(SymbolUsage::All)));
}

#[test]
fn test_usage_getattr() {
    // import foo
    // getattr(foo, 'bar')
    let stmts = vec![import(&["foo"]), expr_stmt(call(name("getattr"), vec![name("foo"), Expr::Other]))];
    let usage = extract_symbol_usage("", &stmts);
    assert!(matches!(usage.get("foo"), Some(SymbolUsage::All)));
}

#[test]
fn test_usage_aliased_import() {
    // from foo import bar as b
    // b()
    let stmts = vec![import_from("foo", &[("bar", Some("b"))]), expr_stmt(call(name("b"), Vec::new()))];
    let usage = extract_symbol_usage("", &stmts);
    assert!(specific(&usage, "foo").contains(&"bar".to_string()));
}

#[test]
fn test_usage_import_always_records_dependency() {
    // from foo import bar, baz
    // baz()
    let stmts = vec![import_from("foo", &[("bar", None), ("baz", None)]), expr_stmt(call(name("baz"), Vec::new()))];
    let usage = extract_symbol_usage("", &stmts);
    let set = specific(&usage, "foo");
    assert!(set.contains(&"baz".to_string()), "should record baz");
    assert!(set.contains(&"bar".to_string()), "should record bar — import creates dependency");
}

#[test]
fn test_usage_multiple_attributes() {
    // import foo
    // foo.bar()
    // foo.baz()
    let stmts = vec![
        import(&["foo"]),
        expr_stmt(call(attr(name("foo"), "bar"), Vec::new())),
        expr_stmt(call(attr(name("foo"), "baz"), Vec::new())),
    ];
    let usage = extract_symbol_usage("", &stmts);
    let set = specific(&usage, "foo");
    assert!(set.contains(&"bar".to_string()));
    assert!(set.contains(&"baz".to_string()));
}

#[test]
fn test_symbol_aware_module_import_attribute_access() {
    // myapp/base.py:        def foo(): ...
    //                       def bar(): ...
    // myapp/uses_module.py: import myapp.base
    //                       myapp.base.foo()
    let base = vec![def("foo", vec![Stmt::Other]), def("bar", vec![Stmt::Other])];
    let uses_module = vec![
        import(&["myapp.base"]),
        expr_stmt(call(attr(attr(name("myapp"), "base"), "foo"), Vec::new())),
    ];
    let files = vec![("myapp.base", base), ("myapp.uses_module", uses_module)];
    let results: Vec<FileResult> = files
        .iter()
        .map(|(m, stmts)| FileResult {
            module_class: m.to_string(),
            deps: extract_imports(m, stmts),
            usage: extract_symbol_usage(m, stmts),
        })
        .collect();
    let root = "/t/symbols".to_string();
    let trees = Trees { trees: vec![Tree::from_file_results(root, &results)] };
    let exists = |p: &String| p == "/t/symbols/myapp/base.py" || p == "/t/symbols/myapp/uses_module.py";
    let changes = vec![("/t/symbols/myapp/base.py".to_string(), vec![Symbol::Function("foo".to_string())])];
    let deps = trees.get_dependees_symbol_aware(&changes, &Vec::new(), &exists);
    assert!(
        deps.contains(&"/t/symbols/myapp/uses_module.py".to_string()),
        "uses_module.py accesses myapp.base.foo(), should be flagged when foo changes, got: {:?}",
        deps
    );
    let usage = extract_symbol_usage("myapp.uses_module", &files[1].1);
    assert!(specific(&usage, "myapp.base").contains(&"foo".to_string()));
}

// ---------------------------------------------------------------------------
// References between top-level symbols
// ---------------------------------------------------------------------------

fn deps_of<'a>(deps: &'a [(String, Vec<String>)], n: &str) -> Option<&'a Vec<String>> {
    deps.iter().find(|(k, _)| k == n).map(|(_, v)| v)
}

/// def a(): return b()
/// def b(): return c()
/// def c(): return 42
fn chain() -> Vec<Stmt> {
    vec![
        def("a", vec![ret(call(name("b"), Vec::new()))]),
        def("b", vec![ret(call(name("c"), Vec::new()))]),
        def("c", vec![ret(Expr::Other)]),
    ]
}

#[test]
fn test_intra_module_deps_simple() {
    // def helper(): return 42
    // def main(): return helper()
    let stmts = vec![def("helper", vec![ret(Expr::Other)]), def("main", vec![ret(call(name("helper"), Vec::new()))])];
    let deps = extract_intra_module_deps(&stmts);
    assert!(deps_of(&deps, "main").unwrap().contains(&"helper".to_string()));
    assert!(deps_of(&deps, "helper").map_or(true, |v| !v.contains(&"main".to_string())));
}

#[test]
fn test_intra_module_deps_transitive() {
    let deps = extract_intra_module_deps(&chain());
    assert!(deps_of(&deps, "a").unwrap().contains(&"b".to_string()));
    assert!(deps_of(&deps, "b").unwrap().contains(&"c".to_string()));
    assert!(!deps_of(&deps, "a").unwrap().contains(&"c".to_string()));
}

#[test]
fn test_propagate_intra_module_changes() {
    // def _setup_tenant_certificates(): return 42
    // def setup_vm():
    //     certs = _setup_tenant_certificates()
    //     return certs
    // def unrelated(): return 0
    let stmts = vec![
        def("_setup_tenant_certificates", vec![ret(Expr::Other)]),
        def("setup_vm", vec![assign("certs", call(name("_setup_tenant_certificates"), Vec::new())), ret(name("certs"))]),
        def("unrelated", vec![ret(Expr::Other)]),
    ];
    let deps = extract_intra_module_deps(&stmts);
    let changed = vec![Symbol::Function("_setup_tenant_certificates".to_string())];
    let propagated = propagate_intra_module_changes(&changed, &deps);
    assert!(propagated.contains(&Symbol::Function("_setup_tenant_certificates".to_string())));
    assert!(propagated.contains(&Symbol::Function("setup_vm".to_string())));
    assert!(!propagated.contains(&Symbol::Function("unrelated".to_string())));
}

#[test]
fn test_propagate_transitive_chain() {
    let deps = extract_intra_module_deps(&chain());
    let propagated = propagate_intra_module_changes(&vec![Symbol::Function("c".to_string())], &deps);
    assert!(propagated.contains(&Symbol::Function("c".to_string())));
    assert!(propagated.contains(&Symbol::Function("b".to_string())));
    assert!(propagated.contains(&Symbol::Function("a".to_string())));
}

#[test]
fn test_intra_module_deps_class_reference() {
    // class Base: pass
    // class Child(Base): pass
    let stmts = vec![class("Base", Vec::new(), vec![Stmt::Other]), class("Child", vec![name("Base")], vec![Stmt::Other])];
    let deps = extract_intra_module_deps(&stmts);
    assert!(deps_of(&deps, "Child").unwrap().contains(&"Base".to_string()));
}

#[test]
fn test_intra_module_deps_variable_reference() {
    // DEFAULT_CONFIG = {"key": "value"}
    // def get_config(): return DEFAULT_CONFIG.copy()
    let stmts = vec![
        assign("DEFAULT_CONFIG", Expr::Dict(Vec::new())),
        def("get_config", vec![ret(call(attr(name("DEFAULT_CONFIG"), "copy"), Vec::new()))]),
    ];
    let deps = extract_intra_module_deps(&stmts);
    assert!(deps_of(&deps, "get_config").unwrap().contains(&"DEFAULT_CONFIG".to_string()));
}

#[test]
fn cache_entries_hold_what_parsing_gives() {
    // import foo
    // def f():
    //     return foo.bar()
    let src = "import foo\ndef f():\n    return foo.bar()\n";
    let stmts = vec![import(&["foo"]), def("f", vec![ret(call(attr(name("foo"), "bar"), Vec::new()))])];
    let (toks, ranges) = lex(src);
    let e = entry_of_parse("m", &stmts, src, &stmts, &ranges, &toks);
    assert!(e.imports.contains(&"foo".to_string()));
    assert!(e.imports.contains(&"foo.__init__".to_string()));
    assert_eq!(e.semantic_hash, semantic_hash(src, &toks));
    let mut keys: Vec<String> = e.symbol_hashes.as_ref().expect("hashes").iter().map(|(k, _)| k.clone()).collect();
    keys.sort();
    assert_eq!(keys, vec!["__body__".to_string(), "fn:f".to_string()]);
    let hs = hashes(src, &stmts);
    let f_hash = hash_of(&hs, &Symbol::Function("f".into()));
    assert_eq!(e.symbol_hashes.unwrap().iter().find(|(k, _)| k == "fn:f").map(|(_, h)| *h), f_hash);
    assert!(specific(&e.symbol_usage, "foo").contains(&"bar".to_string()));
}

#[test]
fn usage_names_only_imported_modules() {
    // from pkg import sub
    // import a.b
    // sub.f()
    // a.b.g()
    // getattr(a, "x")
    let src = "from pkg import sub\nimport a.b\nsub.f()\na.b.g()\ngetattr(a, \"x\")\n";
    let stmts = vec![
        import_from("pkg", &[("sub", None)]),
        import(&["a.b"]),
        expr_stmt(call(attr(name("sub"), "f"), Vec::new())),
        expr_stmt(call(attr(attr(name("a"), "b"), "g"), Vec::new())),
        expr_stmt(call(name("getattr"), vec![name("a"), Expr::Other])),
    ];
    let (toks, ranges) = lex(src);
    let e = entry_of_parse("m", &stmts, src, &stmts, &ranges, &toks);
    let mut used: Vec<String> = e.symbol_usage.usage.iter().map(|(m, _)| m.clone()).collect();
    used.sort();
    assert_eq!(used, vec!["a.b".to_string(), "pkg".to_string(), "pkg.sub".to_string()]);
    for m in &used {
        assert!(e.imports.contains(m), "{m} is used but not among the imports {:?}", e.imports);
    }
    assert!(specific(&e.symbol_usage, "pkg.sub").contains(&"f".to_string()));
    assert!(matches!(e.symbol_usage.get("a.b"), Some(SymbolUsage::All)));
}

#[test]
fn a_usage_upgraded_to_all_covers_every_symbol() {
    let mut u = SymbolUsage::Specific(vec!["foo".to_string()]);
    u.record_specific("bar");
    assert!(matches!(&u, SymbolUsage::Specific(v) if v.len() == 2));
    u.upgrade_to_all();
    assert!(matches!(u, SymbolUsage::All));
    u.record_specific("baz");
    assert!(matches!(u, SymbolUsage::All));
}

fn import_as(module: &str, alias: &str) -> Stmt {
    Stmt::Import(vec![Alias { name: module.to_string(), asname: Some(alias.to_string()) }])
}

#[test]
fn aliased_import_records_uses_through_the_alias() {
    // import foo as f
    // f.bar()
    let stmts = vec![import_as("foo", "f"), expr_stmt(call(attr(name("f"), "bar"), Vec::new()))];
    let usage = extract_symbol_usage("", &stmts);
    assert_eq!(specific(&usage, "foo"), vec!["bar".to_string()]);
    assert!(usage.get("f").is_none());
}

#[test]
fn aliased_dotted_import_stands_for_the_whole_module() {
    // import a.b as c
    // c.x.y()
    let stmts = vec![import_as("a.b", "c"), expr_stmt(call(attr(attr(name("c"), "x"), "y"), Vec::new()))];
    let usage = extract_symbol_usage("", &stmts);
    assert_eq!(specific(&usage, "a.b"), vec!["x".to_string()]);
    // import a.b as a
    // a.x()
    let stmts = vec![import_as("a.b", "a"), expr_stmt(call(attr(name("a"), "x"), Vec::new()))];
    let usage = extract_symbol_usage("", &stmts);
    assert_eq!(specific(&usage, "a.b"), vec!["x".to_string()]);
}

#[test]
fn aliased_module_passed_around_is_used_whole() {
    // import foo as f
    // g = f
    let stmts = vec![import_as("foo", "f"), assign("g", name("f"))];
    let usage = extract_symbol_usage("", &stmts);
    assert!(matches!(usage.get("foo"), Some(SymbolUsage::All)));
}
