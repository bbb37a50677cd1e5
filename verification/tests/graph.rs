use shorts::graph::{FileResult, Tree, Trees};
use shorts::paths::path_to_class;
use shorts::symbols::{ModuleSymbolUsage, Symbol};

fn make_tree_with_symbols(
    root: &str,
    module_edges: &[(&str, &str)],
    symbol_edges: &[(&str, &str, &str)],
    all_edges: &[(&str, &str)],
) -> Tree {
    Tree {
        root: root.to_string(),
        importers: module_edges.iter().map(|(a, b)| (a.to_string(), b.to_string())).collect(),
        dependencies: module_edges.iter().map(|(a, b)| (b.to_string(), a.to_string())).collect(),
        symbol_importers: symbol_edges
            .iter()
            .map(|(m, s, i)| (m.to_string(), s.to_string(), i.to_string()))
            .collect(),
        all_importers: all_edges.iter().map(|(a, b)| (a.to_string(), b.to_string())).collect(),
    }
}

fn make_tree(root: &str, edges: &[(&str, &str)]) -> Tree {
    make_tree_with_symbols(root, edges, &[], &[])
}

fn has(v: &[String], s: &str) -> bool {
    v.iter().any(|x| x == s)
}

fn strings(v: &[&str]) -> Vec<String> {
    v.iter().map(|s| s.to_string()).collect()
}

#[test]
fn test_path_to_class() {
    assert_eq!(path_to_class("/project", "/project/myapp/utils.py"), Some("myapp.utils".to_string()));
    assert_eq!(path_to_class("/project", "/project/myapp/__init__.py"), Some("myapp.__init__".to_string()));
}

#[test]
fn test_path_to_class_not_python() {
    assert_eq!(path_to_class("/project", "/project/myapp/utils.rs"), None);
}

#[test]
fn test_path_to_class_wrong_root() {
    assert_eq!(path_to_class("/other", "/project/myapp/utils.py"), None);
}

#[test]
fn test_path_to_class_across_trees_longest_prefix() {
    let tree1 = make_tree("/repo", &[]);
    let tree2 = make_tree("/repo/py/kafka/src", &[]);
    let trees = Trees { trees: vec![tree1, tree2] };
    let class = trees.path_to_class_across_trees("/repo/py/kafka/src/avn/kafka/consumer.py");
    assert_eq!(class, Some("avn.kafka.consumer".to_string()));
}

#[test]
fn test_get_importers_across_trees() {
    let tree1 = make_tree("/repo", &[("avn.kafka.consumer", "aiven.acorn.api")]);
    let tree2 = make_tree("/repo/py/kafka/src", &[("avn.kafka.consumer", "avn.kafka.producer")]);
    let trees = Trees { trees: vec![tree1, tree2] };
    let importers = trees.get_importers_across_trees("avn.kafka.consumer");
    assert!(has(&importers, "aiven.acorn.api"));
    assert!(has(&importers, "avn.kafka.producer"));
    assert_eq!(importers.len(), 2);
}

#[test]
fn test_bfs_transitive() {
    let tree = make_tree("/project", &[("myapp.a", "myapp.b"), ("myapp.b", "myapp.c")]);
    let trees = Trees { trees: vec![tree] };
    let seen = trees.get_dependee_classes(&strings(&["myapp.a"]));
    assert!(has(&seen, "myapp.a"));
    assert!(has(&seen, "myapp.b"));
    assert!(has(&seen, "myapp.c"));
}

#[test]
fn test_bfs_no_importers() {
    let tree = make_tree("/project", &[("myapp.a", "myapp.b")]);
    let trees = Trees { trees: vec![tree] };
    let seen = trees.get_dependee_classes(&strings(&["myapp.b"]));
    assert!(has(&seen, "myapp.b"));
    assert_eq!(seen.len(), 1);
}

#[test]
fn test_bfs_cycle() {
    let tree = make_tree(
        "/project",
        &[("myapp.a", "myapp.b"), ("myapp.b", "myapp.c"), ("myapp.c", "myapp.a")],
    );
    let trees = Trees { trees: vec![tree] };
    let seen = trees.get_dependee_classes(&strings(&["myapp.a"]));
    assert!(has(&seen, "myapp.a"));
    assert!(has(&seen, "myapp.b"));
    assert!(has(&seen, "myapp.c"));
    assert_eq!(seen.len(), 3);
}

#[test]
fn test_get_importers_across_trees_empty() {
    let tree = make_tree("/project", &[("myapp.a", "myapp.b")]);
    let trees = Trees { trees: vec![tree] };
    let importers = trees.get_importers_across_trees("myapp.nonexistent");
    assert!(importers.is_empty());
}

fn changes(module: &str, syms: Vec<Symbol>) -> Vec<(String, Vec<Symbol>)> {
    vec![(module.to_string(), syms)]
}

#[test]
fn test_symbol_aware_only_affected_importers() {
    let tree = make_tree_with_symbols(
        "/project",
        &[("myapp.a", "myapp.b"), ("myapp.a", "myapp.c")],
        &[("myapp.a", "foo", "myapp.b"), ("myapp.a", "bar", "myapp.c")],
        &[],
    );
    let trees = Trees { trees: vec![tree] };
    let result = trees.get_dependee_classes_symbol_aware(
        &changes("myapp.a", vec![Symbol::Function("foo".to_string())]),
        &Vec::new(),
    );
    assert!(has(&result, "myapp.a"));
    assert!(has(&result, "myapp.b"));
    assert!(!has(&result, "myapp.c"));
}

#[test]
fn test_symbol_aware_star_import_always_flagged() {
    let tree = make_tree_with_symbols(
        "/project",
        &[("myapp.a", "myapp.b"), ("myapp.a", "myapp.c")],
        &[("myapp.a", "foo", "myapp.b")],
        &[("myapp.a", "myapp.c")],
    );
    let trees = Trees { trees: vec![tree] };
    let result = trees.get_dependee_classes_symbol_aware(
        &changes("myapp.a", vec![Symbol::Function("bar".to_string())]),
        &Vec::new(),
    );
    assert!(has(&result, "myapp.a"));
    assert!(!has(&result, "myapp.b"), "B uses foo, not bar");
    assert!(has(&result, "myapp.c"), "C has star import, always flagged");
}

#[test]
fn test_symbol_aware_module_body_flags_all() {
    let tree = make_tree_with_symbols(
        "/project",
        &[("myapp.a", "myapp.b"), ("myapp.a", "myapp.c")],
        &[("myapp.a", "foo", "myapp.b")],
        &[],
    );
    let trees = Trees { trees: vec![tree] };
    let result = trees.get_dependee_classes_symbol_aware(&changes("myapp.a", vec![Symbol::ModuleBody]), &Vec::new());
    assert!(has(&result, "myapp.b"));
    assert!(has(&result, "myapp.c"));
}

#[test]
fn test_symbol_aware_transitive_propagation() {
    let tree = make_tree_with_symbols(
        "/project",
        &[("myapp.a", "myapp.b"), ("myapp.a", "myapp.d"), ("myapp.b", "myapp.c")],
        &[("myapp.a", "foo", "myapp.b")],
        &[],
    );
    let trees = Trees { trees: vec![tree] };
    let result = trees.get_dependee_classes_symbol_aware(
        &changes("myapp.a", vec![Symbol::Function("foo".to_string())]),
        &Vec::new(),
    );
    assert!(has(&result, "myapp.a"));
    assert!(has(&result, "myapp.b"), "uses foo directly");
    assert!(has(&result, "myapp.c"), "imports B transitively");
    assert!(!has(&result, "myapp.d"), "uses A but not foo");
}

#[test]
fn test_forward_dependencies() {
    let tree = make_tree("/project", &[("myapp.a", "myapp.b"), ("myapp.b", "myapp.c")]);
    let trees = Trees { trees: vec![tree] };
    let deps = trees.get_dependencies_across_trees("myapp.b");
    assert!(has(&deps, "myapp.a"), "b imports a");
    assert!(!has(&deps, "myapp.c"), "b does not import c");
}

#[test]
fn test_forward_dependencies_transitive() {
    let tree = make_tree("/project", &[("myapp.a", "myapp.b"), ("myapp.b", "myapp.c")]);
    let trees = Trees { trees: vec![tree] };
    let seen = trees.get_dependency_classes(&strings(&["myapp.c"]));
    assert!(has(&seen, "myapp.c"), "includes self");
    assert!(has(&seen, "myapp.b"), "c imports b");
    assert!(has(&seen, "myapp.a"), "b imports a (transitive)");
}

#[test]
fn test_symbol_aware_fallback_classes() {
    let tree = make_tree_with_symbols(
        "/project",
        &[("myapp.a", "myapp.b"), ("myapp.a", "myapp.c")],
        &[("myapp.a", "foo", "myapp.b")],
        &[],
    );
    let trees = Trees { trees: vec![tree] };
    let result = trees.get_dependee_classes_symbol_aware(&Vec::new(), &strings(&["myapp.a"]));
    assert!(has(&result, "myapp.b"));
    assert!(has(&result, "myapp.c"));
}

#[test]
fn test_symbol_aware_subset_of_module_level() {
    let tree = make_tree_with_symbols(
        "/project",
        &[("myapp.a", "myapp.b"), ("myapp.a", "myapp.c"), ("myapp.c", "myapp.d")],
        &[("myapp.a", "foo", "myapp.b"), ("myapp.a", "bar", "myapp.c")],
        &[],
    );
    let trees = Trees { trees: vec![tree] };
    let aware = trees.get_dependee_classes_symbol_aware(
        &changes("myapp.a", vec![Symbol::Function("bar".to_string())]),
        &Vec::new(),
    );
    let module_level = trees.get_dependee_classes(&strings(&["myapp.a"]));
    for c in &aware {
        assert!(has(&module_level, c), "{c} is not a module-level dependee");
    }
    assert!(has(&aware, "myapp.d"));
    assert!(!has(&aware, "myapp.b"));
}

#[test]
fn dependees_with_reasons_say_why() {
    let tree = make_tree_with_symbols(
        "/project",
        &[("myapp.a", "myapp.b"), ("myapp.a", "myapp.c"), ("myapp.b", "myapp.e"), ("myapp.z", "myapp.y")],
        &[("myapp.a", "foo", "myapp.b")],
        &[("myapp.a", "myapp.c")],
    );
    let trees = Trees { trees: vec![tree] };
    let mut r = trees.get_dependee_classes_with_reasons(
        &changes("myapp.a", vec![Symbol::Function("foo".to_string())]),
        &strings(&["myapp.z"]),
    );
    r.sort();
    assert_eq!(
        r,
        vec![
            ("myapp.a".to_string(), "foo() changed".to_string()),
            ("myapp.b".to_string(), "uses myapp.a.foo".to_string()),
            ("myapp.c".to_string(), "star-imports myapp.a".to_string()),
            ("myapp.e".to_string(), "imports myapp.b".to_string()),
            ("myapp.y".to_string(), "imports myapp.z".to_string()),
            ("myapp.z".to_string(), "changed".to_string()),
        ]
    );
}

#[test]
fn dependees_with_reasons_match_the_plain_dependees() {
    let tree = make_tree_with_symbols(
        "/project",
        &[("m.a", "m.b"), ("m.a", "m.c"), ("m.c", "m.d"), ("m.d", "m.a")],
        &[("m.a", "x", "m.c")],
        &[],
    );
    let trees = Trees { trees: vec![tree] };
    let sc = changes("m.a", vec![Symbol::Variable("x".to_string())]);
    let mut plain = trees.get_dependee_classes_symbol_aware(&sc, &Vec::new());
    let mut keys: Vec<String> = trees.get_dependee_classes_with_reasons(&sc, &Vec::new()).into_iter().map(|(k, _)| k).collect();
    plain.sort();
    keys.sort();
    assert_eq!(plain, keys);
    assert_eq!(keys, strings(&["m.a", "m.c", "m.d"]));
}

#[test]
fn reasons_in_an_import_cycle_lead_back_to_the_change() {
    // m.x imports the changed m.m; m.y and m.x import each other; m.w imports m.y
    let tree = make_tree("/p", &[("m.m", "m.x"), ("m.x", "m.y"), ("m.y", "m.x"), ("m.y", "m.w")]);
    let trees = Trees { trees: vec![tree] };
    let mut r = trees.get_dependee_classes_with_reasons(&Vec::new(), &strings(&["m.m"]));
    r.sort();
    assert_eq!(
        r,
        vec![
            ("m.m".to_string(), "changed".to_string()),
            ("m.w".to_string(), "imports m.y".to_string()),
            ("m.x".to_string(), "imports m.m".to_string()),
            ("m.y".to_string(), "imports m.x".to_string()),
        ]
    );
}

#[test]
fn module_body_change_is_given_as_the_reason() {
    let tree = make_tree_with_symbols("/p", &[("m.a", "m.b")], &[], &[]);
    let trees = Trees { trees: vec![tree] };
    let r = trees.get_dependee_classes_with_reasons(
        &changes("m.a", vec![Symbol::ModuleBody, Symbol::Class("K".to_string())]),
        &Vec::new(),
    );
    let b = r.iter().find(|(k, _)| k == "m.b").expect("m.b");
    assert_eq!(b.1, "imports m.a (module body changed)");
    let a = r.iter().find(|(k, _)| k == "m.a").expect("m.a");
    assert_eq!(a.1, "K, module body changed");
}

fn exists_in(files: &'static [&'static str]) -> impl Fn(&String) -> bool {
    move |p: &String| files.iter().any(|f| f == p)
}

#[test]
fn dependee_files_are_found_on_disk() {
    let tree = make_tree("/project", &[("myapp.utils", "myapp.models"), ("myapp.models", "myapp")]);
    let trees = Trees { trees: vec![tree] };
    let exists = exists_in(&["/project/myapp/utils.py", "/project/myapp/models.py", "/project/myapp/__init__.py"]);
    let mut r = trees.get_dependees(&strings(&["/project/myapp/utils.py"]), &exists);
    r.sort();
    assert_eq!(r, strings(&["/project/myapp/__init__.py", "/project/myapp/models.py", "/project/myapp/utils.py"]));
    let mut f = trees.get_dependencies(&strings(&["/project/myapp/models.py"]), &exists);
    f.sort();
    assert_eq!(f, strings(&["/project/myapp/models.py", "/project/myapp/utils.py"]));
}

#[test]
fn explained_dependees_list_their_triggers() {
    let tree = make_tree("/p", &[("a", "c"), ("b", "c")]);
    let trees = Trees { trees: vec![tree] };
    let exists = exists_in(&["/p/a.py", "/p/b.py", "/p/c.py"]);
    let mut r = trees.get_dependees_explained(&strings(&["/p/a.py", "/p/b.py"]), &exists);
    r.sort();
    for e in r.iter_mut() {
        e.1.sort();
    }
    assert_eq!(
        r,
        vec![
            ("/p/a.py".to_string(), strings(&["/p/a.py"])),
            ("/p/b.py".to_string(), strings(&["/p/b.py"])),
            ("/p/c.py".to_string(), strings(&["/p/a.py", "/p/b.py"])),
        ]
    );
}

#[test]
fn symbol_aware_paths_with_reasons() {
    let tree = make_tree_with_symbols("/p", &[("a", "b"), ("a", "c")], &[("a", "f", "b")], &[]);
    let trees = Trees { trees: vec![tree] };
    let exists = exists_in(&["/p/a.py", "/p/b.py", "/p/c.py"]);
    let sc = vec![("/p/a.py".to_string(), vec![Symbol::Function("f".to_string())])];
    let mut r = trees.get_dependees_symbol_aware_with_reasons(&sc, &Vec::new(), &exists);
    r.sort();
    assert_eq!(
        r,
        vec![
            ("/p/a.py".to_string(), "f() changed".to_string()),
            ("/p/b.py".to_string(), "uses a.f".to_string()),
        ]
    );
    let mut plain = trees.get_dependees_symbol_aware(&sc, &Vec::new(), &exists);
    plain.sort();
    assert_eq!(plain, strings(&["/p/a.py", "/p/b.py"]));
}

#[test]
fn tree_from_file_results_has_the_edges_of_the_files() {
    let mut usage = ModuleSymbolUsage::new();
    usage.record_specific("myapp.a", "foo");
    usage.record_all("myapp.c");
    let results = vec![
        FileResult { module_class: "myapp.b".to_string(), deps: strings(&["myapp.a", "myapp.c"]), usage },
        FileResult { module_class: "myapp.a".to_string(), deps: Vec::new(), usage: ModuleSymbolUsage::new() },
    ];
    let tree = Tree::from_file_results("/project".to_string(), &results);
    let trees = Trees { trees: vec![tree] };
    assert_eq!(trees.get_importers_across_trees("myapp.a"), strings(&["myapp.b"]));
    assert_eq!(trees.get_importers_across_trees("myapp.c"), strings(&["myapp.b"]));
    let mut deps = trees.get_dependencies_across_trees("myapp.b");
    deps.sort();
    assert_eq!(deps, strings(&["myapp.a", "myapp.c"]));
    assert_eq!(
        trees.get_symbol_importers_across_trees(&"myapp.a".to_string(), &"foo".to_string()),
        strings(&["myapp.b"])
    );
    assert_eq!(trees.get_all_importers_across_trees(&"myapp.c".to_string()), strings(&["myapp.b"]));
}

#[test]
fn file_level_symbol_aware_dependees_lie_within_the_module_level_ones() {
    let tree = make_tree_with_symbols(
        "/p",
        &[("a", "b"), ("a", "c"), ("b", "d"), ("c", "e")],
        &[("a", "f", "b")],
        &[],
    );
    let trees = Trees { trees: vec![tree] };
    let exists = exists_in(&["/p/a.py", "/p/b.py", "/p/c.py", "/p/d.py", "/p/e.py"]);
    let sc = vec![("/p/a.py".to_string(), vec![Symbol::Function("f".to_string())])];
    let mut aware = trees.get_dependees_symbol_aware(&sc, &Vec::new(), &exists);
    let mut plain = trees.get_dependees(&strings(&["/p/a.py"]), &exists);
    aware.sort();
    plain.sort();
    assert_eq!(aware, strings(&["/p/a.py", "/p/b.py", "/p/d.py"]));
    assert_eq!(plain, strings(&["/p/a.py", "/p/b.py", "/p/c.py", "/p/d.py", "/p/e.py"]));
    assert!(aware.iter().all(|x| plain.contains(x)));
    // with no symbol changes the two queries agree
    let mut fallback = trees.get_dependees_symbol_aware(&Vec::new(), &strings(&["/p/a.py"]), &exists);
    fallback.sort();
    assert_eq!(fallback, plain);
    // the reasons query flags the same files as the plain one
    let mut keys: Vec<String> =
        trees.get_dependees_symbol_aware_with_reasons(&sc, &Vec::new(), &exists).into_iter().map(|(k, _)| k).collect();
    keys.sort();
    assert_eq!(keys, aware);
}

#[test]
fn a_symbol_use_is_the_reason_before_a_star_import() {
    // m.b uses m.a.foo and also uses all of m.a; m.c only uses all of m.a
    let tree = make_tree_with_symbols(
        "/p",
        &[("m.a", "m.b"), ("m.a", "m.c"), ("m.a", "m.d")],
        &[("m.a", "foo", "m.b")],
        &[("m.a", "m.b"), ("m.a", "m.c")],
    );
    let trees = Trees { trees: vec![tree] };
    let mut r = trees.get_dependee_classes_with_reasons(
        &changes("m.a", vec![Symbol::Function("foo".to_string()), Symbol::ModuleBody]),
        &Vec::new(),
    );
    r.sort();
    assert_eq!(r[1], ("m.b".to_string(), "uses m.a.foo".to_string()));
    assert_eq!(r[2], ("m.c".to_string(), "star-imports m.a".to_string()));
    assert_eq!(r[3], ("m.d".to_string(), "imports m.a (module body changed)".to_string()));
}
