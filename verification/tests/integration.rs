// Dependee scenarios over small source trees held in memory: each tree is
// made, as the program makes it, from the per-file results of what each
// Python file imports and uses.
use shorts::buildfiles::is_py_file_name;
use shorts::graph::{walk_enters, FileResult, Tree, Trees};
use shorts::imports::extract_imports;
use shorts::paths::path_to_class;
use shorts::pyast::{Alias, Expr, Stmt};
use shorts::usage::extract_symbol_usage;

fn import_from(module: &str, names: &[&str]) -> Stmt {
    Stmt::ImportFrom {
        module: Some(module.to_string()),
        names: names.iter().map(|n| Alias { name: n.to_string(), asname: None }).collect(),
        level: 0,
    }
}

fn import(module: &str) -> Stmt {
    Stmt::Import(vec![Alias { name: module.to_string(), asname: None }])
}

fn call_name(n: &str) -> Stmt {
    Stmt::Expr(Expr::Call(Box::new(Expr::Name(n.to_string())), Vec::new(), Vec::new()))
}

/// The tree of `root` from its Python files, each given by its path and its
/// top-level statements.
fn tree_of(root: &str, files: Vec<(&str, Vec<Stmt>)>) -> Tree {
    let mut results: Vec<FileResult> = Vec::new();
    for (path, stmts) in files {
        let module_class = path_to_class(root, path).expect("file under the root");
        results.push(FileResult {
            deps: extract_imports(&module_class, &stmts),
            usage: extract_symbol_usage(&module_class, &stmts),
            module_class,
        });
    }
    Tree::from_file_results(root.to_string(), &results)
}

fn paths_of(files: &[(&str, Vec<Stmt>)]) -> Vec<String> {
    files.iter().map(|(p, _)| p.to_string()).collect()
}

fn dependees(trees: &Trees, files: &[String], input: &str) -> Vec<String> {
    let exists = |p: &String| files.iter().any(|f| f == p);
    trees.get_dependees(&vec![input.to_string()], &exists)
}

const SIMPLE: &str = "/testdata/simple";

/// `myapp/models.py` imports `myapp/utils.py`; `myapp/views.py` imports `myapp/models.py`.
fn simple_project() -> (Trees, Vec<String>) {
    let files = vec![
        ("/testdata/simple/myapp/__init__.py", Vec::new()),
        ("/testdata/simple/myapp/utils.py", Vec::new()),
        ("/testdata/simple/myapp/models.py", vec![import_from("myapp.utils", &["helper"]), call_name("helper")]),
        ("/testdata/simple/myapp/views.py", vec![import_from("myapp.models", &["Model"]), call_name("Model")]),
    ];
    let paths = paths_of(&files);
    (Trees { trees: vec![tree_of(SIMPLE, files)] }, paths)
}

#[test]
fn test_simple_dependees() {
    let (trees, files) = simple_project();
    let deps = dependees(&trees, &files, "/testdata/simple/myapp/utils.py");
    assert!(
        deps.contains(&"/testdata/simple/myapp/models.py".to_string()),
        "models.py should depend on utils.py, got: {:?}",
        deps
    );
}

#[test]
fn test_transitive_simple() {
    let (trees, files) = simple_project();
    let deps = dependees(&trees, &files, "/testdata/simple/myapp/utils.py");
    // views.py imports models.py which imports utils.py — transitive
    assert!(
        deps.contains(&"/testdata/simple/myapp/views.py".to_string()),
        "views.py should transitively depend on utils.py, got: {:?}",
        deps
    );
}

const NAMESPACE: &str = "/testdata/namespace/src";

/// `avn/kafka/producer.py` imports `avn/kafka/consumer.py`; no directory has an
/// `__init__.py`.
fn namespace_files() -> Vec<(&'static str, Vec<Stmt>)> {
    vec![
        ("/testdata/namespace/src/avn/kafka/consumer.py", Vec::new()),
        ("/testdata/namespace/src/avn/kafka/producer.py", vec![import("avn.kafka.consumer")]),
    ]
}

#[test]
fn test_namespace_packages() {
    let files = namespace_files();
    let paths = paths_of(&files);
    let trees = Trees { trees: vec![tree_of(NAMESPACE, files)] };
    let deps = dependees(&trees, &paths, "/testdata/namespace/src/avn/kafka/consumer.py");
    assert!(
        deps.contains(&"/testdata/namespace/src/avn/kafka/producer.py".to_string()),
        "producer should depend on consumer, got: {:?}",
        deps
    );
}

#[test]
fn test_namespace_packages_disabled() {
    let paths = paths_of(&namespace_files());
    // Without namespace packages the walk does not enter `avn/`, which has no
    // `__init__.py`: the tree holds none of its files.
    let trees = Trees { trees: vec![tree_of(NAMESPACE, Vec::new())] };
    let deps = dependees(&trees, &paths, "/testdata/namespace/src/avn/kafka/consumer.py");
    // Without namespace packages, avn/ (no __init__.py at src/ level) should be skipped
    assert!(
        !deps.contains(&"/testdata/namespace/src/avn/kafka/producer.py".to_string()),
        "without namespace packages, producer should NOT be detected, got: {:?}",
        deps
    );
}

const REPO: &str = "/testdata/crossroot/repo";
const KAFKA_SRC: &str = "/testdata/crossroot/repo/py/kafka/src";
const METRICS_SRC: &str = "/testdata/crossroot/repo/py/metrics/src";

const API: &str = "/testdata/crossroot/repo/aiven/acorn/api.py";
const CONSUMER: &str = "/testdata/crossroot/repo/py/kafka/src/avn/kafka/consumer.py";
const COLLECTOR: &str = "/testdata/crossroot/repo/py/metrics/src/avn/metrics/collector.py";

/// `aiven/acorn/api.py` and `avn/metrics/collector.py` import the consumer of
/// `avn/kafka`, which lives under its own source root.
fn crossroot_files() -> Vec<(&'static str, Vec<Stmt>)> {
    vec![
        (API, vec![import_from("avn.kafka.consumer", &["Consumer"]), call_name("Consumer")]),
        (CONSUMER, Vec::new()),
        (COLLECTOR, vec![import_from("avn.kafka.consumer", &["Consumer"]), call_name("Consumer")]),
    ]
}

/// The trees of `roots`, each from the files beneath it.
fn crossroot_trees(roots: &[&str]) -> (Trees, Vec<String>) {
    let paths = paths_of(&crossroot_files());
    let mut trees = Vec::new();
    for root in roots {
        let under: Vec<(&str, Vec<Stmt>)> =
            crossroot_files().into_iter().filter(|(p, _)| path_to_class(root, p).is_some()).collect();
        trees.push(tree_of(root, under));
    }
    (Trees { trees }, paths)
}

#[test]
fn test_cross_root_dependees() {
    let (trees, files) = crossroot_trees(&[REPO, KAFKA_SRC]);
    let deps = dependees(&trees, &files, CONSUMER);
    assert!(deps.contains(&API.to_string()), "api.py should depend on consumer.py via cross-root import, got: {:?}", deps);
}

#[test]
fn test_cross_project_avn_imports() {
    let (trees, files) = crossroot_trees(&[REPO, KAFKA_SRC, METRICS_SRC]);
    let deps = dependees(&trees, &files, CONSUMER);
    assert!(deps.contains(&COLLECTOR.to_string()), "collector.py should depend on consumer.py, got: {:?}", deps);
}

#[test]
fn test_transitive_cross_root() {
    let (trees, files) = crossroot_trees(&[REPO, KAFKA_SRC, METRICS_SRC]);
    let deps = dependees(&trees, &files, CONSUMER);
    assert!(deps.contains(&API.to_string()), "api.py should be in dependees, got: {:?}", deps);
    assert!(deps.contains(&COLLECTOR.to_string()), "collector.py should be in dependees, got: {:?}", deps);
}

#[test]
fn the_walk_enters_packages_and_every_directory_with_namespace_packages() {
    assert!(walk_enters(false, false, false, false));
    assert!(walk_enters(true, false, true, false));
    assert!(walk_enters(true, false, false, true));
    assert!(!walk_enters(true, false, false, false));
    assert!(walk_enters(true, true, false, false));
}

#[test]
fn python_file_names_have_the_py_extension() {
    assert!(is_py_file_name(&"models.py".to_string()));
    assert!(is_py_file_name(&"..py".to_string()));
    assert!(!is_py_file_name(&".py".to_string()));
    assert!(!is_py_file_name(&"models.pyc".to_string()));
    assert!(!is_py_file_name(&"py".to_string()));
}
