use shorts::buildfiles::{
    build_refers_to_changed, collect_build_files, find_build_files, format_path, is_build_file_name,
    is_referencing_build, listed_python_files, owned_python_files, should_exclude, should_include,
};
use shorts::graph::{Tree, Trees};
use shorts::reasons::put_all_absent;
use shorts::report::{debug_report, explain_report, partition_inputs, put_lists_absent, sort_strings, text_report};

fn strings(v: &[&str]) -> Vec<String> {
    v.iter().map(|s| s.to_string()).collect()
}

/// The names of the files directly in `dir`, among `files`.
fn lister(files: Vec<&'static str>) -> impl Fn(&String) -> Vec<String> {
    move |dir: &String| {
        let prefix = if dir.ends_with('/') { dir.clone() } else { format!("{dir}/") };
        files
            .iter()
            .filter_map(|f| f.strip_prefix(prefix.as_str()))
            .filter(|rest| !rest.contains('/'))
            .map(|rest| rest.to_string())
            .collect()
    }
}

fn tree(root: &str, edges: &[(&str, &str)]) -> Tree {
    Tree {
        root: root.to_string(),
        importers: edges.iter().map(|(a, b)| (a.to_string(), b.to_string())).collect(),
        dependencies: edges.iter().map(|(a, b)| (b.to_string(), a.to_string())).collect(),
        symbol_importers: Vec::new(),
        all_importers: Vec::new(),
    }
}

#[test]
fn test_build_files_text_output() {
    // testdata "simple": myapp/models.py imports myapp/utils.py; myapp/BUILD
    let files = vec![
        "/t/simple/myapp/__init__.py",
        "/t/simple/myapp/utils.py",
        "/t/simple/myapp/models.py",
        "/t/simple/myapp/BUILD",
    ];
    let exists = {
        let files = files.clone();
        move |p: &String| files.iter().any(|f| f == p)
    };
    let trees = Trees { trees: vec![tree("/t/simple", &[("myapp.utils", "myapp.models")])] };
    let deps = sort_strings(&trees.get_dependees(&strings(&["/t/simple/myapp/utils.py"]), &exists));
    let builds = collect_build_files(&deps, "BUILD", &lister(files));
    let stdout = text_report(&deps, &builds, "\n");
    assert!(stdout.contains("BUILD"), "text output should include BUILD: {stdout}");
    let lines: Vec<&str> = stdout.lines().collect();
    let build_idx = lines.iter().position(|l| l.contains("BUILD")).unwrap();
    let py_indices: Vec<usize> =
        lines.iter().enumerate().filter(|(_, l)| l.ends_with(".py")).map(|(i, _)| i).collect();
    assert!(py_indices.iter().all(|&i| i < build_idx), "BUILD files should appear after Python files: {:?}", lines);
}

#[test]
fn test_build_files_no_build_walks_up() {
    // testdata "buildfiles": pkg/core.py with pkg/BUILD; pkg_no_build/orphan.py imports
    // pkg.core and has no BUILD of its own, only the root's
    let files = vec![
        "/t/buildfiles/BUILD",
        "/t/buildfiles/pkg/core.py",
        "/t/buildfiles/pkg/BUILD",
        "/t/buildfiles/pkg_no_build/orphan.py",
    ];
    let exists = {
        let files = files.clone();
        move |p: &String| files.iter().any(|f| f == p)
    };
    let trees = Trees { trees: vec![tree("/t/buildfiles", &[("pkg.core", "pkg_no_build.orphan")])] };
    let deps = sort_strings(&trees.get_dependees(&strings(&["/t/buildfiles/pkg/core.py"]), &exists));
    let list = lister(files);
    let builds = collect_build_files(&deps, "BUILD", &list);
    let stdout = text_report(&deps, &builds, "\n");
    assert!(stdout.contains("orphan.py"), "orphan.py should be a dependee: {stdout}");
    assert_eq!(
        find_build_files("/t/buildfiles/pkg_no_build/orphan.py", "BUILD", &list),
        strings(&["/t/buildfiles/BUILD"])
    );
    assert_eq!(builds, strings(&["/t/buildfiles/BUILD", "/t/buildfiles/pkg/BUILD"]));
}

#[test]
fn nearest_directory_with_build_files_wins_and_variants_count() {
    let list = lister(vec![
        "/r/BUILD",
        "/r/a/BUILD.pants",
        "/r/a/BUILD",
        "/r/a/BUILDER",
        "/r/a/b/c.py",
    ]);
    assert_eq!(find_build_files("/r/a/b/c.py", "BUILD", &list), strings(&["/r/a/BUILD", "/r/a/BUILD.pants"]));
    assert_eq!(find_build_files("/r/x.py", "BUILD", &list), strings(&["/r/BUILD"]));
    assert!(find_build_files("/nowhere/x.py", "BUILD", &list).is_empty());
    assert!(find_build_files("/", "BUILD", &list).is_empty());
}

#[test]
fn collected_build_files_are_deduplicated_and_in_path_order() {
    let list = lister(vec!["/r/a/BUILD", "/r/a-b/BUILD", "/r/a/x.py", "/r/a/y.py", "/r/a-b/z.py"]);
    let r = collect_build_files(&strings(&["/r/a-b/z.py", "/r/a/x.py", "/r/a/y.py"]), "BUILD", &list);
    // "/r/a" comes before "/r/a-b" component by component
    assert_eq!(r, strings(&["/r/a/BUILD", "/r/a-b/BUILD"]));
}

#[test]
fn referencing_builds_are_compared_by_canonical_path() {
    let canon = |p: &String| p.replace("/./", "/");
    let refs = strings(&["/r/./a/BUILD"]);
    assert!(is_referencing_build(&"/r/a/BUILD".to_string(), &refs, &canon));
    assert!(!is_referencing_build(&"/r/b/BUILD".to_string(), &refs, &canon));
    assert!(!is_referencing_build(&"/r/a/BUILD".to_string(), &Vec::new(), &canon));
}

#[test]
fn test_build_file_name_default_is_build() {
    assert!(is_build_file_name("BUILD", "BUILD"));
    assert!(is_build_file_name("BUILD.pants", "BUILD"));
    assert!(!is_build_file_name("BUILDING", "BUILD"));
    assert!(!is_build_file_name("build", "BUILD"));
}

#[test]
fn test_build_file_name_custom() {
    assert!(is_build_file_name("TARGETS", "TARGETS"));
    assert!(is_build_file_name("TARGETS.v2", "TARGETS"));
    assert!(!is_build_file_name("BUILD", "TARGETS"));
}

#[test]
fn inputs_are_split_into_python_and_other_files() {
    let files = strings(&["/r/a.py", "/r/data.json", "/r/BUILD", "/r/BUILD.pants", "/r/b.py", "/r/README"]);
    let (py, other) = partition_inputs(&files, "BUILD");
    assert_eq!(py, strings(&["/r/a.py", "/r/b.py"]));
    assert_eq!(other, strings(&["/r/data.json", "/r/README"]));
}

#[test]
fn build_file_referring_to_a_changed_file_is_found() {
    let content = "resources(\n    sources=[\"data/config.json\"],\n)\n";
    assert!(build_refers_to_changed(content, "/r", "/r/pkg", &strings(&["/r/data/config.json"])));
    assert!(!build_refers_to_changed(content, "/r", "/r/pkg", &strings(&["/r/data/other.json"])));
    let globbed = "files(\n    \"data/*.json\"\n)\n";
    assert!(build_refers_to_changed(globbed, "/r", "/r/pkg", &strings(&["/r/data/x.json"])));
    let local = "files(\n    \"local.txt\",\n)\n";
    assert!(build_refers_to_changed(local, "/r", "/r/pkg", &strings(&["/r/pkg/local.txt"])));
}

#[test]
fn python_files_listed_in_a_build_file() {
    let content = "python_sources(\n    sources=[\n        \"a.py\",\n        'b.py',\n        \"src:target.py\",\n        \"c.txt\",\n    ],\n)\n";
    assert_eq!(listed_python_files(content), strings(&["a.py", "b.py"]));
}

#[test]
fn filters_keep_matching_paths() {
    assert!(should_include("/r/tests/test_a.py", "/r", &strings(&["tests/*"])));
    assert!(should_include("/r/src/test_a.py", "/r", &strings(&["test_*.py"])));
    assert!(should_include("/r/src/deep/x.py", "/r", &strings(&["deep"])));
    assert!(!should_include("/r/src/x.py", "/r", &strings(&["tests/*"])));
    assert!(should_include("/r/src/x.py", "/r", &Vec::new()));
}

#[test]
fn excludes_drop_matching_paths() {
    assert!(should_exclude("/r/vendor/lib.py", "/r", &strings(&["vendor"])));
    assert!(should_exclude("/r/src/conftest.py", "/r", &strings(&["conftest.py"])));
    assert!(!should_exclude("/r/src/x.py", "/r", &strings(&["vendor"])));
    assert!(!should_exclude("/r/src/x.py", "/r", &Vec::new()));
    assert!(!should_exclude("/r/src/x.py", "/r", &strings(&["[bad"])));
}

#[test]
fn paths_are_shown_relative_to_cwd() {
    assert_eq!(format_path("/r/src/x.py", "/r", true), "src/x.py");
    assert_eq!(format_path("/r/src/x.py", "/r", false), "/r/src/x.py");
    assert_eq!(format_path("/other/x.py", "/r", true), "/other/x.py");
}

#[test]
fn reports_can_be_null_separated() {
    let out = text_report(&strings(&["/r/a.py", "/r/b.py"]), &Vec::new(), "\0");
    assert_eq!(out, "/r/a.py\0/r/b.py\0");
}

#[test]
fn explained_and_debug_lines() {
    let explained = vec![("/r/b.py".to_string(), strings(&["/r/a.py", "/r/c.py"]))];
    assert_eq!(
        explain_report(&explained, &strings(&["/r/BUILD"]), "\n"),
        "/r/b.py  (triggered by: /r/a.py, /r/c.py)\n/r/BUILD\n"
    );
    let debug = vec![("/r/b.py".to_string(), "uses a.f".to_string())];
    assert_eq!(debug_report(&debug, &Vec::new(), "\n"), "/r/b.py  (uses a.f)\n");
}

#[test]
fn strings_are_sorted_bytewise() {
    assert_eq!(sort_strings(&strings(&["b", "a-b", "a/b", "A", "a"])), strings(&["A", "a", "a-b", "a/b", "b"]));
}

#[test]
fn build_owns_listed_files_under_the_first_root_and_python_files_beside_it() {
    let files = vec![
        "/r1/pkg/BUILD",
        "/r1/pkg/a.py",
        "/r1/pkg/.py",
        "/r1/pkg/notes.txt",
        "/r2/lib/util.py",
        "/r1/lib/util.py",
        "/r2/other/x.py",
    ];
    let exists = {
        let files = files.clone();
        move |p: &String| files.iter().any(|f| f == p)
    };
    let content = "python_sources(\n    dependencies=[\n        \"lib/util.py\",\n        \"other/x.py\",\n        \"missing/y.py\",\n        \"src:target.py\",\n    ],\n)\n";
    let owned = owned_python_files("/r1/pkg", content, &strings(&["/r1", "/r2"]), &exists, &lister(files));
    assert_eq!(owned, strings(&["/r1/lib/util.py", "/r2/other/x.py", "/r1/pkg/a.py"]));
}

#[test]
fn build_without_listed_files_owns_what_is_beside_it() {
    let files = vec!["/r/d/BUILD", "/r/d/m.py", "/r/d/n.py", "/r/d/sub/o.py"];
    let exists = {
        let files = files.clone();
        move |p: &String| files.iter().any(|f| f == p)
    };
    let owned = owned_python_files("/r/d", "resources(sources=[\"*.sql\"])\n", &strings(&["/r"]), &exists, &lister(files));
    assert_eq!(owned, strings(&["/r/d/m.py", "/r/d/n.py"]));
}

#[test]
fn merged_entries_keep_the_first_reason() {
    let mut r = vec![("/p/a.py".to_string(), "uses m.f".to_string())];
    put_all_absent(&mut r, &strings(&["/p/a.py", "/p/b.py"]), &"BUILD dependency".to_string());
    put_all_absent(&mut r, &strings(&["/p/b.py", "/p/c.py"]), &"stdin".to_string());
    assert_eq!(
        r,
        vec![
            ("/p/a.py".to_string(), "uses m.f".to_string()),
            ("/p/b.py".to_string(), "BUILD dependency".to_string()),
            ("/p/c.py".to_string(), "stdin".to_string()),
        ]
    );
    let mut e = vec![("/p/a.py".to_string(), strings(&["/p/x.py"]))];
    put_lists_absent(&mut e, &strings(&["/p/a.py", "/p/b.py", "/p/b.py"]), &strings(&["/p/q.sql"]));
    put_lists_absent(&mut e, &strings(&["/p/c.py"]), &Vec::new());
    assert_eq!(
        e,
        vec![
            ("/p/a.py".to_string(), strings(&["/p/x.py"])),
            ("/p/b.py".to_string(), strings(&["/p/q.sql"])),
            ("/p/c.py".to_string(), Vec::new()),
        ]
    );
}
