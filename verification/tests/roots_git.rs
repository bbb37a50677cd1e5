use shorts::git::{changed_paths_from, paths_from_output, root_from_output, GitRepo};
use shorts::roots::{calculate_namespace_roots, calculate_python_roots};

fn strings(v: &[&str]) -> Vec<String> {
    v.iter().map(|s| s.to_string()).collect()
}

#[test]
fn test_calculate_python_roots() {
    // tmp/myapp/__init__.py and tmp/myapp/utils.py
    let exists = |p: &String| p == "/tmp/shorts_test_roots/myapp/__init__.py" || p == "/tmp/shorts_test_roots/myapp/utils.py";
    let files = strings(&["/tmp/shorts_test_roots/myapp/utils.py"]);
    let roots = calculate_python_roots(&files, &exists);
    // Root should be tmp/ (since tmp/ does NOT have __init__.py)
    assert!(roots.contains(&"/tmp/shorts_test_roots".to_string()));
    assert_eq!(roots.len(), 1);
}

#[test]
fn python_roots_ignore_other_files_and_stop_at_the_top() {
    let all = |p: &String| p.ends_with("__init__.py");
    let files = strings(&["/a/b/c.py", "/a/b/notes.txt"]);
    assert_eq!(calculate_python_roots(&files, &all), strings(&["/"]));
    let none = |_: &String| false;
    assert_eq!(calculate_python_roots(&files, &none), strings(&["/a/b"]));
}

#[test]
fn namespace_roots_stop_at_the_git_root_or_a_directory_without_python() {
    let has_py = |d: &String| d == "/repo/src" || d == "/repo/src/pkg" || d == "/repo";
    let files = strings(&["/repo/src/pkg/mod.py"]);
    let with_git = calculate_namespace_roots(&files, Some("/repo/src".to_string()), &has_py);
    assert_eq!(with_git, strings(&["/repo/src"]));
    let no_git = calculate_namespace_roots(&files, None, &has_py);
    assert_eq!(no_git, strings(&["/repo"]));
    let only_pkg = |d: &String| d == "/repo/src/pkg";
    assert_eq!(calculate_namespace_roots(&files, None, &only_pkg), strings(&["/repo/src/pkg"]));
}

#[test]
fn upstream_is_taken_from_the_environment_then_the_remote_refs() {
    let main_only = |r: &String| r == "origin/main";
    let master_only = |r: &String| r == "origin/master";
    let none = |_: &String| false;
    assert_eq!(GitRepo::detect_upstream(Some("upstream/dev".to_string()), &main_only), "upstream/dev");
    assert_eq!(GitRepo::detect_upstream(Some(String::new()), &main_only), "origin/main");
    assert_eq!(GitRepo::detect_upstream(None, &master_only), "origin/master");
    assert_eq!(GitRepo::detect_upstream(None, &none), "");
}

#[test]
fn git_outputs_are_read_as_paths() {
    assert_eq!(root_from_output("  /home/me/repo\n"), "/home/me/repo");
    let mut ps = paths_from_output("/repo", "a.py\n\n  b/c.py  \na.py\n");
    ps.sort();
    assert_eq!(ps, strings(&["/repo/a.py", "/repo/b/c.py"]));
    let mut all = changed_paths_from("/repo", Some("a.py\n"), Some("b.py\na.py\n"));
    all.sort();
    assert_eq!(all, strings(&["/repo/a.py", "/repo/b.py"]));
    assert!(changed_paths_from("/repo", None, None).is_empty());
    let repo = GitRepo::new("/repo".to_string(), "origin/main".to_string());
    assert_eq!(repo.root(), "/repo");
    assert_eq!(repo.default_upstream(), "origin/main");
}
