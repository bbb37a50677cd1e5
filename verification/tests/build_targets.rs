use shorts::targets::{default_sources, extract_list_param, extract_string_param, parse_build_targets, try_parse_build_targets};

#[test]
fn test_parse_python_tests_with_name() {
    let content = r#"
python_tests(
    name="tests",
    timeout=120,
)
"#;
    let targets = parse_build_targets(content, "mydir");
    assert_eq!(targets.len(), 1);
    assert_eq!(targets[0].name, "tests");
    assert_eq!(targets[0].target_type, "python_tests");
    assert_eq!(targets[0].sources, vec!["test_*.py", "*_test.py", "tests.py", "conftest.py",]);
}

#[test]
fn test_parse_python_sources_with_custom_sources() {
    let content = r#"
python_sources(
    name="lib",
    sources=["app.py", "util.py"],
)
"#;
    let targets = parse_build_targets(content, "mydir");
    assert_eq!(targets.len(), 1);
    assert_eq!(targets[0].name, "lib");
    assert_eq!(targets[0].sources, vec!["app.py", "util.py"]);
}

#[test]
fn test_parse_defaults_name_to_dir() {
    let content = r#"
python_tests()
"#;
    let targets = parse_build_targets(content, "pipeline");
    assert_eq!(targets[0].name, "pipeline");
}

#[test]
fn test_parse_multiple_targets() {
    let content = r#"
python_tests(
    name="tests",
)

python_sources(
    name="sources",
)
"#;
    let targets = parse_build_targets(content, "mydir");
    assert_eq!(targets.len(), 2);
    assert_eq!(targets[0].target_type, "python_tests");
    assert_eq!(targets[1].target_type, "python_sources");
}

#[test]
fn test_parse_ignores_unknown_target_types() {
    let content = r#"
shell_sources(name="sh")
python_tests(name="tests")
resources(name="data")
"#;
    let targets = parse_build_targets(content, "mydir");
    assert_eq!(targets.len(), 1);
    assert_eq!(targets[0].target_type, "python_tests");
}

#[test]
fn test_parse_single_quoted_name() {
    let content = r#"
python_tests(
    name='tests',
)
"#;
    let targets = parse_build_targets(content, "mydir");
    assert_eq!(targets[0].name, "tests");
}

#[test]
fn test_parse_python_sources_default_sources() {
    let content = r#"
python_sources(
    name="lib",
)
"#;
    let targets = parse_build_targets(content, "mydir");
    assert_eq!(targets[0].sources, vec!["*.py", "!test_*.py", "!*_test.py", "!conftest.py"]);
}

#[test]
fn test_parse_name_not_confused_with_rename() {
    let content = r#"
python_tests(
    rename="wrong",
    name="correct",
)
"#;
    let targets = parse_build_targets(content, "mydir");
    assert_eq!(targets[0].name, "correct");
}

#[test]
fn test_parse_sources_with_negation() {
    let content = r#"
python_sources(
    sources=["*.py", "!test_*.py"],
)
"#;
    let targets = parse_build_targets(content, "mydir");
    assert_eq!(targets[0].sources, vec!["*.py", "!test_*.py"]);
}

#[test]
fn sources_listed_before_tests_come_after_them() {
    let content = "python_sources(name=\"a\")\npython_tests(name=\"b\")\npython_sources(name=\"c\")\n";
    let targets = parse_build_targets(content, "d");
    let names: Vec<&str> = targets.iter().map(|t| t.name.as_str()).collect();
    assert_eq!(names, vec!["b", "a", "c"]);
}

#[test]
fn nested_parentheses_stay_inside_the_block() {
    let content = "python_tests(name=\"t\", overrides=dict(x=(1, 2)), sources=[\"a_test.py\"])\npython_sources()\n";
    let targets = parse_build_targets(content, "d");
    assert_eq!(targets.len(), 2);
    assert_eq!(targets[0].sources, vec!["a_test.py"]);
    assert_eq!(targets[1].name, "d");
}

#[test]
fn sources_that_are_not_literals_fall_back_to_defaults() {
    let content = "python_sources(sources=SOURCES)\npython_tests(sources=[\"a.py\", glob(\"x\")])\npython_tests(sources=[])\n";
    let targets = parse_build_targets(content, "d");
    assert_eq!(targets.len(), 3);
    assert_eq!(targets[0].sources, default_sources("python_tests"));
    assert_eq!(targets[1].sources, default_sources("python_tests"));
    assert_eq!(targets[2].sources, default_sources("python_sources"));
}

#[test]
fn unterminated_name_string_takes_the_default() {
    let content = "python_tests(name=\"oops)\n";
    let targets = parse_build_targets(content, "d");
    assert_eq!(targets[0].name, "d");
}

#[test]
fn unclosed_call_keeps_all_but_the_last_character() {
    let content = "python_tests(name=\"abc\"";
    let targets = parse_build_targets(content, "d");
    assert_eq!(targets.len(), 1);
    assert_eq!(targets[0].name, "d");
    let content = "python_tests(name=\"abc\" ";
    let targets = parse_build_targets(content, "d");
    assert_eq!(targets[0].name, "abc");
}

#[test]
fn scan_that_would_slice_inside_a_character_is_refused() {
    assert!(try_parse_build_targets("python_tests(", "d").is_none());
    assert!(try_parse_build_targets("\u{2192}python_tests()", "d").is_none());
    assert!(try_parse_build_targets("python_tests(name=\"x\" \u{e9}", "d").is_none());
    assert!(try_parse_build_targets("python_tests()", "d").is_some());
}

#[test]
fn default_sources_of_an_unknown_type_are_empty() {
    assert!(default_sources("resources").is_empty());
}

#[test]
fn string_params_are_read_from_the_first_standalone_occurrence() {
    let block = "python_tests(\n    sub_name=\"x\",\n    name= 'unit',\n    timeout=120,\n)";
    assert_eq!(extract_string_param(block, "name"), Some("unit".to_string()));
    assert_eq!(extract_string_param(block, "timeout"), None);
    assert_eq!(extract_string_param(block, "missing"), None);
    assert_eq!(extract_string_param("f(name=\"open", "name"), None);
}

#[test]
fn list_params_hold_only_quoted_strings() {
    let block = "python_sources(sources=[\"a.py\", 'b.py', ], dependencies=[\":x\", other])";
    assert_eq!(extract_list_param(block, "sources"), Some(vec!["a.py".to_string(), "b.py".to_string()]));
    assert_eq!(extract_list_param(block, "dependencies"), None);
    assert_eq!(extract_list_param("f(sources=[])", "sources"), None);
    assert_eq!(extract_list_param("f(sources=glob(\"*.py\"))", "sources"), None);
    assert_eq!(extract_list_param("f(sources=[\"a.py\"", "sources"), None);
}
