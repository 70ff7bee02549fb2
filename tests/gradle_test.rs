use kotlin_java_mcp::gradle::{
    format_dependencies, format_modules, parse_dependencies_output, parse_projects_output,
};

#[test]
fn test_parse_projects() {
    let output = r#"
Root project 'my-project'
+--- Project ':app'
+--- Project ':core'
\--- Project ':feature'
"#;
    let modules = parse_projects_output(output);
    assert_eq!(modules.len(), 3);
    assert_eq!(modules[0].path, ":app");
    assert_eq!(modules[0].name, "app");
    assert_eq!(modules[1].path, ":core");
    assert_eq!(modules[2].path, ":feature");
}

#[test]
fn test_parse_dependencies() {
    let output = r#"compileClasspath - Compile classpath for source set 'main'.
+--- org.jetbrains.kotlin:kotlin-stdlib:1.9.0
+--- com.google.code.gson:gson:2.10.1
+--- project :core
\--- org.some:lib:1.0 -> 1.1 (*)
"#;
    let deps = parse_dependencies_output(output);
    assert_eq!(deps.len(), 4);

    assert_eq!(deps[0].group, "org.jetbrains.kotlin");
    assert_eq!(deps[0].artifact, "kotlin-stdlib");
    assert_eq!(deps[0].version, "1.9.0");

    assert_eq!(deps[2].is_project, true);
    assert_eq!(deps[2].artifact, "core");

    assert_eq!(deps[3].resolved_version, Some("1.1".to_string()));
    assert!(deps[3].is_transitive_duplicate);
}

#[test]
fn test_parse_empty_output() {
    let deps = parse_dependencies_output("");
    assert!(deps.is_empty());
}

#[test]
fn gradle_nested_dependencies_become_children() {
    let output = "compileClasspath - Compile classpath for source set 'main'.\n+--- com.google.code.gson:gson:2.10.1\n|    \\--- com.google.errorprone:error_prone_annotations:2.21.1\n\\--- org.a:b:1.0\n";
    let deps = parse_dependencies_output(output);
    assert_eq!(deps.len(), 2);
    assert_eq!(deps[0].children.len(), 1);
    assert_eq!(deps[0].children[0].artifact, "error_prone_annotations");
    assert_eq!(deps[1].artifact, "b");
}

#[test]
fn gradle_formats_tree_and_modules() {
    let output = "+--- org.a:b:1.0 -> 1.1 (*)\n+--- project :core\n";
    let deps = parse_dependencies_output(output);
    let text = format_dependencies(":app", &deps);
    assert_eq!(
        text,
        "Dependencies for module ':app':\n\norg.a:b:1.0 -> 1.1 (*)\nproject :core\n"
    );
    let modules = parse_projects_output("+--- Project ':app'\n");
    assert_eq!(format_modules(&modules), "Project modules (1 total):\n\n  :app (app)\n");
}
