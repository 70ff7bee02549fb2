use kotlin_java_mcp::index::SymbolKind;
use kotlin_java_mcp::kotlin::parse_file;

#[test]
fn test_interface_parsing() {
    let source = "package com.example\n\ninterface Repository<T> {\n    fun findById(id: String): T?\n}\n";
    let (_, occurrences, _) = parse_file("Test.kt", source);
    let repo = occurrences
        .iter()
        .find(|o| o.name == "Repository")
        .expect("Expected Repository in occurrences");
    assert!(
        matches!(repo.kind, SymbolKind::InterfaceDeclaration),
        "Expected InterfaceDeclaration, got {:?}",
        repo.kind
    );
    assert_eq!(repo.fqn.as_deref(), Some("com.example.Repository"));
}

#[test]
fn test_parse_simple_file() {
    let source = r#"
package com.example

import java.util.List

class MyClass {
    fun myMethod(): String {
        return "hello"
    }

    val myProperty: Int = 42
}

fun topLevelFunction() {}
"#;
    let (file_info, occurrences, _) = parse_file("/tmp/project/Test.kt", source);
    assert_eq!(file_info.package, Some("com.example".to_string()));
    assert_eq!(file_info.imports.len(), 1);
    assert_eq!(file_info.imports[0].path, "java.util.List");

    let decl_names: Vec<&str> = occurrences
        .iter()
        .filter(|o| o.kind.is_declaration())
        .map(|o| o.name.as_str())
        .collect();
    assert!(decl_names.contains(&"MyClass"), "Expected MyClass declaration, got: {:?}", decl_names);
    assert!(decl_names.contains(&"myMethod"), "Expected myMethod declaration, got: {:?}", decl_names);
    assert!(decl_names.contains(&"myProperty"), "Expected myProperty declaration, got: {:?}", decl_names);
    assert!(decl_names.contains(&"topLevelFunction"), "Expected topLevelFunction, got: {:?}", decl_names);
}

#[test]
fn test_parse_imports() {
    let source = r#"
package com.example

import com.other.Foo
import com.other.Bar as Baz
import com.util.*
"#;
    let (file_info, _, _) = parse_file("/tmp/project/Test.kt", source);
    assert_eq!(file_info.imports.len(), 3);

    let foo = &file_info.imports[0];
    assert_eq!(foo.path, "com.other.Foo");
    assert!(!foo.is_wildcard);
    assert!(foo.alias.is_none());

    let baz = &file_info.imports[1];
    assert_eq!(baz.path, "com.other.Bar");
    assert_eq!(baz.alias, Some("Baz".to_string()));

    let wildcard = &file_info.imports[2];
    assert!(wildcard.is_wildcard);
}

#[test]
fn kotlin_method_fqn_includes_class() {
    let source = "package p\n\nclass A {\n    fun m() {}\n}\n";
    let (_, occs, _) = parse_file("A.kt", source);
    let m = occs.iter().find(|o| o.name == "m" && o.kind.is_declaration()).unwrap();
    assert_eq!(m.fqn.as_deref(), Some("p.A.m"));
    assert_eq!(m.line, 4);
    assert_eq!(m.column, 5);
}

#[test]
fn kotlin_type_alias_edge() {
    let source = "package p\n\ntypealias Name = String\n";
    let (_, occs, aliases) = parse_file("T.kt", source);
    assert!(occs.iter().any(|o| o.name == "Name" && matches!(o.kind, SymbolKind::TypeAliasDeclaration)));
    assert_eq!(aliases, vec![("p.Name".to_string(), "String".to_string())]);
}

#[test]
fn kotlin_extension_function_has_receiver() {
    let source = "package p\n\nfun String.shout(): String = this\n";
    let (_, occs, _) = parse_file("E.kt", source);
    let f = occs.iter().find(|o| o.name == "shout").unwrap();
    assert!(matches!(f.kind, SymbolKind::ExtensionFunctionDeclaration));
    assert_eq!(f.receiver_type.as_deref(), Some("String"));
}

#[test]
fn kotlin_companion_scope() {
    let source = "package p\n\nclass A {\n    companion object {\n        fun make() {}\n    }\n}\n";
    let (_, occs, _) = parse_file("C.kt", source);
    let c = occs.iter().find(|o| matches!(o.kind, SymbolKind::CompanionObjectDeclaration)).unwrap();
    assert_eq!(c.name, "Companion");
    let make = occs.iter().find(|o| o.name == "make").unwrap();
    assert_eq!(make.fqn.as_deref(), Some("p.A.Companion.make"));
}

#[test]
fn kotlin_navigation_records_receiver_and_member() {
    let source = "package p\n\nfun f() {\n    val x = Config.name\n}\n";
    let (_, occs, _) = parse_file("N.kt", source);
    assert!(occs.iter().any(|o| o.name == "Config" && matches!(o.kind, SymbolKind::PropertyReference)));
    let member = occs.iter().find(|o| o.name == "name" && matches!(o.kind, SymbolKind::PropertyReference)).unwrap();
    assert_eq!(member.receiver_type.as_deref(), Some("Config"));
}

#[test]
fn kotlin_type_reference_needs_uppercase_start() {
    let source = "package p\n\nfun f(a: Foo<Bar>, b: lowercase) {}\n";
    let (_, occs, _) = parse_file("T.kt", source);
    let types: Vec<&str> = occs
        .iter()
        .filter(|o| matches!(o.kind, SymbolKind::TypeReference))
        .map(|o| o.name.as_str())
        .collect();
    assert!(types.contains(&"Foo"), "{:?}", types);
    assert!(!types.contains(&"lowercase"), "{:?}", types);
    assert!(!types.iter().any(|t| t.contains('<')), "{:?}", types);
}

#[test]
fn kotlin_references_get_first_guess_fqn() {
    let source = "package p\n\nimport q.Helper\n\nfun f() {\n    Helper.run()\n    local()\n}\n";
    let (_, occs, _) = parse_file("R.kt", source);
    let helper = occs.iter().find(|o| o.name == "Helper" && !matches!(o.kind, SymbolKind::Import)).unwrap();
    assert_eq!(helper.fqn.as_deref(), Some("q.Helper"));
    let run = occs.iter().find(|o| o.name == "run").unwrap();
    assert!(matches!(run.kind, SymbolKind::CallSite));
    assert_eq!(run.receiver_type.as_deref(), Some("Helper"));
    let local = occs.iter().find(|o| o.name == "local").unwrap();
    assert_eq!(local.fqn.as_deref(), Some("p.local"));
}
