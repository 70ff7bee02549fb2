use kotlin_java_mcp::assemble::{assemble_index, build_index, parse_source, FileSymbols};
use kotlin_java_mcp::index::{ImportInfo, Keyed, Span, SymbolIndex, SymbolKind, SymbolOccurrence};
use kotlin_java_mcp::query::{find_definition, find_unique_fqn, find_usages, format_occurrences};
use kotlin_java_mcp::resolve::{follow_type_alias, resolve_reference};
use kotlin_java_mcp::xref::{cross_reference, register_companion_aliases};

fn files(sources: &[(&str, &str)]) -> Vec<FileSymbols> {
    sources
        .iter()
        .filter_map(|(p, s)| parse_source(p, s))
        .collect()
}

fn index_of(sources: &[(&str, &str)]) -> SymbolIndex {
    build_index(files(sources))
}

fn fqn_keys(index: &SymbolIndex) -> Vec<String> {
    let mut keys: Vec<String> = index.by_fqn.iter().map(|e| e.key.clone()).collect();
    keys.sort();
    keys
}

#[test]
fn empty_source_records_file_only() {
    let index = index_of(&[("/p/Empty.kt", "")]);
    assert_eq!(index.files.len(), 1);
    assert_eq!(index.files[0].key, "/p/Empty.kt");
    assert_eq!(index.stats().total_occurrences, 0);
    assert!(index.by_fqn.is_empty());
}

#[test]
fn package_without_declarations_has_only_imports() {
    let index = index_of(&[("/p/Only.kt", "package com.example\n\nimport com.other.Thing\n")]);
    assert_eq!(index.files.len(), 1);
    assert_eq!(index.files[0].value.package.as_deref(), Some("com.example"));
    let all: Vec<&SymbolOccurrence> = index.by_name.iter().flat_map(|e| e.value.iter()).collect();
    assert_eq!(all.len(), 1);
    assert!(matches!(all[0].kind, SymbolKind::Import));
    assert_eq!(all[0].fqn.as_deref(), Some("com.other.Thing"));
}

#[test]
fn unknown_symbol_gives_empty_results() {
    let index = index_of(&[("/p/A.kt", "package p\n\nclass A\n")]);
    assert!(find_definition(&index, "DoesNotExist", None, None).is_empty());
    assert!(find_usages(&index, "DoesNotExist", None, None, true).is_empty());
    assert_eq!(
        format_occurrences(&find_definition(&index, "DoesNotExist", None, None), "/p"),
        "No results found."
    );
}

#[test]
fn kotlin_interface_definition() {
    let index = index_of(&[(
        "/p/Repository.kt",
        "package com.example\n\ninterface Repository<T> { fun findById(id: String): T? }",
    )]);
    let defs = find_definition(&index, "Repository", None, None);
    assert_eq!(defs.len(), 1);
    assert!(matches!(defs[0].kind, SymbolKind::InterfaceDeclaration));
    assert_eq!(defs[0].fqn.as_deref(), Some("com.example.Repository"));
}

#[test]
fn kotlin_import_alias_call_site() {
    let index = index_of(&[(
        "/p/Use.kt",
        "package com.example\n\nimport com.other.Bar as Baz\n\nfun f() {\n    val x = Baz()\n}\n",
    )]);
    let calls: Vec<&SymbolOccurrence> = index
        .by_name
        .iter()
        .flat_map(|e| e.value.iter())
        .filter(|o| o.name == "Baz" && matches!(o.kind, SymbolKind::CallSite))
        .collect();
    assert_eq!(calls.len(), 1);
    assert_eq!(calls[0].fqn.as_deref(), Some("com.other.Bar"));
}

#[test]
fn java_constructor_and_class() {
    let index = index_of(&[("/p/Foo.java", "package com.example; class Foo { Foo(int x){} }")]);
    let ctor = find_definition(&index, "com.example.Foo.Foo", None, None);
    assert!(ctor.iter().any(|o| matches!(o.kind, SymbolKind::ConstructorDeclaration)));
    let class = find_definition(&index, "com.example.Foo", None, None);
    assert!(class.iter().any(|o| matches!(o.kind, SymbolKind::ClassDeclaration)));
}

#[test]
fn cross_language_usage_from_java() {
    let index = index_of(&[
        ("/p/core/User.kt", "package com.example.core\n\nclass User(val name: String)\n"),
        (
            "/p/app/UseUser.java",
            "package com.example.app;\n\nimport com.example.core.User;\n\nclass UseUser {\n    void f() {\n        User u = new User(\"x\");\n    }\n}\n",
        ),
    ]);
    let uses = find_usages(&index, "com.example.core.User", None, None, false);
    assert!(uses.iter().any(|o| o.file.ends_with("UseUser.java")
        && matches!(o.kind, SymbolKind::CallSite | SymbolKind::TypeReference)));
}

#[test]
fn top_level_function_not_shadowed_by_method() {
    let source = "package com.example.core\n\nfun generateReport(s: String) {}\n\nclass ReportServiceImpl {\n    fun generateReport(s: String) {}\n}\n\nfun caller() {\n    generateReport(\"test\")\n}\n";
    let index = index_of(&[("/p/ReportServiceImpl.kt", source)]);
    let calls: Vec<&SymbolOccurrence> = index
        .by_name
        .iter()
        .flat_map(|e| e.value.iter())
        .filter(|o| o.name == "generateReport" && matches!(o.kind, SymbolKind::CallSite))
        .collect();
    assert_eq!(calls.len(), 1);
    assert_eq!(calls[0].fqn.as_deref(), Some("com.example.core.generateReport"));
}

#[test]
fn lombok_accessors_defined_and_used() {
    let index = index_of(&[
        (
            "/p/LombokUser.java",
            "package com.example.core;\n\nimport lombok.Data;\n\n@Data\nclass LombokUser { String username; final String id; boolean active; }\n",
        ),
        (
            "/p/LombokConsumer.java",
            "package com.example.core;\n\nclass LombokConsumer {\n    void f(LombokUser u, String x) {\n        u.getUsername();\n        u.setUsername(x);\n    }\n}\n",
        ),
    ]);
    for name in ["getUsername", "setUsername", "isActive", "getId"] {
        let defs = find_definition(&index, name, None, None);
        assert!(
            defs.iter().any(|o| matches!(o.kind, SymbolKind::FunctionDeclaration)
                && o.file.ends_with("LombokUser.java")),
            "missing {}",
            name
        );
    }
    let set_id = find_definition(&index, "setId", None, None);
    assert!(!set_id.iter().any(|o| o.file.ends_with("LombokUser.java")));
    let uses = find_usages(&index, "com.example.core.LombokUser.username", None, None, false);
    assert!(uses.iter().any(|o| o.name == "getUsername" && o.file.ends_with("LombokConsumer.java")));
    assert!(uses.iter().any(|o| o.name == "setUsername" && o.file.ends_with("LombokConsumer.java")));
    let entry = index
        .lombok_accessors
        .iter()
        .find(|e| e.key == "com.example.core.LombokUser.username")
        .expect("accessor entry");
    for acc in &entry.value {
        assert_eq!(acc.rsplit_once('.').unwrap().0, "com.example.core.LombokUser");
    }
}

#[test]
fn top_level_class_listed_once_and_collisions_twice() {
    let index = index_of(&[
        ("/p/a/A.kt", "package p\n\nclass A\n"),
        ("/p/b/B.kt", "package q\n\nclass B\n"),
    ]);
    let decls = index.occurrences_qualified("p.A");
    assert_eq!(decls.iter().filter(|o| o.kind.is_declaration()).count(), 1);
    let clash = index_of(&[("/p/a/A.kt", "package p\n\nclass A\n"), ("/p/a/A2.kt", "package p\n\nclass A\n")]);
    let decls = clash.occurrences_qualified("p.A");
    assert_eq!(decls.iter().filter(|o| o.kind.is_declaration()).count(), 2);
}

#[test]
fn reindexing_is_stable() {
    let sources = [
        ("/p/core/User.kt", "package com.example.core\n\nclass User(val name: String)\n"),
        ("/p/core/Service.kt", "package com.example.core\n\nclass Service { fun load(): User = User(\"a\") }\n"),
    ];
    let a = index_of(&sources);
    let b = index_of(&sources);
    assert_eq!(fqn_keys(&a), fqn_keys(&b));
    let da: Vec<(String, usize)> = find_definition(&a, "User", None, None).iter().map(|o| (o.file.clone(), o.line)).collect();
    let db: Vec<(String, usize)> = find_definition(&b, "User", None, None).iter().map(|o| (o.file.clone(), o.line)).collect();
    assert_eq!(da, db);
}

#[test]
fn positions_are_one_based() {
    let index = index_of(&[("/p/A.kt", "class A {\n  fun f() { g() }\n}\n")]);
    for e in &index.by_name {
        for o in &e.value {
            assert!(o.line >= 1 && o.column >= 1);
        }
    }
    let a = find_definition(&index, "A", None, None);
    assert_eq!((a[0].line, a[0].column), (1, 1));
}

#[test]
fn every_fqn_occurrence_listed_under_fqn_and_name() {
    let index = assemble_index(files(&[
        ("/p/A.kt", "package p\n\nimport q.B\n\nclass A { fun f(b: B) { b.go() } }\n"),
    ]));
    for e in &index.by_name {
        for o in &e.value {
            assert_eq!(o.name, e.key);
            if let Some(f) = &o.fqn {
                let under = index.occurrences_qualified(f);
                assert!(under.iter().any(|x| x.byte_range == o.byte_range && x.name == o.name));
            }
        }
    }
}

#[test]
fn alias_cycle_terminates() {
    let aliases = vec![
        Keyed { key: "a".to_string(), value: "b".to_string() },
        Keyed { key: "b".to_string(), value: "a".to_string() },
        Keyed { key: "c".to_string(), value: "x".to_string() },
    ];
    assert_eq!(follow_type_alias("a", &aliases), "a");
    assert_eq!(follow_type_alias("c", &aliases), "x");
    assert_eq!(follow_type_alias("z", &aliases), "z");
}

#[test]
fn first_guess_prefers_import_then_package() {
    let imports = vec![ImportInfo {
        path: "com.other.Foo".to_string(),
        alias: None,
        is_wildcard: false,
        line: 1,
        column: 1,
        byte_range: Span { start: 0, end: 1 },
    }];
    assert_eq!(resolve_reference("Foo", Some("p"), &imports).as_deref(), Some("com.other.Foo"));
    assert_eq!(resolve_reference("Bar", Some("p"), &imports).as_deref(), Some("p.Bar"));
    assert_eq!(resolve_reference("Bar", None, &imports), None);
}

#[test]
fn definition_round_trip_for_every_declaration() {
    let index = index_of(&[
        ("/p/A.kt", "package p\n\nclass A {\n    val x = 1\n    fun f() {}\n}\n"),
        ("/p/B.java", "package q;\n\nclass B { int y; void g() {} }\n"),
    ]);
    for e in &index.by_name {
        for d in e.value.iter().filter(|o| o.kind.is_declaration()) {
            let f = d.fqn.clone().unwrap();
            let defs = find_definition(&index, &f, None, None);
            assert!(defs.iter().any(|x| x.byte_range == d.byte_range && x.file == d.file), "{}", f);
        }
    }
}

#[test]
fn usage_round_trip_for_every_reference() {
    let index = index_of(&[
        ("/p/A.kt", "package p\n\nclass A\n\nfun f() { val a = A() }\n"),
        ("/p/B.java", "package q;\n\nimport p.A;\n\nclass B { A a = new A(); }\n"),
    ]);
    for e in &index.by_name {
        for r in e.value.iter().filter(|o| o.kind.is_reference()) {
            if let Some(f) = &r.fqn {
                if f.contains('.') {
                    let uses = find_usages(&index, f, None, None, false);
                    assert!(uses.iter().any(|x| x.byte_range == r.byte_range && x.file == r.file), "{}", f);
                }
            }
        }
    }
}

#[test]
fn companion_members_reachable_without_companion() {
    let index = index_of(&[(
        "/p/C.kt",
        "package p\n\nclass Owner {\n    companion object {\n        fun make() {}\n    }\n}\n",
    )]);
    let defs = find_definition(&index, "p.Owner.make", None, None);
    assert!(defs.iter().any(|o| o.name == "make"));
}

#[test]
fn usages_sorted_by_file_then_line() {
    let index = index_of(&[
        ("/p/b/B.kt", "package p\n\nfun b() {\n    target()\n    target()\n}\n"),
        ("/p/a/A.kt", "package p\n\nfun target() {}\n\nfun a() { target() }\n"),
    ]);
    let uses = find_usages(&index, "p.target", None, None, false);
    let keys: Vec<(String, usize)> = uses.iter().map(|o| (o.file.clone(), o.line)).collect();
    let mut sorted = keys.clone();
    sorted.sort();
    assert_eq!(keys, sorted);
    assert_eq!(uses.len(), 3);
}

#[test]
fn unique_fqn_of_name() {
    let index = index_of(&[("/p/A.kt", "package p\n\nclass A\n")]);
    assert_eq!(find_unique_fqn(&index, "A").as_deref(), Some("p.A"));
    assert_eq!(find_unique_fqn(&index, "Nope"), None);
}

#[test]
fn format_lists_results_relative_to_root() {
    let index = index_of(&[("/p/src/A.kt", "package p\n\nclass A\n")]);
    let defs = find_definition(&index, "A", None, None);
    assert_eq!(
        format_occurrences(&defs, "/p"),
        "Found 1 result(s):\n\n  src/A.kt:3:1 - ClassDeclaration `A` [p.A]"
    );
}

#[test]
fn cross_reference_and_aliases_on_assembled_index() {
    let mut index = assemble_index(files(&[
        ("/p/A.kt", "package p\n\nimport q.*\n\nfun f() { Thing() }\n"),
        ("/q/T.kt", "package q\n\nclass Thing\n"),
    ]));
    cross_reference(&mut index);
    register_companion_aliases(&mut index);
    let calls = index.occurrences_named("Thing");
    let call = calls.iter().find(|o| matches!(o.kind, SymbolKind::CallSite)).unwrap();
    assert_eq!(call.fqn.as_deref(), Some("q.Thing"));
    assert!(index.occurrences_qualified("q.Thing").iter().any(|o| matches!(o.kind, SymbolKind::CallSite)));
    assert!(!index.occurrences_qualified("p.Thing").iter().any(|o| matches!(o.kind, SymbolKind::CallSite)));
}

#[test]
fn stats_describe_counts() {
    let index = index_of(&[("/p/A.kt", "package p\n\nclass A\n")]);
    let s = index.stats();
    assert_eq!(s.files, 1);
    assert_eq!(
        s.describe(),
        format!(
            "Indexed 1 files: {} unique names, {} FQNs, {} total occurrences, {} type aliases",
            s.symbols_by_name, s.symbols_by_fqn, s.total_occurrences, s.type_aliases
        )
    );
}
