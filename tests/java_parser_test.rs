use kotlin_java_mcp::index::SymbolKind;
use kotlin_java_mcp::java::{extract_java, parse_java_file};

#[test]
fn test_parse_java_class() {
    let source = r#"
package com.example;

public class MyClass {
    private String name;
    private int count;

    public MyClass(String name) {
        this.name = name;
    }

    public String getName() {
        return name;
    }

    public void setCount(int count) {
        this.count = count;
    }
}
"#;
    let (file_info, occurrences, _) = parse_java_file("MyClass.java", source);

    assert_eq!(file_info.package, Some("com.example".to_string()));

    let decl_names: Vec<&str> = occurrences
        .iter()
        .filter(|o| o.kind.is_declaration())
        .map(|o| o.name.as_str())
        .collect();
    assert!(decl_names.contains(&"MyClass"), "Expected MyClass declaration, got: {:?}", decl_names);
    assert!(decl_names.contains(&"name"), "Expected name field, got: {:?}", decl_names);
    assert!(decl_names.contains(&"count"), "Expected count field, got: {:?}", decl_names);
    assert!(decl_names.contains(&"getName"), "Expected getName method, got: {:?}", decl_names);
    assert!(decl_names.contains(&"setCount"), "Expected setCount method, got: {:?}", decl_names);

    let class_occ = occurrences
        .iter()
        .find(|o| o.name == "MyClass" && o.kind.is_declaration())
        .unwrap();
    assert_eq!(class_occ.fqn.as_deref(), Some("com.example.MyClass"));

    let get_name = occurrences
        .iter()
        .find(|o| o.name == "getName" && o.kind.is_declaration())
        .unwrap();
    assert_eq!(get_name.fqn.as_deref(), Some("com.example.MyClass.getName"));
}

#[test]
fn test_parse_java_constructor() {
    let source = r#"
package com.example;

public class Foo {
    public Foo(int x) {}
}
"#;
    let (_, occurrences, _) = parse_java_file("Foo.java", source);

    let ctor = occurrences
        .iter()
        .find(|o| o.name == "Foo" && matches!(o.kind, SymbolKind::ConstructorDeclaration))
        .expect("Expected constructor declaration");
    assert_eq!(ctor.fqn.as_deref(), Some("com.example.Foo.Foo"));
}

#[test]
fn test_parse_java_interface() {
    let source = r#"
package com.example;

public interface MyInterface {
    void doSomething();
    String getValue();
}
"#;
    let (_, occurrences, _) = parse_java_file("MyInterface.java", source);

    let iface = occurrences
        .iter()
        .find(|o| o.name == "MyInterface" && o.kind.is_declaration())
        .expect("Expected MyInterface declaration");
    assert!(matches!(iface.kind, SymbolKind::InterfaceDeclaration));
    assert_eq!(iface.fqn.as_deref(), Some("com.example.MyInterface"));

    let methods: Vec<&str> = occurrences
        .iter()
        .filter(|o| matches!(o.kind, SymbolKind::FunctionDeclaration))
        .map(|o| o.name.as_str())
        .collect();
    assert!(methods.contains(&"doSomething"));
    assert!(methods.contains(&"getValue"));
}

#[test]
fn test_parse_java_enum() {
    let source = r#"
package com.example;

public enum Color {
    RED,
    GREEN,
    BLUE;

    public String display() {
        return name().toLowerCase();
    }
}
"#;
    let (_, occurrences, _) = parse_java_file("Color.java", source);

    let enum_decl = occurrences
        .iter()
        .find(|o| o.name == "Color" && o.kind.is_declaration())
        .expect("Expected Color declaration");
    assert!(matches!(enum_decl.kind, SymbolKind::ClassDeclaration));

    let entries: Vec<&str> = occurrences
        .iter()
        .filter(|o| matches!(o.kind, SymbolKind::EnumEntryDeclaration))
        .map(|o| o.name.as_str())
        .collect();
    assert!(entries.contains(&"RED"));
    assert!(entries.contains(&"GREEN"));
    assert!(entries.contains(&"BLUE"));
}

#[test]
fn test_parse_java_imports() {
    let source = r#"
package com.example;

import java.util.List;
import java.util.Map;
import static java.util.Collections.emptyList;
import java.io.*;
"#;
    let (file_info, _, _) = parse_java_file("Test.java", source);

    assert_eq!(file_info.imports.len(), 4);

    let list_imp = &file_info.imports[0];
    assert_eq!(list_imp.path, "java.util.List");
    assert!(!list_imp.is_wildcard);

    let map_imp = &file_info.imports[1];
    assert_eq!(map_imp.path, "java.util.Map");

    let static_imp = &file_info.imports[2];
    assert_eq!(static_imp.path, "java.util.Collections.emptyList");
    assert!(!static_imp.is_wildcard);

    let wildcard_imp = &file_info.imports[3];
    assert_eq!(wildcard_imp.path, "java.io");
    assert!(wildcard_imp.is_wildcard);
}

#[test]
fn test_parse_java_references() {
    let source = r#"
package com.example;

import com.other.Helper;

public class Caller {
    public void run() {
        Helper h = new Helper();
        h.doWork();
        String s = h.getName();
    }
}
"#;
    let (_, occurrences, _) = parse_java_file("Caller.java", source);

    let new_helper = occurrences
        .iter()
        .find(|o| o.name == "Helper" && matches!(o.kind, SymbolKind::CallSite));
    assert!(
        new_helper.is_some(),
        "Expected CallSite for new Helper(). All: {:?}",
        occurrences
            .iter()
            .map(|o| format!("{} {:?}", o.name, o.kind))
            .collect::<Vec<_>>()
    );
    assert_eq!(new_helper.unwrap().fqn.as_deref(), Some("com.other.Helper"));

    let call_sites: Vec<&str> = occurrences
        .iter()
        .filter(|o| matches!(o.kind, SymbolKind::CallSite))
        .map(|o| o.name.as_str())
        .collect();
    assert!(call_sites.contains(&"doWork"));
    assert!(call_sites.contains(&"getName"));
}

#[test]
fn java_lombok_accessor_entries() {
    let source = "package com.example.core;\n\nimport lombok.Data;\n\n@Data\npublic class LombokUser {\n    private String username;\n    private final String id;\n    private boolean active;\n}\n";
    let ((_, occs, _), accessors) = extract_java("LombokUser.java", source);
    let names: Vec<&str> = occs
        .iter()
        .filter(|o| matches!(o.kind, SymbolKind::FunctionDeclaration))
        .map(|o| o.name.as_str())
        .collect();
    assert!(names.contains(&"getUsername"));
    assert!(names.contains(&"setUsername"));
    assert!(names.contains(&"getId"));
    assert!(!names.contains(&"setId"));
    assert!(names.contains(&"isActive"));
    assert!(names.contains(&"setActive"));
    let username = accessors
        .iter()
        .find(|(f, _)| f == "com.example.core.LombokUser.username")
        .expect("accessors for username");
    assert_eq!(
        username.1,
        vec![
            "com.example.core.LombokUser.getUsername".to_string(),
            "com.example.core.LombokUser.setUsername".to_string()
        ]
    );
}
