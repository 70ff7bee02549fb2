use kotlin_java_mcp::index::Span;
use kotlin_java_mcp::scope::ScopeTree;

#[test]
fn test_scope_chain() {
    let mut tree = ScopeTree::new();
    // class Outer { class Inner { fun method() {} } }
    tree.add_scope("Outer".into(), Span { start: 0, end: 100 });
    tree.add_scope("Inner".into(), Span { start: 20, end: 80 });
    tree.finalize();

    let chain = tree.scope_chain_at(50);
    assert_eq!(chain, vec!["Outer", "Inner"]);

    let chain = tree.scope_chain_at(10);
    assert_eq!(chain, vec!["Outer"]);

    let chain = tree.scope_chain_at(150);
    assert!(chain.is_empty());
}

#[test]
fn test_fqn_prefix() {
    let mut tree = ScopeTree::new();
    tree.add_scope("MyClass".into(), Span { start: 0, end: 100 });
    tree.finalize();

    let fqn = tree.fqn_prefix_at(Some("com.example"), 50);
    assert_eq!(fqn, "com.example.MyClass");

    let fqn = tree.fqn_prefix_at(None, 50);
    assert_eq!(fqn, "MyClass");
}

#[test]
fn scope_finalize_orders_by_start() {
    let mut tree = ScopeTree::new();
    tree.add_scope("B".into(), Span { start: 50, end: 60 });
    tree.add_scope("A".into(), Span { start: 10, end: 90 });
    tree.finalize();
    assert_eq!(tree.segments[0].name, "A");
    assert_eq!(tree.segments[1].name, "B");
}

#[test]
fn scope_prefix_leaves_out_empty_package() {
    let mut tree = ScopeTree::new();
    tree.add_scope("C".into(), Span { start: 0, end: 10 });
    tree.finalize();
    assert_eq!(tree.fqn_prefix_at(Some(""), 5), "C");
    assert_eq!(tree.fqn_prefix_at(Some("p"), 20), "p");
}
