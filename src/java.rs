//! Occurrence extraction from Java syntax trees, with the accessors that
//! Lombok generates for annotated classes.
use vstd::prelude::*;

use crate::extract::{
    build_fqn, child_text, fqn_at, header_name, header_name_from, import_of, import_occurrence_of,
    import_occurrences,
    kind_child_text,
    occurrence_at, occurrence_of, opt_str, placed, text_at, Extraction,
};
use crate::index::{FileInfo, ImportInfo, Span, SymbolKind, SymbolOccurrence};
use crate::resolve::{first_guess, opt_view, resolve_reference};
use crate::scope::{seg_view, sort_by, ScopeSegment, ScopeTree};
use crate::text::last_segment;
use crate::kotlin::scopes_of;
use crate::syntax::{
    any_node, field, field_child_from, find_child, find_child_from, find_field_child, find_kind_child, kind_among,
    kind_child_from, kind_is, kinds, lemma_no_child_past_end, parse_tree, SyntaxTree, grammar_loads, is_parse,
    java_grammar,
};
use crate::text::{before_last_dot, chars_of, dotted, has_dot, join_dotted, same_text, string_of};

verus! {

pub open spec fn java_name_kinds() -> Seq<&'static str> {
    seq!["identifier", "type_identifier", "simple_identifier"]
}

fn name_kinds() -> (r: Vec<&'static str>)
    ensures
        r@ == java_name_kinds(),
{
    vec!["identifier", "type_identifier", "simple_identifier"]
}

/// Accessors generated for one field: the field FQN and the accessor FQNs.
pub type AccessorEntry = (String, Vec<String>);

/// A Java file's extraction and its generated accessors.
pub type JavaExtraction = (Extraction, Vec<AccessorEntry>);

/// Each accessor FQN has the same prefix, up to its last dot, as its field
/// FQN.
pub open spec fn accessors_beside_fields(entries: Seq<AccessorEntry>) -> bool {
    forall|e: int, k: int|
        0 <= e < entries.len() && 0 <= k < entries[e].1@.len() ==> before_last_dot(
            (#[trigger] entries[e].1@[k])@,
        ) == before_last_dot(entries[e].0@)
}

/// The package named by the first root-level `package_declaration`.
pub fn extract_package_java(t: &SyntaxTree) -> (r: Option<String>)
    requires
        t.wf(),
    ensures
        opt_view(r) == if t.nodes@.len() == 0 {
            None
        } else {
            header_name_from(*t, 1, "package_declaration"@, seq!["scoped_identifier", "identifier"])
        },
{
    let ks: Vec<&'static str> = vec!["scoped_identifier", "identifier"];
    assert(ks@ == seq!["scoped_identifier", "identifier"]);
    header_name(t, "package_declaration", ks)
}

/// One step of reading a Java import: child `c` changes the path and the
/// wildcard flag.
pub open spec fn java_import_step(t: SyntaxTree, c: int, st: (Option<Seq<char>>, bool)) -> (Option<Seq<char>>, bool) {
    let k = t.kind(c);
    if k == "scoped_identifier"@ {
        (Some(t.nodes@[c].text@), st.1)
    } else if k == "identifier"@ && st.0 is None {
        (Some(t.nodes@[c].text@), st.1)
    } else if k == "asterisk"@ {
        (st.0, true)
    } else {
        st
    }
}

pub open spec fn java_import_read(t: SyntaxTree, i: int, from: int, st: (Option<Seq<char>>, bool)) -> (Option<Seq<char>>, bool)
    decreases t.nodes@.len() - from,
{
    if from < 0 || from >= t.nodes@.len() {
        st
    } else if t.is_child(from, i) {
        java_import_read(t, i, from + 1, java_import_step(t, from, st))
    } else {
        java_import_read(t, i, from + 1, st)
    }
}

proof fn lemma_java_import_past_end(t: SyntaxTree, i: int, from: int, st: (Option<Seq<char>>, bool))
    requires
        t.wf(),
        0 <= i < t.nodes@.len(),
        from >= t.ends@[i],
    ensures
        java_import_read(t, i, from, st) == st,
    decreases t.nodes@.len() - from,
{
    if 0 <= from < t.nodes@.len() {
        lemma_no_child_past_end(t, i, from);
        lemma_java_import_past_end(t, i, from + 1, st);
    }
}

/// The import written by Java node `i`: the scoped identifier (or a bare
/// identifier) as path, wildcard when an `asterisk` follows. Static imports
/// keep the member in the path.
pub open spec fn java_import(t: SyntaxTree, i: int) -> Option<(Seq<char>, Option<Seq<char>>, bool)> {
    let st = java_import_read(t, i, i + 1, (None, false));
    match st.0 {
        Some(p) => Some((p, None, st.1)),
        None => None,
    }
}

/// The import written by node `i`.
pub fn parse_java_import(t: &SyntaxTree, i: usize) -> (r: Option<ImportInfo>)
    requires
        t.wf(),
        i < t.nodes@.len(),
    ensures
        match r {
            Some(imp) => java_import(*t, i as int) matches Some(d) && import_of(imp, *t, i as int, d),
            None => java_import(*t, i as int) is None,
        },
        r matches Some(imp) ==> imp.line >= 1 && imp.column >= 1,
{
    let mut path: Option<String> = None;
    let mut wildcard = false;
    let end = t.ends[i];
    let mut j = i + 1;
    let ghost goal = java_import_read(*t, i as int, i + 1, (None, false));
    while j < end
        invariant
            t.wf(),
            i < t.nodes@.len(),
            end == t.ends@[i as int],
            end <= t.nodes@.len(),
            i < j,
            goal == java_import_read(*t, i as int, j as int, (opt_view(path), wildcard)),
        decreases end - j,
    {
        let is_child = match t.nodes[j].parent {
            Some(q) => q == i,
            None => false,
        };
        if is_child {
            if kind_is(t, j, "scoped_identifier") {
                path = Some(text_at(t, j));
            } else if kind_is(t, j, "identifier") && path.is_none() {
                path = Some(text_at(t, j));
            } else if kind_is(t, j, "asterisk") {
                wildcard = true;
            }
        }
        j = j + 1;
    }
    proof {
        lemma_java_import_past_end(*t, i as int, j as int, (opt_view(path), wildcard));
        assert(i < t.ends@[i as int]);
    }
    let n = &t.nodes[i];
    match path {
        Some(p) => Some(
            ImportInfo {
                path: p,
                alias: None,
                is_wildcard: wildcard,
                line: n.line,
                column: n.column,
                byte_range: Span { start: n.start_byte, end: n.end_byte },
            },
        ),
        None => None,
    }
}

/// The root-level import declarations below `upto`, from index 1, that
/// give an import.
pub open spec fn java_import_nodes(t: SyntaxTree, upto: int) -> Seq<int>
    decreases upto,
{
    if upto <= 1 {
        seq![]
    } else if t.is_child(upto - 1, 0) && t.kind(upto - 1) == "import_declaration"@ && java_import(t, upto - 1) is Some {
        java_import_nodes(t, upto - 1).push(upto - 1)
    } else {
        java_import_nodes(t, upto - 1)
    }
}

/// The root-level imports, in source order.
pub fn extract_imports_java(t: &SyntaxTree) -> (r: Vec<ImportInfo>)
    requires
        t.wf(),
    ensures
        r@.len() == java_import_nodes(*t, t.nodes@.len() as int).len(),
        forall|k: int|
            0 <= k < r@.len() ==> import_of(
                #[trigger] r@[k],
                *t,
                java_import_nodes(*t, t.nodes@.len() as int)[k],
                java_import(*t, java_import_nodes(*t, t.nodes@.len() as int)[k])->0,
            ),
        forall|k: int| 0 <= k < r@.len() ==> (#[trigger] r@[k]).line >= 1 && r@[k].column >= 1,
{
    let mut r: Vec<ImportInfo> = Vec::new();
    let mut j: usize = 1;
    if t.nodes.len() == 0 {
        return r;
    }
    while j < t.nodes.len()
        invariant
            t.wf(),
            1 <= j <= t.nodes@.len(),
            r@.len() == java_import_nodes(*t, j as int).len(),
            forall|k: int|
                0 <= k < r@.len() ==> import_of(
                    #[trigger] r@[k],
                    *t,
                    java_import_nodes(*t, j as int)[k],
                    java_import(*t, java_import_nodes(*t, j as int)[k])->0,
                ),
            forall|k: int| 0 <= k < r@.len() ==> (#[trigger] r@[k]).line >= 1 && r@[k].column >= 1,
        decreases t.nodes@.len() - j,
    {
        let is_top = match t.nodes[j].parent {
            Some(q) => q == 0,
            None => false,
        };
        let ghost before = r@;
        if is_top && kind_is(t, j, "import_declaration") {
            match parse_java_import(t, j) {
                Some(imp) => {
                    r.push(imp);
                    proof {
                        assert(java_import_nodes(*t, j + 1) == java_import_nodes(*t, j as int).push(j as int));
                        assert forall|k: int| 0 <= k < r@.len() implies import_of(
                            #[trigger] r@[k],
                            *t,
                            java_import_nodes(*t, j + 1)[k],
                            java_import(*t, java_import_nodes(*t, j + 1)[k])->0,
                        ) by {
                            if k < before.len() {
                                assert(r@[k] == before[k]);
                            }
                        }
                    }
                },
                None => {},
            }
        }
        j = j + 1;
    }
    r
}

fn is_type_declaration(t: &SyntaxTree, i: usize) -> (r: bool)
    requires
        i < t.nodes@.len(),
    ensures
        r == is_type_decl_kind(t.kind(i as int)),
{
    kind_is(t, i, "class_declaration") || kind_is(t, i, "interface_declaration") || kind_is(
        t,
        i,
        "enum_declaration",
    ) || kind_is(t, i, "record_declaration") || kind_is(t, i, "annotation_type_declaration")
}

pub open spec fn java_body_kinds() -> Seq<&'static str> {
    seq!["class_body", "interface_body", "enum_body", "annotation_type_body", "record_declaration_body"]
}

pub open spec fn is_type_decl_kind(k: Seq<char>) -> bool {
    k == "class_declaration"@ || k == "interface_declaration"@ || k == "enum_declaration"@ || k
        == "record_declaration"@ || k == "annotation_type_declaration"@
}

/// The body of a type declaration.
fn find_java_body(t: &SyntaxTree, i: usize) -> (r: Option<usize>)
    requires
        t.wf(),
        i < t.nodes@.len(),
    ensures
        match r {
            Some(b) => kind_child_from(*t, i as int, i + 1, java_body_kinds()) == Some(b as int),
            None => kind_child_from(*t, i as int, i + 1, java_body_kinds()) is None,
        },
        r matches Some(b) ==> b < t.nodes@.len(),
{
    let ks: Vec<&'static str> = vec![
        "class_body",
        "interface_body",
        "enum_body",
        "annotation_type_body",
        "record_declaration_body",
    ];
    assert(ks@ == java_body_kinds());
    find_kind_child(t, i, ks)
}

/// The containers below `upto`, in source order: type declarations with a
/// name and a body.
pub open spec fn java_scope_list(t: SyntaxTree, upto: int) -> Seq<(Seq<char>, Span)>
    decreases upto,
{
    if upto <= 0 {
        seq![]
    } else {
        let i = upto - 1;
        let prev = java_scope_list(t, i);
        if is_type_decl_kind(t.kind(i)) {
            match (kind_child_text(t, i, java_name_kinds()), kind_child_from(t, i, i + 1, java_body_kinds())) {
                (Some(n), Some(b)) => prev.push((n, Span { start: t.nodes@[b].start_byte, end: t.nodes@[b].end_byte })),
                _ => prev,
            }
        } else {
            prev
        }
    }
}

/// The containers of the file: type declarations with a name and a body,
/// ordered by start.
pub fn build_scope_tree_java(t: &SyntaxTree) -> (r: ScopeTree)
    requires
        t.wf(),
    ensures
        scopes_of(r, java_scope_list(*t, t.nodes@.len() as int)),
{
    let mut tree = ScopeTree::new();
    let mut i: usize = 0;
    assert(tree.segments@.map_values(|x: ScopeSegment| seg_view(x)) =~= java_scope_list(*t, 0));
    while i < t.nodes.len()
        invariant
            t.wf(),
            i <= t.nodes@.len(),
            tree.segments@.map_values(|x: ScopeSegment| seg_view(x)) == java_scope_list(*t, i as int),
        decreases t.nodes@.len() - i,
    {
        let ghost before = tree.segments@;
        if is_type_declaration(t, i) {
            match child_text(t, i, name_kinds()) {
                Some(name) => match find_java_body(t, i) {
                    Some(b) => {
                        let ghost nv = name@;
                        let range = Span { start: t.nodes[b].start_byte, end: t.nodes[b].end_byte };
                        tree.add_scope(name, range);
                        assert(tree.segments@.map_values(|x: ScopeSegment| seg_view(x)) =~= before.map_values(
                            |x: ScopeSegment| seg_view(x),
                        ).push((nv, range)));
                    },
                    None => {},
                },
                None => {},
            }
        }
        i = i + 1;
    }
    let ghost pre = tree.segments@;
    tree.finalize();
    assert(tree.segments@ == sort_by(pre, false));
    tree
}

/// Whether node `i` lies strictly inside a `field_declaration`.
pub open spec fn in_field(t: SyntaxTree, i: int) -> bool
    decreases i,
{
    if 0 <= i < t.nodes@.len() {
        match t.nodes@[i].parent {
            Some(p) => if p < i {
                in_field(t, p as int) || t.kind(p as int) == "field_declaration"@
            } else {
                false
            },
            None => false,
        }
    } else {
        false
    }
}

/// Whether node `i` lies strictly inside a `field_declaration`, given the
/// answers for earlier nodes.
fn inside_field(t: &SyntaxTree, inside: &Vec<bool>, i: usize) -> (r: bool)
    requires
        t.wf(),
        i < t.nodes@.len(),
        inside@.len() == i,
        forall|k: int| 0 <= k < i ==> #[trigger] inside@[k] == in_field(*t, k),
    ensures
        r == in_field(*t, i as int),
{
    proof {
        assert(i < t.ends@[i as int]);
    }
    match t.nodes[i].parent {
        Some(p) => inside[p] || kind_is(t, p, "field_declaration"),
        None => false,
    }
}

/// The declaration that Java node `i` makes, other than field properties.
pub open spec fn java_decl(t: SyntaxTree, i: int) -> Option<(Seq<char>, SymbolKind)> {
    let k = t.kind(i);
    let name = kind_child_text(t, i, java_name_kinds());
    let named = |sk: SymbolKind|
        match name {
            Some(n) => Some((n, sk)),
            None => None,
        };
    if k == "class_declaration"@ || k == "enum_declaration"@ {
        named(SymbolKind::ClassDeclaration)
    } else if k == "interface_declaration"@ {
        named(SymbolKind::InterfaceDeclaration)
    } else if k == "enum_constant"@ {
        named(SymbolKind::EnumEntryDeclaration)
    } else if k == "record_declaration"@ {
        named(SymbolKind::RecordDeclaration)
    } else if k == "annotation_type_declaration"@ {
        named(SymbolKind::AnnotationTypeDeclaration)
    } else if k == "method_declaration"@ {
        match field_child_from(t, i, i + 1, "name"@) {
            Some(c) => Some((t.nodes@[c].text@, SymbolKind::FunctionDeclaration)),
            None => None,
        }
    } else if k == "constructor_declaration"@ {
        named(SymbolKind::ConstructorDeclaration)
    } else {
        None
    }
}

/// The named declarators among the children of field declaration `i`,
/// from index `from`: the declarator node and its name.
pub open spec fn field_declarators(t: SyntaxTree, i: int, from: int) -> Seq<(int, Seq<char>)>
    decreases t.nodes@.len() - from,
{
    if from < 0 || from >= t.nodes@.len() {
        seq![]
    } else {
        let rest = field_declarators(t, i, from + 1);
        if t.is_child(from, i) && t.kind(from) == "variable_declarator"@ && kind_child_text(
            t,
            from,
            java_name_kinds(),
        ) is Some {
            seq![(from, kind_child_text(t, from, java_name_kinds())->0)] + rest
        } else {
            rest
        }
    }
}

/// What Java node `i` declares, in order: the node it stands at, the name,
/// the kind, and the node whose start gives the FQN prefix.
pub open spec fn java_emits(t: SyntaxTree, i: int) -> Seq<(int, Seq<char>, SymbolKind, int)> {
    if in_field(t, i) {
        seq![]
    } else if t.kind(i) == "class_declaration"@ || t.kind(i) == "enum_declaration"@ || t.kind(i)
        == "interface_declaration"@ || t.kind(i) == "enum_constant"@ || t.kind(i)
        == "record_declaration"@ || t.kind(i) == "annotation_type_declaration"@ || t.kind(i)
        == "method_declaration"@ || t.kind(i) == "constructor_declaration"@ {
        match java_decl(t, i) {
            Some(d) => seq![(i, d.0, d.1, i)],
            None => seq![],
        }
    } else if t.kind(i) == "field_declaration"@ {
        field_declarators(t, i, i + 1).map_values(
            |d: (int, Seq<char>)| (d.0, d.1, SymbolKind::PropertyDeclaration, i),
        )
    } else {
        seq![]
    }
}

/// Everything the nodes below `upto` declare, in order.
pub open spec fn java_decls(t: SyntaxTree, upto: int) -> Seq<(int, Seq<char>, SymbolKind, int)>
    decreases upto,
{
    if upto <= 0 {
        seq![]
    } else {
        java_decls(t, upto - 1) + java_emits(t, upto - 1)
    }
}

/// `new` holds, after `base`, the occurrences that the records `ds` describe.
pub open spec fn emitted(
    new: Seq<SymbolOccurrence>,
    base: int,
    ds: Seq<(int, Seq<char>, SymbolKind, int)>,
    t: SyntaxTree,
    path: Seq<char>,
    scopes: ScopeTree,
    package: Option<Seq<char>>,
) -> bool {
    &&& new.len() == base + ds.len()
    &&& forall|k: int|
        0 <= k < ds.len() ==> occurrence_of(
            #[trigger] new[base + k],
            t,
            ds[k].0,
            path,
            ds[k].1,
            Some(fqn_at(scopes, package, t.nodes@[ds[k].3].start_byte, ds[k].1)),
            ds[k].2,
            None,
        )
}

/// The declarations of the file in source order: types, enum constants,
/// methods (named by their `name` field), constructors, and one property
/// per declarator of a field. Nothing inside a field declaration is looked
/// at further.
pub fn extract_declarations_java(
    t: &SyntaxTree,
    path: &str,
    package: Option<&str>,
    scopes: &ScopeTree,
    occs: &mut Vec<SymbolOccurrence>,
)
    requires
        t.wf(),
        placed(old(occs)@, path@),
    ensures
        placed(final(occs)@, path@),
        forall|k: int| 0 <= k < old(occs)@.len() ==> #[trigger] final(occs)@[k] == old(occs)@[k],
        emitted(
            final(occs)@,
            old(occs)@.len() as int,
            java_decls(*t, t.nodes@.len() as int),
            *t,
            path@,
            *scopes,
            opt_str(package),
        ),
{
    let ghost o0 = occs@;
    let mut inside: Vec<bool> = Vec::new();
    let mut i: usize = 0;
    while i < t.nodes.len()
        invariant
            t.wf(),
            i <= t.nodes@.len(),
            inside@.len() == i,
            forall|k: int| 0 <= k < i ==> #[trigger] inside@[k] == in_field(*t, k),
            placed(occs@, path@),
            forall|k: int| 0 <= k < o0.len() ==> #[trigger] occs@[k] == o0[k],
            emitted(occs@, o0.len() as int, java_decls(*t, i as int), *t, path@, *scopes, opt_str(package)),
        decreases t.nodes@.len() - i,
    {
        let skip = inside_field(t, &inside, i);
        inside.push(skip);
        let ghost before = occs@;
        if !skip {
            proof {
                assert(i < t.ends@[i as int]);
            }
            let start = t.nodes[i].start_byte;
            let mut found: Option<(String, SymbolKind)> = None;
            let is_decl = kind_is(t, i, "class_declaration") || kind_is(t, i, "enum_declaration") || kind_is(
                t,
                i,
                "interface_declaration",
            ) || kind_is(t, i, "enum_constant") || kind_is(t, i, "record_declaration") || kind_is(
                t,
                i,
                "annotation_type_declaration",
            ) || kind_is(t, i, "method_declaration") || kind_is(t, i, "constructor_declaration");
            if is_decl {
                let name = child_text(t, i, name_kinds());
                if kind_is(t, i, "class_declaration") || kind_is(t, i, "enum_declaration") {
                    match name {
                        Some(n) => found = Some((n, SymbolKind::ClassDeclaration)),
                        None => {},
                    }
                } else if kind_is(t, i, "interface_declaration") {
                    match name {
                        Some(n) => found = Some((n, SymbolKind::InterfaceDeclaration)),
                        None => {},
                    }
                } else if kind_is(t, i, "enum_constant") {
                    match name {
                        Some(n) => found = Some((n, SymbolKind::EnumEntryDeclaration)),
                        None => {},
                    }
                } else if kind_is(t, i, "record_declaration") {
                    match name {
                        Some(n) => found = Some((n, SymbolKind::RecordDeclaration)),
                        None => {},
                    }
                } else if kind_is(t, i, "annotation_type_declaration") {
                    match name {
                        Some(n) => found = Some((n, SymbolKind::AnnotationTypeDeclaration)),
                        None => {},
                    }
                } else if kind_is(t, i, "method_declaration") {
                    match find_field_child(t, i, "name") {
                        Some(c) => found = Some((text_at(t, c), SymbolKind::FunctionDeclaration)),
                        None => {},
                    }
                } else {
                    match name {
                        Some(n) => found = Some((n, SymbolKind::ConstructorDeclaration)),
                        None => {},
                    }
                }
                let ghost fg = found;
                proof {
                    match fg {
                        Some(f) => {
                            assert(java_decl(*t, i as int) == Some((f.0@, f.1)));
                        },
                        None => {
                            assert(java_decl(*t, i as int) is None);
                        },
                    }
                }
                match found {
                    Some((n, k)) => {
                        let fqn = build_fqn(package, scopes, start, n.as_str());
                        occs.push(occurrence_at(t, i, path, n, Some(fqn), k, None));
                    },
                    None => {},
                }
                assert(emitted(occs@, before.len() as int, java_emits(*t, i as int), *t, path@, *scopes, opt_str(package)));
            } else if kind_is(t, i, "field_declaration") {
                extract_field_declarations(t, i, path, package, scopes, occs);
                assert(emitted(occs@, before.len() as int, java_emits(*t, i as int), *t, path@, *scopes, opt_str(package)));
            } else {
                assert(java_emits(*t, i as int) =~= Seq::<(int, Seq<char>, SymbolKind, int)>::empty());
            }
        } else {
            assert(java_emits(*t, i as int) =~= Seq::<(int, Seq<char>, SymbolKind, int)>::empty());
        }
        assert(emitted(occs@, before.len() as int, java_emits(*t, i as int), *t, path@, *scopes, opt_str(package)));
        proof {
            let ds = java_decls(*t, i as int);
            let es = java_emits(*t, i as int);
            assert(java_decls(*t, i + 1) == ds + es);
            assert(occs@.len() == before.len() + es.len());
            assert forall|k: int| 0 <= k < o0.len() implies #[trigger] occs@[k] == o0[k] by {
                assert(occs@[k] == before[k]);
            }
            assert forall|k: int| 0 <= k < (ds + es).len() implies occurrence_of(
                #[trigger] occs@[o0.len() + k],
                *t,
                (ds + es)[k].0,
                path@,
                (ds + es)[k].1,
                Some(fqn_at(*scopes, opt_str(package), t.nodes@[(ds + es)[k].3].start_byte, (ds + es)[k].1)),
                (ds + es)[k].2,
                None,
            ) by {
                if k < ds.len() {
                    assert(occs@[o0.len() + k] == before[o0.len() + k]);
                    assert((ds + es)[k] == ds[k]);
                } else {
                    assert((ds + es)[k] == es[k - ds.len()]);
                    assert(o0.len() + k == before.len() + (k - ds.len()));
                }
            }
        }
        i = i + 1;
    }
}

/// One `PropertyDeclaration` per named `variable_declarator` of field
/// declaration `i`, at the declarator, with the FQN taken at the field.
pub fn extract_field_declarations(
    t: &SyntaxTree,
    i: usize,
    path: &str,
    package: Option<&str>,
    scopes: &ScopeTree,
    occs: &mut Vec<SymbolOccurrence>,
)
    requires
        t.wf(),
        i < t.nodes@.len(),
        placed(old(occs)@, path@),
    ensures
        placed(final(occs)@, path@),
        forall|k: int| 0 <= k < old(occs)@.len() ==> #[trigger] final(occs)@[k] == old(occs)@[k],
        emitted(
            final(occs)@,
            old(occs)@.len() as int,
            field_declarators(*t, i as int, i + 1).map_values(
                |d: (int, Seq<char>)| (d.0, d.1, SymbolKind::PropertyDeclaration, i as int),
            ),
            *t,
            path@,
            *scopes,
            opt_str(package),
        ),
{
    let ghost o0 = occs@;
    let ghost all = field_declarators(*t, i as int, i + 1);
    let ghost f = |d: (int, Seq<char>)| (d.0, d.1, SymbolKind::PropertyDeclaration, i as int);
    let start = t.nodes[i].start_byte;
    let end = t.ends[i];
    let mut j = i + 1;
    let ghost mut done: Seq<(int, Seq<char>)> = seq![];
    while j < end
        invariant
            t.wf(),
            i < t.nodes@.len(),
            end == t.ends@[i as int],
            end <= t.nodes@.len(),
            i < j,
            start == t.nodes@[i as int].start_byte,
            all == field_declarators(*t, i as int, i + 1),
            f == (|d: (int, Seq<char>)| (d.0, d.1, SymbolKind::PropertyDeclaration, i as int)),
            all == done + field_declarators(*t, i as int, j as int),
            placed(occs@, path@),
            forall|k: int| 0 <= k < o0.len() ==> #[trigger] occs@[k] == o0[k],
            emitted(occs@, o0.len() as int, done.map_values(f), *t, path@, *scopes, opt_str(package)),
        decreases end - j,
    {
        let is_child = match t.nodes[j].parent {
            Some(q) => q == i,
            None => false,
        };
        let ghost before = occs@;
        let ghost rest = field_declarators(*t, i as int, j + 1);
        let mut pushed = false;
        if is_child && kind_is(t, j, "variable_declarator") {
            match child_text(t, j, name_kinds()) {
                Some(name) => {
                    let fqn = build_fqn(package, scopes, start, name.as_str());
                    let o = occurrence_at(t, j, path, name, Some(fqn), SymbolKind::PropertyDeclaration, None);
                    occs.push(o);
                    pushed = true;
                },
                None => {},
            }
        }
        proof {
            if pushed {
                let d = (j as int, kind_child_text(*t, j as int, java_name_kinds())->0);
                assert(field_declarators(*t, i as int, j as int) == seq![d] + rest);
                assert(all == done.push(d) + rest);
                assert(done.push(d).map_values(f) =~= done.map_values(f).push(f(d)));
                done = done.push(d);
                assert forall|k: int| 0 <= k < done.map_values(f).len() implies occurrence_of(
                    #[trigger] occs@[o0.len() + k],
                    *t,
                    done.map_values(f)[k].0,
                    path@,
                    done.map_values(f)[k].1,
                    Some(fqn_at(*scopes, opt_str(package), t.nodes@[done.map_values(f)[k].3].start_byte, done.map_values(f)[k].1)),
                    done.map_values(f)[k].2,
                    None,
                ) by {
                    if k < done.len() - 1 {
                        assert(occs@[o0.len() + k] == before[o0.len() + k]);
                    }
                }
                assert forall|k: int| 0 <= k < o0.len() implies #[trigger] occs@[k] == o0[k] by {
                    assert(occs@[k] == before[k]);
                }
            } else {
                assert(field_declarators(*t, i as int, j as int) == rest);
            }
        }
        j = j + 1;
    }
    proof {
        lemma_declarators_past_end(*t, i as int, j as int);
        assert(done + Seq::<(int, Seq<char>)>::empty() == done);
    }
}

proof fn lemma_declarators_past_end(t: SyntaxTree, i: int, from: int)
    requires
        t.wf(),
        0 <= i < t.nodes@.len(),
        from >= t.ends@[i],
    ensures
        field_declarators(t, i, from) == Seq::<(int, Seq<char>)>::empty(),
    decreases t.nodes@.len() - from,
{
    if 0 <= from < t.nodes@.len() {
        lemma_no_child_past_end(t, i, from);
        lemma_declarators_past_end(t, i, from + 1);
    }
}

/// The node named by `new T(...)` among the children of `i` from `from`:
/// the first identifier child, or the first identifier inside a generic
/// type.
pub open spec fn type_child_from(t: SyntaxTree, i: int, from: int) -> Option<int>
    decreases t.nodes@.len() - from,
{
    if from < 0 || from >= t.nodes@.len() {
        None
    } else if t.is_child(from, i) && (t.kind(from) == "type_identifier"@ || t.kind(from) == "identifier"@) {
        Some(from)
    } else if t.is_child(from, i) && t.kind(from) == "generic_type"@ && kind_child_from(
        t,
        from,
        from + 1,
        seq!["type_identifier", "identifier"],
    ) is Some {
        kind_child_from(t, from, from + 1, seq!["type_identifier", "identifier"])
    } else {
        type_child_from(t, i, from + 1)
    }
}

proof fn lemma_type_child_past_end(t: SyntaxTree, i: int, from: int)
    requires
        t.wf(),
        0 <= i < t.nodes@.len(),
        from >= t.ends@[i],
    ensures
        type_child_from(t, i, from) is None,
    decreases t.nodes@.len() - from,
{
    if 0 <= from < t.nodes@.len() {
        lemma_no_child_past_end(t, i, from);
        lemma_type_child_past_end(t, i, from + 1);
    }
}

fn find_type_child(t: &SyntaxTree, i: usize) -> (r: Option<usize>)
    requires
        t.wf(),
        i < t.nodes@.len(),
    ensures
        match r {
            Some(j) => type_child_from(*t, i as int, i + 1) == Some(j as int),
            None => type_child_from(*t, i as int, i + 1) is None,
        },
        r matches Some(j) ==> j < t.nodes@.len(),
{
    let end = t.ends[i];
    let mut j = i + 1;
    while j < end
        invariant
            t.wf(),
            i < t.nodes@.len(),
            end == t.ends@[i as int],
            end <= t.nodes@.len(),
            i < j,
            type_child_from(*t, i as int, i + 1) == type_child_from(*t, i as int, j as int),
        decreases end - j,
    {
        let is_child = match t.nodes[j].parent {
            Some(q) => q == i,
            None => false,
        };
        if is_child && (kind_is(t, j, "type_identifier") || kind_is(t, j, "identifier")) {
            return Some(j);
        }
        if is_child && kind_is(t, j, "generic_type") {
            let ks: Vec<&'static str> = vec!["type_identifier", "identifier"];
            assert(ks@ == seq!["type_identifier", "identifier"]);
            match find_kind_child(t, j, ks) {
                Some(g) => return Some(g),
                None => {},
            }
        }
        j = j + 1;
    }
    proof {
        lemma_type_child_past_end(*t, i as int, j as int);
    }
    None
}

pub open spec fn decl_parent_kinds() -> Seq<&'static str> {
    seq![
        "class_declaration",
        "interface_declaration",
        "enum_declaration",
        "record_declaration",
        "annotation_type_declaration",
        "enum_constant",
        "import_declaration",
        "package_declaration",
        "scoped_identifier",
        "scoped_type_identifier",
    ]
}

pub open spec fn dominating_kinds() -> Seq<&'static str> {
    seq![
        "class_declaration",
        "interface_declaration",
        "enum_declaration",
        "record_declaration",
        "annotation_type_declaration",
        "enum_constant",
        "method_declaration",
        "constructor_declaration",
        "import_declaration",
        "package_declaration",
        "scoped_identifier",
        "scoped_type_identifier",
        "field_access",
        "variable_declarator",
        "formal_parameter",
        "type_parameter",
        "annotation",
        "marker_annotation",
        "catch_formal_parameter",
        "enhanced_for_statement",
        "local_variable_declaration",
        "label",
        "break_statement",
        "continue_statement",
    ]
}

fn parent_kind_among(t: &SyntaxTree, p: usize, ks: &Vec<&'static str>) -> (r: bool)
    requires
        p < t.nodes@.len(),
    ensures
        r == kind_among(t.nodes@[p as int], ks@),
{
    let mut k: usize = 0;
    while k < ks.len()
        invariant
            p < t.nodes@.len(),
            forall|q: int| 0 <= q < k ==> t.nodes@[p as int].kind@ != (#[trigger] ks@[q])@,
        decreases ks@.len() - k,
    {
        if kind_is(t, p, ks[k]) {
            assert(t.nodes@[p as int].kind@ == ks@[k as int]@);
            return true;
        }
        k = k + 1;
    }
    false
}

/// Whether the child `i` of `p` is walked into, when `p` is.
pub open spec fn java_walks_into(t: SyntaxTree, p: int, i: int) -> bool {
    if t.kind(p) == "method_invocation"@ {
        field_child_from(t, p, p + 1, "name"@) != Some(i)
    } else if t.kind(p) == "object_creation_expression"@ {
        t.kind(i) == "argument_list"@
    } else if t.kind(p) == "field_access"@ {
        field_child_from(t, p, p + 1, "object"@) == Some(i)
    } else {
        !(t.kind(p) == "type_identifier"@ || t.kind(p) == "identifier"@)
    }
}

/// Whether the reference walk reaches node `i`.
pub open spec fn java_visited(t: SyntaxTree, i: int) -> bool
    decreases i,
{
    if 0 <= i < t.nodes@.len() {
        match t.nodes@[i].parent {
            Some(p) => if p < i {
                java_visited(t, p as int) && java_walks_into(t, p as int, i)
            } else {
                false
            },
            None => true,
        }
    } else {
        false
    }
}

pub open spec fn field_text(t: SyntaxTree, i: int, f: Seq<char>) -> Option<Seq<char>> {
    match field_child_from(t, i, i + 1, f) {
        Some(c) => Some(t.nodes@[c].text@),
        None => None,
    }
}

/// The reference a visited Java node makes: name, kind and receiver.
pub open spec fn java_ref(t: SyntaxTree, i: int) -> Option<(Seq<char>, SymbolKind, Option<Seq<char>>)> {
    let k = t.kind(i);
    if k == "method_invocation"@ {
        match field_text(t, i, "name"@) {
            Some(n) => Some((n, SymbolKind::CallSite, field_text(t, i, "object"@))),
            None => None,
        }
    } else if k == "object_creation_expression"@ {
        match type_child_from(t, i, i + 1) {
            Some(c) => Some((t.nodes@[c].text@, SymbolKind::CallSite, None)),
            None => None,
        }
    } else if k == "field_access"@ {
        match field_text(t, i, "field"@) {
            Some(n) => Some((n, SymbolKind::PropertyReference, field_text(t, i, "object"@))),
            None => None,
        }
    } else if k == "type_identifier"@ {
        match t.nodes@[i].parent {
            Some(p) => if !kind_among(t.nodes@[p as int], decl_parent_kinds()) && t.nodes@[i].text@.len() > 0 {
                Some((t.nodes@[i].text@, SymbolKind::TypeReference, None))
            } else {
                None
            },
            None => None,
        }
    } else if k == "identifier"@ {
        match t.nodes@[i].parent {
            Some(p) => if !kind_among(t.nodes@[p as int], dominating_kinds()) && !(t.kind(p as int)
                == "method_invocation"@ && field_child_from(t, p as int, p + 1, "name"@) == Some(i))
                && t.nodes@[i].text@.len() > 0 {
                Some((t.nodes@[i].text@, SymbolKind::PropertyReference, None))
            } else {
                None
            },
            None => None,
        }
    } else {
        None
    }
}

/// The nodes below `upto` that the walk reaches and that make a reference.
pub open spec fn java_ref_nodes(t: SyntaxTree, upto: int) -> Seq<int>
    decreases upto,
{
    if upto <= 0 {
        seq![]
    } else if java_visited(t, upto - 1) && java_ref(t, upto - 1) is Some {
        java_ref_nodes(t, upto - 1).push(upto - 1)
    } else {
        java_ref_nodes(t, upto - 1)
    }
}

fn field_text_exec(t: &SyntaxTree, i: usize, f: &'static str) -> (r: Option<String>)
    requires
        t.wf(),
        i < t.nodes@.len(),
    ensures
        opt_view(r) == field_text(*t, i as int, f@),
{
    match find_field_child(t, i, f) {
        Some(c) => Some(text_at(t, c)),
        None => None,
    }
}

/// The references of the file in source order: method calls (at their
/// `name`, with the `object` text as receiver), constructions, field
/// accesses, type identifiers and bare identifiers in expressions, each
/// with a first-guess FQN from the imports and package.
pub fn extract_references_java(
    t: &SyntaxTree,
    path: &str,
    package: Option<&str>,
    imports: &Vec<ImportInfo>,
    occs: &mut Vec<SymbolOccurrence>,
)
    requires
        t.wf(),
    ensures
        final(occs)@.len() == old(occs)@.len() + java_ref_nodes(*t, t.nodes@.len() as int).len(),
        forall|k: int| 0 <= k < old(occs)@.len() ==> #[trigger] final(occs)@[k] == old(occs)@[k],
        forall|k: int|
            0 <= k < java_ref_nodes(*t, t.nodes@.len() as int).len() ==> {
                let i = java_ref_nodes(*t, t.nodes@.len() as int)[k];
                let d = java_ref(*t, i)->0;
                occurrence_of(
                    #[trigger] final(occs)@[old(occs)@.len() + k],
                    *t,
                    i,
                    path@,
                    d.0,
                    first_guess(d.0, opt_str(package), imports@),
                    d.1,
                    d.2,
                )
            },
        placed(final(occs)@.skip(old(occs)@.len() as int), path@),
        crate::extract::all_references(final(occs)@.skip(old(occs)@.len() as int)),
{
    let ghost o0 = occs@;
    let n = t.nodes.len();
    let mut visit: Vec<bool> = Vec::new();
    let decl_parents: Vec<&'static str> = vec![
        "class_declaration",
        "interface_declaration",
        "enum_declaration",
        "record_declaration",
        "annotation_type_declaration",
        "enum_constant",
        "import_declaration",
        "package_declaration",
        "scoped_identifier",
        "scoped_type_identifier",
    ];
    assert(decl_parents@ == decl_parent_kinds());
    let dominated: Vec<&'static str> = vec![
        "class_declaration",
        "interface_declaration",
        "enum_declaration",
        "record_declaration",
        "annotation_type_declaration",
        "enum_constant",
        "method_declaration",
        "constructor_declaration",
        "import_declaration",
        "package_declaration",
        "scoped_identifier",
        "scoped_type_identifier",
        "field_access",
        "variable_declarator",
        "formal_parameter",
        "type_parameter",
        "annotation",
        "marker_annotation",
        "catch_formal_parameter",
        "enhanced_for_statement",
        "local_variable_declaration",
        "label",
        "break_statement",
        "continue_statement",
    ];
    assert(dominated@ == dominating_kinds());
    let mut i: usize = 0;
    while i < n
        invariant
            t.wf(),
            n == t.nodes@.len(),
            i <= n,
            visit@.len() == i,
            forall|k: int| 0 <= k < i ==> #[trigger] visit@[k] == java_visited(*t, k),
            decl_parents@ == decl_parent_kinds(),
            dominated@ == dominating_kinds(),
            occs@.len() == o0.len() + java_ref_nodes(*t, i as int).len(),
            forall|k: int| 0 <= k < o0.len() ==> #[trigger] occs@[k] == o0[k],
            forall|k: int|
                0 <= k < java_ref_nodes(*t, i as int).len() ==> {
                    let m = java_ref_nodes(*t, i as int)[k];
                    let d = java_ref(*t, m)->0;
                    occurrence_of(
                        #[trigger] occs@[o0.len() + k],
                        *t,
                        m,
                        path@,
                        d.0,
                        first_guess(d.0, opt_str(package), imports@),
                        d.1,
                        d.2,
                    )
                },
            placed(occs@.skip(o0.len() as int), path@),
            crate::extract::all_references(occs@.skip(o0.len() as int)),
        decreases n - i,
    {
        proof {
            assert(i < t.ends@[i as int]);
        }
        let parent = t.nodes[i].parent;
        let v = match parent {
            None => true,
            Some(p) => if !visit[p] {
                false
            } else if kind_is(t, p, "method_invocation") {
                find_field_child(t, p, "name") != Some(i)
            } else if kind_is(t, p, "object_creation_expression") {
                kind_is(t, i, "argument_list")
            } else if kind_is(t, p, "field_access") {
                find_field_child(t, p, "object") == Some(i)
            } else {
                !(kind_is(t, p, "type_identifier") || kind_is(t, p, "identifier"))
            },
        };
        assert(v == java_visited(*t, i as int));
        visit.push(v);
        let mut found: Option<(String, SymbolKind, Option<String>)> = None;
        if v {
            if kind_is(t, i, "method_invocation") {
                match field_text_exec(t, i, "name") {
                    Some(m) => {
                        found = Some((m, SymbolKind::CallSite, field_text_exec(t, i, "object")));
                    },
                    None => {},
                }
            } else if kind_is(t, i, "object_creation_expression") {
                match find_type_child(t, i) {
                    Some(c) => found = Some((text_at(t, c), SymbolKind::CallSite, None)),
                    None => {},
                }
            } else if kind_is(t, i, "field_access") {
                match field_text_exec(t, i, "field") {
                    Some(f) => {
                        found = Some((f, SymbolKind::PropertyReference, field_text_exec(t, i, "object")));
                    },
                    None => {},
                }
            } else if kind_is(t, i, "type_identifier") {
                match parent {
                    Some(p) => {
                        if !parent_kind_among(t, p, &decl_parents) {
                            let name = text_at(t, i);
                            if !name.as_str().is_empty() {
                                found = Some((name, SymbolKind::TypeReference, None));
                            }
                        }
                    },
                    None => {},
                }
            } else if kind_is(t, i, "identifier") {
                match parent {
                    Some(p) => {
                        let method_name = kind_is(t, p, "method_invocation") && find_field_child(
                            t,
                            p,
                            "name",
                        ) == Some(i);
                        if !parent_kind_among(t, p, &dominated) && !method_name {
                            let name = text_at(t, i);
                            if !name.as_str().is_empty() {
                                found = Some((name, SymbolKind::PropertyReference, None));
                            }
                        }
                    },
                    None => {},
                }
            }
        }
        let ghost fg = found;
        proof {
            match fg {
                Some(f) => {
                    assert(java_ref(*t, i as int) == Some((f.0@, f.1, opt_view(f.2))));
                },
                None => {
                    assert(!v || java_ref(*t, i as int) is None);
                },
            }
        }
        let ghost before = occs@;
        match found {
            Some((name, k, recv)) => {
                let fqn = resolve_reference(name.as_str(), package, imports);
                let o = occurrence_at(t, i, path, name, fqn, k, recv);
                occs.push(o);
                proof {
                    assert(occs@.skip(o0.len() as int) == before.skip(o0.len() as int).push(o));
                    assert forall|k: int| 0 <= k < o0.len() implies #[trigger] occs@[k] == o0[k] by {
                        assert(occs@[k] == before[k]);
                    }
                    let ns = java_ref_nodes(*t, i as int);
                    assert(java_ref_nodes(*t, i + 1) == ns.push(i as int));
                    assert forall|k: int| 0 <= k < ns.len() + 1 implies {
                        let m = ns.push(i as int)[k];
                        let d = java_ref(*t, m)->0;
                        occurrence_of(
                            #[trigger] occs@[o0.len() + k],
                            *t,
                            m,
                            path@,
                            d.0,
                            first_guess(d.0, opt_str(package), imports@),
                            d.1,
                            d.2,
                        )
                    } by {
                        if k < ns.len() {
                            assert(occs@[o0.len() + k] == before[o0.len() + k]);
                        }
                    }
                }
            },
            None => {},
        }
        i = i + 1;
    }
}

/// Whether annotation name `n` is `simple` or ends in `.simple`.
pub open spec fn names_simple(n: Seq<char>, simple: Seq<char>) -> bool {
    n == simple || (crate::text::last_dot(n) >= 0 && crate::text::last_segment(n) == simple)
}

/// Whether the annotation name `n` is `simple` or ends in `.simple`.
fn names_annotation(n: &str, simple: &str) -> (r: bool)
    ensures
        r == names_simple(n@, simple@),
{
    if same_text(n, simple) {
        return true;
    }
    let chars = chars_of(n);
    proof {
        crate::text::lemma_last_dot_bounds(chars@);
    }
    match crate::text::find_last_dot(&chars) {
        Some(d) => {
            let tail = string_of(&chars, d + 1, chars.len());
            same_text(tail.as_str(), simple)
        },
        None => false,
    }
}

/// Whether annotation `a` is named `simple` (or `….simple`).
pub open spec fn annotation_names(t: SyntaxTree, a: int, simple: Seq<char>) -> bool {
    match field_child_from(t, a, a + 1, "name"@) {
        Some(nm) => names_simple(t.nodes@[nm].text@, simple),
        None => false,
    }
}

/// Whether the `modifiers` of `c` hold an annotation naming `simple`.
pub open spec fn annotated(t: SyntaxTree, c: int, simple: Seq<char>) -> bool {
    match kind_child_from(t, c, c + 1, seq!["modifiers"]) {
        Some(m) => exists|a: int|
            m < a < t.nodes@.len() && t.is_child(a, m) && kind_among(
                #[trigger] t.nodes@[a],
                seq!["marker_annotation", "annotation"],
            ) && annotation_names(t, a, simple),
        None => false,
    }
}

/// Whether Lombok generates accessors for the fields of `c`: it is
/// annotated `Data`, or both `Getter` and `Setter`.
pub open spec fn lombok_enabled(t: SyntaxTree, c: int) -> bool {
    annotated(t, c, "Data"@) || (annotated(t, c, "Getter"@) && annotated(t, c, "Setter"@))
}

fn annotation_present(t: &SyntaxTree, m: usize, simple: &'static str) -> (r: bool)
    requires
        t.wf(),
        m < t.nodes@.len(),
    ensures
        r == exists|a: int|
            m < a < t.nodes@.len() && t.is_child(a, m as int) && kind_among(
                #[trigger] t.nodes@[a],
                seq!["marker_annotation", "annotation"],
            ) && annotation_names(*t, a, simple@),
{
    let ks: Vec<&'static str> = vec!["marker_annotation", "annotation"];
    assert(ks@ == seq!["marker_annotation", "annotation"]);
    let end = t.ends[m];
    let mut a = m + 1;
    while a < end
        invariant
            t.wf(),
            m < t.nodes@.len(),
            end == t.ends@[m as int],
            end <= t.nodes@.len(),
            m < a,
            ks@ == seq!["marker_annotation", "annotation"],
            forall|q: int|
                m < q < a ==> !(t.is_child(q, m as int) && kind_among(
                    #[trigger] t.nodes@[q],
                    seq!["marker_annotation", "annotation"],
                ) && annotation_names(*t, q, simple@)),
        decreases end - a,
    {
        let is_child = match t.nodes[a].parent {
            Some(q) => q == m,
            None => false,
        };
        if is_child && parent_kind_among(t, a, &ks) {
            match find_field_child(t, a, "name") {
                Some(nm) => {
                    if names_annotation(t.nodes[nm].text.as_str(), simple) {
                        return true;
                    }
                },
                None => {},
            }
        }
        a = a + 1;
    }
    proof {
        assert forall|q: int|
            m < q < t.nodes@.len() implies !(t.is_child(q, m as int) && kind_among(
                #[trigger] t.nodes@[q],
                seq!["marker_annotation", "annotation"],
            ) && annotation_names(*t, q, simple@)) by {
            if q >= end {
                lemma_no_child_past_end(*t, m as int, q);
            }
        }
    }
    false
}

/// Whether `c` is annotated for accessor generation.
fn lombok_on(t: &SyntaxTree, c: usize) -> (r: bool)
    requires
        t.wf(),
        c < t.nodes@.len(),
    ensures
        r == lombok_enabled(*t, c as int),
{
    let ks: Vec<&'static str> = vec!["modifiers"];
    assert(ks@ == seq!["modifiers"]);
    match find_kind_child(t, c, ks) {
        Some(m) => {
            let data = annotation_present(t, m, "Data");
            let getter = annotation_present(t, m, "Getter");
            let setter = annotation_present(t, m, "Setter");
            data || (getter && setter)
        },
        None => false,
    }
}

/// Whether the `modifiers` of `i` hold the keyword `kw`.
pub open spec fn has_mod(t: SyntaxTree, i: int, kw: &'static str) -> bool {
    match kind_child_from(t, i, i + 1, seq!["modifiers"]) {
        Some(m) => kind_child_from(t, m, m + 1, seq![kw]) is Some,
        None => false,
    }
}

fn has_modifier(t: &SyntaxTree, i: usize, kw: &'static str) -> (r: bool)
    requires
        t.wf(),
        i < t.nodes@.len(),
    ensures
        r == has_mod(*t, i as int, kw),
{
    let ks: Vec<&'static str> = vec!["modifiers"];
    assert(ks@ == seq!["modifiers"]);
    match find_kind_child(t, i, ks) {
        Some(m) => {
            let kk: Vec<&'static str> = vec![kw];
            assert(kk@ == seq![kw]);
            find_kind_child(t, m, kk).is_some()
        },
        None => false,
    }
}

/// Whether field declaration `f` has type `boolean`.
pub open spec fn boolean_field(t: SyntaxTree, f: int) -> bool {
    match field_child_from(t, f, f + 1, "type"@) {
        Some(ty) => t.nodes@[ty].text@ == "boolean"@,
        None => false,
    }
}

/// `s` with its first letter made uppercase (ASCII).
pub open spec fn capital(s: Seq<char>) -> Seq<char> {
    if s.len() > 0 && 'a' <= s[0] && s[0] <= 'z' {
        seq![((s[0] as u8) - 32u8) as char] + s.skip(1)
    } else {
        s
    }
}

/// `s` with its first letter made uppercase (ASCII).
pub fn capitalized(s: &str) -> (r: String)
    ensures
        r@ == capital(s@),
{
    let chars = chars_of(s);
    let mut out: Vec<char> = Vec::new();
    let mut k: usize = 0;
    while k < chars.len()
        invariant
            k <= chars@.len(),
            chars@ == s@,
            out@.len() == k,
            k > 0 ==> out@ == capital(chars@).take(k as int),
        decreases chars@.len() - k,
    {
        let c = chars[k];
        if k == 0 && 'a' <= c && c <= 'z' {
            out.push(((c as u8) - 32u8) as char);
        } else {
            out.push(c);
        }
        proof {
            assert(out@ =~= capital(chars@).take(k + 1));
        }
        k = k + 1;
    }
    proof {
        if chars@.len() == 0 {
            assert(out@ =~= capital(chars@));
        } else {
            assert(capital(chars@).len() == chars@.len());
            assert(out@ =~= capital(chars@));
        }
    }
    string_of(&out, 0, out.len())
}

pub open spec fn starts_is(s: Seq<char>) -> bool {
    s.len() >= 2 && s[0] == 'i' && s[1] == 's'
}

fn starts_with_is(s: &str) -> (r: bool)
    ensures
        r == starts_is(s@),
{
    let chars = chars_of(s);
    chars.len() >= 2 && chars[0] == 'i' && chars[1] == 's'
}

fn concat(a: &str, b: &str) -> (r: String)
    ensures
        r@ == a@ + b@,
{
    let mut r = a.to_owned();
    r.append(b);
    r
}

/// The getter Lombok names for field `f`: `isF` for a `boolean` (or `f`
/// itself when it starts with `is`), else `getF`.
pub open spec fn getter_name(f: Seq<char>, boolean: bool) -> Seq<char> {
    if boolean {
        if starts_is(f) {
            f
        } else {
            "is"@ + capital(f)
        }
    } else {
        "get"@ + capital(f)
    }
}

/// The setter Lombok names for field `f`.
pub open spec fn setter_name(f: Seq<char>) -> Seq<char> {
    "set"@ + capital(f)
}

/// One field with accessors: its declarator node, its class FQN, its name,
/// its getter, and its setter unless the field is final.
pub type AccessorPlan = (int, Seq<char>, Seq<char>, Seq<char>, Option<Seq<char>>);

/// The accessor plans of the declarators of field declaration `fd`, from
/// index `from`.
pub open spec fn declarator_plans(t: SyntaxTree, fd: int, cfqn: Seq<char>, boolean: bool, fin: bool, from: int) -> Seq<
    AccessorPlan,
>
    decreases t.nodes@.len() - from,
{
    if from < 0 || from >= t.nodes@.len() {
        seq![]
    } else {
        let rest = declarator_plans(t, fd, cfqn, boolean, fin, from + 1);
        let name = kind_child_text(t, from, java_name_kinds());
        if t.is_child(from, fd) && t.kind(from) == "variable_declarator"@ && name is Some {
            let f = name->0;
            let g = getter_name(f, boolean);
            let s = setter_name(f);
            if !has_dot(f) && !has_dot(g) && !has_dot(s) {
                seq![(from, cfqn, f, g, if fin { None } else { Some(s) })] + rest
            } else {
                rest
            }
        } else {
            rest
        }
    }
}

/// The accessor plans of the non-static fields among the children of body
/// `b`, from index `from`.
pub open spec fn body_plans(t: SyntaxTree, b: int, cfqn: Seq<char>, from: int) -> Seq<AccessorPlan>
    decreases t.nodes@.len() - from,
{
    if from < 0 || from >= t.nodes@.len() {
        seq![]
    } else {
        let rest = body_plans(t, b, cfqn, from + 1);
        if t.is_child(from, b) && t.kind(from) == "field_declaration"@ && !has_mod(t, from, "static") {
            declarator_plans(t, from, cfqn, boolean_field(t, from), has_mod(t, from, "final"), from + 1) + rest
        } else {
            rest
        }
    }
}

/// The accessor plans of the annotated classes and records below `upto`.
pub open spec fn lombok_plans(t: SyntaxTree, sc: ScopeTree, package: Option<Seq<char>>, upto: int) -> Seq<
    AccessorPlan,
>
    decreases upto,
{
    if upto <= 0 {
        seq![]
    } else {
        let c = upto - 1;
        let prev = lombok_plans(t, sc, package, c);
        let name = kind_child_text(t, c, java_name_kinds());
        let body = kind_child_from(t, c, c + 1, java_body_kinds());
        if (t.kind(c) == "class_declaration"@ || t.kind(c) == "record_declaration"@) && lombok_enabled(t, c)
            && name is Some && body is Some {
            prev + body_plans(t, body->0, fqn_at(sc, package, t.nodes@[c].start_byte, name->0), body->0 + 1)
        } else {
            prev
        }
    }
}

/// The FQNs of the accessors of plan `p`.
pub open spec fn plan_accessors(p: AccessorPlan) -> Seq<Seq<char>> {
    seq![dotted(p.1, p.3)] + match p.4 {
        Some(s) => seq![dotted(p.1, s)],
        None => seq![],
    }
}

/// The declarations generated for plan `p`: node, name and FQN.
pub open spec fn plan_declarations(p: AccessorPlan) -> Seq<(int, Seq<char>, Seq<char>)> {
    seq![(p.0, p.3, dotted(p.1, p.3))] + match p.4 {
        Some(s) => seq![(p.0, s, dotted(p.1, s))],
        None => seq![],
    }
}

/// The declarations generated for `ps`, in order.
pub open spec fn plans_declarations(ps: Seq<AccessorPlan>) -> Seq<(int, Seq<char>, Seq<char>)>
    decreases ps.len(),
{
    if ps.len() == 0 {
        seq![]
    } else {
        plans_declarations(ps.drop_last()) + plan_declarations(ps.last())
    }
}

/// `e` is the accessor entry of plan `p`.
pub open spec fn entry_of(e: AccessorEntry, p: AccessorPlan) -> bool {
    &&& e.0@ == dotted(p.1, p.2)
    &&& e.1@.map_values(|s: String| s@) == plan_accessors(p)
}

/// `occs` are the declarations `ds` in file `path` of tree `t`.
pub open spec fn declared(occs: Seq<SymbolOccurrence>, ds: Seq<(int, Seq<char>, Seq<char>)>, t: SyntaxTree, path: Seq<char>) -> bool {
    &&& occs.len() == ds.len()
    &&& forall|k: int|
        0 <= k < ds.len() ==> occurrence_of(
            #[trigger] occs[k],
            t,
            ds[k].0,
            path,
            ds[k].1,
            Some(ds[k].2),
            SymbolKind::FunctionDeclaration,
            None,
        )
}

/// The entries of `v` are those of plans `ps`, in order.
pub open spec fn entries_of(v: Seq<AccessorEntry>, ps: Seq<AccessorPlan>) -> bool {
    v.len() == ps.len() && forall|k: int| 0 <= k < ps.len() ==> entry_of(#[trigger] v[k], ps[k])
}

proof fn lemma_plans_declarations_append(a: Seq<AccessorPlan>, b: Seq<AccessorPlan>)
    ensures
        plans_declarations(a + b) == plans_declarations(a) + plans_declarations(b),
    decreases b.len(),
{
    if b.len() == 0 {
        assert(a + b =~= a);
        assert(plans_declarations(b) =~= Seq::empty());
        assert(plans_declarations(a) + plans_declarations(b) =~= plans_declarations(a));
    } else {
        assert((a + b).drop_last() =~= a + b.drop_last());
        assert((a + b).last() == b.last());
        lemma_plans_declarations_append(a, b.drop_last());
        assert(plans_declarations(a) + plans_declarations(b) =~= plans_declarations(a) + plans_declarations(b.drop_last())
            + plan_declarations(b.last()));
    }
}

proof fn lemma_declared_append(
    o1: Seq<SymbolOccurrence>,
    d1: Seq<(int, Seq<char>, Seq<char>)>,
    o2: Seq<SymbolOccurrence>,
    d2: Seq<(int, Seq<char>, Seq<char>)>,
    t: SyntaxTree,
    path: Seq<char>,
)
    requires
        declared(o1, d1, t, path),
        declared(o2, d2, t, path),
    ensures
        declared(o1 + o2, d1 + d2, t, path),
{
    assert forall|k: int| 0 <= k < (d1 + d2).len() implies occurrence_of(
        #[trigger] (o1 + o2)[k],
        t,
        (d1 + d2)[k].0,
        path,
        (d1 + d2)[k].1,
        Some((d1 + d2)[k].2),
        SymbolKind::FunctionDeclaration,
        None,
    ) by {
        if k < d1.len() {
            assert((o1 + o2)[k] == o1[k]);
            assert((d1 + d2)[k] == d1[k]);
        } else {
            assert((o1 + o2)[k] == o2[k - o1.len()]);
            assert((d1 + d2)[k] == d2[k - d1.len()]);
        }
    }
}

proof fn lemma_entries_append(v1: Seq<AccessorEntry>, p1: Seq<AccessorPlan>, v2: Seq<AccessorEntry>, p2: Seq<AccessorPlan>)
    requires
        entries_of(v1, p1),
        entries_of(v2, p2),
    ensures
        entries_of(v1 + v2, p1 + p2),
{
    assert forall|k: int| 0 <= k < (p1 + p2).len() implies entry_of(#[trigger] (v1 + v2)[k], (p1 + p2)[k]) by {
        if k < p1.len() {
            assert((v1 + v2)[k] == v1[k]);
            assert((p1 + p2)[k] == p1[k]);
        } else {
            assert((v1 + v2)[k] == v2[k - v1.len()]);
            assert((p1 + p2)[k] == p2[k - p1.len()]);
        }
    }
}

proof fn lemma_last_dot_of_dotted(a: Seq<char>, b: Seq<char>)
    requires
        !has_dot(b),
    ensures
        before_last_dot(dotted(a, b)) == Some(a),
    decreases b.len(),
{
    let s = dotted(a, b);
    if b.len() == 0 {
        assert(s.last() == '.');
        assert(s.subrange(0, s.len() - 1) =~= a);
    } else {
        assert(b.last() != '.') by {
            assert(b[b.len() - 1] == b.last());
        }
        assert(s.drop_last() =~= dotted(a, b.drop_last()));
        assert(!has_dot(b.drop_last())) by {
            if has_dot(b.drop_last()) {
                let i = choose|i: int| 0 <= i < b.drop_last().len() && b.drop_last()[i] == '.';
                assert(b[i] == '.');
            }
        }
        lemma_last_dot_of_dotted(a, b.drop_last());
        crate::text::lemma_last_dot_bounds(s.drop_last());
        assert(s.subrange(0, crate::text::last_dot(s)) =~= s.drop_last().subrange(0, crate::text::last_dot(s.drop_last())));
    }
}

/// Accessor entries and declarations for the declarators of field
/// declaration `fd` of a class with FQN `class_fqn`.
fn field_accessors(
    t: &SyntaxTree,
    fd: usize,
    class_fqn: &String,
    path: &str,
    entries: &mut Vec<AccessorEntry>,
    occs: &mut Vec<SymbolOccurrence>,
)
    requires
        t.wf(),
        fd < t.nodes@.len(),
        accessors_beside_fields(old(entries)@),
        placed(old(occs)@, path@),
    ensures
        accessors_beside_fields(final(entries)@),
        placed(final(occs)@, path@),
        ({
            let ps = declarator_plans(*t, fd as int, class_fqn@, boolean_field(*t, fd as int), has_mod(*t, fd as int, "final"), fd + 1);
            &&& final(entries)@.len() == old(entries)@.len() + ps.len()
            &&& final(occs)@.len() >= old(occs)@.len()
            &&& final(entries)@.take(old(entries)@.len() as int) == old(entries)@
            &&& entries_of(final(entries)@.skip(old(entries)@.len() as int), ps)
            &&& final(occs)@.take(old(occs)@.len() as int) == old(occs)@
            &&& declared(final(occs)@.skip(old(occs)@.len() as int), plans_declarations(ps), *t, path@)
        }),
{
    let is_final = has_modifier(t, fd, "final");
    let is_boolean = match find_field_child(t, fd, "type") {
        Some(ty) => same_text(t.nodes[ty].text.as_str(), "boolean"),
        None => false,
    };
    let ghost ps = declarator_plans(*t, fd as int, class_fqn@, is_boolean, is_final, fd + 1);
    assert(is_boolean == boolean_field(*t, fd as int));
    let ghost e0 = entries@;
    let ghost o0 = occs@;
    let ghost mut done: Seq<AccessorPlan> = seq![];
    let end = t.ends[fd];
    let mut v = fd + 1;
    assert(e0.skip(e0.len() as int) =~= Seq::<AccessorEntry>::empty());
    assert(o0.skip(o0.len() as int) =~= Seq::<SymbolOccurrence>::empty());
    assert(plans_declarations(done) =~= Seq::empty());
    while v < end
        invariant
            t.wf(),
            fd < t.nodes@.len(),
            end == t.ends@[fd as int],
            end <= t.nodes@.len(),
            fd < v,
            ps == declarator_plans(*t, fd as int, class_fqn@, is_boolean, is_final, fd + 1),
            ps == done + declarator_plans(*t, fd as int, class_fqn@, is_boolean, is_final, v as int),
            accessors_beside_fields(entries@),
            placed(occs@, path@),
            entries@.len() == e0.len() + done.len(),
            occs@.len() >= o0.len(),
            entries@.take(e0.len() as int) == e0,
            entries_of(entries@.skip(e0.len() as int), done),
            occs@.take(o0.len() as int) == o0,
            declared(occs@.skip(o0.len() as int), plans_declarations(done), *t, path@),
        decreases end - v,
    {
        let ghost rest = declarator_plans(*t, fd as int, class_fqn@, is_boolean, is_final, v + 1);
        let is_child = match t.nodes[v].parent {
            Some(q) => q == fd,
            None => false,
        };
        let mut pushed = false;
        if is_child && kind_is(t, v, "variable_declarator") {
            match child_text(t, v, name_kinds()) {
                Some(fname) => {
                    let pascal = capitalized(fname.as_str());
                    let get_name = if is_boolean {
                        if starts_with_is(fname.as_str()) {
                            fname.clone()
                        } else {
                            concat("is", pascal.as_str())
                        }
                    } else {
                        concat("get", pascal.as_str())
                    };
                    let set_name = concat("set", pascal.as_str());
                    assert(get_name@ == getter_name(fname@, is_boolean));
                    assert(set_name@ == setter_name(fname@));
                    if !crate::text::contains_dot(fname.as_str()) && !crate::text::contains_dot(get_name.as_str())
                        && !crate::text::contains_dot(set_name.as_str()) {
                        let ghost plan: AccessorPlan = (
                            v as int,
                            class_fqn@,
                            fname@,
                            get_name@,
                            if is_final {
                                None
                            } else {
                                Some(set_name@)
                            },
                        );
                        let field_fqn = join_dotted(class_fqn.as_str(), fname.as_str());
                        let get_fqn = join_dotted(class_fqn.as_str(), get_name.as_str());
                        proof {
                            lemma_last_dot_of_dotted(class_fqn@, fname@);
                            lemma_last_dot_of_dotted(class_fqn@, get_name@);
                            lemma_last_dot_of_dotted(class_fqn@, set_name@);
                        }
                        let ghost ob = occs@;
                        let mut accs: Vec<String> = Vec::new();
                        let mut new_occs: Vec<SymbolOccurrence> = Vec::new();
                        new_occs.push(
                            occurrence_at(t, v, path, get_name, Some(get_fqn.clone()), SymbolKind::FunctionDeclaration, None),
                        );
                        accs.push(get_fqn);
                        if !is_final {
                            let set_fqn = join_dotted(class_fqn.as_str(), set_name.as_str());
                            new_occs.push(
                                occurrence_at(t, v, path, set_name, Some(set_fqn.clone()), SymbolKind::FunctionDeclaration, None),
                            );
                            accs.push(set_fqn);
                        }
                        proof {
                            assert(accs@.map_values(|s: String| s@) =~= plan_accessors(plan));
                            assert(declared(new_occs@, plan_declarations(plan), *t, path@));
                        }
                        let ghost nv = new_occs@;
                        let ghost eb = entries@;
                        occs.append(&mut new_occs);
                        entries.push((field_fqn, accs));
                        pushed = true;
                        proof {
                            assert(declarator_plans(*t, fd as int, class_fqn@, is_boolean, is_final, v as int) == seq![plan] + rest);
                            assert(ps == done.push(plan) + rest) by {
                                assert(done + (seq![plan] + rest) =~= done.push(plan) + rest);
                            }
                            assert(done.push(plan).drop_last() =~= done);
                            assert(done.push(plan).last() == plan);
                            assert(plans_declarations(done.push(plan)) == plans_declarations(done) + plan_declarations(plan));
                            assert(occs@ =~= ob + nv);
                            assert(occs@.take(o0.len() as int) =~= o0) by {
                                assert(ob.take(o0.len() as int) == o0);
                            }
                            assert(occs@.skip(o0.len() as int) =~= ob.skip(o0.len() as int) + nv);
                            lemma_declared_append(ob.skip(o0.len() as int), plans_declarations(done), nv, plan_declarations(plan), *t, path@);
                            assert(entries@ =~= eb.push(entries@[eb.len() as int]));
                            assert(entries@.take(e0.len() as int) =~= e0) by {
                                assert(eb.take(e0.len() as int) == e0);
                            }
                            assert(entries@.skip(e0.len() as int) =~= eb.skip(e0.len() as int) + seq![entries@[eb.len() as int]]);
                            assert(entries_of(seq![entries@[eb.len() as int]], seq![plan]));
                            lemma_entries_append(eb.skip(e0.len() as int), done, seq![entries@[eb.len() as int]], seq![plan]);
                            assert(done + seq![plan] =~= done.push(plan));
                            assert forall|k: int| 0 <= k < occs@.len() implies (#[trigger] occs@[k]).file@ == path@
                                && occs@[k].line >= 1 && occs@[k].column >= 1 by {
                                if k >= ob.len() {
                                    assert(occs@[k] == nv[k - ob.len()]);
                                } else {
                                    assert(occs@[k] == ob[k]);
                                }
                            }
                            assert forall|e: int, k: int|
                                0 <= e < entries@.len() && 0 <= k < entries@[e].1@.len() implies before_last_dot(
                                    (#[trigger] entries@[e].1@[k])@,
                                ) == before_last_dot(entries@[e].0@) by {
                                if e < eb.len() {
                                    assert(entries@[e] == eb[e]);
                                }
                            }
                            done = done.push(plan);
                        }
                    }
                },
                None => {},
            }
        }
        proof {
            if !pushed {
                assert(declarator_plans(*t, fd as int, class_fqn@, is_boolean, is_final, v as int) == rest);
            }
        }
        v = v + 1;
    }
    proof {
        lemma_declarator_plans_past_end(*t, fd as int, class_fqn@, is_boolean, is_final, v as int);
        assert(done + Seq::<AccessorPlan>::empty() =~= done);
    }
}

proof fn lemma_declarator_plans_past_end(t: SyntaxTree, fd: int, cfqn: Seq<char>, boolean: bool, fin: bool, from: int)
    requires
        t.wf(),
        0 <= fd < t.nodes@.len(),
        from >= t.ends@[fd],
    ensures
        declarator_plans(t, fd, cfqn, boolean, fin, from) == Seq::<AccessorPlan>::empty(),
    decreases t.nodes@.len() - from,
{
    if 0 <= from < t.nodes@.len() {
        lemma_no_child_past_end(t, fd, from);
        lemma_declarator_plans_past_end(t, fd, cfqn, boolean, fin, from + 1);
    }
}

proof fn lemma_body_plans_past_end(t: SyntaxTree, b: int, cfqn: Seq<char>, from: int)
    requires
        t.wf(),
        0 <= b < t.nodes@.len(),
        from >= t.ends@[b],
    ensures
        body_plans(t, b, cfqn, from) == Seq::<AccessorPlan>::empty(),
    decreases t.nodes@.len() - from,
{
    if 0 <= from < t.nodes@.len() {
        lemma_no_child_past_end(t, b, from);
        lemma_body_plans_past_end(t, b, cfqn, from + 1);
    }
}

/// Accessor entries and declarations for the non-static fields among the
/// children of body `b` of a class with FQN `class_fqn`.
fn body_accessors(
    t: &SyntaxTree,
    b: usize,
    class_fqn: &String,
    path: &str,
    entries: &mut Vec<AccessorEntry>,
    occs: &mut Vec<SymbolOccurrence>,
)
    requires
        t.wf(),
        b < t.nodes@.len(),
        accessors_beside_fields(old(entries)@),
        placed(old(occs)@, path@),
    ensures
        accessors_beside_fields(final(entries)@),
        placed(final(occs)@, path@),
        ({
            let ps = body_plans(*t, b as int, class_fqn@, b + 1);
            &&& final(entries)@.len() >= old(entries)@.len()
            &&& final(occs)@.len() >= old(occs)@.len()
            &&& final(entries)@.take(old(entries)@.len() as int) == old(entries)@
            &&& entries_of(final(entries)@.skip(old(entries)@.len() as int), ps)
            &&& final(occs)@.take(old(occs)@.len() as int) == old(occs)@
            &&& declared(final(occs)@.skip(old(occs)@.len() as int), plans_declarations(ps), *t, path@)
        }),
{
    let ghost e0 = entries@;
    let ghost o0 = occs@;
    let ghost ps = body_plans(*t, b as int, class_fqn@, b + 1);
    let ghost mut done: Seq<AccessorPlan> = seq![];
    let end = t.ends[b];
    let mut f = b + 1;
    assert(e0.take(e0.len() as int) =~= e0);
    assert(o0.take(o0.len() as int) =~= o0);
    assert(e0.skip(e0.len() as int) =~= Seq::<AccessorEntry>::empty());
    assert(o0.skip(o0.len() as int) =~= Seq::<SymbolOccurrence>::empty());
    assert(plans_declarations(done) =~= Seq::empty());
    while f < end
        invariant
            t.wf(),
            b < t.nodes@.len(),
            end == t.ends@[b as int],
            end <= t.nodes@.len(),
            b < f,
            ps == body_plans(*t, b as int, class_fqn@, b + 1),
            ps == done + body_plans(*t, b as int, class_fqn@, f as int),
            accessors_beside_fields(entries@),
            placed(occs@, path@),
            entries@.len() >= e0.len(),
            entries@.take(e0.len() as int) == e0,
            entries_of(entries@.skip(e0.len() as int), done),
            occs@.len() >= o0.len(),
            occs@.take(o0.len() as int) == o0,
            declared(occs@.skip(o0.len() as int), plans_declarations(done), *t, path@),
        decreases end - f,
    {
        let ghost rest = body_plans(*t, b as int, class_fqn@, f + 1);
        let is_child = match t.nodes[f].parent {
            Some(q) => q == b,
            None => false,
        };
        if is_child && kind_is(t, f, "field_declaration") && !has_modifier(t, f, "static") {
            let ghost eb = entries@;
            let ghost ob = occs@;
            let ghost fp = declarator_plans(*t, f as int, class_fqn@, boolean_field(*t, f as int), has_mod(*t, f as int, "final"), f + 1);
            field_accessors(t, f, class_fqn, path, entries, occs);
            proof {
                assert(body_plans(*t, b as int, class_fqn@, f as int) == fp + rest);
                assert(ps == (done + fp) + rest);
                lemma_plans_declarations_append(done, fp);
                assert(entries@ =~= eb + entries@.skip(eb.len() as int)) by {
                    assert(entries@.take(eb.len() as int) == eb);
                }
                assert(entries@.skip(e0.len() as int) =~= eb.skip(e0.len() as int) + entries@.skip(eb.len() as int));
                lemma_entries_append(eb.skip(e0.len() as int), done, entries@.skip(eb.len() as int), fp);
                assert(entries@.take(e0.len() as int) =~= e0) by {
                    assert(entries@.take(e0.len() as int) =~= entries@.take(eb.len() as int).take(e0.len() as int));
                }
                assert(occs@ =~= ob + occs@.skip(ob.len() as int)) by {
                    assert(occs@.take(ob.len() as int) == ob);
                }
                assert(occs@.skip(o0.len() as int) =~= ob.skip(o0.len() as int) + occs@.skip(ob.len() as int));
                lemma_declared_append(ob.skip(o0.len() as int), plans_declarations(done), occs@.skip(ob.len() as int), plans_declarations(fp), *t, path@);
                assert(occs@.take(o0.len() as int) =~= o0) by {
                    assert(occs@.take(o0.len() as int) =~= occs@.take(ob.len() as int).take(o0.len() as int));
                }
                done = done + fp;
            }
        } else {
            proof {
                assert(body_plans(*t, b as int, class_fqn@, f as int) == rest);
            }
        }
        f = f + 1;
    }
    proof {
        lemma_body_plans_past_end(*t, b as int, class_fqn@, f as int);
        assert(done + Seq::<AccessorPlan>::empty() =~= done);
    }
}

/// The accessors Lombok generates for the fields of classes and records
/// annotated `@Data`, or both `@Getter` and `@Setter`: for each non-static
/// field `f` of type `T`, the getter (`isF` for a `boolean`, or `f` itself
/// when it already starts with `is`; else `getF`) and, unless the field is
/// final, the setter `setF`. Each accessor is also declared at the field's
/// declarator.
pub fn lombok_accessors(
    t: &SyntaxTree,
    path: &str,
    package: Option<&str>,
    scopes: &ScopeTree,
    occs: &mut Vec<SymbolOccurrence>,
) -> (r: Vec<AccessorEntry>)
    requires
        t.wf(),
        placed(old(occs)@, path@),
    ensures
        placed(final(occs)@, path@),
        accessors_beside_fields(r@),
        entries_of(r@, lombok_plans(*t, *scopes, opt_str(package), t.nodes@.len() as int)),
        final(occs)@.len() >= old(occs)@.len(),
        final(occs)@.take(old(occs)@.len() as int) == old(occs)@,
        declared(
            final(occs)@.skip(old(occs)@.len() as int),
            plans_declarations(lombok_plans(*t, *scopes, opt_str(package), t.nodes@.len() as int)),
            *t,
            path@,
        ),
{
    let ghost o0 = occs@;
    let mut entries: Vec<AccessorEntry> = Vec::new();
    let mut c: usize = 0;
    assert(o0.take(o0.len() as int) =~= o0);
    assert(o0.skip(o0.len() as int) =~= Seq::<SymbolOccurrence>::empty());
    assert(plans_declarations(lombok_plans(*t, *scopes, opt_str(package), 0)) =~= Seq::empty());
    assert(entries@.skip(0) =~= entries@);
    while c < t.nodes.len()
        invariant
            t.wf(),
            c <= t.nodes@.len(),
            placed(occs@, path@),
            accessors_beside_fields(entries@),
            entries_of(entries@, lombok_plans(*t, *scopes, opt_str(package), c as int)),
            occs@.len() >= o0.len(),
            occs@.take(o0.len() as int) == o0,
            declared(occs@.skip(o0.len() as int), plans_declarations(lombok_plans(*t, *scopes, opt_str(package), c as int)), *t, path@),
        decreases t.nodes@.len() - c,
    {
        let ghost prev = lombok_plans(*t, *scopes, opt_str(package), c as int);
        let mut added = false;
        if kind_is(t, c, "class_declaration") || kind_is(t, c, "record_declaration") {
            let on = lombok_on(t, c);
            let class_name = child_text(t, c, name_kinds());
            let body = find_java_body(t, c);
            match (class_name, body) {
                (Some(cn), Some(b)) => {
                    if on {
                        proof {
                            assert(c < t.ends@[c as int]);
                        }
                        let class_fqn = build_fqn(package, scopes, t.nodes[c].start_byte, cn.as_str());
                        let ghost eb = entries@;
                        let ghost ob = occs@;
                        let ghost bp = body_plans(*t, b as int, class_fqn@, b + 1);
                        body_accessors(t, b, &class_fqn, path, &mut entries, occs);
                        proof {
                            assert(lombok_plans(*t, *scopes, opt_str(package), c + 1) == prev + bp);
                            assert(eb.skip(0) =~= eb);
                            assert(entries@ =~= eb + entries@.skip(eb.len() as int)) by {
                                assert(entries@.take(eb.len() as int) == eb);
                            }
                            lemma_entries_append(eb, prev, entries@.skip(eb.len() as int), bp);
                            lemma_plans_declarations_append(prev, bp);
                            assert(occs@ =~= ob + occs@.skip(ob.len() as int)) by {
                                assert(occs@.take(ob.len() as int) == ob);
                            }
                            assert(occs@.skip(o0.len() as int) =~= ob.skip(o0.len() as int) + occs@.skip(ob.len() as int));
                            lemma_declared_append(ob.skip(o0.len() as int), plans_declarations(prev), occs@.skip(ob.len() as int), plans_declarations(bp), *t, path@);
                            assert(occs@.take(o0.len() as int) =~= o0) by {
                                assert(occs@.take(o0.len() as int) =~= occs@.take(ob.len() as int).take(o0.len() as int));
                            }
                        }
                        added = true;
                    }
                },
                _ => {},
            }
        }
        proof {
            if !added {
                assert(lombok_plans(*t, *scopes, opt_str(package), c + 1) == prev);
            }
        }
        c = c + 1;
    }
    entries
}

/// The package that the header of a Java file names.
pub open spec fn java_package(t: SyntaxTree) -> Option<Seq<char>> {
    if t.nodes@.len() == 0 {
        None
    } else {
        header_name_from(t, 1, "package_declaration"@, seq!["scoped_identifier", "identifier"])
    }
}

/// The first occurrences of `occs` are the declarations of `t`, in source
/// order, with FQNs under scope tree `sc`.
pub open spec fn java_decls_under(path: Seq<char>, t: SyntaxTree, occs: Seq<SymbolOccurrence>, sc: ScopeTree) -> bool {
    let ds = java_decls(t, t.nodes@.len() as int);
    forall|k: int|
        0 <= k < ds.len() ==> occurrence_of(
            #[trigger] occs[k],
            t,
            ds[k].0,
            path,
            ds[k].1,
            Some(fqn_at(sc, java_package(t), t.nodes@[ds[k].3].start_byte, ds[k].1)),
            ds[k].2,
            None,
        )
}

/// `r` is what a Java file at `path` with tree `t` gives: its record (path,
/// package, imports); then its occurrences: the declarations in source
/// order (with FQNs under the file's scope tree), the generated accessor
/// declarations, the
/// references in source order (each with its first-guess FQN), and one
/// `Import` occurrence per import; and accessors beside their fields.
pub open spec fn java_file_of(path: Seq<char>, t: SyntaxTree, r: JavaExtraction) -> bool {
    let n = t.nodes@.len() as int;
    let imps = java_import_nodes(t, n);
    let decls = java_decls(t, n);
    let refs = java_ref_nodes(t, n);
    let occs = r.0.1@;
    let info = r.0.0;
    let generated = (occs.len() - decls.len() - refs.len() - imps.len()) as int;
    &&& info.path@ == path
    &&& opt_view(info.package) == java_package(t)
    &&& info.imports@.len() == imps.len()
    &&& forall|k: int|
        0 <= k < imps.len() ==> import_of(#[trigger] info.imports@[k], t, imps[k], java_import(t, imps[k])->0)
    &&& occs.len() >= decls.len() + refs.len() + imps.len()
    &&& occs.len() - decls.len() - refs.len() - imps.len() >= 0
    &&& exists|sc: ScopeTree|
        #![trigger scopes_of(sc, java_scope_list(t, n))]
        scopes_of(sc, java_scope_list(t, n)) && java_decls_under(path, t, occs, sc) && declared(
            occs.subrange(decls.len() as int, decls.len() + generated),
            plans_declarations(lombok_plans(t, sc, java_package(t), n)),
            t,
            path,
        ) && entries_of(r.1@, lombok_plans(t, sc, java_package(t), n))
    &&& forall|k: int|
        0 <= k < refs.len() ==> {
            let d = java_ref(t, refs[k])->0;
            occurrence_of(
                #[trigger] occs[decls.len() + generated + k],
                t,
                refs[k],
                path,
                d.0,
                first_guess(d.0, java_package(t), info.imports@),
                d.1,
                d.2,
            )
        }
    &&& forall|k: int|
        0 <= k < imps.len() ==> import_occurrence_of(
            #[trigger] occs[decls.len() + generated + refs.len() + k],
            info.imports@[k],
            path,
            false,
        )
    &&& placed(occs, path)
    &&& accessors_beside_fields(r.1@)
}

/// Extracts a parsed Java file: package, imports, declarations, generated
/// accessors, references and an `Import` occurrence per import.
pub fn extract_java_file(path: &str, t: &SyntaxTree) -> (r: JavaExtraction)
    requires
        t.wf(),
    ensures
        java_file_of(path@, *t, r),
{
    let package = extract_package_java(t);
    let imports = extract_imports_java(t);
    let scopes = build_scope_tree_java(t);
    let mut occs: Vec<SymbolOccurrence> = Vec::new();
    let pkg: Option<&str> = match &package {
        Some(p) => Some(p.as_str()),
        None => None,
    };
    assert(opt_str(pkg) == java_package(*t));
    extract_declarations_java(t, path, pkg, &scopes, &mut occs);
    let ghost after_decls = occs@;
    let accessors = lombok_accessors(t, path, pkg, &scopes, &mut occs);
    let ghost after_gen = occs@;
    extract_references_java(t, path, pkg, &imports, &mut occs);
    let ghost after_refs = occs@;
    proof {
        assert forall|k: int| 0 <= k < occs@.len() implies (#[trigger] occs@[k]).file@ == path@
            && occs@[k].line >= 1 && occs@[k].column >= 1 by {
            if k >= after_gen.len() {
                assert(occs@[k] == occs@.skip(after_gen.len() as int)[k - after_gen.len()]);
            }
        }
    }
    import_occurrences(&imports, path, false, &mut occs);
    proof {
        let n = t.nodes@.len() as int;
        let dl = java_decls(*t, n).len();
        let rl = java_ref_nodes(*t, n).len();
        let gl = after_gen.len() - after_decls.len();
        assert forall|k: int| 0 <= k < occs@.len() implies (#[trigger] occs@[k]).file@ == path@
            && occs@[k].line >= 1 && occs@[k].column >= 1 by {
            if k >= after_refs.len() {
                let q = k - after_refs.len();
                assert(occs@[after_refs.len() + q].file@ == path@);
            } else {
                assert(occs@[k] == after_refs[k]);
            }
        }
        assert forall|k: int| 0 <= k < dl implies occurrence_of(
            #[trigger] occs@[k],
            *t,
            java_decls(*t, n)[k].0,
            path@,
            java_decls(*t, n)[k].1,
            Some(fqn_at(scopes, java_package(*t), t.nodes@[java_decls(*t, n)[k].3].start_byte, java_decls(*t, n)[k].1)),
            java_decls(*t, n)[k].2,
            None,
        ) by {
            assert(occs@[k] == after_refs[k]);
            assert(after_refs[k] == after_gen[k]);
            assert(after_gen.take(after_decls.len() as int)[k] == after_gen[k]);
            assert(after_gen[k] == after_decls[0 + k]);
        }
        assert(scopes_of(scopes, java_scope_list(*t, n)));
        assert(java_decls_under(path@, *t, occs@, scopes));
        assert(occs@.subrange(dl as int, dl + gl) =~= after_gen.skip(dl as int)) by {
            assert forall|q: int| 0 <= q < gl implies occs@.subrange(dl as int, dl + gl)[q] == after_gen.skip(dl as int)[q] by {
                assert(occs@[dl + q] == after_refs[dl + q]);
                assert(after_refs[dl + q] == after_gen[dl + q]);
            }
        }
        assert forall|k: int| 0 <= k < rl implies {
            let m = java_ref_nodes(*t, n)[k];
            let d = java_ref(*t, m)->0;
            occurrence_of(
                #[trigger] occs@[dl + gl + k],
                *t,
                m,
                path@,
                d.0,
                first_guess(d.0, java_package(*t), imports@),
                d.1,
                d.2,
            )
        } by {
            assert(occs@[dl + gl + k] == after_refs[dl + gl + k]);
            assert(after_refs[after_gen.len() + k] == after_refs[dl + gl + k]);
        }
    }
    ((FileInfo { path: path.to_owned(), package, imports }, occs, Vec::new()), accessors)
}

/// `r` is what Java file `path` with text `source` gives: the file with the
/// parse of `source`, or, when the grammar is refused, an empty record.
pub open spec fn java_source_of(path: Seq<char>, source: Seq<char>, r: JavaExtraction) -> bool {
    &&& r.0.0.path@ == path
    &&& placed(r.0.1@, path)
    &&& accessors_beside_fields(r.1@)
    &&& if grammar_loads(java_grammar()) {
        exists|t: SyntaxTree| t.wf() && is_parse(t, java_grammar(), source) && #[trigger] java_file_of(path, t, r)
    } else {
        r.0.1@.len() == 0 && r.0.0.package is None && r.0.0.imports@.len() == 0 && r.1@.len() == 0
    }
}

/// Parses and extracts a Java source file with its generated accessors:
/// what the file with the parse of `source` gives. When the grammar is
/// refused, the file is recorded with nothing in it.
pub fn extract_java(path: &str, source: &str) -> (r: JavaExtraction)
    ensures
        java_source_of(path@, source@, r),
{
    match parse_tree(true, source) {
        Some(t) => {
            let r = extract_java_file(path, &t);
            assert(t.wf() && is_parse(t, java_grammar(), source@) && java_file_of(path@, t, r));
            r
        },
        None => (
            (FileInfo { path: path.to_owned(), package: None, imports: Vec::new() }, Vec::new(), Vec::new()),
            Vec::new(),
        ),
    }
}

/// Parses and extracts a Java source file: the record and occurrences of
/// `extract_java`.
pub fn parse_java_file(path: &str, source: &str) -> (r: Extraction)
    ensures
        r.0.path@ == path@,
        placed(r.1@, path@),
        if grammar_loads(java_grammar()) {
            exists|t: SyntaxTree, a: Vec<AccessorEntry>|
                t.wf() && is_parse(t, java_grammar(), source@) && #[trigger] java_file_of(path@, t, (r, a))
        } else {
            r.1@.len() == 0 && r.0.package is None && r.0.imports@.len() == 0
        },
{
    let full = extract_java(path, source);
    let ghost whole = full;
    let (r, accessors) = full;
    proof {
        assert(whole == (r, accessors));
        if grammar_loads(java_grammar()) {
            let t = choose|t: SyntaxTree|
                t.wf() && is_parse(t, java_grammar(), source@) && #[trigger] java_file_of(path@, t, whole);
            assert(java_file_of(path@, t, (r, accessors)));
        }
    }
    r
}

} // verus!
