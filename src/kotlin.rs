//! Occurrence extraction from Kotlin syntax trees.
use vstd::prelude::*;

use crate::extract::{
    all_references, build_fqn, child_text, fqn_at, header_name, header_name_from,
    import_of, import_occurrence_of, import_occurrences, kind_child_text,
    occurrence_at, occurrence_of, opt_str, placed, text_at, Extraction,
};
use crate::index::{FileInfo, ImportInfo, Span, SymbolKind, SymbolOccurrence};
use crate::resolve::resolve_reference;
use crate::scope::{seg_view, sort_by, ScopeSegment, ScopeTree};
use crate::resolve::{first_guess, opt_view};
use crate::syntax::{
    any_child_from, any_node, field, field_child_from, find_any_child, find_any_child_from, find_child,
    find_child_from, find_field_child, find_kind_child, find_kind_child_from, find_last_child, kind_among,
    kind_child_from, kind_is, kinds, last_child, lemma_no_child_past_end, parse_tree, SyntaxTree,
    grammar_loads, is_parse, kotlin_grammar,
};
use crate::text::{simple_type_name, type_name_of, uppercase_char};

verus! {

fn name_kinds() -> (r: Vec<&'static str>)
    ensures
        r@ == name_kinds_s(),
{
    vec!["identifier", "type_identifier", "simple_identifier"]
}

fn id_kinds() -> (r: Vec<&'static str>)
    ensures
        r@ == id_kinds_s(),
{
    vec!["identifier", "simple_identifier"]
}

fn is_ident(t: &SyntaxTree, i: usize) -> (r: bool)
    requires
        i < t.nodes@.len(),
    ensures
        r == (t.kind(i as int) == "simple_identifier"@ || t.kind(i as int) == "identifier"@),
{
    kind_is(t, i, "simple_identifier") || kind_is(t, i, "identifier")
}

/// The package named by the first root-level `package_header` that holds a
/// name.
pub fn extract_package(t: &SyntaxTree) -> (r: Option<String>)
    requires
        t.wf(),
    ensures
        opt_view(r) == if t.nodes@.len() == 0 {
            None
        } else {
            header_name_from(*t, 1, "package_header"@, seq!["qualified_identifier", "identifier"])
        },
{
    let ks: Vec<&'static str> = vec!["qualified_identifier", "identifier"];
    assert(ks@ == seq!["qualified_identifier", "identifier"]);
    header_name(t, "package_header", ks)
}

/// What an import node's children give, read in order: the path, the
/// alias, whether it is a wildcard, and whether `as` was seen.
pub type ImportState = (Option<Seq<char>>, Option<Seq<char>>, bool, bool);

/// The text of the last child of `p` from `from` on whose kind is among
/// `ks`, else `acc`.
pub open spec fn last_kind_text(t: SyntaxTree, p: int, from: int, ks: Seq<&'static str>, acc: Option<Seq<char>>) -> Option<
    Seq<char>,
>
    decreases t.nodes@.len() - from,
{
    if from < 0 || from >= t.nodes@.len() {
        acc
    } else if t.is_child(from, p) && kind_among(t.nodes@[from], ks) {
        last_kind_text(t, p, from + 1, ks, Some(t.nodes@[from].text@))
    } else {
        last_kind_text(t, p, from + 1, ks, acc)
    }
}

/// One step of reading a Kotlin import: child `c` changes the state.
pub open spec fn import_step(t: SyntaxTree, c: int, st: ImportState) -> ImportState {
    let k = t.kind(c);
    let txt = t.nodes@[c].text@;
    if k == "qualified_identifier"@ {
        (Some(txt), st.1, st.2, st.3)
    } else if k == "as"@ {
        (st.0, st.1, st.2, true)
    } else if k == "identifier"@ && st.3 {
        (st.0, Some(txt), st.2, st.3)
    } else if k == "identifier"@ && st.0 is None {
        (Some(txt), st.1, st.2, st.3)
    } else if k == "*"@ {
        (st.0, st.1, true, st.3)
    } else if k == "import_alias"@ {
        (st.0, last_kind_text(t, c, c + 1, name_kinds_s(), st.1), st.2, st.3)
    } else {
        st
    }
}

/// The state after reading the children of import `i` from `from` on.
pub open spec fn import_read(t: SyntaxTree, i: int, from: int, st: ImportState) -> ImportState
    decreases t.nodes@.len() - from,
{
    if from < 0 || from >= t.nodes@.len() {
        st
    } else if t.is_child(from, i) {
        import_read(t, i, from + 1, import_step(t, from, st))
    } else {
        import_read(t, i, from + 1, st)
    }
}

proof fn lemma_import_read_past_end(t: SyntaxTree, i: int, from: int, st: ImportState)
    requires
        t.wf(),
        0 <= i < t.nodes@.len(),
        from >= t.ends@[i],
    ensures
        import_read(t, i, from, st) == st,
    decreases t.nodes@.len() - from,
{
    if 0 <= from < t.nodes@.len() {
        lemma_no_child_past_end(t, i, from);
        lemma_import_read_past_end(t, i, from + 1, st);
    }
}

proof fn lemma_last_text_past_end(t: SyntaxTree, p: int, from: int, ks: Seq<&'static str>, acc: Option<Seq<char>>)
    requires
        t.wf(),
        0 <= p < t.nodes@.len(),
        from >= t.ends@[p],
    ensures
        last_kind_text(t, p, from, ks, acc) == acc,
    decreases t.nodes@.len() - from,
{
    if 0 <= from < t.nodes@.len() {
        lemma_no_child_past_end(t, p, from);
        lemma_last_text_past_end(t, p, from + 1, ks, acc);
    }
}

fn last_name_child_text(t: &SyntaxTree, p: usize, acc: Option<String>) -> (r: Option<String>)
    requires
        t.wf(),
        p < t.nodes@.len(),
    ensures
        opt_view(r) == last_kind_text(*t, p as int, p + 1, name_kinds_s(), opt_view(acc)),
{
    let ks = name_kinds();
    let end = t.ends[p];
    let mut acc = acc;
    let mut j = p + 1;
    let ghost goal = last_kind_text(*t, p as int, p + 1, name_kinds_s(), opt_view(acc));
    while j < end
        invariant
            t.wf(),
            p < t.nodes@.len(),
            end == t.ends@[p as int],
            end <= t.nodes@.len(),
            p < j,
            ks@ == name_kinds_s(),
            goal == last_kind_text(*t, p as int, j as int, name_kinds_s(), opt_view(acc)),
        decreases end - j,
    {
        let is_child = match t.nodes[j].parent {
            Some(q) => q == p,
            None => false,
        };
        if is_child && probe_kinds(t, j, &ks) {
            acc = Some(text_at(t, j));
        }
        j = j + 1;
    }
    proof {
        lemma_last_text_past_end(*t, p as int, j as int, name_kinds_s(), opt_view(acc));
    }
    acc
}

fn probe_kinds(t: &SyntaxTree, j: usize, ks: &Vec<&'static str>) -> (r: bool)
    requires
        j < t.nodes@.len(),
    ensures
        r == kind_among(t.nodes@[j as int], ks@),
{
    let mut k: usize = 0;
    while k < ks.len()
        invariant
            j < t.nodes@.len(),
            forall|q: int| 0 <= q < k ==> t.nodes@[j as int].kind@ != (#[trigger] ks@[q])@,
        decreases ks@.len() - k,
    {
        if kind_is(t, j, ks[k]) {
            assert(t.nodes@[j as int].kind@ == ks@[k as int]@);
            return true;
        }
        k = k + 1;
    }
    false
}

/// The import written by node `i`: its children read in order give the
/// path (qualified identifier, or a bare identifier before one), the alias
/// after `as` (or inside an import alias), and whether it ends in `*`;
/// there is an import when there is a path.
pub open spec fn kotlin_import(t: SyntaxTree, i: int) -> Option<(Seq<char>, Option<Seq<char>>, bool)> {
    let st = import_read(t, i, i + 1, (None, None, false, false));
    match st.0 {
        Some(p) => Some((p, st.1, st.2)),
        None => None,
    }
}

/// The import written by node `i`.
pub fn parse_import_node(t: &SyntaxTree, i: usize) -> (r: Option<ImportInfo>)
    requires
        t.wf(),
        i < t.nodes@.len(),
    ensures
        match r {
            Some(imp) => kotlin_import(*t, i as int) matches Some(d) && import_of(imp, *t, i as int, d),
            None => kotlin_import(*t, i as int) is None,
        },
        r matches Some(imp) ==> imp.line >= 1 && imp.column >= 1,
{
    let mut path: Option<String> = None;
    let mut alias: Option<String> = None;
    let mut wildcard = false;
    let mut seen_as = false;
    let end = t.ends[i];
    let mut j = i + 1;
    let ghost goal = import_read(*t, i as int, i + 1, (None, None, false, false));
    while j < end
        invariant
            t.wf(),
            i < t.nodes@.len(),
            end == t.ends@[i as int],
            end <= t.nodes@.len(),
            i < j,
            goal == import_read(*t, i as int, j as int, (opt_view(path), opt_view(alias), wildcard, seen_as)),
        decreases end - j,
    {
        let is_child = match t.nodes[j].parent {
            Some(q) => q == i,
            None => false,
        };
        if is_child {
            if kind_is(t, j, "qualified_identifier") {
                path = Some(text_at(t, j));
            } else if kind_is(t, j, "as") {
                seen_as = true;
            } else if kind_is(t, j, "identifier") && seen_as {
                alias = Some(text_at(t, j));
            } else if kind_is(t, j, "identifier") && path.is_none() {
                path = Some(text_at(t, j));
            } else if kind_is(t, j, "*") {
                wildcard = true;
            } else if kind_is(t, j, "import_alias") {
                alias = last_name_child_text(t, j, alias);
            }
        }
        j = j + 1;
    }
    proof {
        lemma_import_read_past_end(*t, i as int, j as int, (opt_view(path), opt_view(alias), wildcard, seen_as));
        assert(i < t.ends@[i as int]);
    }
    let n = &t.nodes[i];
    match path {
        Some(p) => Some(
            ImportInfo {
                path: p,
                alias,
                is_wildcard: wildcard,
                line: n.line,
                column: n.column,
                byte_range: Span { start: n.start_byte, end: n.end_byte },
            },
        ),
        None => None,
    }
}

/// Whether node `j` is an import at the top of the file: a root-level
/// `import` (or `import_header`), or one inside a root-level `import_list`.
pub open spec fn top_import(t: SyntaxTree, j: int) -> bool {
    &&& (t.kind(j) == "import"@ || t.kind(j) == "import_header"@)
    &&& match t.nodes@[j].parent {
        Some(p) => p == 0 || (t.kind(p as int) == "import_list"@ && t.nodes@[p as int].parent == Some(0usize)),
        None => false,
    }
}

/// The top-level import nodes below `upto`, from index 1, that give an
/// import.
pub open spec fn kotlin_import_nodes(t: SyntaxTree, upto: int) -> Seq<int>
    decreases upto,
{
    if upto <= 1 {
        seq![]
    } else if top_import(t, upto - 1) && kotlin_import(t, upto - 1) is Some {
        kotlin_import_nodes(t, upto - 1).push(upto - 1)
    } else {
        kotlin_import_nodes(t, upto - 1)
    }
}

/// The imports of the file: root-level `import` nodes, and those inside a
/// root-level `import_list`, in source order.
pub fn extract_imports(t: &SyntaxTree) -> (r: Vec<ImportInfo>)
    requires
        t.wf(),
    ensures
        r@.len() == kotlin_import_nodes(*t, t.nodes@.len() as int).len(),
        forall|k: int|
            0 <= k < r@.len() ==> import_of(
                #[trigger] r@[k],
                *t,
                kotlin_import_nodes(*t, t.nodes@.len() as int)[k],
                kotlin_import(*t, kotlin_import_nodes(*t, t.nodes@.len() as int)[k])->0,
            ),
        forall|k: int| 0 <= k < r@.len() ==> (#[trigger] r@[k]).line >= 1 && r@[k].column >= 1,
{
    let mut r: Vec<ImportInfo> = Vec::new();
    if t.nodes.len() == 0 {
        return r;
    }
    let mut j: usize = 1;
    while j < t.nodes.len()
        invariant
            t.wf(),
            t.nodes@.len() > 0,
            1 <= j <= t.nodes@.len(),
            r@.len() == kotlin_import_nodes(*t, j as int).len(),
            forall|k: int|
                0 <= k < r@.len() ==> import_of(
                    #[trigger] r@[k],
                    *t,
                    kotlin_import_nodes(*t, j as int)[k],
                    kotlin_import(*t, kotlin_import_nodes(*t, j as int)[k])->0,
                ),
            forall|k: int| 0 <= k < r@.len() ==> (#[trigger] r@[k]).line >= 1 && r@[k].column >= 1,
        decreases t.nodes@.len() - j,
    {
        proof {
            assert(j < t.ends@[j as int]);
        }
        let is_import = kind_is(t, j, "import") || kind_is(t, j, "import_header");
        let at_top = match t.nodes[j].parent {
            Some(p) => p == 0 || (kind_is(t, p, "import_list") && t.nodes[p].parent == Some(0usize)),
            None => false,
        };
        assert((is_import && at_top) == top_import(*t, j as int));
        let ghost before = r@;
        if is_import && at_top {
            match parse_import_node(t, j) {
                Some(imp) => {
                    r.push(imp);
                    proof {
                        assert(kotlin_import_nodes(*t, j + 1) == kotlin_import_nodes(*t, j as int).push(j as int));
                        assert forall|k: int| 0 <= k < r@.len() implies import_of(
                            #[trigger] r@[k],
                            *t,
                            kotlin_import_nodes(*t, j + 1)[k],
                            kotlin_import(*t, kotlin_import_nodes(*t, j + 1)[k])->0,
                        ) by {
                            if k < before.len() {
                                assert(r@[k] == before[k]);
                            }
                        }
                    }
                },
                None => {},
            }
        }
        j = j + 1;
    }
    r
}

/// The range of the first class, enum-class or object body under `i`.
pub open spec fn body_span(t: SyntaxTree, i: int) -> Option<Span> {
    match kind_child_from(t, i, i + 1, seq!["class_body", "enum_class_body", "object_body"]) {
        Some(b) => Some(Span { start: t.nodes@[b].start_byte, end: t.nodes@[b].end_byte }),
        None => None,
    }
}

fn body_range(t: &SyntaxTree, i: usize) -> (r: Option<Span>)
    requires
        t.wf(),
        i < t.nodes@.len(),
    ensures
        r == body_span(*t, i as int),
{
    let ks: Vec<&'static str> = vec!["class_body", "enum_class_body", "object_body"];
    assert(ks@ == seq!["class_body", "enum_class_body", "object_body"]);
    match find_kind_child(t, i, ks) {
        Some(b) => Some(Span { start: t.nodes[b].start_byte, end: t.nodes[b].end_byte }),
        None => None,
    }
}

/// The containers below `upto`, in source order: classes, objects and enum
/// bodies with a name and a body, and companion objects with a body
/// (named `Companion`).
pub open spec fn kotlin_scope_list(t: SyntaxTree, upto: int) -> Seq<(Seq<char>, Span)>
    decreases upto,
{
    if upto <= 0 {
        seq![]
    } else {
        let i = upto - 1;
        let prev = kotlin_scope_list(t, i);
        let k = t.kind(i);
        if k == "class_declaration"@ || k == "object_declaration"@ || k == "enum_class_body"@ {
            match (kind_child_text(t, i, name_kinds_s()), body_span(t, i)) {
                (Some(n), Some(r)) => prev.push((n, r)),
                _ => prev,
            }
        } else if k == "companion_object"@ {
            match body_span(t, i) {
                Some(r) => prev.push(("Companion"@, r)),
                None => prev,
            }
        } else {
            prev
        }
    }
}

/// `sc` is the scope tree of the containers `list`, ordered by start.
pub open spec fn scopes_of(sc: ScopeTree, list: Seq<(Seq<char>, Span)>) -> bool {
    exists|pre: Seq<ScopeSegment>|
        #![trigger sort_by(pre, false)]
        pre.map_values(|x: ScopeSegment| seg_view(x)) == list && sc.segments@ == sort_by(pre, false)
}

/// The containers of the file: classes, objects and enum bodies that have a
/// body, and companion objects (named `Companion`), ordered by start.
pub fn build_scope_tree(t: &SyntaxTree) -> (r: ScopeTree)
    requires
        t.wf(),
    ensures
        scopes_of(r, kotlin_scope_list(*t, t.nodes@.len() as int)),
{
    let mut tree = ScopeTree::new();
    let mut i: usize = 0;
    assert(tree.segments@.map_values(|x: ScopeSegment| seg_view(x)) =~= kotlin_scope_list(*t, 0));
    while i < t.nodes.len()
        invariant
            t.wf(),
            i <= t.nodes@.len(),
            tree.segments@.map_values(|x: ScopeSegment| seg_view(x)) == kotlin_scope_list(*t, i as int),
        decreases t.nodes@.len() - i,
    {
        let ghost before = tree.segments@;
        if kind_is(t, i, "class_declaration") || kind_is(t, i, "object_declaration") || kind_is(
            t,
            i,
            "enum_class_body",
        ) {
            match child_text(t, i, name_kinds()) {
                Some(name) => match body_range(t, i) {
                    Some(range) => {
                        let ghost nv = name@;
                        tree.add_scope(name, range);
                        assert(tree.segments@.map_values(|x: ScopeSegment| seg_view(x)) =~= before.map_values(
                            |x: ScopeSegment| seg_view(x),
                        ).push((nv, range)));
                    },
                    None => {},
                },
                None => {},
            }
        } else if kind_is(t, i, "companion_object") {
            match body_range(t, i) {
                Some(range) => {
                    tree.add_scope("Companion".to_owned(), range);
                    assert(tree.segments@.map_values(|x: ScopeSegment| seg_view(x)) =~= before.map_values(
                        |x: ScopeSegment| seg_view(x),
                    ).push(("Companion"@, range)));
                },
                None => {},
            }
        }
        i = i + 1;
    }
    let ghost pre = tree.segments@;
    tree.finalize();
    assert(tree.segments@ == sort_by(pre, false));
    tree
}

pub open spec fn name_kinds_s() -> Seq<&'static str> {
    seq!["identifier", "type_identifier", "simple_identifier"]
}

pub open spec fn id_kinds_s() -> Seq<&'static str> {
    seq!["identifier", "simple_identifier"]
}

/// The property name found among the children of `i` from index `from`:
/// the identifier inside a variable declaration, or an identifier child,
/// whichever comes first.
pub open spec fn property_name_from(t: SyntaxTree, i: int, from: int) -> Option<Seq<char>>
    decreases t.nodes@.len() - from,
{
    if from < 0 || from >= t.nodes@.len() {
        None
    } else if t.is_child(from, i) && t.kind(from) == "variable_declaration"@ && kind_child_text(
        t,
        from,
        id_kinds_s(),
    ) is Some {
        kind_child_text(t, from, id_kinds_s())
    } else if t.is_child(from, i) && kind_among(t.nodes@[from], id_kinds_s()) {
        Some(t.nodes@[from].text@)
    } else {
        property_name_from(t, i, from + 1)
    }
}

proof fn lemma_property_past_end(t: SyntaxTree, i: int, from: int)
    requires
        t.wf(),
        0 <= i < t.nodes@.len(),
        from >= t.ends@[i],
    ensures
        property_name_from(t, i, from) is None,
    decreases t.nodes@.len() - from,
{
    if 0 <= from < t.nodes@.len() {
        lemma_no_child_past_end(t, i, from);
        lemma_property_past_end(t, i, from + 1);
    }
}

/// The name of a property: the identifier inside its variable declaration,
/// or a direct identifier child, whichever comes first.
fn property_name(t: &SyntaxTree, i: usize) -> (r: Option<String>)
    requires
        t.wf(),
        i < t.nodes@.len(),
    ensures
        opt_view(r) == property_name_from(*t, i as int, i + 1),
{
    let end = t.ends[i];
    let mut j = i + 1;
    while j < end
        invariant
            t.wf(),
            i < t.nodes@.len(),
            end == t.ends@[i as int],
            end <= t.nodes@.len(),
            i < j,
            property_name_from(*t, i as int, i + 1) == property_name_from(*t, i as int, j as int),
        decreases end - j,
    {
        let is_child = match t.nodes[j].parent {
            Some(q) => q == i,
            None => false,
        };
        if is_child && kind_is(t, j, "variable_declaration") {
            match child_text(t, j, id_kinds()) {
                Some(n) => return Some(n),
                None => {},
            }
        }
        if is_child && is_ident(t, j) {
            proof {
                assert(kind_among(t.nodes@[j as int], id_kinds_s())) by {
                    if t.nodes@[j as int].kind@ == "identifier"@ {
                        assert(id_kinds_s()[0]@ == "identifier"@);
                    } else {
                        assert(id_kinds_s()[1]@ == "simple_identifier"@);
                    }
                }
            }
            return Some(text_at(t, j));
        }
        proof {
            if is_child {
                assert(!kind_among(t.nodes@[j as int], id_kinds_s())) by {
                    if kind_among(t.nodes@[j as int], id_kinds_s()) {
                        let k = choose|k: int| 0 <= k < id_kinds_s().len() && t.nodes@[j as int].kind@ == (#[trigger] id_kinds_s()[k])@;
                    }
                }
            }
        }
        j = j + 1;
    }
    proof {
        lemma_property_past_end(*t, i as int, j as int);
    }
    None
}

/// The receiver type of an extension function: a `user_type` child that
/// comes before the name.
pub open spec fn receiver_of(t: SyntaxTree, i: int) -> Option<Seq<char>> {
    match kind_child_from(t, i, i + 1, seq!["user_type", "identifier", "simple_identifier"]) {
        Some(c) => if t.kind(c) == "user_type"@ {
            Some(t.nodes@[c].text@)
        } else {
            None
        },
        None => None,
    }
}

fn receiver_type(t: &SyntaxTree, i: usize) -> (r: Option<String>)
    requires
        t.wf(),
        i < t.nodes@.len(),
    ensures
        opt_view(r) == receiver_of(*t, i as int),
{
    let rk: Vec<&'static str> = vec!["user_type", "identifier", "simple_identifier"];
    assert(rk@ == seq!["user_type", "identifier", "simple_identifier"]);
    match find_kind_child(t, i, rk) {
        Some(c) => if kind_is(t, c, "user_type") {
            Some(text_at(t, c))
        } else {
            None
        },
        None => None,
    }
}

/// The target of a type alias: the first type or identifier after `=`.
pub open spec fn alias_target_of(t: SyntaxTree, i: int) -> Option<Seq<char>> {
    match kind_child_from(t, i, i + 1, seq!["="]) {
        Some(eq) => match kind_child_from(t, i, eq + 1, seq!["user_type", "type_identifier", "identifier"]) {
            Some(c) => Some(t.nodes@[c].text@),
            None => None,
        },
        None => None,
    }
}

fn type_alias_target(t: &SyntaxTree, i: usize) -> (r: Option<String>)
    requires
        t.wf(),
        i < t.nodes@.len(),
    ensures
        opt_view(r) == alias_target_of(*t, i as int),
{
    let eqk: Vec<&'static str> = vec!["="];
    assert(eqk@ == seq!["="]);
    let tk: Vec<&'static str> = vec!["user_type", "type_identifier", "identifier"];
    assert(tk@ == seq!["user_type", "type_identifier", "identifier"]);
    match find_kind_child(t, i, eqk) {
        Some(eq) => match find_kind_child_from(t, i, eq + 1, tk) {
            Some(c) => Some(text_at(t, c)),
            None => None,
        },
        None => None,
    }
}

/// The declaration that Kotlin node `i` makes, if any: its name, kind and
/// receiver type.
pub open spec fn kotlin_decl(t: SyntaxTree, i: int) -> Option<(Seq<char>, SymbolKind, Option<Seq<char>>)> {
    let k = t.kind(i);
    let name = kind_child_text(t, i, name_kinds_s());
    if k == "class_declaration"@ {
        match name {
            Some(n) => Some(
                (
                    n,
                    if kind_child_from(t, i, i + 1, seq!["interface"]) is Some {
                        SymbolKind::InterfaceDeclaration
                    } else {
                        SymbolKind::ClassDeclaration
                    },
                    None,
                ),
            ),
            None => None,
        }
    } else if k == "object_declaration"@ {
        match name {
            Some(n) => Some((n, SymbolKind::ObjectDeclaration, None)),
            None => None,
        }
    } else if k == "companion_object"@ {
        Some(
            (
                match name {
                    Some(n) => n,
                    None => "Companion"@,
                },
                SymbolKind::CompanionObjectDeclaration,
                None,
            ),
        )
    } else if k == "function_declaration"@ {
        match name {
            Some(n) => Some(
                (
                    n,
                    if receiver_of(t, i) is Some {
                        SymbolKind::ExtensionFunctionDeclaration
                    } else {
                        SymbolKind::FunctionDeclaration
                    },
                    receiver_of(t, i),
                ),
            ),
            None => None,
        }
    } else if k == "property_declaration"@ {
        match property_name_from(t, i, i + 1) {
            Some(n) => Some((n, SymbolKind::PropertyDeclaration, None)),
            None => None,
        }
    } else if k == "enum_entry"@ {
        match name {
            Some(n) => Some((n, SymbolKind::EnumEntryDeclaration, None)),
            None => None,
        }
    } else if k == "type_alias"@ {
        match name {
            Some(n) => Some((n, SymbolKind::TypeAliasDeclaration, None)),
            None => None,
        }
    } else {
        None
    }
}

/// The nodes below `upto` that declare something, in order.
pub open spec fn kotlin_decl_nodes(t: SyntaxTree, upto: int) -> Seq<int>
    decreases upto,
{
    if upto <= 0 {
        seq![]
    } else if kotlin_decl(t, upto - 1) is Some {
        kotlin_decl_nodes(t, upto - 1).push(upto - 1)
    } else {
        kotlin_decl_nodes(t, upto - 1)
    }
}

/// The alias edges made by the type aliases below `upto`, in order: alias
/// FQN and target as written.
pub open spec fn kotlin_alias_edges(
    t: SyntaxTree,
    scopes: ScopeTree,
    package: Option<Seq<char>>,
    upto: int,
) -> Seq<(Seq<char>, Seq<char>)>
    decreases upto,
{
    if upto <= 0 {
        seq![]
    } else {
        let i = upto - 1;
        let prev = kotlin_alias_edges(t, scopes, package, i);
        if t.kind(i) == "type_alias"@ && kind_child_text(t, i, name_kinds_s()) is Some && alias_target_of(t, i) is Some {
            prev.push(
                (
                    fqn_at(scopes, package, t.nodes@[i].start_byte, kind_child_text(t, i, name_kinds_s())->0),
                    alias_target_of(t, i)->0,
                ),
            )
        } else {
            prev
        }
    }
}

pub open spec fn pair_view(p: (String, String)) -> (Seq<char>, Seq<char>) {
    (p.0@, p.1@)
}

/// The declarations of the file, in source order, each with the FQN made
/// of the package, the enclosing containers and its name; and the
/// type-alias edges.
pub fn extract_declarations(
    t: &SyntaxTree,
    path: &str,
    package: Option<&str>,
    scopes: &ScopeTree,
    occs: &mut Vec<SymbolOccurrence>,
    aliases: &mut Vec<(String, String)>,
)
    requires
        t.wf(),
        placed(old(occs)@, path@),
    ensures
        placed(final(occs)@, path@),
        final(occs)@.len() == old(occs)@.len() + kotlin_decl_nodes(*t, t.nodes@.len() as int).len(),
        forall|k: int| 0 <= k < old(occs)@.len() ==> #[trigger] final(occs)@[k] == old(occs)@[k],
        forall|k: int|
            0 <= k < kotlin_decl_nodes(*t, t.nodes@.len() as int).len() ==> {
                let i = kotlin_decl_nodes(*t, t.nodes@.len() as int)[k];
                let d = kotlin_decl(*t, i)->0;
                occurrence_of(
                    #[trigger] final(occs)@[old(occs)@.len() + k],
                    *t,
                    i,
                    path@,
                    d.0,
                    Some(fqn_at(*scopes, opt_str(package), t.nodes@[i].start_byte, d.0)),
                    d.1,
                    d.2,
                )
            },
        final(aliases)@.map_values(|p: (String, String)| pair_view(p)) == old(aliases)@.map_values(
            |p: (String, String)| pair_view(p),
        ) + kotlin_alias_edges(*t, *scopes, opt_str(package), t.nodes@.len() as int),
{
    let ghost o0 = occs@;
    let ghost a0 = aliases@.map_values(|p: (String, String)| pair_view(p));
    let mut i: usize = 0;
    while i < t.nodes.len()
        invariant
            t.wf(),
            i <= t.nodes@.len(),
            placed(occs@, path@),
            occs@.len() == o0.len() + kotlin_decl_nodes(*t, i as int).len(),
            forall|k: int| 0 <= k < o0.len() ==> #[trigger] occs@[k] == o0[k],
            forall|k: int|
                0 <= k < kotlin_decl_nodes(*t, i as int).len() ==> {
                    let n = kotlin_decl_nodes(*t, i as int)[k];
                    let d = kotlin_decl(*t, n)->0;
                    occurrence_of(
                        #[trigger] occs@[o0.len() + k],
                        *t,
                        n,
                        path@,
                        d.0,
                        Some(fqn_at(*scopes, opt_str(package), t.nodes@[n].start_byte, d.0)),
                        d.1,
                        d.2,
                    )
                },
            aliases@.map_values(|p: (String, String)| pair_view(p)) == a0 + kotlin_alias_edges(
                *t,
                *scopes,
                opt_str(package),
                i as int,
            ),
        decreases t.nodes@.len() - i,
    {
        proof {
            assert(i < t.ends@[i as int]);
        }
        let start = t.nodes[i].start_byte;
        let name = child_text(t, i, name_kinds());
        let mut found: Option<(String, SymbolKind, Option<String>)> = None;
        let ghost a_before = aliases@;
        if kind_is(t, i, "class_declaration") {
            match &name {
                Some(n) => {
                    let n = n.clone();
                    let ik: Vec<&'static str> = vec!["interface"];
                    assert(ik@ == seq!["interface"]);
                    let k = if find_kind_child(t, i, ik).is_some() {
                        SymbolKind::InterfaceDeclaration
                    } else {
                        SymbolKind::ClassDeclaration
                    };
                    found = Some((n, k, None));
                },
                None => {},
            }
        } else if kind_is(t, i, "object_declaration") {
            match &name {
                Some(n) => found = Some((n.clone(), SymbolKind::ObjectDeclaration, None)),
                None => {},
            }
        } else if kind_is(t, i, "companion_object") {
            let n = match &name {
                Some(n) => n.clone(),
                None => "Companion".to_owned(),
            };
            found = Some((n, SymbolKind::CompanionObjectDeclaration, None));
        } else if kind_is(t, i, "function_declaration") {
            match &name {
                Some(n) => {
                    let n = n.clone();
                    let recv = receiver_type(t, i);
                    let k = if recv.is_some() {
                        SymbolKind::ExtensionFunctionDeclaration
                    } else {
                        SymbolKind::FunctionDeclaration
                    };
                    found = Some((n, k, recv));
                },
                None => {},
            }
        } else if kind_is(t, i, "property_declaration") {
            match property_name(t, i) {
                Some(n) => found = Some((n, SymbolKind::PropertyDeclaration, None)),
                None => {},
            }
        } else if kind_is(t, i, "enum_entry") {
            match &name {
                Some(n) => found = Some((n.clone(), SymbolKind::EnumEntryDeclaration, None)),
                None => {},
            }
        } else if kind_is(t, i, "type_alias") {
            match &name {
                Some(n) => {
                    found = Some((n.clone(), SymbolKind::TypeAliasDeclaration, None));
                },
                None => {},
            }
        }
        if kind_is(t, i, "type_alias") {
            match &name {
                Some(n) => match type_alias_target(t, i) {
                    Some(target) => {
                        let fqn = build_fqn(package, scopes, start, n.as_str());
                        aliases.push((fqn, target));
                    },
                    None => {},
                },
                None => {},
            }
        }
        let ghost fg = found;
        proof {
            let pv = |p: (String, String)| pair_view(p);
            if aliases@.len() > a_before.len() {
                assert(aliases@ == a_before.push(aliases@[a_before.len() as int]));
                assert(aliases@.map_values(pv) =~= a_before.map_values(pv).push(pv(aliases@[a_before.len() as int])));
            } else {
                assert(aliases@ == a_before);
            }
            match fg {
                Some(f) => {
                    assert(kotlin_decl(*t, i as int) == Some((f.0@, f.1, opt_view(f.2))));
                },
                None => {
                    assert(kotlin_decl(*t, i as int) is None);
                },
            }
        }
        match found {
            Some((n, k, recv)) => {
                let fqn = build_fqn(package, scopes, start, n.as_str());
                let o = occurrence_at(t, i, path, n, Some(fqn), k, recv);
                occs.push(o);
            },
            None => {},
        }
        i = i + 1;
    }
}

/// How the reference pass treats a node: visited by the rules, skipped
/// (handled by an ancestor), a bare receiver recorded as a property
/// reference, or a navigation whose receiver alone is visited.
#[derive(Clone, Copy, PartialEq, Eq, Structural)]
pub enum Visit {
    Rules,
    Skip,
    Leaf,
    Receiver,
}

pub open spec fn is_ident_kind(t: SyntaxTree, i: int) -> bool {
    t.kind(i) == "simple_identifier"@ || t.kind(i) == "identifier"@
}

pub open spec fn under_call(t: SyntaxTree, i: int) -> bool {
    match t.nodes@[i].parent {
        Some(g) => t.kind(g as int) == "call_expression"@,
        None => false,
    }
}

/// How child `i` of `p` is treated, given how `p` is.
pub open spec fn kotlin_child_visit(t: SyntaxTree, p: int, pm: Visit, i: int) -> Visit {
    if pm == Visit::Skip || pm == Visit::Leaf {
        Visit::Skip
    } else if pm == Visit::Receiver {
        if any_child_from(t, p, p + 1) == Some(i) {
            if is_ident_kind(t, i) {
                Visit::Leaf
            } else {
                Visit::Rules
            }
        } else {
            Visit::Skip
        }
    } else if t.kind(p) == "call_expression"@ {
        match any_child_from(t, p, p + 1) {
            Some(c0) => if t.kind(c0) == "navigation_expression"@ && any_child_from(t, c0, c0 + 1) is Some {
                if c0 == i {
                    Visit::Receiver
                } else {
                    Visit::Rules
                }
            } else if is_ident_kind(t, c0) && c0 == i {
                Visit::Skip
            } else {
                Visit::Rules
            },
            None => Visit::Rules,
        }
    } else if t.kind(p) == "navigation_expression"@ {
        if under_call(t, p) {
            Visit::Skip
        } else if any_child_from(t, p, p + 1) == Some(i) {
            if is_ident_kind(t, i) {
                Visit::Leaf
            } else {
                Visit::Rules
            }
        } else {
            Visit::Skip
        }
    } else if t.kind(p) == "user_type"@ || is_ident_kind(t, p) {
        Visit::Skip
    } else {
        Visit::Rules
    }
}

/// How the reference pass treats node `i`.
pub open spec fn kotlin_visit(t: SyntaxTree, i: int) -> Visit
    decreases i,
{
    if 0 <= i < t.nodes@.len() {
        match t.nodes@[i].parent {
            Some(p) => if p < i {
                kotlin_child_visit(t, p as int, kotlin_visit(t, p as int), i)
            } else {
                Visit::Skip
            },
            None => Visit::Rules,
        }
    } else {
        Visit::Skip
    }
}

/// The receiver text of a navigation with at least two children.
pub open spec fn nav_receiver_of(t: SyntaxTree, nav: int) -> Option<Seq<char>> {
    match any_child_from(t, nav, nav + 1) {
        Some(c0) => match any_child_from(t, nav, c0 + 1) {
            Some(_) => if t.nodes@[c0].text@.len() > 0 {
                Some(t.nodes@[c0].text@)
            } else {
                None
            },
            None => None,
        },
        None => None,
    }
}

pub open spec fn kotlin_dominating_kinds() -> Seq<&'static str> {
    seq![
        "class_declaration",
        "object_declaration",
        "function_declaration",
        "variable_declaration",
        "parameter",
        "companion_object",
        "enum_entry",
        "type_alias",
        "import",
        "import_header",
        "import_alias",
        "import_list",
        "package_header",
        "qualified_identifier",
        "navigation_expression",
        "navigation_suffix",
        "user_type",
        "type_parameter",
        "type_constraint",
        "annotation",
        "label",
    ]
}

/// The reference Kotlin node `i` makes under visit `v`: name, kind and
/// receiver.
pub open spec fn kotlin_ref(t: SyntaxTree, i: int, v: Visit) -> Option<(Seq<char>, SymbolKind, Option<Seq<char>>)> {
    let text = t.nodes@[i].text@;
    if v == Visit::Leaf {
        if text.len() > 0 {
            Some((text, SymbolKind::PropertyReference, None))
        } else {
            None
        }
    } else if v == Visit::Rules {
        if t.kind(i) == "call_expression"@ {
            match any_child_from(t, i, i + 1) {
                Some(c0) => if t.kind(c0) == "navigation_expression"@ {
                    let member = match field_child_from(t, c0, c0 + 1, "member"@) {
                        Some(m) => Some(m),
                        None => last_child(t, c0),
                    };
                    match member {
                        Some(m) => Some((t.nodes@[m].text@, SymbolKind::CallSite, nav_receiver_of(t, c0))),
                        None => None,
                    }
                } else if is_ident_kind(t, c0) {
                    Some((t.nodes@[c0].text@, SymbolKind::CallSite, None))
                } else {
                    None
                },
                None => None,
            }
        } else if t.kind(i) == "navigation_expression"@ {
            if !under_call(t, i) {
                match last_child(t, i) {
                    Some(m) => if is_ident_kind(t, m) || t.kind(m) == "navigation_suffix"@ {
                        Some((t.nodes@[m].text@, SymbolKind::PropertyReference, nav_receiver_of(t, i)))
                    } else {
                        None
                    },
                    None => None,
                }
            } else {
                None
            }
        } else if t.kind(i) == "user_type"@ {
            let name = simple_type_name(text);
            if name.len() > 0 && uppercase_char(name[0]) {
                Some((name, SymbolKind::TypeReference, None))
            } else {
                None
            }
        } else if is_ident_kind(t, i) {
            match t.nodes@[i].parent {
                Some(p) => if !kind_among(t.nodes@[p as int], kotlin_dominating_kinds()) && !(t.kind(p as int)
                    == "call_expression"@ && any_child_from(t, p as int, p + 1) == Some(i)) && text.len() > 0 {
                    Some((text, SymbolKind::PropertyReference, None))
                } else {
                    None
                },
                None => None,
            }
        } else {
            None
        }
    } else {
        None
    }
}

/// The nodes below `upto` that make a reference.
pub open spec fn kotlin_ref_nodes(t: SyntaxTree, upto: int) -> Seq<int>
    decreases upto,
{
    if upto <= 0 {
        seq![]
    } else if kotlin_ref(t, upto - 1, kotlin_visit(t, upto - 1)) is Some {
        kotlin_ref_nodes(t, upto - 1).push(upto - 1)
    } else {
        kotlin_ref_nodes(t, upto - 1)
    }
}

/// The receiver text of a navigation with at least two children.
fn nav_receiver(t: &SyntaxTree, nav: usize) -> (r: Option<String>)
    requires
        t.wf(),
        nav < t.nodes@.len(),
    ensures
        opt_view(r) == nav_receiver_of(*t, nav as int),
{
    match find_any_child(t, nav) {
        Some(c0) => match find_any_child_from(t, nav, c0 + 1) {
            Some(_) => {
                let text = text_at(t, c0);
                if text.as_str().is_empty() {
                    None
                } else {
                    Some(text)
                }
            },
            None => None,
        },
        None => None,
    }
}

fn dominated_parent(t: &SyntaxTree, p: usize) -> (r: bool)
    requires
        p < t.nodes@.len(),
    ensures
        r == kind_among(t.nodes@[p as int], kotlin_dominating_kinds()),
{
    let ks: Vec<&'static str> = vec![
        "class_declaration",
        "object_declaration",
        "function_declaration",
        "variable_declaration",
        "parameter",
        "companion_object",
        "enum_entry",
        "type_alias",
        "import",
        "import_header",
        "import_alias",
        "import_list",
        "package_header",
        "qualified_identifier",
        "navigation_expression",
        "navigation_suffix",
        "user_type",
        "type_parameter",
        "type_constraint",
        "annotation",
        "label",
    ];
    assert(ks@ == kotlin_dominating_kinds());
    let mut k: usize = 0;
    while k < ks.len()
        invariant
            p < t.nodes@.len(),
            ks@ == kotlin_dominating_kinds(),
            forall|q: int| 0 <= q < k ==> t.nodes@[p as int].kind@ != (#[trigger] ks@[q])@,
        decreases ks@.len() - k,
    {
        if kind_is(t, p, ks[k]) {
            assert(t.nodes@[p as int].kind@ == ks@[k as int]@);
            return true;
        }
        k = k + 1;
    }
    false
}

/// The references of the file in source order: call sites, property
/// references and type references, each with a first-guess FQN from the
/// imports and package.
pub fn extract_references(
    t: &SyntaxTree,
    path: &str,
    package: Option<&str>,
    imports: &Vec<ImportInfo>,
    occs: &mut Vec<SymbolOccurrence>,
)
    requires
        t.wf(),
    ensures
        final(occs)@.len() == old(occs)@.len() + kotlin_ref_nodes(*t, t.nodes@.len() as int).len(),
        forall|k: int| 0 <= k < old(occs)@.len() ==> #[trigger] final(occs)@[k] == old(occs)@[k],
        forall|k: int|
            0 <= k < kotlin_ref_nodes(*t, t.nodes@.len() as int).len() ==> {
                let i = kotlin_ref_nodes(*t, t.nodes@.len() as int)[k];
                let d = kotlin_ref(*t, i, kotlin_visit(*t, i))->0;
                occurrence_of(
                    #[trigger] final(occs)@[old(occs)@.len() + k],
                    *t,
                    i,
                    path@,
                    d.0,
                    first_guess(d.0, opt_str(package), imports@),
                    d.1,
                    d.2,
                )
            },
        placed(final(occs)@.skip(old(occs)@.len() as int), path@),
        all_references(final(occs)@.skip(old(occs)@.len() as int)),
{
    let ghost o0 = occs@;
    let n = t.nodes.len();
    let mut modes: Vec<Visit> = Vec::new();
    let mut i: usize = 0;
    while i < n
        invariant
            t.wf(),
            n == t.nodes@.len(),
            i <= n,
            modes@.len() == i,
            forall|k: int| 0 <= k < i ==> #[trigger] modes@[k] == kotlin_visit(*t, k),
            occs@.len() == o0.len() + kotlin_ref_nodes(*t, i as int).len(),
            forall|k: int| 0 <= k < o0.len() ==> #[trigger] occs@[k] == o0[k],
            forall|k: int|
                0 <= k < kotlin_ref_nodes(*t, i as int).len() ==> {
                    let m = kotlin_ref_nodes(*t, i as int)[k];
                    let d = kotlin_ref(*t, m, kotlin_visit(*t, m))->0;
                    occurrence_of(
                        #[trigger] occs@[o0.len() + k],
                        *t,
                        m,
                        path@,
                        d.0,
                        first_guess(d.0, opt_str(package), imports@),
                        d.1,
                        d.2,
                    )
                },
            placed(occs@.skip(o0.len() as int), path@),
            all_references(occs@.skip(o0.len() as int)),
        decreases n - i,
    {
        proof {
            assert(i < t.ends@[i as int]);
        }
        let mode = match t.nodes[i].parent {
            None => Visit::Rules,
            Some(p) => {
                let pm = modes[p];
                if pm == Visit::Skip || pm == Visit::Leaf {
                    Visit::Skip
                } else if pm == Visit::Receiver {
                    if find_any_child(t, p) == Some(i) {
                        if is_ident(t, i) {
                            Visit::Leaf
                        } else {
                            Visit::Rules
                        }
                    } else {
                        Visit::Skip
                    }
                } else if kind_is(t, p, "call_expression") {
                    match find_any_child(t, p) {
                        Some(c0) => if kind_is(t, c0, "navigation_expression") && find_any_child(t, c0).is_some() {
                            if c0 == i {
                                Visit::Receiver
                            } else {
                                Visit::Rules
                            }
                        } else if is_ident(t, c0) && c0 == i {
                            Visit::Skip
                        } else {
                            Visit::Rules
                        },
                        None => Visit::Rules,
                    }
                } else if kind_is(t, p, "navigation_expression") {
                    proof {
                        assert(p < t.ends@[p as int]);
                    }
                    let up = match t.nodes[p].parent {
                        Some(g) => kind_is(t, g, "call_expression"),
                        None => false,
                    };
                    if up {
                        Visit::Skip
                    } else if find_any_child(t, p) == Some(i) {
                        if is_ident(t, i) {
                            Visit::Leaf
                        } else {
                            Visit::Rules
                        }
                    } else {
                        Visit::Skip
                    }
                } else if kind_is(t, p, "user_type") || is_ident(t, p) {
                    Visit::Skip
                } else {
                    Visit::Rules
                }
            },
        };
        assert(mode == kotlin_visit(*t, i as int));
        modes.push(mode);
        let mut found: Option<(String, SymbolKind, Option<String>)> = None;
        if mode == Visit::Leaf {
            let name = text_at(t, i);
            if !name.as_str().is_empty() {
                found = Some((name, SymbolKind::PropertyReference, None));
            }
        } else if mode == Visit::Rules {
            if kind_is(t, i, "call_expression") {
                match find_any_child(t, i) {
                    Some(c0) => {
                        if kind_is(t, c0, "navigation_expression") {
                            let member = match find_field_child(t, c0, "member") {
                                Some(m) => Some(m),
                                None => find_last_child(t, c0),
                            };
                            match member {
                                Some(m) => {
                                    found = Some((text_at(t, m), SymbolKind::CallSite, nav_receiver(t, c0)));
                                },
                                None => {},
                            }
                        } else if is_ident(t, c0) {
                            found = Some((text_at(t, c0), SymbolKind::CallSite, None));
                        }
                    },
                    None => {},
                }
            } else if kind_is(t, i, "navigation_expression") {
                let up = match t.nodes[i].parent {
                    Some(g) => kind_is(t, g, "call_expression"),
                    None => false,
                };
                if !up {
                    match find_last_child(t, i) {
                        Some(m) => {
                            if is_ident(t, m) || kind_is(t, m, "navigation_suffix") {
                                found = Some((text_at(t, m), SymbolKind::PropertyReference, nav_receiver(t, i)));
                            }
                        },
                        None => {},
                    }
                }
            } else if kind_is(t, i, "user_type") {
                let (name, upper) = type_name_of(t.nodes[i].text.as_str());
                if upper {
                    found = Some((name, SymbolKind::TypeReference, None));
                }
            } else if is_ident(t, i) {
                match t.nodes[i].parent {
                    Some(p) => {
                        let callee = kind_is(t, p, "call_expression") && find_any_child(t, p) == Some(i);
                        if !dominated_parent(t, p) && !callee {
                            let name = text_at(t, i);
                            if !name.as_str().is_empty() {
                                found = Some((name, SymbolKind::PropertyReference, None));
                            }
                        }
                    },
                    None => {},
                }
            }
        }
        let ghost fg = found;
        proof {
            match fg {
                Some(f) => {
                    assert(kotlin_ref(*t, i as int, mode) == Some((f.0@, f.1, opt_view(f.2))));
                },
                None => {
                    assert(kotlin_ref(*t, i as int, mode) is None);
                },
            }
        }
        let ghost before = occs@;
        match found {
            Some((name, k, recv)) => {
                let fqn = resolve_reference(name.as_str(), package, imports);
                let o = occurrence_at(t, i, path, name, fqn, k, recv);
                occs.push(o);
                proof {
                    assert(occs@.skip(o0.len() as int) == before.skip(o0.len() as int).push(o));
                    assert forall|k: int| 0 <= k < o0.len() implies #[trigger] occs@[k] == o0[k] by {
                        assert(occs@[k] == before[k]);
                    }
                    let ns = kotlin_ref_nodes(*t, i as int);
                    assert(kotlin_ref_nodes(*t, i + 1) == ns.push(i as int));
                    assert forall|k: int| 0 <= k < ns.len() + 1 implies {
                        let m = ns.push(i as int)[k];
                        let d = kotlin_ref(*t, m, kotlin_visit(*t, m))->0;
                        occurrence_of(
                            #[trigger] occs@[o0.len() + k],
                            *t,
                            m,
                            path@,
                            d.0,
                            first_guess(d.0, opt_str(package), imports@),
                            d.1,
                            d.2,
                        )
                    } by {
                        if k < ns.len() {
                            assert(occs@[o0.len() + k] == before[o0.len() + k]);
                        }
                    }
                }
            },
            None => {},
        }
        i = i + 1;
    }
}

/// The package that the header of a Kotlin file names.
pub open spec fn kotlin_package(t: SyntaxTree) -> Option<Seq<char>> {
    if t.nodes@.len() == 0 {
        None
    } else {
        header_name_from(t, 1, "package_header"@, seq!["qualified_identifier", "identifier"])
    }
}

/// The declarations of `r`, in source order, with FQNs under scope tree
/// `sc`, and the alias edges made under it.
pub open spec fn kotlin_decls_under(path: Seq<char>, t: SyntaxTree, r: Extraction, sc: ScopeTree) -> bool {
    let n = t.nodes@.len() as int;
    let decls = kotlin_decl_nodes(t, n);
    &&& forall|k: int|
        0 <= k < decls.len() ==> {
            let d = kotlin_decl(t, decls[k])->0;
            occurrence_of(
                #[trigger] r.1@[k],
                t,
                decls[k],
                path,
                d.0,
                Some(fqn_at(sc, kotlin_package(t), t.nodes@[decls[k]].start_byte, d.0)),
                d.1,
                d.2,
            )
        }
    &&& r.2@.map_values(|p: (String, String)| pair_view(p)) == kotlin_alias_edges(t, sc, kotlin_package(t), n)
}

/// `r` is what a Kotlin file at `path` with tree `t` gives: its record
/// (path, package, imports); then its occurrences: the declarations in
/// source order (with FQNs under the file's scope tree), the references in
/// source order (each with its first-guess FQN), and one `Import`
/// occurrence per import; and the type-alias edges.
pub open spec fn kotlin_file_of(path: Seq<char>, t: SyntaxTree, r: Extraction) -> bool {
    let n = t.nodes@.len() as int;
    let imps = kotlin_import_nodes(t, n);
    let decls = kotlin_decl_nodes(t, n);
    let refs = kotlin_ref_nodes(t, n);
    let occs = r.1@;
    &&& r.0.path@ == path
    &&& opt_view(r.0.package) == kotlin_package(t)
    &&& r.0.imports@.len() == imps.len()
    &&& forall|k: int|
        0 <= k < imps.len() ==> import_of(#[trigger] r.0.imports@[k], t, imps[k], kotlin_import(t, imps[k])->0)
    &&& occs.len() == decls.len() + refs.len() + imps.len()
    &&& exists|sc: ScopeTree|
        #![trigger scopes_of(sc, kotlin_scope_list(t, n))]
        scopes_of(sc, kotlin_scope_list(t, n)) && kotlin_decls_under(path, t, r, sc)
    &&& forall|k: int|
        0 <= k < refs.len() ==> {
            let d = kotlin_ref(t, refs[k], kotlin_visit(t, refs[k]))->0;
            occurrence_of(
                #[trigger] occs[decls.len() + k],
                t,
                refs[k],
                path,
                d.0,
                first_guess(d.0, kotlin_package(t), r.0.imports@),
                d.1,
                d.2,
            )
        }
    &&& forall|k: int|
        0 <= k < imps.len() ==> import_occurrence_of(
            #[trigger] occs[decls.len() + refs.len() + k],
            r.0.imports@[k],
            path,
            true,
        )
    &&& placed(occs, path)
}

/// Extracts a parsed Kotlin file: package, imports, declarations,
/// references and an `Import` occurrence per import; the type-alias edges.
pub fn extract_file(path: &str, t: &SyntaxTree) -> (r: Extraction)
    requires
        t.wf(),
    ensures
        kotlin_file_of(path@, *t, r),
{
    let package = extract_package(t);
    let imports = extract_imports(t);
    let scopes = build_scope_tree(t);
    let mut occs: Vec<SymbolOccurrence> = Vec::new();
    let mut aliases: Vec<(String, String)> = Vec::new();
    let pkg: Option<&str> = match &package {
        Some(p) => Some(p.as_str()),
        None => None,
    };
    assert(opt_str(pkg) == kotlin_package(*t));
    extract_declarations(t, path, pkg, &scopes, &mut occs, &mut aliases);
    let ghost after_decls = occs@;
    extract_references(t, path, pkg, &imports, &mut occs);
    let ghost after_refs = occs@;
    proof {
        assert forall|k: int| 0 <= k < occs@.len() implies (#[trigger] occs@[k]).file@ == path@
            && occs@[k].line >= 1 && occs@[k].column >= 1 by {
            if k >= after_decls.len() {
                assert(occs@[k] == occs@.skip(after_decls.len() as int)[k - after_decls.len()]);
            }
        }
    }
    import_occurrences(&imports, path, true, &mut occs);
    proof {
        let n = t.nodes@.len() as int;
        let dl = kotlin_decl_nodes(*t, n).len();
        let rl = kotlin_ref_nodes(*t, n).len();
        assert forall|k: int| 0 <= k < occs@.len() implies (#[trigger] occs@[k]).file@ == path@
            && occs@[k].line >= 1 && occs@[k].column >= 1 by {
            if k >= after_refs.len() {
                let q = k - after_refs.len();
                assert(occs@[after_refs.len() + q].file@ == path@);
            } else {
                assert(occs@[k] == after_refs[k]);
            }
        }
        assert forall|k: int| 0 <= k < dl implies {
            let d = kotlin_decl(*t, kotlin_decl_nodes(*t, n)[k])->0;
            occurrence_of(
                #[trigger] occs@[k],
                *t,
                kotlin_decl_nodes(*t, n)[k],
                path@,
                d.0,
                Some(fqn_at(scopes, kotlin_package(*t), t.nodes@[kotlin_decl_nodes(*t, n)[k]].start_byte, d.0)),
                d.1,
                d.2,
            )
        } by {
            assert(occs@[k] == after_refs[k]);
            assert(after_refs[k] == after_decls[0 + k]);
        }
        assert forall|k: int| 0 <= k < rl implies {
            let m = kotlin_ref_nodes(*t, n)[k];
            let d = kotlin_ref(*t, m, kotlin_visit(*t, m))->0;
            occurrence_of(
                #[trigger] occs@[dl + k],
                *t,
                m,
                path@,
                d.0,
                first_guess(d.0, kotlin_package(*t), imports@),
                d.1,
                d.2,
            )
        } by {
            assert(occs@[dl + k] == after_refs[dl + k]);
            assert(after_refs[after_decls.len() + k] == after_refs[dl + k]);
        }
    }
    let r = (FileInfo { path: path.to_owned(), package, imports }, occs, aliases);
    proof {
        assert(kotlin_decls_under(path@, *t, r, scopes));
        assert(scopes_of(scopes, kotlin_scope_list(*t, t.nodes@.len() as int)));
    }
    r
}

/// `r` is what Kotlin file `path` with text `source` gives: the file with
/// the parse of `source`, or, when the grammar is refused, an empty record.
pub open spec fn kotlin_source_of(path: Seq<char>, source: Seq<char>, r: Extraction) -> bool {
    &&& r.0.path@ == path
    &&& placed(r.1@, path)
    &&& if grammar_loads(kotlin_grammar()) {
        exists|t: SyntaxTree| t.wf() && is_parse(t, kotlin_grammar(), source) && #[trigger] kotlin_file_of(path, t, r)
    } else {
        r.1@.len() == 0 && r.0.package is None && r.0.imports@.len() == 0 && r.2@.len() == 0
    }
}

/// Parses and extracts a Kotlin source file: what the file with the parse
/// of `source` gives. When the grammar is refused, the file is recorded
/// with no package, imports or occurrences.
pub fn parse_file(path: &str, source: &str) -> (r: Extraction)
    ensures
        kotlin_source_of(path@, source@, r),
{
    match parse_tree(false, source) {
        Some(t) => {
            let r = extract_file(path, &t);
            assert(t.wf() && is_parse(t, kotlin_grammar(), source@) && kotlin_file_of(path@, t, r));
            r
        },
        None => (FileInfo { path: path.to_owned(), package: None, imports: Vec::new() }, Vec::new(), Vec::new()),
    }
}

} // verus!
