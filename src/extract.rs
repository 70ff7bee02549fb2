//! Pieces shared by the Kotlin and Java extractors.
use vstd::prelude::*;

use crate::index::{
    is_declaration_kind, is_reference_kind, FileInfo, ImportInfo, Span, SymbolKind, SymbolOccurrence,
};
use crate::scope::{prefix_at, ScopeTree};
use crate::syntax::{
    any_node, find_child, find_kind_child, kind_child_from, kind_is, kinds, lemma_no_child_past_end, SyntaxTree,
};
use crate::resolve::opt_view;
use crate::text::{dotted, join_dotted, last_segment_of};

verus! {

/// What one file gives the index: its record, its occurrences, and its
/// type-alias edges (alias FQN, target as written).
pub type Extraction = (FileInfo, Vec<SymbolOccurrence>, Vec<(String, String)>);

/// Every occurrence lies in file `path` at a 1-based position.
pub open spec fn placed(occs: Seq<SymbolOccurrence>, path: Seq<char>) -> bool {
    forall|k: int|
        0 <= k < occs.len() ==> {
            &&& (#[trigger] occs[k]).file@ == path
            &&& occs[k].line >= 1
            &&& occs[k].column >= 1
        }
}

/// Every occurrence is a reference.
pub open spec fn all_references(occs: Seq<SymbolOccurrence>) -> bool {
    forall|k: int| 0 <= k < occs.len() ==> is_reference_kind((#[trigger] occs[k]).kind)
}

pub open spec fn opt_str(s: Option<&str>) -> Option<Seq<char>> {
    match s {
        Some(x) => Some(x@),
        None => None,
    }
}

/// `prefix.name` with the scope prefix at `offset`, or `name` at top level.
pub open spec fn fqn_at(
    scopes: ScopeTree,
    package: Option<Seq<char>>,
    offset: usize,
    name: Seq<char>,
) -> Seq<char> {
    let prefix = prefix_at(scopes.segments@, package, offset);
    if prefix.len() == 0 {
        name
    } else {
        dotted(prefix, name)
    }
}

/// The FQN of a declaration named `name` that starts at `offset`.
pub fn build_fqn(package: Option<&str>, scopes: &ScopeTree, offset: usize, name: &str) -> (r: String)
    ensures
        r@ == fqn_at(*scopes, opt_str(package), offset, name@),
{
    let prefix = scopes.fqn_prefix_at(package, offset);
    if prefix.as_str().is_empty() {
        name.to_owned()
    } else {
        join_dotted(prefix.as_str(), name)
    }
}

/// The text of node `i`.
pub fn text_at(t: &SyntaxTree, i: usize) -> (r: String)
    requires
        i < t.nodes@.len(),
    ensures
        r@ == t.nodes@[i as int].text@,
{
    t.nodes[i].text.clone()
}

/// An occurrence at node `i` of `t`.
pub fn occurrence_at(
    t: &SyntaxTree,
    i: usize,
    path: &str,
    name: String,
    fqn: Option<String>,
    kind: SymbolKind,
    receiver: Option<String>,
) -> (r: SymbolOccurrence)
    requires
        t.wf(),
        i < t.nodes@.len(),
    ensures
        r.file@ == path@,
        r.line == t.nodes@[i as int].line,
        r.column == t.nodes@[i as int].column,
        r.line >= 1,
        r.column >= 1,
        r.byte_range == (Span { start: t.nodes@[i as int].start_byte, end: t.nodes@[i as int].end_byte }),
        r.name == name,
        r.fqn == fqn,
        r.kind == kind,
        r.receiver_type == receiver,
{
    let n = &t.nodes[i];
    proof {
        assert(i < t.ends@[i as int]);
    }
    SymbolOccurrence {
        name,
        fqn,
        kind,
        file: path.to_owned(),
        line: n.line,
        column: n.column,
        byte_range: Span { start: n.start_byte, end: n.end_byte },
        receiver_type: receiver,
    }
}

/// The text of the first child of `p` whose kind is among `ks`.
pub open spec fn kind_child_text(t: SyntaxTree, p: int, ks: Seq<&'static str>) -> Option<Seq<char>> {
    match kind_child_from(t, p, p + 1, ks) {
        Some(c) => Some(t.nodes@[c].text@),
        None => None,
    }
}

/// The text of the first child of `p` whose kind is among `ks`.
pub fn child_text(t: &SyntaxTree, p: usize, ks: Vec<&'static str>) -> (r: Option<String>)
    requires
        t.wf(),
        p < t.nodes@.len(),
    ensures
        crate::resolve::opt_view(r) == kind_child_text(*t, p as int, ks@),
{
    match find_kind_child(t, p, ks) {
        Some(c) => Some(text_at(t, c)),
        None => None,
    }
}

/// `o` is the occurrence at node `i` of `t` in file `path` with the given
/// name, FQN, kind and receiver.
pub open spec fn occurrence_of(
    o: SymbolOccurrence,
    t: SyntaxTree,
    i: int,
    path: Seq<char>,
    name: Seq<char>,
    fqn: Option<Seq<char>>,
    kind: SymbolKind,
    receiver: Option<Seq<char>>,
) -> bool {
    &&& o.name@ == name
    &&& crate::resolve::opt_view(o.fqn) == fqn
    &&& o.kind == kind
    &&& o.file@ == path
    &&& o.line == t.nodes@[i].line
    &&& o.column == t.nodes@[i].column
    &&& o.byte_range == (Span { start: t.nodes@[i].start_byte, end: t.nodes@[i].end_byte })
    &&& crate::resolve::opt_view(o.receiver_type) == receiver
}

/// The name of the occurrence of import `imp`: its alias (when
/// `use_alias`), else its path when it is a wildcard, else the last segment
/// of its path.
pub open spec fn import_name(imp: ImportInfo, use_alias: bool) -> Seq<char> {
    if use_alias && imp.alias is Some {
        imp.alias->0@
    } else if imp.is_wildcard {
        imp.path@
    } else {
        crate::text::last_segment(imp.path@)
    }
}

/// `o` is the `Import` occurrence of `imp` in file `path`.
pub open spec fn import_occurrence_of(o: SymbolOccurrence, imp: ImportInfo, path: Seq<char>, use_alias: bool) -> bool {
    &&& o.kind == SymbolKind::Import
    &&& o.name@ == import_name(imp, use_alias)
    &&& o.file@ == path
    &&& o.fqn is Some
    &&& o.fqn->0@ == imp.path@
    &&& o.line == imp.line
    &&& o.column == imp.column
    &&& o.byte_range == imp.byte_range
    &&& o.receiver_type is None
}

/// An `Import` occurrence for each import, named by its alias (when
/// `use_alias`), else its path when it is a wildcard, else the last segment
/// of its path; its FQN is the path.
pub fn import_occurrences(imports: &Vec<ImportInfo>, path: &str, use_alias: bool, occs: &mut Vec<SymbolOccurrence>)
    requires
        forall|k: int| 0 <= k < imports@.len() ==> (#[trigger] imports@[k]).line >= 1 && imports@[k].column >= 1,
    ensures
        final(occs)@.len() == old(occs)@.len() + imports@.len(),
        forall|k: int| 0 <= k < old(occs)@.len() ==> #[trigger] final(occs)@[k] == old(occs)@[k],
        forall|k: int|
            0 <= k < imports@.len() ==> import_occurrence_of(
                #[trigger] final(occs)@[old(occs)@.len() + k],
                imports@[k],
                path@,
                use_alias,
            ),
{
    let ghost start = old(occs)@.len();
    let mut k: usize = 0;
    while k < imports.len()
        invariant
            k <= imports@.len(),
            start == old(occs)@.len(),
            occs@.len() == start + k,
            forall|q: int| 0 <= q < start ==> #[trigger] occs@[q] == old(occs)@[q],
            forall|q: int|
                0 <= q < k ==> import_occurrence_of(#[trigger] occs@[start + q], imports@[q], path@, use_alias),
        decreases imports@.len() - k,
    {
        let imp = &imports[k];
        let name = match (&imp.alias, use_alias) {
            (Some(a), true) => a.clone(),
            _ => if imp.is_wildcard {
                imp.path.clone()
            } else {
                last_segment_of(imp.path.as_str())
            },
        };
        occs.push(
            SymbolOccurrence {
                name,
                fqn: Some(imp.path.clone()),
                kind: SymbolKind::Import,
                file: path.to_owned(),
                line: imp.line,
                column: imp.column,
                byte_range: imp.byte_range,
                receiver_type: None,
            },
        );
        k = k + 1;
    }
}

/// The package named by the first root-level header of kind `header` that
/// holds a child among `ks`, from index `from`.
pub open spec fn header_name_from(t: SyntaxTree, from: int, header: Seq<char>, ks: Seq<&'static str>) -> Option<
    Seq<char>,
>
    decreases t.nodes@.len() - from,
{
    if from < 0 || from >= t.nodes@.len() {
        None
    } else if t.is_child(from, 0) && t.kind(from) == header && kind_child_text(t, from, ks) is Some {
        kind_child_text(t, from, ks)
    } else {
        header_name_from(t, from + 1, header, ks)
    }
}

proof fn lemma_header_past_end(t: SyntaxTree, from: int, header: Seq<char>, ks: Seq<&'static str>)
    requires
        t.wf(),
        t.nodes@.len() > 0,
        from >= t.ends@[0],
    ensures
        header_name_from(t, from, header, ks) is None,
    decreases t.nodes@.len() - from,
{
    if 0 <= from < t.nodes@.len() {
        lemma_no_child_past_end(t, 0, from);
        lemma_header_past_end(t, from + 1, header, ks);
    }
}

/// The name held by the first root-level node of kind `header` that holds
/// a child among `ks`.
pub fn header_name(t: &SyntaxTree, header: &str, ks: Vec<&'static str>) -> (r: Option<String>)
    requires
        t.wf(),
    ensures
        opt_view(r) == if t.nodes@.len() == 0 {
            None
        } else {
            header_name_from(*t, 1, header@, ks@)
        },
{
    if t.nodes.len() == 0 {
        return None;
    }
    let end = t.ends[0];
    let mut j: usize = 1;
    while j < end
        invariant
            t.wf(),
            t.nodes@.len() > 0,
            end == t.ends@[0],
            end <= t.nodes@.len(),
            1 <= j,
            header_name_from(*t, 1, header@, ks@) == header_name_from(*t, j as int, header@, ks@),
        decreases end - j,
    {
        let is_top = match t.nodes[j].parent {
            Some(q) => q == 0,
            None => false,
        };
        if is_top && kind_is(t, j, header) {
            match child_text(t, j, ks.clone()) {
                Some(p) => {
                    return Some(p);
                },
                None => {},
            }
        }
        j = j + 1;
    }
    proof {
        lemma_header_past_end(*t, j as int, header@, ks@);
    }
    None
}

/// `imp` is the import at node `i` with path, alias and wildcard flag `d`.
pub open spec fn import_of(imp: ImportInfo, t: SyntaxTree, i: int, d: (Seq<char>, Option<Seq<char>>, bool)) -> bool {
    &&& imp.path@ == d.0
    &&& opt_view(imp.alias) == d.1
    &&& imp.is_wildcard == d.2
    &&& imp.line == t.nodes@[i].line
    &&& imp.column == t.nodes@[i].column
    &&& imp.byte_range == (Span { start: t.nodes@[i].start_byte, end: t.nodes@[i].end_byte })
}

} // verus!
