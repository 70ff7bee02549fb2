//! The read-only queries over an assembled index: definitions, usages, and
//! their rendering as text.
use vstd::prelude::*;

use crate::index::{
    find_key, has_key, is_declaration_kind, is_reference_kind, lemma_lookup_at, lookup, FileInfo, Keyed,
    SymbolIndex, SymbolKind, SymbolOccurrence,
};
use crate::resolve::opt_view;
use crate::text::{before_last_dot, before_last_dot_of, contains_dot, has_dot, last_segment, last_segment_of, same_text};
use crate::xref::same_site;

verus! {

/// Lexicographic order on texts, by code point.
pub open spec fn text_lt(a: Seq<char>, b: Seq<char>) -> bool
    decreases a.len(),
{
    if a.len() == 0 {
        b.len() > 0
    } else if b.len() == 0 {
        false
    } else if a[0] < b[0] {
        true
    } else if a[0] == b[0] {
        text_lt(a.skip(1), b.skip(1))
    } else {
        false
    }
}

/// `b` comes after `a` in (file, line) order.
pub open spec fn occ_after(a: SymbolOccurrence, b: SymbolOccurrence) -> bool {
    text_lt(a.file@, b.file@) || (a.file@ == b.file@ && a.line < b.line)
}

/// Ordered by (file, line).
pub open spec fn sorted_by_position(s: Seq<SymbolOccurrence>) -> bool {
    forall|i: int, j: int| 0 <= i < j < s.len() ==> !occ_after(#[trigger] s[j], #[trigger] s[i])
}

fn text_less(a: &str, b: &str) -> (r: bool)
    ensures
        r == text_lt(a@, b@),
{
    let x = crate::text::chars_of(a);
    let y = crate::text::chars_of(b);
    let mut i: usize = 0;
    assert(x@.skip(0) == x@);
    assert(y@.skip(0) == y@);
    while i < x.len() && i < y.len()
        invariant
            i <= x@.len(),
            i <= y@.len(),
            text_lt(a@, b@) == text_lt(x@.skip(i as int), y@.skip(i as int)),
            x@ == a@,
            y@ == b@,
        decreases x@.len() - i,
    {
        let c = x[i];
        let d = y[i];
        if c < d {
            return true;
        }
        if c != d {
            return false;
        }
        assert(x@.skip(i as int).skip(1) == x@.skip(i + 1));
        assert(y@.skip(i as int).skip(1) == y@.skip(i + 1));
        i = i + 1;
    }
    i == x.len() && i < y.len()
}

proof fn lemma_text_lt_total(a: Seq<char>, b: Seq<char>)
    ensures
        a != b ==> (text_lt(a, b) || text_lt(b, a)),
        !(text_lt(a, b) && text_lt(b, a)),
        !text_lt(a, a),
    decreases a.len(),
{
    lemma_text_lt_irrefl(a);
    if a.len() > 0 && b.len() > 0 && a[0] == b[0] {
        lemma_text_lt_total(a.skip(1), b.skip(1));
        if a != b {
            if a.skip(1) == b.skip(1) {
                assert(a =~= b) by {
                    assert forall|i: int| 0 <= i < a.len() implies a[i] == b[i] by {
                        if i > 0 {
                            assert(a[i] == a.skip(1)[i - 1]);
                            assert(b[i] == b.skip(1)[i - 1]);
                        }
                    }
                }
            }
        }
    }
    if a.len() == 0 && b.len() == 0 {
        assert(a =~= b);
    }
}

proof fn lemma_text_lt_irrefl(a: Seq<char>)
    ensures
        !text_lt(a, a),
    decreases a.len(),
{
    if a.len() > 0 {
        lemma_text_lt_irrefl(a.skip(1));
    }
}

proof fn lemma_text_lt_trans(a: Seq<char>, b: Seq<char>, c: Seq<char>)
    requires
        text_lt(a, b),
        text_lt(b, c),
    ensures
        text_lt(a, c),
    decreases a.len(),
{
    if a.len() > 0 && b.len() > 0 && c.len() > 0 && a[0] == b[0] && b[0] == c[0] {
        lemma_text_lt_trans(a.skip(1), b.skip(1), c.skip(1));
    }
}

fn occ_after_exec(a: &SymbolOccurrence, b: &SymbolOccurrence) -> (r: bool)
    ensures
        r == occ_after(*a, *b),
{
    if text_less(a.file.as_str(), b.file.as_str()) {
        true
    } else {
        same_text(a.file.as_str(), b.file.as_str()) && a.line < b.line
    }
}

/// Orders `v` by (file, line), keeping the relative order of ties.
pub fn sort_by_position(v: Vec<SymbolOccurrence>) -> (r: Vec<SymbolOccurrence>)
    ensures
        sorted_by_position(r@),
        r@.len() == v@.len(),
        r@.to_multiset() == v@.to_multiset(),
        forall|x: SymbolOccurrence| #[trigger] r@.contains(x) <==> v@.contains(x),
        sites_distinct(v@) ==> sites_distinct(r@),
{
    let mut r: Vec<SymbolOccurrence> = Vec::new();
    let mut i: usize = 0;
    assert(v@.take(0) =~= Seq::<SymbolOccurrence>::empty());
    while i < v.len()
        invariant
            i <= v@.len(),
            sorted_by_position(r@),
            r@.len() == i,
            r@.to_multiset() == v@.take(i as int).to_multiset(),
            sites_distinct(v@) ==> sites_distinct(r@),
            forall|y: SymbolOccurrence| #[trigger] r@.contains(y) <==> v@.take(i as int).contains(y),
        decreases v@.len() - i,
    {
        let x = v[i].duplicate();
        let mut j = r.len();
        loop
            invariant
                j <= r@.len(),
                sorted_by_position(r@),
                forall|k: int| j <= k < r@.len() ==> occ_after(x, #[trigger] r@[k]),
            ensures
                j <= r@.len(),
                forall|k: int| j <= k < r@.len() ==> occ_after(x, #[trigger] r@[k]),
                j > 0 ==> !occ_after(x, r@[j - 1]),
            decreases j,
        {
            if j == 0 {
                break;
            }
            if !occ_after_exec(&x, &r[j - 1]) {
                break;
            }
            j = j - 1;
        }
        let ghost before = r@;
        r.insert(j, x);
        proof {
            assert(r@ == before.take(j as int).push(x) + before.skip(j as int));
            assert forall|a: int, b: int| 0 <= a < b < r@.len() implies !occ_after(
                #[trigger] r@[b],
                #[trigger] r@[a],
            ) by {
                lemma_text_lt_total(r@[a].file@, r@[b].file@);
                if a < j && b == j {
                    // r[a] is at or before r[j-1], which is not after x
                    if a < j - 1 {
                        assert(!occ_after(before[j - 1], before[a]));
                        lemma_text_lt_total(before[a].file@, before[j - 1].file@);
                        lemma_text_lt_total(before[j - 1].file@, x.file@);
                        if text_lt(x.file@, before[a].file@) && text_lt(before[a].file@, before[j - 1].file@) {
                            lemma_text_lt_trans(x.file@, before[a].file@, before[j - 1].file@);
                        }
                        if text_lt(x.file@, before[a].file@) && before[a].file@ == before[j - 1].file@ {
                        }
                        if x.file@ == before[a].file@ && text_lt(before[a].file@, before[j - 1].file@) {
                        }
                    }
                } else if a == j && b > j {
                    assert(occ_after(x, before[b - 1]));
                    lemma_text_lt_total(x.file@, before[b - 1].file@);
                } else if a < j && b > j {
                    assert(!occ_after(before[b - 1], before[a]));
                } else if a > j {
                    assert(!occ_after(before[b - 1], before[a - 1]));
                } else {
                    assert(!occ_after(before[b], before[a]));
                }
            }
            let pre = v@.take(i as int);
            assert(v@.take(i + 1) == pre.push(v@[i as int]));
            broadcast use vstd::seq_lib::group_to_multiset_ensures;
            assert(r@ == before.insert(j as int, x));
            assert(x == v@[i as int]);
            if sites_distinct(v@) {
                assert forall|a: int, b: int| 0 <= a < b < r@.len() implies !same_site(#[trigger] r@[a], #[trigger] r@[b]) by {
                    let ra = r@[a];
                    let rb = r@[b];
                    if a == j || b == j {
                        let other = if a == j { rb } else { ra };
                        assert(r@.contains(other));
                        assert(other != x || true);
                        let oi = if a == j { b } else { a };
                        let bi = if oi < j { oi } else { oi - 1 };
                        assert(before[bi] == other);
                        assert(before.contains(other));
                        assert(pre.contains(other));
                        let q = choose|q: int| 0 <= q < pre.len() && pre[q] == other;
                        assert(v@[q] == other);
                        if a == j {
                            assert(!same_site(v@[q], v@[i as int]));
                        } else {
                            assert(!same_site(v@[q], v@[i as int]));
                        }
                    } else {
                        let ba = if a < j { a } else { a - 1 };
                        let bb = if b < j { b } else { b - 1 };
                        assert(before[ba] == ra);
                        assert(before[bb] == rb);
                    }
                }
            }
            assert forall|y: SymbolOccurrence| #[trigger] r@.contains(y) <==> v@.take(i + 1).contains(y) by {
                if r@.contains(y) {
                    let m = choose|m: int| 0 <= m < r@.len() && #[trigger] r@[m] == y;
                    if m < j {
                        assert(before[m] == y);
                    } else if m > j {
                        assert(before[m - 1] == y);
                    }
                    if y != x {
                        assert(before.contains(y));
                        let q = choose|q: int| 0 <= q < pre.len() && #[trigger] pre[q] == y;
                        assert(v@.take(i + 1)[q] == y);
                    } else {
                        assert(v@.take(i + 1)[i as int] == y);
                    }
                }
                if v@.take(i + 1).contains(y) {
                    let q = choose|q: int| 0 <= q < i + 1 && #[trigger] v@.take(i + 1)[q] == y;
                    if q < i {
                        assert(pre[q] == y);
                        assert(before.contains(y));
                        let m = choose|m: int| 0 <= m < before.len() && #[trigger] before[m] == y;
                        if m < j {
                            assert(r@[m] == y);
                        } else {
                            assert(r@[m + 1] == y);
                        }
                    } else {
                        assert(r@[j as int] == y);
                    }
                }
            }
        }
        i = i + 1;
    }
    assert(v@.take(v@.len() as int) == v@);
    r
}

/// The first occurrence in `list` at (`file`, `line`).
pub open spec fn first_at(list: Seq<SymbolOccurrence>, file: Seq<char>, line: usize) -> Option<
    SymbolOccurrence,
>
    decreases list.len(),
{
    if list.len() == 0 {
        None
    } else {
        match first_at(list.drop_last(), file, line) {
            Some(o) => Some(o),
            None => if list.last().file@ == file && list.last().line == line {
                Some(list.last())
            } else {
                None
            },
        }
    }
}

/// With a file and a line, the FQN of the occurrence of `symbol` found
/// there (`Some(None)` when it has none); `None` when none is found or the
/// location is incomplete.
pub open spec fn location_hint(
    idx: SymbolIndex,
    symbol: Seq<char>,
    file: Option<Seq<char>>,
    line: Option<usize>,
) -> Option<Option<Seq<char>>> {
    if file is Some && line is Some {
        match first_at(idx.named(symbol), file->0, line->0) {
            Some(o) => Some(opt_view(o.fqn)),
            None => None,
        }
    } else {
        None
    }
}

/// The FQN a definition query looks for.
pub open spec fn definition_hint(
    idx: SymbolIndex,
    symbol: Seq<char>,
    file: Option<Seq<char>>,
    line: Option<usize>,
) -> Option<Seq<char>> {
    match location_hint(idx, symbol, file, line) {
        Some(h) => h,
        None => if has_dot(symbol) {
            Some(symbol)
        } else {
            None
        },
    }
}

pub open spec fn decl_in(s: Seq<SymbolOccurrence>, x: SymbolOccurrence) -> bool {
    s.contains(x) && is_declaration_kind(x.kind)
}

pub open spec fn any_decl(s: Seq<SymbolOccurrence>) -> bool {
    exists|x: SymbolOccurrence| #[trigger] decl_in(s, x)
}

/// The list whose declarations a definition query returns: the list under
/// the FQN, else under the alias target of the FQN, else under the name.
pub open spec fn definition_source(idx: SymbolIndex, symbol: Seq<char>, hint: Option<Seq<char>>) -> Seq<
    SymbolOccurrence,
> {
    match hint {
        Some(f) => if any_decl(idx.qualified(f)) {
            idx.qualified(f)
        } else {
            match lookup(idx.type_aliases@, f) {
                Some(t) => if any_decl(idx.qualified(t@)) {
                    idx.qualified(t@)
                } else {
                    idx.named(symbol)
                },
                None => idx.named(symbol),
            }
        },
        None => idx.named(symbol),
    }
}

pub open spec fn opt_str_view(s: Option<&str>) -> Option<Seq<char>> {
    match s {
        Some(x) => Some(x@),
        None => None,
    }
}

/// The first occurrence of `name` at (`file`, `line`).
fn occurrence_at(index: &SymbolIndex, file: &str, line: usize, name: &str) -> (r: Option<
    SymbolOccurrence,
>)
    requires
        index.wf(),
    ensures
        r == first_at(index.named(name@), file@, line),
{
    let list = index.occurrences_named(name);
    let mut i: usize = 0;
    while i < list.len()
        invariant
            i <= list@.len(),
            list@ == index.named(name@),
            first_at(list@.take(i as int), file@, line) is None,
        decreases list@.len() - i,
    {
        assert(list@.take(i + 1).drop_last() == list@.take(i as int));
        if same_text(list[i].file.as_str(), file) && list[i].line == line {
            proof {
                lemma_first_at_extends(list@, file@, line, i + 1);
            }
            return Some(list[i].duplicate());
        }
        i = i + 1;
    }
    assert(list@.take(i as int) == list@);
    None
}

proof fn lemma_first_at_extends(list: Seq<SymbolOccurrence>, file: Seq<char>, line: usize, i: int)
    requires
        0 <= i <= list.len(),
    ensures
        first_at(list.take(i), file, line) is Some ==> first_at(list, file, line) == first_at(
            list.take(i),
            file,
            line,
        ),
    decreases list.len() - i,
{
    if i < list.len() {
        lemma_first_at_extends(list, file, line, i + 1);
        assert(list.take(i + 1).drop_last() == list.take(i));
    } else {
        assert(list.take(i) == list);
    }
}

/// The FQN of the occurrence of `name` at (`file`, `line`), if there is one.
pub fn find_reference_fqn_at(index: &SymbolIndex, file: &str, line: usize, name: &str) -> (r: Option<
    String,
>)
    requires
        index.wf(),
    ensures
        opt_view(r) == match first_at(index.named(name@), file@, line) {
            Some(o) => opt_view(o.fqn),
            None => None,
        },
{
    match occurrence_at(index, file, line, name) {
        Some(o) => o.fqn,
        None => None,
    }
}

fn location_fqn(index: &SymbolIndex, symbol: &str, file: Option<&str>, line: Option<usize>) -> (r:
    Option<Option<String>>)
    requires
        index.wf(),
    ensures
        match r {
            Some(h) => location_hint(*index, symbol@, opt_str_view(file), line) == Some(opt_view(h)),
            None => location_hint(*index, symbol@, opt_str_view(file), line) is None,
        },
{
    match (file, line) {
        (Some(f), Some(l)) => match occurrence_at(index, f, l, symbol) {
            Some(o) => Some(o.fqn),
            None => None,
        },
        _ => None,
    }
}

/// Keeps the declarations of `list`.
/// The declarations of `s`, in order.
pub open spec fn decls_of(s: Seq<SymbolOccurrence>) -> Seq<SymbolOccurrence> {
    s.filter(|x: SymbolOccurrence| is_declaration_kind(x.kind))
}

fn declarations_of(list: &Vec<SymbolOccurrence>) -> (r: Vec<SymbolOccurrence>)
    ensures
        forall|x: SymbolOccurrence| #[trigger] r@.contains(x) <==> decl_in(list@, x),
        r@ == decls_of(list@),
{
    let mut r: Vec<SymbolOccurrence> = Vec::new();
    let mut i: usize = 0;
    while i < list.len()
        invariant
            i <= list@.len(),
            forall|x: SymbolOccurrence| #[trigger] r@.contains(x) <==> decl_in(list@.take(i as int), x),
        r@ == decls_of(list@.take(i as int)),
            decreases list@.len() - i,
    {
        let ghost r0 = r@;
        let ghost pre = list@.take(i as int);
        let ghost post = list@.take(i + 1);
        assert(post == pre.push(list@[i as int]));
        assert(forall|x: SymbolOccurrence| #[trigger] r0.contains(x) <==> decl_in(pre, x));
        proof {
            reveal(Seq::filter);
            assert(post.drop_last() =~= pre);
        }
        if list[i].kind.is_declaration() {
            r.push(list[i].duplicate());
        }
        proof {
            assert forall|x: SymbolOccurrence| #[trigger] r@.contains(x) <==> decl_in(post, x) by {
                if r@.contains(x) {
                    let m = choose|m: int| 0 <= m < r@.len() && #[trigger] r@[m] == x;
                    if m < r0.len() {
                        assert(r0[m] == x);
                        assert(r0.contains(x));
                        let q = choose|q: int| 0 <= q < pre.len() && #[trigger] pre[q] == x;
                        assert(post[q] == x);
                    } else {
                        assert(post[i as int] == x);
                    }
                }
                if decl_in(post, x) {
                    let q = choose|q: int| 0 <= q < post.len() && #[trigger] post[q] == x;
                    if q < i {
                        assert(pre[q] == x);
                        assert(decl_in(pre, x));
                        assert(r0.contains(x));
                        let m = choose|m: int| 0 <= m < r0.len() && #[trigger] r0[m] == x;
                        assert(r@[m] == x);
                    } else {
                        assert(r@[r@.len() - 1] == x);
                    }
                }
            }
        }
        i = i + 1;
    }
    proof {
        assert(list@.take(i as int) == list@);
    }
    assert(list@.take(i as int) == list@);
    r
}

/// The declarations of `symbol`, ordered by (file, line). With a file and a
/// line the FQN of the occurrence there is used; else a dotted `symbol` is
/// taken as an FQN. The declarations under that FQN are returned, or,
/// when there are none, those under the alias target of the FQN; when
/// neither gives any, or there is no FQN, those listed under the name.
pub fn find_definition(index: &SymbolIndex, symbol: &str, file: Option<&str>, line: Option<usize>) -> (r:
    Vec<SymbolOccurrence>)
    requires
        index.wf(),
    ensures
        sorted_by_position(r@),
        forall|x: SymbolOccurrence|
            #[trigger] r@.contains(x) <==> decl_in(
                definition_source(
                    *index,
                    symbol@,
                    definition_hint(*index, symbol@, opt_str_view(file), line),
                ),
                x,
            ),        r@.to_multiset() == decls_of(
            definition_source(*index, symbol@, definition_hint(*index, symbol@, opt_str_view(file), line)),
        ).to_multiset(),
{
    let hint = match location_fqn(index, symbol, file, line) {
        Some(h) => h,
        None => if contains_dot(symbol) {
            Some(symbol.to_owned())
        } else {
            None
        },
    };
    let ghost source = definition_source(
        *index,
        symbol@,
        definition_hint(*index, symbol@, opt_str_view(file), line),
    );
    let chosen: Vec<SymbolOccurrence> = match &hint {
        Some(f) => {
            let primary = declarations_of(&index.occurrences_qualified(f.as_str()));
            if primary.len() > 0 {
                proof {
                    assert(primary@.contains(primary@[0]));
                    assert(decl_in(index.qualified(f@), primary@[0]));
                }
                primary
            } else {
                proof {
                    assert forall|x: SymbolOccurrence| !decl_in(index.qualified(f@), x) by {
                        if decl_in(index.qualified(f@), x) {
                            assert(primary@.contains(x));
                        }
                    }
                }
                let via_alias = match find_key(&index.type_aliases, f.as_str()) {
                    Some(j) => {
                        proof {
                            lemma_lookup_at(index.type_aliases@, j as int);
                        }
                        let target = &index.type_aliases[j].value;
                        let second = declarations_of(&index.occurrences_qualified(target.as_str()));
                        if second.len() > 0 {
                            proof {
                                assert(second@.contains(second@[0]));
                                assert(decl_in(index.qualified(target@), second@[0]));
                            }
                            Some(second)
                        } else {
                            proof {
                                assert forall|x: SymbolOccurrence| !decl_in(index.qualified(target@), x) by {
                                    if decl_in(index.qualified(target@), x) {
                                        assert(second@.contains(x));
                                    }
                                }
                            }
                            None
                        }
                    },
                    None => None,
                };
                match via_alias {
                    Some(v) => v,
                    None => declarations_of(&index.occurrences_named(symbol)),
                }
            }
        },
        None => declarations_of(&index.occurrences_named(symbol)),
    };
    assert(chosen@ == decls_of(source));
    sort_by_position(chosen)
}

/// A reference, or an import when imports are asked for.
pub open spec fn kept(x: SymbolOccurrence, include_imports: bool) -> bool {
    is_reference_kind(x.kind) || (include_imports && x.kind == SymbolKind::Import)
}

/// Whether the file at `path` could refer to class `cls`: it imports the
/// class, imports its package by wildcard, or lies in that package. An
/// unknown class passes; an unknown file does not.
pub open spec fn could_reference(idx: SymbolIndex, path: Seq<char>, cls: Option<Seq<char>>) -> bool {
    match cls {
        None => true,
        Some(c) => match lookup(idx.files@, path) {
            None => false,
            Some(fi) => {
                ||| exists|k: int|
                    0 <= k < fi.imports@.len() && !(#[trigger] fi.imports@[k]).is_wildcard
                        && fi.imports@[k].path@ == c
                ||| exists|k: int|
                    0 <= k < fi.imports@.len() && (#[trigger] fi.imports@[k]).is_wildcard
                        && before_last_dot(c) == Some(fi.imports@[k].path@)
                ||| fi.package is Some && before_last_dot(c) == Some(fi.package->0@)
            },
        },
    }
}

/// Whether the file at `path` could refer to the class with FQN `class_fqn`.
pub fn file_references_class(index: &SymbolIndex, path: &str, class_fqn: Option<&str>) -> (r: bool)
    requires
        index.wf(),
    ensures
        r == could_reference(*index, path@, opt_str_view(class_fqn)),
{
    match class_fqn {
        None => true,
        Some(c) => class_visible(index, path, c),
    }
}

fn class_visible(index: &SymbolIndex, path: &str, c: &str) -> (r: bool)
    requires
        index.wf(),
    ensures
        r == could_reference(*index, path@, Some(c@)),
{
    let fi: &FileInfo = match find_key(&index.files, path) {
        None => return false,
        Some(j) => {
            proof {
                lemma_lookup_at(index.files@, j as int);
            }
            &index.files[j].value
        },
    };
    assert(lookup(index.files@, path@) == Some(*fi));
    let pkg = before_last_dot_of(c);
    let mut k: usize = 0;
    while k < fi.imports.len()
        invariant
            k <= fi.imports@.len(),
            lookup(index.files@, path@) == Some(*fi),
            opt_view(pkg) == before_last_dot(c@),
            forall|q: int|
                0 <= q < k ==> !(!(#[trigger] fi.imports@[q]).is_wildcard && fi.imports@[q].path@ == c@),
            forall|q: int|
                0 <= q < k ==> !((#[trigger] fi.imports@[q]).is_wildcard && before_last_dot(c@) == Some(
                    fi.imports@[q].path@,
                )),
        decreases fi.imports@.len() - k,
    {
        let imp = &fi.imports[k];
        assert(fi.imports@[k as int] == *imp);
        if !imp.is_wildcard && same_text(imp.path.as_str(), c) {
            assert(exists|q: int|
                0 <= q < fi.imports@.len() && !(#[trigger] fi.imports@[q]).is_wildcard
                    && fi.imports@[q].path@ == c@);
            return true;
        }
        if imp.is_wildcard {
            match &pkg {
                Some(p) => {
                    if same_text(imp.path.as_str(), p.as_str()) {
                                    assert(exists|q: int|
                            0 <= q < fi.imports@.len() && (#[trigger] fi.imports@[q]).is_wildcard
                                && before_last_dot(c@) == Some(fi.imports@[q].path@));
                        return true;
                    }
                },
                None => {},
            }
        }
        k = k + 1;
    }
    match (&fi.package, &pkg) {
        (Some(a), Some(b)) => same_text(a.as_str(), b.as_str()),
        _ => false,
    }
}

/// How a list is filtered into a usage result.
struct UsageFilter {
    include_imports: bool,
    refs_only: bool,
    not_fqn: Option<String>,
    class_check: bool,
    class: Option<String>,
}

spec fn passes(idx: SymbolIndex, f: UsageFilter, x: SymbolOccurrence) -> bool {
    &&& if f.refs_only {
        is_reference_kind(x.kind)
    } else {
        kept(x, f.include_imports)
    }
    &&& match f.not_fqn {
        Some(n) => opt_view(x.fqn) != Some(n@),
        None => true,
    }
    &&& f.class_check ==> could_reference(idx, x.file@, opt_view(f.class))
}

fn passes_exec(index: &SymbolIndex, f: &UsageFilter, x: &SymbolOccurrence) -> (r: bool)
    requires
        index.wf(),
    ensures
        r == passes(*index, *f, *x),
{
    let kind_ok = if f.refs_only {
        x.kind.is_reference()
    } else {
        x.kind.is_reference() || (f.include_imports && x.kind.is_import())
    };
    if !kind_ok {
        return false;
    }
    match &f.not_fqn {
        Some(n) => match &x.fqn {
            Some(g) => {
                if same_text(g.as_str(), n.as_str()) {
                    return false;
                }
            },
            None => {},
        },
        None => {},
    }
    if f.class_check {
        let cls: Option<&str> = match &f.class {
            Some(c) => Some(c.as_str()),
            None => None,
        };
        file_references_class(index, x.file.as_str(), cls)
    } else {
        true
    }
}

/// No two elements share a site.
pub open spec fn sites_distinct(s: Seq<SymbolOccurrence>) -> bool {
    forall|i: int, j: int| 0 <= i < j < s.len() ==> !same_site(#[trigger] s[i], #[trigger] s[j])
}

pub open spec fn has_site_of(s: Seq<SymbolOccurrence>, x: SymbolOccurrence) -> bool {
    exists|k: int| 0 <= k < s.len() && same_site(#[trigger] s[k], x)
}

/// Adds the elements of `list` that pass `f` and whose site is not yet in
/// `acc`.
fn gather(acc: &mut Vec<SymbolOccurrence>, index: &SymbolIndex, list: &Vec<SymbolOccurrence>, f: &UsageFilter)
    requires
        index.wf(),
        sites_distinct(old(acc)@),
    ensures
        sites_distinct(final(acc)@),
        forall|x: SymbolOccurrence| #[trigger] old(acc)@.contains(x) ==> final(acc)@.contains(x),
        forall|x: SymbolOccurrence|
            #[trigger] final(acc)@.contains(x) ==> old(acc)@.contains(x) || (list@.contains(x) && passes(
                *index,
                *f,
                x,
            )),
        forall|x: SymbolOccurrence|
            #[trigger] list@.contains(x) && passes(*index, *f, x) ==> has_site_of(final(acc)@, x),
        forall|x: SymbolOccurrence| has_site_of(old(acc)@, x) ==> #[trigger] has_site_of(final(acc)@, x),
{
    let ghost a0 = acc@;
    let mut i: usize = 0;
    while i < list.len()
        invariant
            index.wf(),
            i <= list@.len(),
            sites_distinct(acc@),
            forall|x: SymbolOccurrence| #[trigger] a0.contains(x) ==> acc@.contains(x),
            forall|x: SymbolOccurrence|
                #[trigger] acc@.contains(x) ==> a0.contains(x) || (list@.contains(x) && passes(
                    *index,
                    *f,
                    x,
                )),
            forall|q: int|
                0 <= q < i && passes(*index, *f, list@[q]) ==> has_site_of(acc@, #[trigger] list@[q]),
            forall|x: SymbolOccurrence| has_site_of(a0, x) ==> #[trigger] has_site_of(acc@, x),
        decreases list@.len() - i,
    {
        let x = &list[i];
        if passes_exec(index, f, x) {
            let mut seen = false;
            let mut k: usize = 0;
            while k < acc.len()
                invariant
                    k <= acc@.len(),
                    seen == exists|m: int| 0 <= m < k && same_site(#[trigger] acc@[m], *x),
                decreases acc@.len() - k,
            {
                if same_text(acc[k].file.as_str(), x.file.as_str()) && acc[k].byte_range == x.byte_range {
                    seen = true;
                }
                k = k + 1;
            }
            if !seen {
                let ghost before = acc@;
                acc.push(x.duplicate());
                proof {
                    assert(acc@[before.len() as int] == *x);
                    assert(list@.contains(*x));
                    assert forall|y: SymbolOccurrence| #[trigger] acc@.contains(y) implies a0.contains(y) || (
                    list@.contains(y) && passes(*index, *f, y)) by {
                        if y != *x {
                            let m = choose|m: int| 0 <= m < acc@.len() && #[trigger] acc@[m] == y;
                            assert(before[m] == y);
                            assert(before.contains(y));
                        }
                    }
                    assert forall|y: SymbolOccurrence| #[trigger] a0.contains(y) implies acc@.contains(y) by {
                        assert(before.contains(y));
                        let m = choose|m: int| 0 <= m < before.len() && #[trigger] before[m] == y;
                        assert(acc@[m] == y);
                    }
                    assert forall|q: int|
                        0 <= q < i + 1 && passes(*index, *f, list@[q]) implies has_site_of(
                        acc@,
                        #[trigger] list@[q],
                    ) by {
                        if q < i {
                            assert(has_site_of(before, list@[q]));
                            let m = choose|m: int| 0 <= m < before.len() && same_site(#[trigger] before[m], list@[q]);
                            assert(acc@[m] == before[m]);
                        } else {
                            assert(same_site(acc@[before.len() as int], list@[q]));
                        }
                    }
                    assert forall|y: SymbolOccurrence| has_site_of(a0, y) implies #[trigger] has_site_of(acc@, y) by {
                        assert(has_site_of(before, y));
                        let m = choose|m: int| 0 <= m < before.len() && same_site(#[trigger] before[m], y);
                        assert(acc@[m] == before[m]);
                    }
                }
            } else {
                proof {
                    let m = choose|m: int| 0 <= m < acc@.len() && same_site(#[trigger] acc@[m], *x);
                    assert(has_site_of(acc@, list@[i as int]));
                }
            }
        }
        i = i + 1;
    }
    proof {
        assert forall|x: SymbolOccurrence|
            #[trigger] list@.contains(x) && passes(*index, *f, x) implies has_site_of(acc@, x) by {
            let q = choose|q: int| 0 <= q < list@.len() && #[trigger] list@[q] == x;
            assert(has_site_of(acc@, list@[q]));
        }
    }
}

pub open spec fn all_decls_have(list: Seq<SymbolOccurrence>, f: Seq<char>) -> bool {
    forall|k: int| 0 <= k < list.len() && crate::resolve::is_decl(#[trigger] list[k]) ==> list[k].fqn->0@ == f
}

/// The FQN shared by every declaration in `list`, when there is at least
/// one and they all share it.
pub open spec fn unique_decl_fqn(list: Seq<SymbolOccurrence>) -> Option<Seq<char>> {
    match crate::resolve::first_decl(list, |o: SymbolOccurrence| true) {
        Some(f) => if all_decls_have(list, f) {
            Some(f)
        } else {
            None
        },
        None => None,
    }
}

/// If the declarations named `name` all carry one FQN, that FQN.
pub fn find_unique_fqn(index: &SymbolIndex, name: &str) -> (r: Option<String>)
    requires
        index.wf(),
    ensures
        opt_view(r) == unique_decl_fqn(index.named(name@)),
{
    let list = index.occurrences_named(name);
    match first_decl_fqn(&list) {
        None => None,
        Some(f) => {
            let mut k: usize = 0;
            while k < list.len()
                invariant
                    k <= list@.len(),
                    list@ == index.named(name@),
                    crate::resolve::first_decl(list@, |o: SymbolOccurrence| true) == Some(f@),
                    forall|q: int|
                        0 <= q < k && crate::resolve::is_decl(#[trigger] list@[q]) ==> list@[q].fqn->0@ == f@,
                decreases list@.len() - k,
            {
                if list[k].kind.is_declaration() {
                    match &list[k].fqn {
                        Some(g) => {
                            if !same_text(g.as_str(), f.as_str()) {
                                proof {
                                    assert(crate::resolve::is_decl(list@[k as int]));
                                    assert(!all_decls_have(list@, f@));
                                }
                                return None;
                            }
                        },
                        None => {},
                    }
                }
                k = k + 1;
            }
            Some(f)
        },
    }
}

/// The FQN of the first declaration of `list` that has one.
fn first_decl_fqn(list: &Vec<SymbolOccurrence>) -> (r: Option<String>)
    ensures
        opt_view(r) == crate::resolve::first_decl(list@, |o: SymbolOccurrence| true),
{
    let ghost p = |o: SymbolOccurrence| true;
    let mut i: usize = 0;
    while i < list.len()
        invariant
            i <= list@.len(),
            p == (|o: SymbolOccurrence| true),
            crate::resolve::first_decl(list@.take(i as int), p) is None,
        decreases list@.len() - i,
    {
        assert(list@.take(i + 1).drop_last() == list@.take(i as int));
        assert(list@.take(i + 1).last() == list@[i as int]);
        if list[i].kind.is_declaration() {
            match &list[i].fqn {
                Some(g) => {
                    proof {
                        crate::resolve::lemma_first_decl_extends(list@, p, i + 1);
                    }
                    return Some(g.clone());
                },
                None => {},
            }
        }
        i = i + 1;
    }
    assert(list@.take(i as int) == list@);
    None
}

/// The FQN a usage query looks for: from the location, else a dotted
/// symbol, else the FQN shared by all declarations of the name.
pub open spec fn usage_hint(
    idx: SymbolIndex,
    symbol: Seq<char>,
    file: Option<Seq<char>>,
    line: Option<usize>,
) -> Option<Seq<char>> {
    match location_hint(idx, symbol, file, line) {
        Some(h) => h,
        None => if has_dot(symbol) {
            Some(symbol)
        } else {
            unique_decl_fqn(idx.named(symbol))
        },
    }
}

/// `x` is found for FQN `f`: a reference (or import) under `f`; a reference
/// under an alias of `f`; and, when `f` is a field with generated
/// accessors, same-named references in files that could refer to its class,
/// and uses of each accessor.
pub open spec fn usage_of(idx: SymbolIndex, f: Seq<char>, include_imports: bool, x: SymbolOccurrence) -> bool {
    ||| idx.qualified(f).contains(x) && kept(x, include_imports)
    ||| exists|j: int|
        0 <= j < idx.type_aliases@.len() && (#[trigger] idx.type_aliases@[j]).value@ == f
            && idx.qualified(idx.type_aliases@[j].key@).contains(x) && is_reference_kind(x.kind)
    ||| match lookup(idx.lombok_accessors@, f) {
        Some(accs) => {
            ||| idx.named(last_segment(f)).contains(x) && kept(x, include_imports) && opt_view(x.fqn)
                != Some(f) && could_reference(idx, x.file@, before_last_dot(f))
            ||| exists|k: int|
                0 <= k < accs@.len() && ((idx.qualified((#[trigger] accs@[k])@).contains(x) && kept(
                    x,
                    include_imports,
                )) || (idx.named(last_segment(accs@[k]@)).contains(x) && is_reference_kind(x.kind)
                    && opt_view(x.fqn) != Some(accs@[k]@) && could_reference(
                    idx,
                    x.file@,
                    before_last_dot(f),
                )))
        },
        None => false,
    }
}

/// The references to `symbol` (with imports when `include_imports`),
/// ordered by (file, line). With an FQN (see `usage_hint`) the result holds
/// only occurrences found for it, one per site, and a site for each of
/// them; when there is no FQN or nothing is found for it, the result is the
/// references listed under the last segment of `symbol`.
pub fn find_usages(
    index: &SymbolIndex,
    symbol: &str,
    file: Option<&str>,
    line: Option<usize>,
    include_imports: bool,
) -> (r: Vec<SymbolOccurrence>)
    requires
        index.wf(),
    ensures
        sorted_by_position(r@),
        ({
            let hint = usage_hint(*index, symbol@, opt_str_view(file), line);
            if hint is Some && exists|x: SymbolOccurrence|
                #[trigger] usage_of(*index, hint->0, include_imports, x) {
                &&& forall|x: SymbolOccurrence|
                    #[trigger] r@.contains(x) ==> usage_of(*index, hint->0, include_imports, x)
                &&& forall|x: SymbolOccurrence|
                    #[trigger] usage_of(*index, hint->0, include_imports, x) ==> has_site_of(r@, x)
                &&& sites_distinct(r@)
            } else {
                &&& forall|x: SymbolOccurrence|
                    #[trigger] r@.contains(x) <==> (index.named(last_segment(symbol@)).contains(x)
                        && kept(x, include_imports))
                &&& r@.to_multiset() == index.named(last_segment(symbol@)).filter(
                    |x: SymbolOccurrence| kept(x, include_imports),
                ).to_multiset()
            }
        }),
{
    let hint = match location_fqn(index, symbol, file, line) {
        Some(h) => h,
        None => if contains_dot(symbol) {
            Some(symbol.to_owned())
        } else {
            find_unique_fqn(index, symbol)
        },
    };
    assert(opt_view(hint) == usage_hint(*index, symbol@, opt_str_view(file), line));
    match &hint {
        Some(f) => {
            let found = usages_of_fqn(index, f.as_str(), include_imports);
            if found.len() > 0 {
                proof {
                    assert(found@.contains(found@[0]));
                    assert(usage_of(*index, f@, include_imports, found@[0]));
                }
                let ghost fv = found@;
                let sorted = sort_by_position(found);
                proof {
                    assert forall|x: SymbolOccurrence|
                        #[trigger] usage_of(*index, f@, include_imports, x) implies has_site_of(sorted@, x) by {
                        assert(has_site_of(fv, x));
                        let m = choose|m: int| 0 <= m < fv.len() && same_site(#[trigger] fv[m], x);
                        assert(fv.contains(fv[m]));
                        assert(sorted@.contains(fv[m]));
                        let q = choose|q: int| 0 <= q < sorted@.len() && #[trigger] sorted@[q] == fv[m];
                        assert(same_site(sorted@[q], x));
                    }
                    assert forall|x: SymbolOccurrence| #[trigger] sorted@.contains(x) implies usage_of(
                        *index,
                        f@,
                        include_imports,
                        x,
                    ) by {
                        assert(fv.contains(x));
                    }
                    let ghost h = usage_hint(*index, symbol@, opt_str_view(file), line);
                    assert(h == Some(f@));
                    assert(usage_of(*index, h->0, include_imports, fv[0]));
                    assert(exists|x: SymbolOccurrence| #[trigger] usage_of(*index, h->0, include_imports, x));
                    assert(forall|x: SymbolOccurrence|
                        #[trigger] sorted@.contains(x) ==> usage_of(*index, h->0, include_imports, x));
                    assert(forall|x: SymbolOccurrence|
                        #[trigger] usage_of(*index, h->0, include_imports, x) ==> has_site_of(sorted@, x));
                }
                return sorted;
            }
        },
        None => {},
    }
    let name = last_segment_of(symbol);
    let list = index.occurrences_named(name.as_str());
    let f = UsageFilter {
        include_imports,
        refs_only: false,
        not_fqn: None,
        class_check: false,
        class: None,
    };
    let mut acc: Vec<SymbolOccurrence> = Vec::new();
    let mut i: usize = 0;
    while i < list.len()
        invariant
            index.wf(),
            i <= list@.len(),
            f.include_imports == include_imports && !f.refs_only && f.not_fqn is None && !f.class_check,
            forall|x: SymbolOccurrence|
                #[trigger] acc@.contains(x) <==> (list@.take(i as int).contains(x) && kept(x, include_imports)),
            acc@ == list@.take(i as int).filter(|x: SymbolOccurrence| kept(x, include_imports)),
        decreases list@.len() - i,
    {
        let ghost a0 = acc@;
        let ghost pre = list@.take(i as int);
        let ghost post = list@.take(i + 1);
        assert(post == pre.push(list@[i as int]));
        proof {
            reveal(Seq::filter);
            assert(post.drop_last() =~= pre);
        }
        assert(forall|x: SymbolOccurrence| #[trigger] a0.contains(x) <==> (pre.contains(x) && kept(x, include_imports)));
        if passes_exec(index, &f, &list[i]) {
            acc.push(list[i].duplicate());
        }
        proof {
            assert forall|x: SymbolOccurrence|
                #[trigger] acc@.contains(x) <==> (post.contains(x) && kept(x, include_imports)) by {
                if acc@.contains(x) {
                    let m = choose|m: int| 0 <= m < acc@.len() && #[trigger] acc@[m] == x;
                    if m < a0.len() {
                        assert(a0[m] == x);
                        assert(a0.contains(x));
                        let q = choose|q: int| 0 <= q < pre.len() && #[trigger] pre[q] == x;
                        assert(post[q] == x);
                    } else {
                        assert(post[i as int] == x);
                    }
                }
                if post.contains(x) && kept(x, include_imports) {
                    let q = choose|q: int| 0 <= q < post.len() && #[trigger] post[q] == x;
                    if q < i {
                        assert(pre[q] == x);
                        assert(a0.contains(x));
                        let m = choose|m: int| 0 <= m < a0.len() && #[trigger] a0[m] == x;
                        assert(acc@[m] == x);
                    } else {
                        assert(acc@[acc@.len() - 1] == x);
                    }
                }
            }
        }
        i = i + 1;
    }
    assert(list@.take(i as int) == list@);
    assert(list@ == index.named(last_segment(symbol@)));
    sort_by_position(acc)
}

/// Everything found for FQN `f`, one occurrence per site.
fn usages_of_fqn(index: &SymbolIndex, f: &str, include_imports: bool) -> (r: Vec<SymbolOccurrence>)
    requires
        index.wf(),
    ensures
        forall|x: SymbolOccurrence| #[trigger] r@.contains(x) ==> usage_of(*index, f@, include_imports, x),
        forall|x: SymbolOccurrence| #[trigger] usage_of(*index, f@, include_imports, x) ==> has_site_of(r@, x),
        r@.len() == 0 ==> forall|x: SymbolOccurrence| !#[trigger] usage_of(*index, f@, include_imports, x),
        sites_distinct(r@),
{
    let mut acc: Vec<SymbolOccurrence> = Vec::new();
    let direct = UsageFilter {
        include_imports,
        refs_only: false,
        not_fqn: None,
        class_check: false,
        class: None,
    };
    gather(&mut acc, index, &index.occurrences_qualified(f), &direct);
    // references under aliases of f
    let refs = UsageFilter { include_imports, refs_only: true, not_fqn: None, class_check: false, class: None };
    let mut j: usize = 0;
    while j < index.type_aliases.len()
        invariant
            index.wf(),
            j <= index.type_aliases@.len(),
            sites_distinct(acc@),
            refs.refs_only && refs.not_fqn is None && !refs.class_check,
            forall|x: SymbolOccurrence| #[trigger] acc@.contains(x) ==> usage_of(*index, f@, include_imports, x),
            forall|x: SymbolOccurrence|
                #[trigger] index.qualified(f@).contains(x) && kept(x, include_imports) ==> has_site_of(acc@, x),
            forall|j2: int, x: SymbolOccurrence|
                0 <= j2 < j && (#[trigger] index.type_aliases@[j2]).value@ == f@ && index.qualified(
                    index.type_aliases@[j2].key@,
                ).contains(x) && is_reference_kind(x.kind) ==> #[trigger] has_site_of(acc@, x),
        decreases index.type_aliases@.len() - j,
    {
        let e = &index.type_aliases[j];
        if same_text(e.value.as_str(), f) {
            let ghost a0 = acc@;
            let list = index.occurrences_qualified(e.key.as_str());
            gather(&mut acc, index, &list, &refs);
            proof {
                assert forall|x: SymbolOccurrence| #[trigger] acc@.contains(x) implies usage_of(
                    *index,
                    f@,
                    include_imports,
                    x,
                ) by {
                    if !a0.contains(x) {
                        assert(index.type_aliases@[j as int].value@ == f@);
                    }
                }
            }
        }
        j = j + 1;
    }
    // generated accessors of a field
    match find_key(&index.lombok_accessors, f) {
        Some(li) => {
            proof {
                lemma_lookup_at(index.lombok_accessors@, li as int);
            }
            let accs = &index.lombok_accessors[li].value;
            let cls = before_last_dot_of(f);
            let field_refs = UsageFilter {
                include_imports,
                refs_only: false,
                not_fqn: Some(f.to_owned()),
                class_check: true,
                class: cls,
            };
            let field_name = last_segment_of(f);
            let ghost a0 = acc@;
            gather(&mut acc, index, &index.occurrences_named(field_name.as_str()), &field_refs);
            let mut k: usize = 0;
            while k < accs.len()
                invariant
                    index.wf(),
                    k <= accs@.len(),
                    lookup(index.lombok_accessors@, f@) == Some(*accs),
                    opt_view(cls) == before_last_dot(f@),
                    sites_distinct(acc@),
                    forall|x: SymbolOccurrence| #[trigger] acc@.contains(x) ==> usage_of(*index, f@, include_imports, x),
                    forall|x: SymbolOccurrence|
                        #[trigger] usage_of(*index, f@, include_imports, x) && !(exists|k2: int|
                            k <= k2 < accs@.len() && ((index.qualified((#[trigger] accs@[k2])@).contains(x) && kept(
                                x,
                                include_imports,
                            )) || (index.named(last_segment(accs@[k2]@)).contains(x) && is_reference_kind(x.kind)
                                && opt_view(x.fqn) != Some(accs@[k2]@) && could_reference(
                                *index,
                                x.file@,
                                before_last_dot(f@),
                            )))) ==> has_site_of(acc@, x),
                decreases accs@.len() - k,
            {
                let a = &accs[k];
                let ghost a1 = acc@;
                let by_fqn = UsageFilter { include_imports, refs_only: false, not_fqn: None, class_check: false, class: None };
                gather(&mut acc, index, &index.occurrences_qualified(a.as_str()), &by_fqn);
                let by_name = UsageFilter {
                    include_imports,
                    refs_only: true,
                    not_fqn: Some(a.clone()),
                    class_check: true,
                    class: before_last_dot_of(f),
                };
                let ghost a2 = acc@;
                gather(&mut acc, index, &index.occurrences_named(last_segment_of(a.as_str()).as_str()), &by_name);
                proof {
                    assert forall|x: SymbolOccurrence| #[trigger] acc@.contains(x) implies usage_of(
                        *index,
                        f@,
                        include_imports,
                        x,
                    ) by {
                        if !a1.contains(x) {
                            let ghost accv = lookup(index.lombok_accessors@, f@)->0;
                            assert(accv == *accs);
                            assert(accv@[k as int] == *a);
                            if a2.contains(x) {
                                assert(index.qualified(accv@[k as int]@).contains(x) && kept(x, include_imports));
                            } else {
                                assert(index.named(last_segment(accv@[k as int]@)).contains(x)
                                    && is_reference_kind(x.kind) && opt_view(x.fqn) != Some(accv@[k as int]@)
                                    && could_reference(*index, x.file@, before_last_dot(f@)));
                            }
                            assert(exists|k2: int|
                                0 <= k2 < accv@.len() && ((index.qualified((#[trigger] accv@[k2])@).contains(x)
                                    && kept(x, include_imports)) || (index.named(last_segment(accv@[k2]@)).contains(x)
                                    && is_reference_kind(x.kind) && opt_view(x.fqn) != Some(accv@[k2]@)
                                    && could_reference(*index, x.file@, before_last_dot(f@)))));
                        }
                    }
                    assert forall|x: SymbolOccurrence|
                        #[trigger] usage_of(*index, f@, include_imports, x) && !(exists|k2: int|
                            k + 1 <= k2 < accs@.len() && ((index.qualified((#[trigger] accs@[k2])@).contains(x) && kept(
                                x,
                                include_imports,
                            )) || (index.named(last_segment(accs@[k2]@)).contains(x) && is_reference_kind(x.kind)
                                && opt_view(x.fqn) != Some(accs@[k2]@) && could_reference(
                                *index,
                                x.file@,
                                before_last_dot(f@),
                            )))) implies has_site_of(acc@, x) by {
                        let here = (index.qualified(accs@[k as int]@).contains(x) && kept(x, include_imports))
                            || (index.named(last_segment(accs@[k as int]@)).contains(x) && is_reference_kind(x.kind)
                            && opt_view(x.fqn) != Some(accs@[k as int]@) && could_reference(
                            *index,
                            x.file@,
                            before_last_dot(f@),
                        ));
                        if here {
                            if index.qualified(accs@[k as int]@).contains(x) && kept(x, include_imports) {
                                assert(has_site_of(a2, x));
                            }
                        } else {
                            assert(has_site_of(a1, x));
                            assert(has_site_of(a2, x));
                        }
                    }
                }
                k = k + 1;
            }
        },
        None => {},
    }
    proof {
        if acc@.len() == 0 {
            assert forall|x: SymbolOccurrence| !#[trigger] usage_of(*index, f@, include_imports, x) by {
                if usage_of(*index, f@, include_imports, x) {
                    assert(has_site_of(acc@, x));
                }
            }
        }
    }
    acc
}

/// The name of a kind as written in results.
pub open spec fn kind_text(k: SymbolKind) -> Seq<char> {
    match k {
        SymbolKind::ClassDeclaration => "ClassDeclaration"@,
        SymbolKind::InterfaceDeclaration => "InterfaceDeclaration"@,
        SymbolKind::ObjectDeclaration => "ObjectDeclaration"@,
        SymbolKind::CompanionObjectDeclaration => "CompanionObjectDeclaration"@,
        SymbolKind::FunctionDeclaration => "FunctionDeclaration"@,
        SymbolKind::PropertyDeclaration => "PropertyDeclaration"@,
        SymbolKind::EnumEntryDeclaration => "EnumEntryDeclaration"@,
        SymbolKind::TypeAliasDeclaration => "TypeAliasDeclaration"@,
        SymbolKind::RecordDeclaration => "RecordDeclaration"@,
        SymbolKind::AnnotationTypeDeclaration => "AnnotationTypeDeclaration"@,
        SymbolKind::ConstructorDeclaration => "ConstructorDeclaration"@,
        SymbolKind::ExtensionFunctionDeclaration => "ExtensionFunctionDeclaration"@,
        SymbolKind::ParameterDeclaration => "ParameterDeclaration"@,
        SymbolKind::TypeReference => "TypeReference"@,
        SymbolKind::CallSite => "CallSite"@,
        SymbolKind::PropertyReference => "PropertyReference"@,
        SymbolKind::ExtensionFunctionCall => "ExtensionFunctionCall"@,
        SymbolKind::Import => "Import"@,
        SymbolKind::PackageDeclaration => "PackageDeclaration"@,
    }
}

/// The name of a kind as written in results.
pub fn kind_name(k: SymbolKind) -> (r: &'static str)
    ensures
        r@ == kind_text(k),
{
    match k {
        SymbolKind::ClassDeclaration => "ClassDeclaration",
        SymbolKind::InterfaceDeclaration => "InterfaceDeclaration",
        SymbolKind::ObjectDeclaration => "ObjectDeclaration",
        SymbolKind::CompanionObjectDeclaration => "CompanionObjectDeclaration",
        SymbolKind::FunctionDeclaration => "FunctionDeclaration",
        SymbolKind::PropertyDeclaration => "PropertyDeclaration",
        SymbolKind::EnumEntryDeclaration => "EnumEntryDeclaration",
        SymbolKind::TypeAliasDeclaration => "TypeAliasDeclaration",
        SymbolKind::RecordDeclaration => "RecordDeclaration",
        SymbolKind::AnnotationTypeDeclaration => "AnnotationTypeDeclaration",
        SymbolKind::ConstructorDeclaration => "ConstructorDeclaration",
        SymbolKind::ExtensionFunctionDeclaration => "ExtensionFunctionDeclaration",
        SymbolKind::ParameterDeclaration => "ParameterDeclaration",
        SymbolKind::TypeReference => "TypeReference",
        SymbolKind::CallSite => "CallSite",
        SymbolKind::PropertyReference => "PropertyReference",
        SymbolKind::ExtensionFunctionCall => "ExtensionFunctionCall",
        SymbolKind::Import => "Import",
        SymbolKind::PackageDeclaration => "PackageDeclaration",
    }
}

/// `root` without trailing slashes (one character kept).
pub open spec fn root_trimmed(root: Seq<char>) -> Seq<char>
    decreases root.len(),
{
    if root.len() > 1 && root.last() == '/' {
        root_trimmed(root.drop_last())
    } else {
        root
    }
}

/// Index of the first character of `p` from `from` on that is not `/`.
pub open spec fn skip_slashes(p: Seq<char>, from: int) -> int
    decreases p.len() - from,
{
    if 0 <= from < p.len() && p[from] == '/' {
        skip_slashes(p, from + 1)
    } else {
        from
    }
}

/// `path` relative to `root` when `root`'s components lead it; else `path`.
pub open spec fn relative_to(path: Seq<char>, root: Seq<char>) -> Seq<char> {
    let q = root_trimmed(root);
    if q.len() <= path.len() && path.take(q.len() as int) == q && (q.len() == path.len() || path[q.len() as int]
        == '/' || (q.len() > 0 && q.last() == '/')) {
        path.skip(skip_slashes(path, q.len() as int))
    } else {
        path
    }
}

proof fn lemma_skip_slashes_bounds(p: Seq<char>, from: int)
    requires
        0 <= from <= p.len(),
    ensures
        from <= skip_slashes(p, from) <= p.len(),
    decreases p.len() - from,
{
    if from < p.len() && p[from] == '/' {
        lemma_skip_slashes_bounds(p, from + 1);
    }
}

/// `path` relative to `root` when `root` is a leading run of its
/// components; else `path` itself.
pub fn relative_path(path: &str, root: &str) -> (r: String)
    ensures
        r@ == relative_to(path@, root@),
{
    let p = crate::text::chars_of(path);
    let mut q = crate::text::chars_of(root);
    while q.len() > 1 && q[q.len() - 1] == '/'
        invariant
            root_trimmed(root@) == root_trimmed(q@),
        decreases q@.len(),
    {
        q.pop();
    }
    assert(root_trimmed(q@) == q@);
    if q.len() > p.len() {
        return path.to_owned();
    }
    let mut k: usize = 0;
    while k < q.len()
        invariant
            q@.len() <= p@.len(),
            p@ == path@,
            root_trimmed(root@) == q@,
            k <= q@.len(),
            forall|m: int| 0 <= m < k ==> p@[m] == q@[m],
        decreases q@.len() - k,
    {
        if p[k] != q[k] {
            assert(p@.take(q@.len() as int)[k as int] != q@[k as int]);
            return path.to_owned();
        }
        k = k + 1;
    }
    assert(p@.take(q@.len() as int) =~= q@);
    let mut start = q.len();
    if start < p.len() && p[start] != '/' && !(q.len() > 0 && q[q.len() - 1] == '/') {
        return path.to_owned();
    }
    while start < p.len() && p[start] == '/'
        invariant
            q@.len() <= start <= p@.len(),
            p@ == path@,
            root_trimmed(root@) == q@,
            skip_slashes(p@, q@.len() as int) == skip_slashes(p@, start as int),
        decreases p@.len() - start,
    {
        start = start + 1;
    }
    assert(p@.subrange(start as int, p@.len() as int) == p@.skip(start as int));
    crate::text::string_of(&p, start, p.len())
}

/// One result line: `  path:line:column - Kind `name``, then ` [fqn]`
/// and ` (receiver: r)` when present.
pub open spec fn result_line(o: SymbolOccurrence, root: Seq<char>) -> Seq<char> {
    "\n  "@ + relative_to(o.file@, root) + ":"@ + crate::text::decimal(o.line as nat) + ":"@
        + crate::text::decimal(o.column as nat) + " - "@ + kind_text(o.kind) + " `"@ + o.name@ + "`"@
        + match o.fqn {
        Some(f) => " ["@ + f@ + "]"@,
        None => seq![],
    } + match o.receiver_type {
        Some(r) => " (receiver: "@ + r@ + ")"@,
        None => seq![],
    }
}

/// The result lines of `occs`, joined.
pub open spec fn result_lines(occs: Seq<SymbolOccurrence>, root: Seq<char>) -> Seq<char>
    decreases occs.len(),
{
    if occs.len() == 0 {
        seq![]
    } else {
        result_lines(occs.drop_last(), root) + result_line(occs.last(), root)
    }
}

/// The head of a result line: position, kind and name.
pub open spec fn result_head(o: SymbolOccurrence, root: Seq<char>) -> Seq<char> {
    "\n  "@ + relative_to(o.file@, root) + ":"@ + crate::text::decimal(o.line as nat) + ":"@
        + crate::text::decimal(o.column as nat) + " - "@ + kind_text(o.kind) + " `"@ + o.name@ + "`"@
}

fn append_result_head(out: &mut String, o: &SymbolOccurrence, root: &str)
    ensures
        final(out)@ == old(out)@ + result_head(*o, root@),
{
    let ghost s0 = out@;
    crate::text::append_text(out, "\n  ");
    crate::text::append_text(out, relative_path(o.file.as_str(), root).as_str());
    crate::text::append_text(out, ":");
    crate::text::append_text(out, crate::text::decimal_string(o.line).as_str());
    crate::text::append_text(out, ":");
    crate::text::append_text(out, crate::text::decimal_string(o.column).as_str());
    crate::text::append_text(out, " - ");
    crate::text::append_text(out, kind_name(o.kind));
    crate::text::append_text(out, " `");
    crate::text::append_text(out, o.name.as_str());
    crate::text::append_text(out, "`");
    assert(out@ =~= s0 + result_head(*o, root@));
}

fn append_result_line(out: &mut String, o: &SymbolOccurrence, root: &str)
    ensures
        final(out)@ == old(out)@ + result_line(*o, root@),
{
    let ghost s0 = out@;
    append_result_head(out, o, root);
    let ghost mid = out@;
    match &o.fqn {
        Some(f) => {
            crate::text::append_text(out, " [");
            crate::text::append_text(out, f.as_str());
            crate::text::append_text(out, "]");
        },
        None => {},
    }
    let ghost mid2 = out@;
    match &o.receiver_type {
        Some(rt) => {
            crate::text::append_text(out, " (receiver: ");
            crate::text::append_text(out, rt.as_str());
            crate::text::append_text(out, ")");
        },
        None => {},
    }
    proof {
        let fq = if o.fqn is Some {
            " ["@ + o.fqn->0@ + "]"@
        } else {
            Seq::<char>::empty()
        };
        let rc = if o.receiver_type is Some {
            " (receiver: "@ + o.receiver_type->0@ + ")"@
        } else {
            Seq::<char>::empty()
        };
        assert(mid2 =~= mid + fq);
        assert(out@ =~= mid2 + rc);
        assert(result_line(*o, root@) =~= result_head(*o, root@) + fq + rc);
        assert(out@ =~= s0 + result_line(*o, root@));
    }
}

/// The text of a result list: `No results found.`, or a header with the
/// count followed by one line per occurrence.
pub open spec fn results_text(occs: Seq<SymbolOccurrence>, root: Seq<char>) -> Seq<char> {
    if occs.len() == 0 {
        "No results found."@
    } else {
        "Found "@ + crate::text::decimal(occs.len() as nat) + " result(s):\n"@ + result_lines(occs, root)
    }
}

/// The occurrences as text, paths relative to `project_root`.
pub fn format_occurrences(occurrences: &Vec<SymbolOccurrence>, project_root: &str) -> (r: String)
    ensures
        r@ == results_text(occurrences@, project_root@),
{
    let mut out = String::new();
    if occurrences.len() == 0 {
        crate::text::append_text(&mut out, "No results found.");
        return out;
    }
    crate::text::append_text(&mut out, "Found ");
    crate::text::append_text(&mut out, crate::text::decimal_string(occurrences.len()).as_str());
    crate::text::append_text(&mut out, " result(s):\n");
    let ghost head = out@;
    let mut i: usize = 0;
    while i < occurrences.len()
        invariant
            i <= occurrences@.len(),
            out@ == head + result_lines(occurrences@.take(i as int), project_root@),
        decreases occurrences@.len() - i,
    {
        let o = &occurrences[i];
        append_result_line(&mut out, o, project_root);
        proof {
            assert(occurrences@.take(i + 1).drop_last() == occurrences@.take(i as int));
            assert(occurrences@.take(i + 1).last() == *o);
        }
        i = i + 1;
    }
    assert(occurrences@.take(i as int) == occurrences@);
    out
}

} // verus!
