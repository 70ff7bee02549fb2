//! Assembly of the index from per-file extraction results.
use vstd::prelude::*;

use crate::extract::placed;
use crate::index::{has_key, lemma_add_keeps_consistent, lemma_consistent_same_lists, lookup, FileInfo, SymbolIndex, SymbolOccurrence};
use crate::java::{java_source_of, AccessorEntry};
use crate::kotlin::kotlin_source_of;
use crate::xref::{companion_aliased, cross_referenced};

verus! {

/// What extraction gives for one file.
#[derive(Debug)]
pub struct FileSymbols {
    pub file_info: FileInfo,
    pub occurrences: Vec<SymbolOccurrence>,
    pub type_aliases: Vec<(String, String)>,
    pub lombok_accessors: Vec<AccessorEntry>,
}

pub open spec fn ends_with(s: Seq<char>, suffix: Seq<char>) -> bool {
    s.len() >= suffix.len() && s.skip(s.len() - suffix.len()) == suffix
}

fn ends_with_text(s: &str, suffix: &str) -> (r: bool)
    ensures
        r == ends_with(s@, suffix@),
{
    let a = crate::text::chars_of(s);
    let b = crate::text::chars_of(suffix);
    if a.len() < b.len() {
        return false;
    }
    let off = a.len() - b.len();
    let mut k: usize = 0;
    while k < b.len()
        invariant
            a@ == s@,
            b@ == suffix@,
            off + b@.len() == a@.len(),
            off <= a@.len(),
            a@.len() <= usize::MAX,
            k <= b@.len(),
            forall|q: int| 0 <= q < k ==> a@[off + q] == b@[q],
        decreases b@.len() - k,
    {
        if a[off + k] != b[k] {
            assert(a@.skip(off as int)[k as int] != b@[k as int]);
            return false;
        }
        k = k + 1;
    }
    assert(a@.skip(off as int) =~= b@);
    true
}

/// Extracts one source file, by extension: `.kt` as Kotlin, `.java` as
/// Java; other files give nothing.
pub fn parse_source(path: &str, source: &str) -> (r: Option<FileSymbols>)
    ensures
        r is Some <==> (ends_with(path@, ".kt"@) || ends_with(path@, ".java"@)),
        r matches Some(f) ==> f.file_info.path@ == path@ && placed(f.occurrences@, path@),
        r matches Some(f) ==> if ends_with(path@, ".kt"@) {
            kotlin_source_of(path@, source@, (f.file_info, f.occurrences, f.type_aliases))
                && f.lombok_accessors@.len() == 0
        } else {
            java_source_of(path@, source@, ((f.file_info, f.occurrences, f.type_aliases), f.lombok_accessors))
        },
{
    if ends_with_text(path, ".kt") {
        let full = crate::kotlin::parse_file(path, source);
        let ghost whole = full;
        let (file_info, occurrences, type_aliases) = full;
        assert(whole == (file_info, occurrences, type_aliases));
        Some(FileSymbols { file_info, occurrences, type_aliases, lombok_accessors: Vec::new() })
    } else if ends_with_text(path, ".java") {
        let full = crate::java::extract_java(path, source);
        let ghost whole = full;
        let ((file_info, occurrences, type_aliases), lombok_accessors) = full;
        assert(whole == ((file_info, occurrences, type_aliases), lombok_accessors));
        Some(FileSymbols { file_info, occurrences, type_aliases, lombok_accessors })
    } else {
        None
    }
}

/// The occurrences of `files`, file after file.
pub open spec fn all_occurrences(files: Seq<FileSymbols>) -> Seq<SymbolOccurrence>
    decreases files.len(),
{
    if files.len() == 0 {
        seq![]
    } else {
        all_occurrences(files.drop_last()) + files.last().occurrences@
    }
}

/// The type-alias edges of `files`, file after file.
pub open spec fn all_alias_edges(files: Seq<FileSymbols>) -> Seq<(String, String)>
    decreases files.len(),
{
    if files.len() == 0 {
        seq![]
    } else {
        all_alias_edges(files.drop_last()) + files.last().type_aliases@
    }
}

/// The accessor entries of `files`, file after file.
pub open spec fn all_accessor_entries(files: Seq<FileSymbols>) -> Seq<AccessorEntry>
    decreases files.len(),
{
    if files.len() == 0 {
        seq![]
    } else {
        all_accessor_entries(files.drop_last()) + files.last().lombok_accessors@
    }
}

/// The last file record with path `p`.
pub open spec fn last_record(files: Seq<FileSymbols>, p: Seq<char>) -> Option<FileInfo>
    decreases files.len(),
{
    if files.len() == 0 {
        None
    } else if files.last().file_info.path@ == p {
        Some(files.last().file_info)
    } else {
        last_record(files.drop_last(), p)
    }
}

/// The target of the last edge for alias `a`.
pub open spec fn last_target(edges: Seq<(String, String)>, a: Seq<char>) -> Option<String>
    decreases edges.len(),
{
    if edges.len() == 0 {
        None
    } else if edges.last().0@ == a {
        Some(edges.last().1)
    } else {
        last_target(edges.drop_last(), a)
    }
}

/// Whether some entry is for field `f`.
pub open spec fn has_entry(entries: Seq<AccessorEntry>, f: Seq<char>) -> bool {
    exists|i: int| 0 <= i < entries.len() && (#[trigger] entries[i]).0@ == f
}

/// The accessors of every entry for field `f`, in order.
pub open spec fn accessors_for(entries: Seq<AccessorEntry>, f: Seq<char>) -> Seq<String>
    decreases entries.len(),
{
    if entries.len() == 0 {
        seq![]
    } else if entries.last().0@ == f {
        accessors_for(entries.drop_last(), f) + entries.last().1@
    } else {
        accessors_for(entries.drop_last(), f)
    }
}

/// `idx` holds the occurrences `occs` by name and by FQN, in order.
pub open spec fn lists_hold(idx: SymbolIndex, occs: Seq<SymbolOccurrence>) -> bool {
    &&& forall|k: Seq<char>|
        #![trigger idx.named(k)]
        idx.named(k) == occs.filter(|o: SymbolOccurrence| o.name@ == k)
    &&& forall|k: Seq<char>|
        #![trigger idx.qualified(k)]
        idx.qualified(k) == occs.filter(|o: SymbolOccurrence| o.fqn is Some && o.fqn->0@ == k)
}

/// `idx` holds the records of `files` by path (the last one per path).
pub open spec fn records_hold(idx: SymbolIndex, files: Seq<FileSymbols>) -> bool {
    forall|p: Seq<char>|
        #![trigger lookup(idx.files@, p)]
        match (lookup(idx.files@, p), last_record(files, p)) {
            (Some(a), Some(b)) => a.path == b.path && a.package == b.package && a.imports@ == b.imports@,
            (None, None) => true,
            _ => false,
        }
}

/// `idx` holds the last target per alias of `edges`.
pub open spec fn aliases_hold(idx: SymbolIndex, edges: Seq<(String, String)>) -> bool {
    forall|a: Seq<char>| #![trigger lookup(idx.type_aliases@, a)] lookup(idx.type_aliases@, a) == last_target(edges, a)
}

/// `idx` holds, per field, the accessors of all entries for it.
pub open spec fn accessors_hold(idx: SymbolIndex, entries: Seq<AccessorEntry>) -> bool {
    forall|f: Seq<char>|
        #![trigger lookup(idx.lombok_accessors@, f)]
        (lookup(idx.lombok_accessors@, f) is Some <==> has_entry(entries, f)) && (lookup(
            idx.lombok_accessors@,
            f,
        ) is Some ==> lookup(idx.lombok_accessors@, f)->0@ == accessors_for(entries, f))
}

/// `r` is the index assembled from `files`.
pub open spec fn assembled(files: Seq<FileSymbols>, r: SymbolIndex) -> bool {
    &&& r.wf()
    &&& r.consistent()
    &&& lists_hold(r, all_occurrences(files))
    &&& records_hold(r, files)
    &&& aliases_hold(r, all_alias_edges(files))
    &&& accessors_hold(r, all_accessor_entries(files))
}

proof fn lemma_filter_push(s: Seq<SymbolOccurrence>, x: SymbolOccurrence, p: spec_fn(SymbolOccurrence) -> bool)
    ensures
        s.push(x).filter(p) == if p(x) {
            s.filter(p).push(x)
        } else {
            s.filter(p)
        },
{
    reveal(Seq::filter);
    assert(s.push(x).drop_last() =~= s);
}

/// Merges per-file results into a fresh index, in order: each file record,
/// its occurrences, its type-alias edges and its accessors.
pub fn assemble_index(files: Vec<FileSymbols>) -> (r: SymbolIndex)
    ensures
        assembled(files@, r),
{
    let mut index = SymbolIndex::new();
    let ghost fv = files@;
    proof {
        assert forall|k: Seq<char>| #![trigger index.named(k)] index.named(k) == Seq::<SymbolOccurrence>::empty().filter(|o: SymbolOccurrence| o.name@ == k) by {
            reveal(Seq::filter);
            assert(!has_key(index.by_name@, k));
        }
        assert forall|k: Seq<char>| #![trigger index.qualified(k)] index.qualified(k) == Seq::<SymbolOccurrence>::empty().filter(|o: SymbolOccurrence| o.fqn is Some && o.fqn->0@ == k) by {
            reveal(Seq::filter);
            assert(!has_key(index.by_fqn@, k));
        }
        assert(fv.take(0) =~= Seq::<FileSymbols>::empty());
        assert forall|p: Seq<char>| #![trigger lookup(index.files@, p)] lookup(index.files@, p) is None by {
            assert(!has_key(index.files@, p));
        }
        assert forall|a: Seq<char>| #![trigger lookup(index.type_aliases@, a)] lookup(index.type_aliases@, a) is None by {
            assert(!has_key(index.type_aliases@, a));
        }
        assert forall|f: Seq<char>| #![trigger lookup(index.lombok_accessors@, f)] lookup(index.lombok_accessors@, f) is None by {
            assert(!has_key(index.lombok_accessors@, f));
        }
    }
    let mut f: usize = 0;
    while f < files.len()
        invariant
            fv == files@,
            f <= fv.len(),
            index.wf(),
            index.consistent(),
            lists_hold(index, all_occurrences(fv.take(f as int))),
            records_hold(index, fv.take(f as int)),
            aliases_hold(index, all_alias_edges(fv.take(f as int))),
            accessors_hold(index, all_accessor_entries(fv.take(f as int))),
        decreases fv.len() - f,
    {
        let fs = &files[f];
        let ghost pre = fv.take(f as int);
        let ghost post = fv.take(f + 1);
        proof {
            assert(post.drop_last() =~= pre);
            assert(post.last() == *fs);
        }
        let ghost before_info = index;
        index.add_file_info(fs.file_info.duplicate());
        proof {
            lemma_consistent_same_lists(before_info, index);
            assert forall|p: Seq<char>| #![trigger lookup(index.files@, p)] match (lookup(index.files@, p), last_record(post, p)) {
                (Some(a), Some(b)) => a.path == b.path && a.package == b.package && a.imports@ == b.imports@,
                (None, None) => true,
                _ => false,
            } by {
                assert(post.last() == *fs);
                assert(post.drop_last() =~= pre);
            }
            assert forall|q: Seq<char>| #![trigger index.named(q)] index.named(q) == before_info.named(q) by {}
            assert forall|q: Seq<char>| #![trigger index.qualified(q)] index.qualified(q) == before_info.qualified(q) by {}
            assert(fs.occurrences@.take(0) =~= Seq::<SymbolOccurrence>::empty());
            assert(all_occurrences(pre) + fs.occurrences@.take(0) =~= all_occurrences(pre));
            assert(fs.type_aliases@.take(0) =~= Seq::<(String, String)>::empty());
            assert(all_alias_edges(pre) + fs.type_aliases@.take(0) =~= all_alias_edges(pre));
            assert(fs.lombok_accessors@.take(0) =~= Seq::<AccessorEntry>::empty());
            assert(all_accessor_entries(pre) + fs.lombok_accessors@.take(0) =~= all_accessor_entries(pre));
        }
        let mut k: usize = 0;
        while k < fs.occurrences.len()
            invariant
                index.wf(),
                index.consistent(),
                k <= fs.occurrences@.len(),
                lists_hold(index, all_occurrences(pre) + fs.occurrences@.take(k as int)),
                records_hold(index, post),
                aliases_hold(index, all_alias_edges(pre)),
                accessors_hold(index, all_accessor_entries(pre)),
            decreases fs.occurrences@.len() - k,
        {
            let ghost before = index;
            let ghost done = all_occurrences(pre) + fs.occurrences@.take(k as int);
            let o = fs.occurrences[k].duplicate();
            index.add_occurrence(o);
            proof {
                lemma_add_keeps_consistent(before, index, o);
                assert(all_occurrences(pre) + fs.occurrences@.take(k + 1) =~= done.push(o));
                assert forall|q: Seq<char>| #![trigger lookup(index.files@, q)] lookup(index.files@, q) == lookup(before.files@, q) by {}
                assert forall|q: Seq<char>| #![trigger lookup(index.type_aliases@, q)] lookup(index.type_aliases@, q) == lookup(before.type_aliases@, q) by {}
                assert forall|q: Seq<char>| #![trigger lookup(index.lombok_accessors@, q)] lookup(index.lombok_accessors@, q) == lookup(before.lombok_accessors@, q) by {}
                assert forall|q: Seq<char>| #![trigger index.named(q)] index.named(q) == done.push(o).filter(|x: SymbolOccurrence| x.name@ == q) by {
                    lemma_filter_push(done, o, |x: SymbolOccurrence| x.name@ == q);
                }
                assert forall|q: Seq<char>| #![trigger index.qualified(q)] index.qualified(q) == done.push(o).filter(|x: SymbolOccurrence| x.fqn is Some && x.fqn->0@ == q) by {
                    lemma_filter_push(done, o, |x: SymbolOccurrence| x.fqn is Some && x.fqn->0@ == q);
                }
            }
            k = k + 1;
        }
        proof {
            assert(fs.occurrences@.take(k as int) =~= fs.occurrences@);
            assert(all_occurrences(post) == all_occurrences(pre) + fs.occurrences@);
        }
        let mut a: usize = 0;
        while a < fs.type_aliases.len()
            invariant
                index.wf(),
                index.consistent(),
                a <= fs.type_aliases@.len(),
                aliases_hold(index, all_alias_edges(pre) + fs.type_aliases@.take(a as int)),
                lists_hold(index, all_occurrences(post)),
                records_hold(index, post),
                accessors_hold(index, all_accessor_entries(pre)),
            decreases fs.type_aliases@.len() - a,
        {
            let (alias, target) = &fs.type_aliases[a];
            let ghost before_alias = index;
            let ghost done = all_alias_edges(pre) + fs.type_aliases@.take(a as int);
            index.add_type_alias(alias.clone(), target.clone());
            proof {
                lemma_consistent_same_lists(before_alias, index);
                assert(all_alias_edges(pre) + fs.type_aliases@.take(a + 1) =~= done.push(fs.type_aliases@[a as int]));
                assert forall|q: Seq<char>| #![trigger index.named(q)] index.named(q) == before_alias.named(q) by {}
                assert forall|q: Seq<char>| #![trigger index.qualified(q)] index.qualified(q) == before_alias.qualified(q) by {}
                assert forall|q: Seq<char>| #![trigger lookup(index.files@, q)] lookup(index.files@, q) == lookup(before_alias.files@, q) by {}
                assert forall|q: Seq<char>| #![trigger lookup(index.lombok_accessors@, q)] lookup(index.lombok_accessors@, q) == lookup(before_alias.lombok_accessors@, q) by {}
                assert forall|q: Seq<char>| #![trigger lookup(index.type_aliases@, q)] lookup(index.type_aliases@, q) == last_target(done.push(fs.type_aliases@[a as int]), q) by {
                    assert(done.push(fs.type_aliases@[a as int]).drop_last() =~= done);
                }
            }
            a = a + 1;
        }
        proof {
            assert(fs.type_aliases@.take(a as int) =~= fs.type_aliases@);
            assert(all_alias_edges(post) == all_alias_edges(pre) + fs.type_aliases@);
        }
        let mut e: usize = 0;
        while e < fs.lombok_accessors.len()
            invariant
                index.wf(),
                index.consistent(),
                e <= fs.lombok_accessors@.len(),
                accessors_hold(index, all_accessor_entries(pre) + fs.lombok_accessors@.take(e as int)),
                lists_hold(index, all_occurrences(post)),
                records_hold(index, post),
                aliases_hold(index, all_alias_edges(post)),
            decreases fs.lombok_accessors@.len() - e,
        {
            let (field, accs) = &fs.lombok_accessors[e];
            let mut copy: Vec<String> = Vec::new();
            let mut q: usize = 0;
            while q < accs.len()
                invariant
                    q <= accs@.len(),
                    copy@ == accs@.take(q as int),
                decreases accs@.len() - q,
            {
                copy.push(accs[q].clone());
                assert(accs@.take(q + 1) == accs@.take(q as int).push(accs@[q as int]));
                q = q + 1;
            }
            assert(accs@.take(q as int) =~= accs@);
            let ghost before_acc = index;
            let ghost done = all_accessor_entries(pre) + fs.lombok_accessors@.take(e as int);
            let ghost entry = fs.lombok_accessors@[e as int];
            index.add_accessors(field.as_str(), copy);
            proof {
                lemma_consistent_same_lists(before_acc, index);
                let nd = done.push(entry);
                assert(all_accessor_entries(pre) + fs.lombok_accessors@.take(e + 1) =~= nd);
                assert(nd.drop_last() =~= done);
                assert forall|q2: Seq<char>| #![trigger index.named(q2)] index.named(q2) == before_acc.named(q2) by {}
                assert forall|q2: Seq<char>| #![trigger index.qualified(q2)] index.qualified(q2) == before_acc.qualified(q2) by {}
                assert forall|q2: Seq<char>| #![trigger lookup(index.files@, q2)] lookup(index.files@, q2) == lookup(before_acc.files@, q2) by {}
                assert forall|q2: Seq<char>| #![trigger lookup(index.type_aliases@, q2)] lookup(index.type_aliases@, q2) == lookup(before_acc.type_aliases@, q2) by {}
                assert forall|g: Seq<char>| #![trigger lookup(index.lombok_accessors@, g)]
                    (lookup(index.lombok_accessors@, g) is Some <==> has_entry(nd, g)) && (lookup(index.lombok_accessors@, g) is Some ==> lookup(index.lombok_accessors@, g)->0@ == accessors_for(nd, g)) by {
                    if has_entry(nd, g) && g != entry.0@ {
                        let w = choose|w: int| 0 <= w < nd.len() && (#[trigger] nd[w]).0@ == g;
                        assert(done[w] == nd[w]);
                    }
                    if has_entry(done, g) {
                        let w = choose|w: int| 0 <= w < done.len() && (#[trigger] done[w]).0@ == g;
                        assert(nd[w] == done[w]);
                    }
                    if g == entry.0@ {
                        assert(nd[nd.len() - 1].0@ == g);
                        if !has_entry(done, g) {
                            lemma_no_entry_empty(done, g);
                        }
                    }
                }
            }
            e = e + 1;
        }
        proof {
            assert(fs.lombok_accessors@.take(e as int) =~= fs.lombok_accessors@);
            assert(all_accessor_entries(post) == all_accessor_entries(pre) + fs.lombok_accessors@);
        }
        f = f + 1;
    }
    proof {
        assert(fv.take(f as int) =~= fv);
    }
    index
}

proof fn lemma_no_entry_empty(entries: Seq<AccessorEntry>, f: Seq<char>)
    requires
        !has_entry(entries, f),
    ensures
        accessors_for(entries, f) == Seq::<String>::empty(),
    decreases entries.len(),
{
    if entries.len() > 0 {
        assert(entries.last() == entries[entries.len() - 1]);
        assert(!has_entry(entries.drop_last(), f)) by {
            if has_entry(entries.drop_last(), f) {
                let w = choose|w: int| 0 <= w < entries.drop_last().len() && (#[trigger] entries.drop_last()[w]).0@ == f;
                assert(entries[w] == entries.drop_last()[w]);
            }
        }
        lemma_no_entry_empty(entries.drop_last(), f);
    }
}

/// The full build: assembly, cross-reference, then companion aliases.
pub fn build_index(files: Vec<FileSymbols>) -> (r: SymbolIndex)
    ensures
        r.wf(),
        exists|a: SymbolIndex, x: SymbolIndex|
            #![trigger assembled(files@, a), cross_referenced(a, x)]
            assembled(files@, a) && cross_referenced(a, x) && x.wf() && companion_aliased(x, r),
{
    let ghost fv = files@;
    let mut index = assemble_index(files);
    let ghost a = index;
    crate::xref::cross_reference(&mut index);
    let ghost x = index;
    crate::xref::register_companion_aliases(&mut index);
    assert(assembled(fv, a) && cross_referenced(a, x) && x.wf() && companion_aliased(x, index));
    index
}

} // verus!
