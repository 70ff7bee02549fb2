//! The whole-index pass that refines reference FQNs, and the aliases that
//! make companion members reachable without `.Companion.`.
use vstd::prelude::*;

use crate::index::{
    append_under, copy_occurrences, find_key, has_key, is_reference_kind, keys_unique, lemma_lookup_at, lookup,
    occurrences_under, Keyed, SymbolIndex, SymbolOccurrence,
};
use crate::resolve::{has_decl_fqn, opt_view, resolution, resolve_symbol_fqn, declares_fqn};
use crate::text::same_text;

verus! {

/// The FQN that cross-reference gives occurrence `o`, listed under name
/// `key`, when it changes it: `o` is a reference, its file is known, the
/// resolution order finds an FQN other than the current one, and the
/// current FQN is not already the FQN of a declaration of that name.
pub open spec fn refined_fqn(idx: SymbolIndex, key: Seq<char>, o: SymbolOccurrence) -> Option<
    Seq<char>,
> {
    if is_reference_kind(o.kind) {
        match lookup(idx.files@, o.file@) {
            Some(fi) => match resolution(key, fi, idx.named(key), idx.type_aliases@) {
                Some(f) => if opt_view(o.fqn) != Some(f) && !(o.fqn is Some && has_decl_fqn(
                    idx.named(key),
                    o.fqn->0@,
                )) {
                    Some(f)
                } else {
                    None
                },
                None => None,
            },
            None => None,
        }
    } else {
        None
    }
}

/// Same file and byte range.
pub open spec fn same_site(a: SymbolOccurrence, b: SymbolOccurrence) -> bool {
    a.file@ == b.file@ && a.byte_range == b.byte_range
}

/// `b` is `a` with FQN `f`.
pub open spec fn with_fqn(a: SymbolOccurrence, b: SymbolOccurrence, f: Seq<char>) -> bool {
    &&& b.fqn is Some
    &&& b.fqn->0@ == f
    &&& b.name == a.name
    &&& b.kind == a.kind
    &&& b.file == a.file
    &&& b.line == a.line
    &&& b.column == a.column
    &&& b.byte_range == a.byte_range
    &&& b.receiver_type == a.receiver_type
}

/// `b` is what cross-reference makes of `a`, listed under `key` in `idx`.
pub open spec fn refined(idx: SymbolIndex, key: Seq<char>, a: SymbolOccurrence, b: SymbolOccurrence) -> bool {
    match refined_fqn(idx, key, a) {
        Some(f) => with_fqn(a, b, f),
        None => b == a,
    }
}

/// An occurrence listed under name entry `e` at position `i`.
pub open spec fn occ_at(idx: SymbolIndex, e: int, i: int) -> SymbolOccurrence {
    idx.by_name@[e].value@[i]
}

pub open spec fn valid_pos(idx: SymbolIndex, e: int, i: int) -> bool {
    0 <= e < idx.by_name@.len() && 0 <= i < idx.by_name@[e].value@.len()
}

/// Whether cross-reference drops `x` from the list under FQN `k`: some
/// refined occurrence had FQN `k` and shares its site.
pub open spec fn dropped(idx: SymbolIndex, k: Seq<char>, x: SymbolOccurrence) -> bool {
    exists|e: int, i: int|
        #![trigger occ_at(idx, e, i)]
        valid_pos(idx, e, i) && refined_fqn(idx, idx.by_name@[e].key@, occ_at(idx, e, i)) is Some
            && occ_at(idx, e, i).fqn is Some && occ_at(idx, e, i).fqn->0@ == k && same_site(
            occ_at(idx, e, i),
            x,
        )
}

struct FqnUpdate {
    entry: usize,
    pos: usize,
    fqn: String,
}

spec fn before(e1: int, i1: int, e2: int, i2: int) -> bool {
    e1 < e2 || (e1 == e2 && i1 < i2)
}

/// Keeps the occurrences of `list` that do not share the site of `o`.
fn without_site(list: &Vec<SymbolOccurrence>, o: &SymbolOccurrence) -> (r: Vec<SymbolOccurrence>)
    ensures
        forall|x: SymbolOccurrence| #[trigger] r@.contains(x) <==> (list@.contains(x) && !same_site(*o, x)),
{
    let mut r: Vec<SymbolOccurrence> = Vec::new();
    let mut i: usize = 0;
    while i < list.len()
        invariant
            i <= list@.len(),
            forall|x: SymbolOccurrence|
                #[trigger] r@.contains(x) <==> (list@.take(i as int).contains(x) && !same_site(
                    *o,
                    x,
                )),
        decreases list@.len() - i,
    {
        let x = &list[i];
        let keep = !(same_text(x.file.as_str(), o.file.as_str()) && x.byte_range == o.byte_range);
        let ghost r0 = r@;
        let ghost pre = list@.take(i as int);
        let ghost post = list@.take(i + 1);
        assert(forall|x: SymbolOccurrence| #[trigger] r0.contains(x) <==> (pre.contains(x) && !same_site(*o, x)));
        if keep {
            r.push(x.duplicate());
        }
        proof {
            assert(post == pre.push(list@[i as int]));
            assert forall|y: SymbolOccurrence| #[trigger] r@.contains(y) <==> (post.contains(y)
                && !same_site(*o, y)) by {
                if r@.contains(y) {
                    let k = choose|k: int| 0 <= k < r@.len() && #[trigger] r@[k] == y;
                    if k < r0.len() {
                        assert(r0[k] == y);
                        assert(r0.contains(y));
                        assert(pre.contains(y));
                        let m = choose|m: int| 0 <= m < pre.len() && #[trigger] pre[m] == y;
                        assert(post[m] == y);
                    } else {
                        assert(post[i as int] == y);
                    }
                }
                if post.contains(y) && !same_site(*o, y) {
                    let m = choose|m: int| 0 <= m < post.len() && #[trigger] post[m] == y;
                    if m < i {
                        assert(pre[m] == y);
                        assert(r0.contains(y));
                        let k = choose|k: int| 0 <= k < r0.len() && #[trigger] r0[k] == y;
                        assert(r@[k] == y);
                    } else {
                        assert(r@[r@.len() - 1] == y);
                    }
                }
            }
        }
        i = i + 1;
    }
    assert(list@.take(list.len() as int) == list@);
    assert forall|x: SymbolOccurrence| #[trigger] r@.contains(x) <==> (list@.contains(x) && !same_site(*o, x)) by {
        assert(r@.contains(x) <==> (list@.take(i as int).contains(x) && !same_site(*o, x)));
    }
    r
}

spec fn old_fqn_of(idx: SymbolIndex, u: FqnUpdate) -> Option<String> {
    occ_at(idx, u.entry as int, u.pos as int).fqn
}

/// Soundness and order of the collected updates.
spec fn updates_sound(idx: SymbolIndex, ups: Seq<FqnUpdate>) -> bool {
    &&& forall|t: int|
        0 <= t < ups.len() ==> {
            let u = #[trigger] ups[t];
            &&& valid_pos(idx, u.entry as int, u.pos as int)
            &&& refined_fqn(
                idx,
                idx.by_name@[u.entry as int].key@,
                occ_at(idx, u.entry as int, u.pos as int),
            ) == Some(u.fqn@)
        }
    &&& forall|t1: int, t2: int|
        0 <= t1 < t2 < ups.len() ==> before(
            #[trigger] ups[t1].entry as int,
            ups[t1].pos as int,
            #[trigger] ups[t2].entry as int,
            ups[t2].pos as int,
        )
}

spec fn listed(ups: Seq<FqnUpdate>, e: int, i: int, upto: int) -> bool {
    exists|t: int| 0 <= t < upto && #[trigger] ups[t].entry == e && ups[t].pos == i
}

/// Collects, in index order, every occurrence whose FQN cross-reference
/// changes, with its new FQN.
fn collect_updates(index: &SymbolIndex) -> (ups: Vec<FqnUpdate>)
    requires
        index.wf(),
    ensures
        updates_sound(*index, ups@),
        forall|e: int, i: int|
            valid_pos(*index, e, i) && refined_fqn(
                *index,
                index.by_name@[e].key@,
                #[trigger] occ_at(*index, e, i),
            ) is Some ==> listed(ups@, e, i, ups@.len() as int),
{
    let mut ups: Vec<FqnUpdate> = Vec::new();
    let mut e: usize = 0;
    while e < index.by_name.len()
        invariant
            index.wf(),
            e <= index.by_name@.len(),
            updates_sound(*index, ups@),
            forall|t: int| 0 <= t < ups@.len() ==> (#[trigger] ups@[t]).entry < e,
            forall|e2: int, i: int|
                0 <= e2 < e && valid_pos(*index, e2, i) && refined_fqn(
                    *index,
                    index.by_name@[e2].key@,
                    #[trigger] occ_at(*index, e2, i),
                ) is Some ==> listed(ups@, e2, i, ups@.len() as int),
        decreases index.by_name@.len() - e,
    {
        let key = &index.by_name[e].key;
        let list = &index.by_name[e].value;
        proof {
            lemma_lookup_at(index.by_name@, e as int);
        }
        assert(index.named(key@) == list@);
        let mut i: usize = 0;
        while i < list.len()
            invariant
                index.wf(),
                e < index.by_name@.len(),
                key == &index.by_name@[e as int].key,
                list == &index.by_name@[e as int].value,
                index.named(key@) == list@,
                i <= list@.len(),
                updates_sound(*index, ups@),
                forall|t: int|
                    0 <= t < ups@.len() ==> before(
                        (#[trigger] ups@[t]).entry as int,
                        ups@[t].pos as int,
                        e as int,
                        i as int,
                    ),
                forall|e2: int, i2: int|
                    (0 <= e2 < e || (e2 == e && 0 <= i2 < i)) && valid_pos(*index, e2, i2)
                        && refined_fqn(
                        *index,
                        index.by_name@[e2].key@,
                        #[trigger] occ_at(*index, e2, i2),
                    ) is Some ==> listed(ups@, e2, i2, ups@.len() as int),
            decreases list@.len() - i,
        {
            let o = &list[i];
            let mut found: Option<String> = None;
            if o.kind.is_reference() {
                match find_key(&index.files, o.file.as_str()) {
                    Some(fj) => {
                        proof {
                            lemma_lookup_at(index.files@, fj as int);
                        }
                        let fi = &index.files[fj].value;
                        match resolve_symbol_fqn(key.as_str(), fi, list, &index.type_aliases) {
                            Some(f) => {
                                let differs = match &o.fqn {
                                    Some(c) => !same_text(c.as_str(), f.as_str()),
                                    None => true,
                                };
                                let current_valid = match &o.fqn {
                                    Some(c) => declares_fqn(list, c.as_str()),
                                    None => false,
                                };
                                if differs && !current_valid {
                                    found = Some(f);
                                }
                            },
                            None => {},
                        }
                    },
                    None => {},
                }
            }
            assert(occ_at(*index, e as int, i as int) == *o);
            assert(opt_view(found) == refined_fqn(*index, key@, *o));
            match found {
                Some(f) => {
                    let ghost before_ups = ups@;
                    ups.push(FqnUpdate { entry: e, pos: i, fqn: f });
                    proof {
                        assert forall|e2: int, i2: int|
                            (0 <= e2 < e || (e2 == e && 0 <= i2 < i + 1)) && valid_pos(
                                *index,
                                e2,
                                i2,
                            ) && refined_fqn(
                                *index,
                                index.by_name@[e2].key@,
                                #[trigger] occ_at(*index, e2, i2),
                            ) is Some implies listed(ups@, e2, i2, ups@.len() as int) by {
                            if e2 == e && i2 == i {
                                assert(ups@[before_ups.len() as int].entry == e2);
                            } else {
                                assert(listed(before_ups, e2, i2, before_ups.len() as int));
                                let t = choose|t: int|
                                    0 <= t < before_ups.len() && #[trigger] before_ups[t].entry
                                        == e2 && before_ups[t].pos == i2;
                                assert(ups@[t] == before_ups[t]);
                            }
                        }
                    }
                },
                None => {},
            }
            i = i + 1;
        }
        e = e + 1;
    }
    ups
}

/// Whether update `t` of `ups` drops `x` from the list under `k`.
spec fn drops(idx: SymbolIndex, ups: Seq<FqnUpdate>, upto: int, k: Seq<char>, x: SymbolOccurrence) -> bool {
    exists|t: int|
        0 <= t < upto && old_fqn_of(idx, #[trigger] ups[t]) is Some && old_fqn_of(idx, ups[t])->0@
            == k && same_site(occ_at(idx, ups[t].entry as int, ups[t].pos as int), x)
}

pub open spec fn same_shape(a: SymbolIndex, b: SymbolIndex) -> bool {
    &&& a.by_name@.len() == b.by_name@.len()
    &&& forall|e: int|
        0 <= e < a.by_name@.len() ==> (#[trigger] a.by_name@[e]).key == b.by_name@[e].key
            && a.by_name@[e].value@.len() == b.by_name@[e].value@.len()
    &&& a.files == b.files
    &&& a.type_aliases == b.type_aliases
    &&& a.lombok_accessors == b.lombok_accessors
}

/// Drops the old sites from the lists under the old FQNs and writes the new
/// FQNs into the name lists.
fn apply_renames(index: &mut SymbolIndex, ups: &Vec<FqnUpdate>, Ghost(idx0): Ghost<SymbolIndex>)
    requires
        *old(index) == idx0,
        idx0.wf(),
        updates_sound(idx0, ups@),
    ensures
        final(index).wf(),
        same_shape(*final(index), idx0),
        final(index).by_fqn@.len() == idx0.by_fqn@.len(),
        forall|j: int|
            0 <= j < idx0.by_fqn@.len() ==> (#[trigger] final(index).by_fqn@[j]).key
                == idx0.by_fqn@[j].key,
        forall|j: int, x: SymbolOccurrence|
            0 <= j < idx0.by_fqn@.len() ==> (#[trigger] final(index).by_fqn@[j].value@.contains(x)
                <==> (idx0.by_fqn@[j].value@.contains(x) && !drops(
                idx0,
                ups@,
                ups@.len() as int,
                idx0.by_fqn@[j].key@,
                x,
            ))),
        forall|e: int, i: int|
            valid_pos(idx0, e, i) ==> if listed(ups@, e, i, ups@.len() as int) {
                with_fqn(
                    occ_at(idx0, e, i),
                    #[trigger] occ_at(*final(index), e, i),
                    refined_fqn(idx0, idx0.by_name@[e].key@, occ_at(idx0, e, i))->0,
                )
            } else {
                occ_at(*final(index), e, i) == occ_at(idx0, e, i)
            },
{
    let mut t: usize = 0;
    while t < ups.len()
        invariant
            idx0.wf(),
            updates_sound(idx0, ups@),
            t <= ups@.len(),
            index.wf(),
            same_shape(*index, idx0),
            index.by_fqn@.len() == idx0.by_fqn@.len(),
            forall|j: int|
                0 <= j < idx0.by_fqn@.len() ==> (#[trigger] index.by_fqn@[j]).key == idx0.by_fqn@[j].key,
            forall|j: int, x: SymbolOccurrence|
                0 <= j < idx0.by_fqn@.len() ==> (#[trigger] index.by_fqn@[j].value@.contains(x) <==> (
                idx0.by_fqn@[j].value@.contains(x) && !drops(
                    idx0,
                    ups@,
                    t as int,
                    idx0.by_fqn@[j].key@,
                    x,
                ))),
            forall|e: int, i: int|
                valid_pos(idx0, e, i) ==> if listed(ups@, e, i, t as int) {
                    with_fqn(
                        occ_at(idx0, e, i),
                        #[trigger] occ_at(*index, e, i),
                        refined_fqn(idx0, idx0.by_name@[e].key@, occ_at(idx0, e, i))->0,
                    )
                } else {
                    occ_at(*index, e, i) == occ_at(idx0, e, i)
                },
        decreases ups@.len() - t,
    {
        let u = &ups[t];
        let ghost ue = u.entry as int;
        let ghost ui = u.pos as int;
        proof {
            assert(valid_pos(idx0, ue, ui));
            if listed(ups@, ue, ui, t as int) {
                let s = choose|s: int|
                    0 <= s < t && #[trigger] ups@[s].entry == ue && ups@[s].pos == ui;
                assert(before(ups@[s].entry as int, ups@[s].pos as int, ue, ui));
            }
            assert(!listed(ups@, ue, ui, t as int));
            assert(occ_at(*index, ue, ui) == occ_at(idx0, ue, ui));
        }
        let o = index.by_name[u.entry].value[u.pos].duplicate();
        assert(o == occ_at(idx0, ue, ui));
        let ghost mid = *index;
        match &o.fqn {
            Some(of) => {
                match find_key(&index.by_fqn, of.as_str()) {
                    Some(j) => {
                        let kept = without_site(&index.by_fqn[j].value, &o);
                        index.by_fqn[j].value = kept;
                    },
                    None => {},
                }
            },
            None => {},
        }
        let ghost mid2 = *index;
        index.by_name[u.entry].value[u.pos].fqn = Some(u.fqn.clone());
        proof {
            assert(index.by_fqn == mid2.by_fqn);
            assert forall|j: int, x: SymbolOccurrence|
                0 <= j < idx0.by_fqn@.len() implies (#[trigger] index.by_fqn@[j].value@.contains(x)
                <==> (idx0.by_fqn@[j].value@.contains(x) && !drops(
                idx0,
                ups@,
                t + 1,
                idx0.by_fqn@[j].key@,
                x,
            ))) by {
                let k = idx0.by_fqn@[j].key@;
                let hit = o.fqn is Some && o.fqn->0@ == k && same_site(o, x);
                assert(drops(idx0, ups@, t + 1, k, x) <==> (drops(idx0, ups@, t as int, k, x)
                    || hit)) by {
                    if drops(idx0, ups@, t + 1, k, x) {
                        let s = choose|s: int|
                            0 <= s < t + 1 && old_fqn_of(idx0, #[trigger] ups@[s]) is Some
                                && old_fqn_of(idx0, ups@[s])->0@ == k && same_site(
                                occ_at(idx0, ups@[s].entry as int, ups@[s].pos as int),
                                x,
                            );
                        if s == t {
                            assert(hit);
                        }
                    }
                    if hit {
                        assert(old_fqn_of(idx0, ups@[t as int]) == o.fqn);
                    }
                }
                if hit {
                    assert(mid.by_fqn@[j].key@ == k);
                }
            }
            assert forall|e: int, i: int|
                valid_pos(idx0, e, i) implies if listed(ups@, e, i, t + 1) {
                with_fqn(
                    occ_at(idx0, e, i),
                    #[trigger] occ_at(*index, e, i),
                    refined_fqn(idx0, idx0.by_name@[e].key@, occ_at(idx0, e, i))->0,
                )
            } else {
                occ_at(*index, e, i) == occ_at(idx0, e, i)
            } by {
                if e == ue && i == ui {
                    assert(ups@[t as int].entry == e);
                } else {
                    assert(occ_at(*index, e, i) == occ_at(mid, e, i));
                    if listed(ups@, e, i, t + 1) {
                        let s = choose|s: int|
                            0 <= s < t + 1 && #[trigger] ups@[s].entry == e && ups@[s].pos == i;
                        assert(s != t);
                        assert(listed(ups@, e, i, t as int));
                    }
                }
            }
        }
        t = t + 1;
    }
}

spec fn added(idx: SymbolIndex, ups: Seq<FqnUpdate>, upto: int, k: Seq<char>, x: SymbolOccurrence) -> bool {
    exists|t: int|
        0 <= t < upto && (#[trigger] ups[t]).fqn@ == k && x == occ_at(
            idx,
            ups[t].entry as int,
            ups[t].pos as int,
        )
}

/// Lists each renamed occurrence under its new FQN.
fn add_renamed(index: &mut SymbolIndex, ups: &Vec<FqnUpdate>, Ghost(mid): Ghost<SymbolIndex>)
    requires
        *old(index) == mid,
        mid.wf(),
        forall|t: int|
            0 <= t < ups@.len() ==> valid_pos(mid, (#[trigger] ups@[t]).entry as int, ups@[t].pos as int),
    ensures
        final(index).wf(),
        final(index).by_name == mid.by_name,
        final(index).files == mid.files,
        final(index).type_aliases == mid.type_aliases,
        final(index).lombok_accessors == mid.lombok_accessors,
        forall|k: Seq<char>, x: SymbolOccurrence|
            #[trigger] final(index).qualified(k).contains(x) <==> (mid.qualified(k).contains(x)
                || added(mid, ups@, ups@.len() as int, k, x)),
{
    let mut t: usize = 0;
    while t < ups.len()
        invariant
            t <= ups@.len(),
            index.wf(),
            index.by_name == mid.by_name,
            index.files == mid.files,
            index.type_aliases == mid.type_aliases,
            index.lombok_accessors == mid.lombok_accessors,
            forall|t2: int|
                0 <= t2 < ups@.len() ==> valid_pos(
                    mid,
                    (#[trigger] ups@[t2]).entry as int,
                    ups@[t2].pos as int,
                ),
            forall|k: Seq<char>, x: SymbolOccurrence|
                #[trigger] index.qualified(k).contains(x) <==> (mid.qualified(k).contains(x) || added(
                    mid,
                    ups@,
                    t as int,
                    k,
                    x,
                )),
        decreases ups@.len() - t,
    {
        let u = &ups[t];
        proof {
            assert(valid_pos(mid, ups@[t as int].entry as int, ups@[t as int].pos as int));
        }
        let o = index.by_name[u.entry].value[u.pos].duplicate();
        let ghost prev = *index;
        append_under(&mut index.by_fqn, u.fqn.as_str(), o);
        proof {
            assert forall|k: Seq<char>, x: SymbolOccurrence|
                #[trigger] index.qualified(k).contains(x) <==> (mid.qualified(k).contains(x)
                    || added(mid, ups@, t + 1, k, x)) by {
                assert(index.qualified(k) == if k == u.fqn@ {
                    prev.qualified(k).push(o)
                } else {
                    prev.qualified(k)
                });
                if k == u.fqn@ {
                    assert(prev.qualified(k).push(o).contains(x) <==> (prev.qualified(k).contains(x)
                        || x == o)) by {
                        let q = prev.qualified(k);
                        if q.push(o).contains(x) {
                            let m = choose|m: int| 0 <= m < q.len() + 1 && #[trigger] q.push(o)[m] == x;
                            if m < q.len() {
                                assert(q[m] == x);
                            }
                        }
                        if q.contains(x) {
                            let m = choose|m: int| 0 <= m < q.len() && #[trigger] q[m] == x;
                            assert(q.push(o)[m] == x);
                        }
                        if x == o {
                            assert(q.push(o)[q.len() as int] == x);
                        }
                    }
                }
                if added(mid, ups@, t + 1, k, x) && !added(mid, ups@, t as int, k, x) {
                    let s = choose|s: int|
                        0 <= s < t + 1 && (#[trigger] ups@[s]).fqn@ == k && x == occ_at(
                            mid,
                            ups@[s].entry as int,
                            ups@[s].pos as int,
                        );
                    assert(s == t);
                }
                if k == u.fqn@ && x == o {
                    assert(ups@[t as int].fqn@ == k);
                }
            }
        }
        t = t + 1;
    }
}

/// `after` is what cross-reference makes of `before`: same keys and list
/// lengths, every listed occurrence refined, and each FQN list holding what
/// it held less the dropped sites, plus the occurrences refined to it.
pub open spec fn cross_referenced(before: SymbolIndex, after: SymbolIndex) -> bool {
    &&& same_shape(after, before)
    &&& forall|e: int, i: int|
        valid_pos(before, e, i) ==> refined(
            before,
            before.by_name@[e].key@,
            occ_at(before, e, i),
            #[trigger] occ_at(after, e, i),
        )
    &&& forall|k: Seq<char>, x: SymbolOccurrence|
        #[trigger] after.qualified(k).contains(x) <==> ((before.qualified(k).contains(x) && !dropped(before, k, x))
            || exists|e: int, i: int|
            #![trigger occ_at(after, e, i)]
            valid_pos(before, e, i) && refined_fqn(before, before.by_name@[e].key@, occ_at(before, e, i))
                == Some(k) && x == occ_at(after, e, i))
}

/// Refines the FQN of every reference using the whole index: for each
/// reference whose resolution (explicit import, same-file declaration,
/// wildcard import, same package, implicit packages; then type aliases)
/// gives another FQN, and whose current FQN is not already a declared FQN
/// of that name, the name lists get the new FQN, the list under the old FQN
/// drops the occurrences at its site, and the list under the new FQN
/// receives it.
pub fn cross_reference(index: &mut SymbolIndex)
    requires
        old(index).wf(),
    ensures
        final(index).wf(),
        cross_referenced(*old(index), *final(index)),
{
    let ghost idx0 = *index;
    let ups = collect_updates(index);
    apply_renames(index, &ups, Ghost(idx0));
    let ghost mid = *index;
    proof {
        assert forall|t: int| 0 <= t < ups@.len() implies valid_pos(
            mid,
            (#[trigger] ups@[t]).entry as int,
            ups@[t].pos as int,
        ) by {
            assert(valid_pos(idx0, ups@[t].entry as int, ups@[t].pos as int));
        }
    }
    add_renamed(index, &ups, Ghost(mid));
    proof {
        assert forall|e: int, i: int| valid_pos(idx0, e, i) implies refined(
            idx0,
            idx0.by_name@[e].key@,
            occ_at(idx0, e, i),
            #[trigger] occ_at(*index, e, i),
        ) by {
            assert(occ_at(*index, e, i) == occ_at(mid, e, i));
            if refined_fqn(idx0, idx0.by_name@[e].key@, occ_at(idx0, e, i)) is Some {
                assert(listed(ups@, e, i, ups@.len() as int));
            } else if listed(ups@, e, i, ups@.len() as int) {
                let t = choose|t: int|
                    0 <= t < ups@.len() && #[trigger] ups@[t].entry == e && ups@[t].pos == i;
                assert(refined_fqn(idx0, idx0.by_name@[e].key@, occ_at(idx0, e, i)) == Some(
                    ups@[t].fqn@,
                ));
            }
        }
        assert forall|k: Seq<char>, x: SymbolOccurrence|
            #[trigger] index.qualified(k).contains(x) <==> ((idx0.qualified(k).contains(x)
                && !dropped(idx0, k, x)) || exists|e: int, i: int|
                #![trigger occ_at(*index, e, i)]
                valid_pos(idx0, e, i) && refined_fqn(idx0, idx0.by_name@[e].key@, occ_at(idx0, e, i))
                    == Some(k) && x == occ_at(*index, e, i)) by {
            // the list under k after the renames
            assert(mid.qualified(k).contains(x) <==> (idx0.qualified(k).contains(x) && !dropped(
                idx0,
                k,
                x,
            ))) by {
                assert(drops(idx0, ups@, ups@.len() as int, k, x) <==> dropped(idx0, k, x)) by {
                    if drops(idx0, ups@, ups@.len() as int, k, x) {
                        let t = choose|t: int|
                            0 <= t < ups@.len() && old_fqn_of(idx0, #[trigger] ups@[t]) is Some
                                && old_fqn_of(idx0, ups@[t])->0@ == k && same_site(
                                occ_at(idx0, ups@[t].entry as int, ups@[t].pos as int),
                                x,
                            );
                        let e = ups@[t].entry as int;
                        let i = ups@[t].pos as int;
                        assert(valid_pos(idx0, e, i));
                        assert(refined_fqn(idx0, idx0.by_name@[e].key@, occ_at(idx0, e, i)) is Some);
                    }
                    if dropped(idx0, k, x) {
                        let (e, i) = choose|e: int, i: int|
                            #![trigger occ_at(idx0, e, i)]
                            valid_pos(idx0, e, i) && refined_fqn(
                                idx0,
                                idx0.by_name@[e].key@,
                                occ_at(idx0, e, i),
                            ) is Some && occ_at(idx0, e, i).fqn is Some && occ_at(idx0, e, i).fqn->0@
                                == k && same_site(occ_at(idx0, e, i), x);
                        assert(listed(ups@, e, i, ups@.len() as int));
                        let t = choose|t: int|
                            0 <= t < ups@.len() && #[trigger] ups@[t].entry == e && ups@[t].pos == i;
                        assert(old_fqn_of(idx0, ups@[t]) == occ_at(idx0, e, i).fqn);
                    }
                }
                if has_key(idx0.by_fqn@, k) {
                    let j = choose|j: int| 0 <= j < idx0.by_fqn@.len() && idx0.by_fqn@[j].key@ == k;
                    lemma_lookup_at(idx0.by_fqn@, j);
                    assert(mid.by_fqn@[j].key@ == k);
                    lemma_lookup_at(mid.by_fqn@, j);
                    assert(mid.by_fqn@[j].value@.contains(x) <==> (idx0.by_fqn@[j].value@.contains(x)
                        && !drops(idx0, ups@, ups@.len() as int, k, x)));
                } else {
                    if has_key(mid.by_fqn@, k) {
                        let j = choose|j: int| 0 <= j < mid.by_fqn@.len() && mid.by_fqn@[j].key@ == k;
                        assert(idx0.by_fqn@[j].key@ == k);
                    }
                }
            }
            // the renamed occurrences under their new FQN
            assert(added(mid, ups@, ups@.len() as int, k, x) <==> exists|e: int, i: int|
                #![trigger occ_at(*index, e, i)]
                valid_pos(idx0, e, i) && refined_fqn(idx0, idx0.by_name@[e].key@, occ_at(idx0, e, i))
                    == Some(k) && x == occ_at(*index, e, i)) by {
                if added(mid, ups@, ups@.len() as int, k, x) {
                    let t = choose|t: int|
                        0 <= t < ups@.len() && (#[trigger] ups@[t]).fqn@ == k && x == occ_at(
                            mid,
                            ups@[t].entry as int,
                            ups@[t].pos as int,
                        );
                    let e = ups@[t].entry as int;
                    let i = ups@[t].pos as int;
                    assert(occ_at(*index, e, i) == occ_at(mid, e, i));
                    assert(valid_pos(idx0, e, i) && refined_fqn(
                        idx0,
                        idx0.by_name@[e].key@,
                        occ_at(idx0, e, i),
                    ) == Some(k) && x == occ_at(*index, e, i));
                }
                if exists|e: int, i: int|
                    #![trigger occ_at(*index, e, i)]
                    valid_pos(idx0, e, i) && refined_fqn(
                        idx0,
                        idx0.by_name@[e].key@,
                        occ_at(idx0, e, i),
                    ) == Some(k) && x == occ_at(*index, e, i) {
                    let (e, i) = choose|e: int, i: int|
                        #![trigger occ_at(*index, e, i)]
                        valid_pos(idx0, e, i) && refined_fqn(
                            idx0,
                            idx0.by_name@[e].key@,
                            occ_at(idx0, e, i),
                        ) == Some(k) && x == occ_at(*index, e, i);
                    assert(listed(ups@, e, i, ups@.len() as int));
                    let t = choose|t: int|
                        0 <= t < ups@.len() && #[trigger] ups@[t].entry == e && ups@[t].pos == i;
                    assert(occ_at(*index, e, i) == occ_at(mid, e, i));
                    assert(ups@[t].fqn@ == k);
                }
            }
        }
    }
}

/// `.Companion.`
pub open spec fn companion_marker() -> Seq<char> {
    seq!['.', 'C', 'o', 'm', 'p', 'a', 'n', 'i', 'o', 'n', '.']
}

/// Whether `s` holds `.Companion.` somewhere.
pub open spec fn holds_companion(s: Seq<char>) -> bool
    decreases s.len(),
{
    s.len() >= 11 && (s.take(11) == companion_marker() || holds_companion(s.skip(1)))
}

/// `s` with each `.Companion.` (left to right, without overlap) made `.`.
pub open spec fn collapse_companion(s: Seq<char>) -> Seq<char>
    decreases s.len(),
{
    if s.len() == 0 {
        s
    } else if s.len() >= 11 && s.take(11) == companion_marker() {
        seq!['.'] + collapse_companion(s.skip(11))
    } else {
        seq![s[0]] + collapse_companion(s.skip(1))
    }
}

fn marker_at(chars: &Vec<char>, i: usize) -> (r: bool)
    requires
        i <= chars.len(),
    ensures
        r == (chars@.skip(i as int).len() >= 11 && chars@.skip(i as int).take(11)
            == companion_marker()),
{
    if chars.len() - i < 11 {
        return false;
    }
    let m = ['.', 'C', 'o', 'm', 'p', 'a', 'n', 'i', 'o', 'n', '.'];
    assert(m@ == companion_marker());
    let mut k: usize = 0;
    while k < 11
        invariant
            k <= 11,
            i + 11 <= chars.len(),
            m@ == companion_marker(),
            forall|q: int| 0 <= q < k ==> chars@[i + q] == companion_marker()[q],
        decreases 11 - k,
    {
        if chars[i + k] != m[k] {
            assert(chars@.skip(i as int).take(11)[k as int] != companion_marker()[k as int]);
            return false;
        }
        k = k + 1;
    }
    assert(chars@.skip(i as int).take(11) =~= companion_marker());
    true
}

/// Whether `s` holds `.Companion.`.
pub fn has_companion(s: &str) -> (r: bool)
    ensures
        r == holds_companion(s@),
{
    let chars = crate::text::chars_of(s);
    let mut i: usize = 0;
    assert(chars@.skip(0) == chars@);
    while i < chars.len()
        invariant
            i <= chars@.len(),
            chars@ == s@,
            holds_companion(chars@) == holds_companion(chars@.skip(i as int)),
        decreases chars@.len() - i,
    {
        if marker_at(&chars, i) {
            assert(holds_companion(chars@.skip(i as int)));
            return true;
        }
        assert(chars@.skip(i as int).skip(1) == chars@.skip(i + 1));
        i = i + 1;
    }
    false
}

/// `s` with each `.Companion.` made `.`.
pub fn collapse_companion_of(s: &str) -> (r: String)
    ensures
        r@ == collapse_companion(s@),
{
    let chars = crate::text::chars_of(s);
    let mut out: Vec<char> = Vec::new();
    let mut i: usize = 0;
    assert(chars@.skip(0) == chars@);
    assert(out@ + collapse_companion(chars@) == collapse_companion(chars@));
    while i < chars.len()
        invariant
            i <= chars@.len(),
            collapse_companion(chars@) == out@ + collapse_companion(chars@.skip(i as int)),
        decreases chars@.len() - i,
    {
        let ghost rest = chars@.skip(i as int);
        if marker_at(&chars, i) {
            out.push('.');
            assert(rest.skip(11) == chars@.skip(i + 11));
            assert(collapse_companion(chars@) == out@ + collapse_companion(chars@.skip(i + 11)));
            i = i + 11;
        } else {
            let c = chars[i];
            out.push(c);
            assert(rest[0] == c);
            assert(rest.skip(1) == chars@.skip(i + 1));
            assert(collapse_companion(chars@) == out@ + collapse_companion(chars@.skip(i + 1)));
            i = i + 1;
        }
    }
    assert(chars@.skip(i as int).len() == 0);
    assert(out@ + chars@.skip(i as int) == out@);
    crate::text::string_of(&out, 0, out.len())
}

/// `x` is the companion alias of an occurrence listed in `idx` under some
/// FQN: `.Companion.` collapsed in its FQN, all else equal.
pub open spec fn companion_alias_of(idx: SymbolIndex, k: Seq<char>, x: SymbolOccurrence) -> bool {
    exists|k2: Seq<char>, i: int|
        #![trigger idx.qualified(k2)[i]]
        0 <= i < idx.qualified(k2).len() && idx.qualified(k2)[i].fqn is Some && holds_companion(
            idx.qualified(k2)[i].fqn->0@,
        ) && k == collapse_companion(idx.qualified(k2)[i].fqn->0@) && with_fqn(
            idx.qualified(k2)[i],
            x,
            k,
        )
}

spec fn alias_from_entry(idx: SymbolIndex, j: int, i: int, x: SymbolOccurrence) -> bool {
    let y = idx.by_fqn@[j].value@[i];
    y.fqn is Some && holds_companion(y.fqn->0@) && with_fqn(y, x, collapse_companion(y.fqn->0@))
}

spec fn sound_item(idx: SymbolIndex, x: SymbolOccurrence) -> bool {
    exists|j2: int, i2: int|
        0 <= j2 < idx.by_fqn@.len() && 0 <= i2 < idx.by_fqn@[j2].value@.len()
            && #[trigger] alias_from_entry(idx, j2, i2, x)
}

spec fn news_sound(idx: SymbolIndex, news: Seq<SymbolOccurrence>) -> bool {
    forall|t: int| 0 <= t < news.len() ==> #[trigger] sound_item(idx, news[t])
}

spec fn needs_alias(idx: SymbolIndex, j: int, i: int) -> bool {
    let y = idx.by_fqn@[j].value@[i];
    y.fqn is Some && holds_companion(y.fqn->0@)
}

/// `after` is what companion aliasing makes of `before`: the name lists and
/// other maps unchanged; each FQN list extended (its old contents a
/// prefix) only by companion aliases; and an alias for each listed
/// occurrence whose FQN holds `.Companion.`.
pub open spec fn companion_aliased(before: SymbolIndex, after: SymbolIndex) -> bool {
    &&& after.by_name == before.by_name
    &&& after.files == before.files
    &&& after.type_aliases == before.type_aliases
    &&& after.lombok_accessors == before.lombok_accessors
    &&& forall|k: Seq<char>|
        #![trigger after.qualified(k)]
        before.qualified(k).len() <= after.qualified(k).len() && after.qualified(k).take(
            before.qualified(k).len() as int,
        ) == before.qualified(k)
    &&& forall|k: Seq<char>, x: SymbolOccurrence|
        #[trigger] before.qualified(k).contains(x) ==> after.qualified(k).contains(x)
    &&& forall|k: Seq<char>, x: SymbolOccurrence|
        #[trigger] after.qualified(k).contains(x) ==> (before.qualified(k).contains(x) || companion_alias_of(
            before,
            k,
            x,
        ))
    &&& forall|k2: Seq<char>, i: int|
        0 <= i < before.qualified(k2).len() && (#[trigger] before.qualified(k2)[i]).fqn is Some && holds_companion(
            before.qualified(k2)[i].fqn->0@,
        ) ==> exists|x: SymbolOccurrence|
            #[trigger] after.qualified(collapse_companion(before.qualified(k2)[i].fqn->0@)).contains(x) && with_fqn(
                before.qualified(k2)[i],
                x,
                collapse_companion(before.qualified(k2)[i].fqn->0@),
            )
}

/// For every occurrence listed under an FQN holding `.Companion.`, lists a
/// copy under the FQN with `.Companion.` collapsed to `.`, so that
/// `Owner.member` finds companion members. Nothing is removed, and every
/// added occurrence is such a copy.
pub fn register_companion_aliases(index: &mut SymbolIndex)
    requires
        old(index).wf(),
    ensures
        final(index).wf(),
        companion_aliased(*old(index), *final(index)),
{
    let ghost idx0 = *index;
    let mut news: Vec<SymbolOccurrence> = Vec::new();
    let mut j: usize = 0;
    while j < index.by_fqn.len()
        invariant
            *index == idx0,
            idx0.wf(),
            j <= idx0.by_fqn@.len(),
            news_sound(idx0, news@),
            forall|j2: int, i2: int|
                0 <= j2 < j && 0 <= i2 < idx0.by_fqn@[j2].value@.len() && #[trigger] needs_alias(
                    idx0,
                    j2,
                    i2,
                ) ==> exists|t: int| 0 <= t < news@.len() && alias_from_entry(idx0, j2, i2, #[trigger] news@[t]),
        decreases idx0.by_fqn@.len() - j,
    {
        let list = &index.by_fqn[j].value;
        let mut i: usize = 0;
        while i < list.len()
            invariant
                *index == idx0,
                idx0.wf(),
                j < idx0.by_fqn@.len(),
                list == &idx0.by_fqn@[j as int].value,
                i <= list@.len(),
                news_sound(idx0, news@),
                forall|j2: int, i2: int|
                    ((0 <= j2 < j && 0 <= i2 < idx0.by_fqn@[j2].value@.len()) || (j2 == j && 0 <= i2
                        < i)) && #[trigger] needs_alias(idx0, j2, i2) ==> exists|t: int|
                        0 <= t < news@.len() && alias_from_entry(idx0, j2, i2, #[trigger] news@[t]),
            decreases list@.len() - i,
        {
            let y = &list[i];
            let ghost before = news@;
            match &y.fqn {
                Some(f) => {
                    if has_companion(f.as_str()) {
                        let alias = collapse_companion_of(f.as_str());
                        let mut a = y.duplicate();
                        a.fqn = Some(alias);
                        news.push(a);
                        proof {
                            assert(alias_from_entry(idx0, j as int, i as int, a));
                            assert(news@ == before.push(a));
                            assert(news@[news@.len() - 1] == a);
                            assert(sound_item(idx0, a));
                            assert forall|t: int| 0 <= t < news@.len() implies #[trigger] sound_item(idx0, news@[t]) by {
                                if t < before.len() {
                                    assert(news@[t] == before[t]);
                                }
                            }
                            assert(news_sound(idx0, news@));
                        }
                    }
                },
                None => {},
            }
            proof {
                assert forall|j2: int, i2: int|
                    ((0 <= j2 < j && 0 <= i2 < idx0.by_fqn@[j2].value@.len()) || (j2 == j && 0 <= i2
                        < i + 1)) && #[trigger] needs_alias(idx0, j2, i2) implies exists|t: int|
                    0 <= t < news@.len() && alias_from_entry(idx0, j2, i2, #[trigger] news@[t]) by {
                    if j2 == j && i2 == i {
                        assert(alias_from_entry(idx0, j2, i2, news@[news@.len() - 1]));
                    } else {
                        let t = choose|t: int|
                            0 <= t < before.len() && alias_from_entry(idx0, j2, i2, #[trigger] before[t]);
                        assert(news@[t] == before[t]);
                    }
                }
            }
            i = i + 1;
        }
        j = j + 1;
    }
    let mut t: usize = 0;
    while t < news.len()
        invariant
            t <= news@.len(),
            index.wf(),
            index.by_name == idx0.by_name,
            index.files == idx0.files,
            index.type_aliases == idx0.type_aliases,
            index.lombok_accessors == idx0.lombok_accessors,
            news_sound(idx0, news@),
            forall|k: Seq<char>, x: SymbolOccurrence|
                #[trigger] index.qualified(k).contains(x) <==> (idx0.qualified(k).contains(x) || exists|q: int|
                    0 <= q < t && #[trigger] news@[q] == x && x.fqn is Some && x.fqn->0@ == k),
            forall|k: Seq<char>|
                #![trigger index.qualified(k)]
                idx0.qualified(k).len() <= index.qualified(k).len() && index.qualified(k).take(
                    idx0.qualified(k).len() as int,
                ) == idx0.qualified(k),
        decreases news@.len() - t,
    {
        let o = news[t].duplicate();
        let ghost prev = *index;
        proof {
            assert(sound_item(idx0, news@[t as int]));
            let (j2, i2) = choose|j2: int, i2: int|
                0 <= j2 < idx0.by_fqn@.len() && 0 <= i2 < idx0.by_fqn@[j2].value@.len()
                    && #[trigger] alias_from_entry(idx0, j2, i2, news@[t as int]);
            assert(news@[t as int].fqn is Some);
        }
        match &news[t].fqn {
            Some(f) => {
                let key = f.clone();
                append_under(&mut index.by_fqn, key.as_str(), o);
                proof {
                    assert forall|k: Seq<char>|
                        #![trigger index.qualified(k)]
                        idx0.qualified(k).len() <= index.qualified(k).len() && index.qualified(k).take(
                            idx0.qualified(k).len() as int,
                        ) == idx0.qualified(k) by {
                        let p = prev.qualified(k);
                        let o0 = idx0.qualified(k);
                        assert(o0.len() <= p.len() && p.take(o0.len() as int) == o0);
                        if k == key@ {
                            assert(index.qualified(k) == p.push(o));
                            assert(p.push(o).take(o0.len() as int) =~= p.take(o0.len() as int));
                        }
                    }
                    assert forall|k: Seq<char>, x: SymbolOccurrence|
                        #[trigger] index.qualified(k).contains(x) <==> (idx0.qualified(k).contains(x)
                            || exists|q: int|
                            0 <= q < t + 1 && #[trigger] news@[q] == x && x.fqn is Some && x.fqn->0@ == k) by {
                        let p = prev.qualified(k);
                        if k == key@ {
                            assert(index.qualified(k) == p.push(o));
                            if p.push(o).contains(x) {
                                let m = choose|m: int| 0 <= m < p.len() + 1 && #[trigger] p.push(o)[m] == x;
                                if m < p.len() {
                                    assert(p[m] == x);
                                }
                            }
                            if p.contains(x) {
                                let m = choose|m: int| 0 <= m < p.len() && #[trigger] p[m] == x;
                                assert(p.push(o)[m] == x);
                            }
                            if x == o {
                                assert(p.push(o)[p.len() as int] == x);
                            }
                        }
                        if exists|q: int| 0 <= q < t + 1 && #[trigger] news@[q] == x && x.fqn is Some && x.fqn->0@ == k {
                            let q = choose|q: int|
                                0 <= q < t + 1 && #[trigger] news@[q] == x && x.fqn is Some && x.fqn->0@ == k;
                            if q == t {
                                assert(x == o);
                            }
                        }
                    }
                }
            },
            None => {
                assert(false);
            },
        }
        t = t + 1;
    }
    proof {
        assert forall|k: Seq<char>, x: SymbolOccurrence|
            #[trigger] index.qualified(k).contains(x) implies (idx0.qualified(k).contains(x)
                || companion_alias_of(idx0, k, x)) by {
            if !idx0.qualified(k).contains(x) {
                let q = choose|q: int|
                    0 <= q < t && #[trigger] news@[q] == x && x.fqn is Some && x.fqn->0@ == k;
                assert(sound_item(idx0, news@[q]));
                let (j2, i2) = choose|j2: int, i2: int|
                    0 <= j2 < idx0.by_fqn@.len() && 0 <= i2 < idx0.by_fqn@[j2].value@.len()
                        && #[trigger] alias_from_entry(idx0, j2, i2, news@[q]);
                lemma_lookup_at(idx0.by_fqn@, j2);
                let k2 = idx0.by_fqn@[j2].key@;
                assert(idx0.qualified(k2)[i2] == idx0.by_fqn@[j2].value@[i2]);
            }
        }
        assert forall|k2: Seq<char>, i: int|
            0 <= i < idx0.qualified(k2).len() && (#[trigger] idx0.qualified(k2)[i]).fqn is Some
                && holds_companion(idx0.qualified(k2)[i].fqn->0@) implies exists|x: SymbolOccurrence|
            #[trigger] index.qualified(collapse_companion(idx0.qualified(k2)[i].fqn->0@)).contains(x)
                && with_fqn(
                idx0.qualified(k2)[i],
                x,
                collapse_companion(idx0.qualified(k2)[i].fqn->0@),
            ) by {
            assert(has_key(idx0.by_fqn@, k2));
            let j2 = choose|j2: int| 0 <= j2 < idx0.by_fqn@.len() && idx0.by_fqn@[j2].key@ == k2;
            lemma_lookup_at(idx0.by_fqn@, j2);
            assert(needs_alias(idx0, j2, i));
            let q = choose|q: int| 0 <= q < news@.len() && alias_from_entry(idx0, j2, i, #[trigger] news@[q]);
            let x = news@[q];
            assert(index.qualified(collapse_companion(idx0.qualified(k2)[i].fqn->0@)).contains(x));
        }
    }
}

} // verus!
