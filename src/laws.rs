//! Properties that relate the index to its queries.
use vstd::prelude::*;

use crate::index::{has_key, is_declaration_kind, is_reference_kind, lemma_lookup_at, SymbolIndex, SymbolOccurrence};
use crate::query::{decl_in, definition_hint, definition_source, has_site_of, kept, usage_hint, usage_of};
use crate::text::has_dot;
use crate::xref::{
    companion_alias_of, dropped, occ_at, refined, refined_fqn, same_shape, same_site, valid_pos, with_fqn,
};

verus! {

/// A declaration listed under its name is found by a definition query for
/// its FQN (a dotted FQN, or one equal to the name), in a consistent index.
pub proof fn law_definition_finds_declaration(idx: SymbolIndex, d: SymbolOccurrence)
    requires
        idx.wf(),
        idx.consistent(),
        idx.named(d.name@).contains(d),
        is_declaration_kind(d.kind),
        d.fqn is Some,
        has_dot(d.fqn->0@) || d.fqn->0@ == d.name@,
    ensures
        decl_in(
            definition_source(idx, d.fqn->0@, definition_hint(idx, d.fqn->0@, None, None)),
            d,
        ),
{
    let f = d.fqn->0@;
    let i = choose|i: int| 0 <= i < idx.named(d.name@).len() && idx.named(d.name@)[i] == d;
    assert(idx.named(d.name@)[i] == d);
    if has_dot(f) {
        assert(idx.qualified(f).contains(d));
        assert(decl_in(idx.qualified(f), d));
    }
}

/// A reference listed under its name, with a dotted FQN, is found by a
/// usage query for that FQN, in a consistent index.
pub proof fn law_usages_find_reference(idx: SymbolIndex, r: SymbolOccurrence, include_imports: bool)
    requires
        idx.wf(),
        idx.consistent(),
        idx.named(r.name@).contains(r),
        is_reference_kind(r.kind),
        r.fqn is Some,
        has_dot(r.fqn->0@),
    ensures
        usage_hint(idx, r.fqn->0@, None, None) == Some(r.fqn->0@),
        usage_of(idx, r.fqn->0@, include_imports, r),
{
    let i = choose|i: int| 0 <= i < idx.named(r.name@).len() && idx.named(r.name@)[i] == r;
    assert(idx.named(r.name@)[i] == r);
    assert(idx.qualified(r.fqn->0@).contains(r));
    assert(kept(r, include_imports));
}

/// Companion aliases keep the index consistent: what they add is listed
/// under its own FQN, and nothing listed before goes away.
pub proof fn law_companion_aliases_keep_consistency(before: SymbolIndex, after: SymbolIndex)
    requires
        before.consistent(),
        after.by_name == before.by_name,
        forall|k: Seq<char>, x: SymbolOccurrence|
            #[trigger] before.qualified(k).contains(x) ==> after.qualified(k).contains(x),
        forall|k: Seq<char>, x: SymbolOccurrence|
            #[trigger] after.qualified(k).contains(x) ==> (before.qualified(k).contains(x)
                || companion_alias_of(before, k, x)),
    ensures
        after.consistent(),
{
    assert forall|k: Seq<char>, i: int| 0 <= i < after.named(k).len() implies {
        let o = #[trigger] after.named(k)[i];
        &&& o.name@ == k
        &&& o.fqn is Some ==> after.qualified(o.fqn->0@).contains(o)
    } by {
        let o = after.named(k)[i];
        assert(before.named(k)[i] == o);
        if o.fqn is Some {
            assert(before.qualified(o.fqn->0@).contains(o));
        }
    }
    assert forall|k: Seq<char>, i: int| 0 <= i < after.qualified(k).len() implies {
        let o = #[trigger] after.qualified(k)[i];
        o.fqn is Some && o.fqn->0@ == k
    } by {
        let o = after.qualified(k)[i];
        assert(after.qualified(k).contains(o));
        if before.qualified(k).contains(o) {
            let m = choose|m: int| 0 <= m < before.qualified(k).len() && before.qualified(k)[m] == o;
            assert(before.qualified(k)[m] == o);
        } else {
            assert(companion_alias_of(before, k, o));
            let (k2, j) = choose|k2: Seq<char>, j: int|
                #![trigger before.qualified(k2)[j]]
                0 <= j < before.qualified(k2).len() && before.qualified(k2)[j].fqn is Some
                    && crate::xref::holds_companion(before.qualified(k2)[j].fqn->0@) && k
                    == crate::xref::collapse_companion(before.qualified(k2)[j].fqn->0@) && with_fqn(
                    before.qualified(k2)[j],
                    o,
                    k,
                );
        }
    }
}

/// No two different occurrences listed under names share a site and an FQN.
pub open spec fn sites_unique(idx: SymbolIndex) -> bool {
    forall|e1: int, i1: int, e2: int, i2: int|
        #![trigger occ_at(idx, e1, i1), occ_at(idx, e2, i2)]
        valid_pos(idx, e1, i1) && valid_pos(idx, e2, i2) && same_site(occ_at(idx, e1, i1), occ_at(idx, e2, i2))
            && occ_at(idx, e1, i1).fqn is Some && occ_at(idx, e2, i2).fqn is Some && occ_at(idx, e1, i1).fqn->0@
            == occ_at(idx, e2, i2).fqn->0@ ==> occ_at(idx, e1, i1) == occ_at(idx, e2, i2)
}

proof fn lemma_named_at(idx: SymbolIndex, e: int, i: int)
    requires
        idx.wf(),
        valid_pos(idx, e, i),
    ensures
        idx.named(idx.by_name@[e].key@).len() == idx.by_name@[e].value@.len(),
        idx.named(idx.by_name@[e].key@)[i] == occ_at(idx, e, i),
{
    lemma_lookup_at(idx.by_name@, e);
}

/// Cross-reference keeps the index consistent when no two different
/// occurrences share a site and an FQN: every occurrence stays listed under
/// its name and its (new) FQN.
pub proof fn law_cross_reference_keeps_consistency(before: SymbolIndex, after: SymbolIndex)
    requires
        before.wf(),
        before.consistent(),
        sites_unique(before),
        after.wf(),
        same_shape(after, before),
        forall|e: int, i: int|
            valid_pos(before, e, i) ==> refined(
                before,
                before.by_name@[e].key@,
                occ_at(before, e, i),
                #[trigger] occ_at(after, e, i),
            ),
        forall|k: Seq<char>, x: SymbolOccurrence|
            #[trigger] after.qualified(k).contains(x) <==> ((before.qualified(k).contains(x) && !dropped(
                before,
                k,
                x,
            )) || exists|e: int, i: int|
                #![trigger occ_at(after, e, i)]
                valid_pos(before, e, i) && refined_fqn(before, before.by_name@[e].key@, occ_at(before, e, i))
                    == Some(k) && x == occ_at(after, e, i)),
    ensures
        after.consistent(),
{
    assert forall|k: Seq<char>, i: int| 0 <= i < after.named(k).len() implies {
        let o = #[trigger] after.named(k)[i];
        &&& o.name@ == k
        &&& o.fqn is Some ==> after.qualified(o.fqn->0@).contains(o)
    } by {
        let o = after.named(k)[i];
        assert(has_key(after.by_name@, k));
        let e = choose|e: int| 0 <= e < after.by_name@.len() && after.by_name@[e].key@ == k;
        lemma_named_at(after, e, i);
        assert(valid_pos(before, e, i));
        lemma_named_at(before, e, i);
        let b = occ_at(before, e, i);
        assert(before.named(k)[i] == b);
        assert(b.name@ == k);
        match refined_fqn(before, k, b) {
            Some(f) => {
                assert(with_fqn(b, o, f));
                assert(after.qualified(f).contains(o));
            },
            None => {
                assert(o == b);
                if o.fqn is Some {
                    let g = o.fqn->0@;
                    assert(before.qualified(g).contains(o));
                    if dropped(before, g, o) {
                        let (e2, i2) = choose|e2: int, i2: int|
                            #![trigger occ_at(before, e2, i2)]
                            valid_pos(before, e2, i2) && refined_fqn(
                                before,
                                before.by_name@[e2].key@,
                                occ_at(before, e2, i2),
                            ) is Some && occ_at(before, e2, i2).fqn is Some && occ_at(before, e2, i2).fqn->0@
                                == g && same_site(occ_at(before, e2, i2), o);
                        assert(occ_at(before, e2, i2) == occ_at(before, e, i));
                        lemma_named_at(before, e2, i2);
                        assert(before.by_name@[e2].key@ == occ_at(before, e2, i2).name@) by {
                            assert(before.named(before.by_name@[e2].key@)[i2] == occ_at(before, e2, i2));
                        }
                    }
                    assert(after.qualified(g).contains(o));
                }
            },
        }
    }
    assert forall|k: Seq<char>, i: int| 0 <= i < after.qualified(k).len() implies {
        let o = #[trigger] after.qualified(k)[i];
        o.fqn is Some && o.fqn->0@ == k
    } by {
        let o = after.qualified(k)[i];
        assert(after.qualified(k).contains(o));
        if before.qualified(k).contains(o) && !dropped(before, k, o) {
            let m = choose|m: int| 0 <= m < before.qualified(k).len() && before.qualified(k)[m] == o;
            assert(before.qualified(k)[m] == o);
        } else {
            let (e, j) = choose|e: int, j: int|
                #![trigger occ_at(after, e, j)]
                valid_pos(before, e, j) && refined_fqn(before, before.by_name@[e].key@, occ_at(before, e, j))
                    == Some(k) && o == occ_at(after, e, j);
            assert(with_fqn(occ_at(before, e, j), o, k));
        }
    }
}

/// Every occurrence with an FQN under a name has one at its site under
/// that FQN, and every occurrence under an FQN has one at its site under its
/// name.
pub open spec fn lockstep(idx: SymbolIndex) -> bool {
    &&& forall|k: Seq<char>, i: int|
        0 <= i < idx.named(k).len() && (#[trigger] idx.named(k)[i]).fqn is Some ==> has_site_of(
            idx.qualified(idx.named(k)[i].fqn->0@),
            idx.named(k)[i],
        )
    &&& forall|k: Seq<char>, i: int|
        0 <= i < idx.qualified(k).len() ==> has_site_of(
            idx.named((#[trigger] idx.qualified(k)[i]).name@),
            idx.qualified(k)[i],
        )
}

proof fn lemma_site_in_push(s: Seq<SymbolOccurrence>, o: SymbolOccurrence, x: SymbolOccurrence)
    ensures
        has_site_of(s, x) ==> has_site_of(s.push(o), x),
        same_site(o, x) ==> has_site_of(s.push(o), x),
{
    if has_site_of(s, x) {
        let k = choose|k: int| 0 <= k < s.len() && same_site(#[trigger] s[k], x);
        assert(s.push(o)[k] == s[k]);
    }
    if same_site(o, x) {
        assert(s.push(o)[s.len() as int] == o);
    }
}

/// Adding an occurrence keeps names and FQNs in lockstep, and lists the
/// occurrence under its name and, with an FQN, under that FQN.
pub proof fn law_add_occurrence_keeps_lockstep(before: SymbolIndex, after: SymbolIndex, occ: SymbolOccurrence)
    requires
        lockstep(before),
        forall|k: Seq<char>|
            #![trigger after.named(k)]
            after.named(k) == if k == occ.name@ {
                before.named(k).push(occ)
            } else {
                before.named(k)
            },
        forall|k: Seq<char>|
            #![trigger after.qualified(k)]
            after.qualified(k) == if occ.fqn is Some && k == occ.fqn->0@ {
                before.qualified(k).push(occ)
            } else {
                before.qualified(k)
            },
    ensures
        lockstep(after),
        after.named(occ.name@).contains(occ),
        occ.fqn is Some ==> after.qualified(occ.fqn->0@).contains(occ),
{
    assert(after.named(occ.name@)[before.named(occ.name@).len() as int] == occ);
    if occ.fqn is Some {
        assert(after.qualified(occ.fqn->0@)[before.qualified(occ.fqn->0@).len() as int] == occ);
    }
    assert forall|k: Seq<char>, i: int|
        0 <= i < after.named(k).len() && (#[trigger] after.named(k)[i]).fqn is Some implies has_site_of(
            after.qualified(after.named(k)[i].fqn->0@),
            after.named(k)[i],
        ) by {
        let o = after.named(k)[i];
        let f = o.fqn->0@;
        let q0 = before.qualified(f);
        if k == occ.name@ && i == before.named(k).len() {
            assert(o == occ);
            lemma_site_in_push(q0, occ, o);
        } else {
            assert(before.named(k)[i] == o);
            assert(has_site_of(q0, o));
            lemma_site_in_push(q0, occ, o);
        }
    }
    assert forall|k: Seq<char>, i: int| 0 <= i < after.qualified(k).len() implies has_site_of(
        after.named((#[trigger] after.qualified(k)[i]).name@),
        after.qualified(k)[i],
    ) by {
        let o = after.qualified(k)[i];
        let n0 = before.named(o.name@);
        if occ.fqn is Some && k == occ.fqn->0@ && i == before.qualified(k).len() {
            assert(o == occ);
            lemma_site_in_push(n0, occ, o);
        } else {
            assert(before.qualified(k)[i] == o);
            assert(has_site_of(n0, o));
            lemma_site_in_push(n0, occ, o);
        }
    }
}

/// A declaration listed under a dotted FQN is found by a definition query
/// for that FQN.
pub proof fn law_definition_finds_listed_declaration(idx: SymbolIndex, d: SymbolOccurrence, f: Seq<char>)
    requires
        idx.qualified(f).contains(d),
        is_declaration_kind(d.kind),
        has_dot(f),
    ensures
        decl_in(definition_source(idx, f, definition_hint(idx, f, None, None)), d),
{
    assert(decl_in(idx.qualified(f), d));
}

} // verus!
