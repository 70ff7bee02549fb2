//! Name resolution: the same-file first guess made during extraction, the
//! type-alias walk, and the whole-index resolution order used by
//! cross-reference.
use vstd::prelude::*;
use vstd::set_lib::*;

use crate::index::{
    find_key, has_key, is_declaration_kind, keys_unique, lemma_lookup_at, lookup, FileInfo, ImportInfo,
    Keyed, SymbolOccurrence,
};
use crate::text::{dotted, join_dotted, last_segment, last_segment_of, same_text};

verus! {

/// Whether a non-wildcard import binds simple name `name` (its alias, or
/// the last segment of its path).
pub open spec fn binds(imp: ImportInfo, name: Seq<char>) -> bool {
    &&& !imp.is_wildcard
    &&& match imp.alias {
        Some(a) => a@ == name,
        None => last_segment(imp.path@) == name,
    }
}

/// The path of the first import that binds `name`.
pub open spec fn explicit_import(imports: Seq<ImportInfo>, name: Seq<char>) -> Option<Seq<char>>
    decreases imports.len(),
{
    if imports.len() == 0 {
        None
    } else {
        match explicit_import(imports.drop_last(), name) {
            Some(p) => Some(p),
            None => if binds(imports.last(), name) {
                Some(imports.last().path@)
            } else {
                None
            },
        }
    }
}

/// The first guess for a reference: an explicit import of the name, else
/// the same package.
pub open spec fn first_guess(name: Seq<char>, package: Option<Seq<char>>, imports: Seq<ImportInfo>) -> Option<
    Seq<char>,
> {
    match explicit_import(imports, name) {
        Some(p) => Some(p),
        None => match package {
            Some(p) => Some(dotted(p, name)),
            None => None,
        },
    }
}

pub open spec fn opt_view(s: Option<String>) -> Option<Seq<char>> {
    match s {
        Some(x) => Some(x@),
        None => None,
    }
}

/// The path of the first import among `imports` that binds `name`.
pub fn find_explicit_import(imports: &Vec<ImportInfo>, name: &str) -> (r: Option<String>)
    ensures
        opt_view(r) == explicit_import(imports@, name@),
{
    let mut i: usize = 0;
    while i < imports.len()
        invariant
            i <= imports@.len(),
            explicit_import(imports@.take(i as int), name@) is None,
        decreases imports@.len() - i,
    {
        let imp = &imports[i];
        assert(imports@.take(i + 1).drop_last() == imports@.take(i as int));
        if !imp.is_wildcard {
            let bound = match &imp.alias {
                Some(a) => a.clone(),
                None => last_segment_of(imp.path.as_str()),
            };
            if same_text(bound.as_str(), name) {
                proof {
                    lemma_explicit_extends(imports@, i as int + 1, name@);
                }
                return Some(imp.path.clone());
            }
        }
        i = i + 1;
    }
    assert(imports@.take(i as int) == imports@);
    None
}

/// Once a prefix has a binding import, every longer prefix has the same.
pub proof fn lemma_explicit_extends(imports: Seq<ImportInfo>, i: int, name: Seq<char>)
    requires
        0 <= i <= imports.len(),
    ensures
        explicit_import(imports.take(i), name) is Some ==> explicit_import(imports, name)
            == explicit_import(imports.take(i), name),
    decreases imports.len() - i,
{
    if i < imports.len() {
        lemma_explicit_extends(imports, i + 1, name);
        assert(imports.take(i + 1).drop_last() == imports.take(i));
    } else {
        assert(imports.take(i) == imports);
    }
}

/// Best-effort FQN for a reference named `name` in a file with `package`
/// and `imports`: the path of an explicit import that binds the name, else
/// `package.name`, else none.
pub fn resolve_reference(name: &str, package: Option<&str>, imports: &Vec<ImportInfo>) -> (r: Option<
    String,
>)
    ensures
        opt_view(r) == first_guess(
            name@,
            match package {
                Some(p) => Some(p@),
                None => None,
            },
            imports@,
        ),
{
    match find_explicit_import(imports, name) {
        Some(p) => Some(p),
        None => match package {
            Some(p) => Some(join_dotted(p, name)),
            None => None,
        },
    }
}

/// The type-alias walk: from `cur`, follow alias edges while the current
/// name is an alias not yet visited, for at most `fuel` hops.
pub open spec fn chase(aliases: Seq<Keyed<String>>, cur: Seq<char>, seen: Seq<Seq<char>>, fuel: nat) -> Seq<
    char,
>
    decreases fuel,
{
    if fuel == 0 {
        cur
    } else {
        match lookup(aliases, cur) {
            Some(t) => if seen.contains(cur) {
                cur
            } else {
                chase(aliases, t@, seen.push(cur), (fuel - 1) as nat)
            },
            None => cur,
        }
    }
}

/// Where the alias walk from `fqn` ends. Every walk ends within as many hops
/// as there are aliases: with that many hops allowed, no walk is cut short.
pub open spec fn alias_target(aliases: Seq<Keyed<String>>, fqn: Seq<char>) -> Seq<char> {
    chase(aliases, fqn, seq![], aliases.len())
}

proof fn lemma_seen_bound(aliases: Seq<Keyed<String>>, seen: Seq<Seq<char>>)
    requires
        keys_unique(aliases),
        seen.no_duplicates(),
        forall|k: int| 0 <= k < seen.len() ==> has_key(aliases, #[trigger] seen[k]),
    ensures
        seen.len() <= aliases.len(),
{
    let keys = aliases.map_values(|e: Keyed<String>| e.key@);
    seen.unique_seq_to_set();
    assert(seen.to_set().subset_of(keys.to_set())) by {
        assert forall|x: Seq<char>| seen.to_set().contains(x) implies keys.to_set().contains(x) by {
            let k = choose|k: int| 0 <= k < seen.len() && seen[k] == x;
            assert(has_key(aliases, seen[k]));
            let j = choose|j: int| 0 <= j < aliases.len() && aliases[j].key@ == seen[k];
            assert(keys[j] == x);
        }
    }
    vstd::seq_lib::seq_to_set_is_finite(keys);
    lemma_len_subset(seen.to_set(), keys.to_set());
    keys.lemma_cardinality_of_set();
}

/// Follows type-alias edges from `fqn` until the name is no alias or an
/// alias already visited; gives the last name reached.
pub fn follow_type_alias(fqn: &str, aliases: &Vec<Keyed<String>>) -> (r: String)
    requires
        keys_unique(aliases@),
    ensures
        r@ == alias_target(aliases@, fqn@),
{
    let mut current = fqn.to_owned();
    let mut seen: Vec<String> = Vec::new();
    let ghost n = aliases@.len();
    assert(seen@.map_values(|s: String| s@) =~= Seq::<Seq<char>>::empty());
    loop
        invariant
            keys_unique(aliases@),
            n == aliases@.len(),
            seen@.len() <= n,
            seen@.map_values(|s: String| s@).no_duplicates(),
            forall|k: int| 0 <= k < seen@.len() ==> has_key(aliases@, #[trigger] seen@[k]@),
            alias_target(aliases@, fqn@) == chase(
                aliases@,
                current@,
                seen@.map_values(|s: String| s@),
                (n - seen@.len()) as nat,
            ),
        ensures
            alias_target(aliases@, fqn@) == current@,
        decreases n - seen@.len(),
    {
        let ghost sv = seen@.map_values(|s: String| s@);
        let idx = find_key(aliases, current.as_str());
        match idx {
            None => {
                return current;
            },
            Some(i) => {
                proof {
                    lemma_lookup_at(aliases@, i as int);
                }
                let mut already = false;
                let mut j: usize = 0;
                while j < seen.len()
                    invariant
                        j <= seen@.len(),
                        sv == seen@.map_values(|s: String| s@),
                        already == sv.take(j as int).contains(current@),
                    decreases seen@.len() - j,
                {
                    assert(sv.take(j + 1) == sv.take(j as int).push(sv[j as int]));
                    assert(sv[j as int] == seen@[j as int]@);
                    assert(sv.take(j + 1).contains(current@) == (sv.take(j as int).contains(
                        current@,
                    ) || sv[j as int] == current@)) by {
                        if sv.take(j + 1).contains(current@) {
                            let k = choose|k: int| 0 <= k < j + 1 && #[trigger] sv.take(j + 1)[k] == current@;
                            if k < j {
                                assert(sv.take(j as int)[k] == current@);
                            }
                        }
                        if sv.take(j as int).contains(current@) {
                            let k = choose|k: int| 0 <= k < j && #[trigger] sv.take(j as int)[k] == current@;
                            assert(sv.take(j + 1)[k] == current@);
                        }
                        if sv[j as int] == current@ {
                            assert(sv.take(j + 1)[j as int] == current@);
                        }
                    }
                    if same_text(seen[j].as_str(), current.as_str()) {
                        already = true;
                    }
                    j = j + 1;
                }
                assert(sv.take(j as int) == sv);
                if already {
                    return current;
                }
                proof {
                    if seen@.len() == n {
                        let bigger = sv.push(current@);
                        assert forall|k: int| 0 <= k < bigger.len() implies has_key(
                            aliases@,
                            #[trigger] bigger[k],
                        ) by {
                            if k < sv.len() {
                                assert(has_key(aliases@, seen@[k]@));
                            } else {
                                assert(aliases@[i as int].key@ == current@);
                            }
                        }
                        assert(bigger.no_duplicates());
                        lemma_seen_bound(aliases@, bigger);
                    }
                }
                let next = aliases[i].value.clone();
                let ghost cur = current@;
                let ghost old_seen = seen@;
                seen.push(current);
                assert(seen@.map_values(|s: String| s@) =~= sv.push(cur));
                proof {
                    assert forall|k: int| 0 <= k < seen@.len() implies has_key(
                        aliases@,
                        #[trigger] seen@[k]@,
                    ) by {
                        if k < old_seen.len() {
                            assert(seen@[k] == old_seen[k]);
                        } else {
                            assert(aliases@[i as int].key@ == cur);
                        }
                    }
                }
                current = next;
            },
        }
    }
}

/// `to` is reached from `from` by following `steps` alias edges.
pub open spec fn reaches(aliases: Seq<Keyed<String>>, from: Seq<char>, to: Seq<char>, steps: nat) -> bool
    decreases steps,
{
    if steps == 0 {
        from == to
    } else {
        match lookup(aliases, from) {
            Some(t) => reaches(aliases, t@, to, (steps - 1) as nat),
            None => false,
        }
    }
}

proof fn lemma_reaches_trans(aliases: Seq<Keyed<String>>, a: Seq<char>, b: Seq<char>, c: Seq<char>, k1: nat, k2: nat)
    requires
        reaches(aliases, a, b, k1),
        reaches(aliases, b, c, k2),
    ensures
        reaches(aliases, a, c, k1 + k2),
    decreases k1,
{
    if k1 > 0 {
        let t = lookup(aliases, a)->0;
        lemma_reaches_trans(aliases, t@, b, c, (k1 - 1) as nat, k2);
        assert((k1 + k2 - 1) as nat == ((k1 - 1) as nat + k2) as nat);
    }
}

/// `to` is reached from `from` by one or more alias edges.
pub open spec fn leads_to(aliases: Seq<Keyed<String>>, from: Seq<char>, to: Seq<char>) -> bool {
    exists|m: nat| m >= 1 && #[trigger] reaches(aliases, from, to, m)
}

proof fn lemma_chase(aliases: Seq<Keyed<String>>, cur: Seq<char>, seen: Seq<Seq<char>>, fuel: nat)
    requires
        keys_unique(aliases),
        seen.no_duplicates(),
        forall|k: int| 0 <= k < seen.len() ==> has_key(aliases, #[trigger] seen[k]),
        seen.len() + fuel == aliases.len(),
        forall|k: int| 0 <= k < seen.len() ==> #[trigger] leads_to(aliases, seen[k], cur),
    ensures
        exists|m: nat| m <= fuel && #[trigger] reaches(aliases, cur, chase(aliases, cur, seen, fuel), m),
        has_key(aliases, chase(aliases, cur, seen, fuel)) ==> exists|m: nat|
            m >= 1 && #[trigger] reaches(
                aliases,
                chase(aliases, cur, seen, fuel),
                chase(aliases, cur, seen, fuel),
                m,
            ),
    decreases fuel,
{
    let r = chase(aliases, cur, seen, fuel);
    assert(reaches(aliases, cur, cur, 0));
    if fuel == 0 {
        if has_key(aliases, cur) {
            if !seen.contains(cur) {
                let bigger = seen.push(cur);
                assert forall|k: int| 0 <= k < bigger.len() implies has_key(aliases, #[trigger] bigger[k]) by {
                    if k < seen.len() {
                        assert(bigger[k] == seen[k]);
                    }
                }
                assert(bigger.no_duplicates());
                lemma_seen_bound(aliases, bigger);
            }
            let q = choose|q: int| 0 <= q < seen.len() && seen[q] == cur;
            assert(leads_to(aliases, seen[q], cur));
        }
    } else {
        match lookup(aliases, cur) {
            None => {
                assert(!has_key(aliases, cur)) by {
                    if has_key(aliases, cur) {
                        let j = choose|j: int| 0 <= j < aliases.len() && aliases[j].key@ == cur;
                        lemma_lookup_at(aliases, j);
                    }
                }
            },
            Some(t) => {
                if seen.contains(cur) {
                    let q = choose|q: int| 0 <= q < seen.len() && seen[q] == cur;
                    assert(leads_to(aliases, seen[q], cur));
                } else {
                    let next = seen.push(cur);
                    assert(reaches(aliases, cur, t@, 1)) by {
                        assert(reaches(aliases, t@, t@, 0));
                    }
                    assert(has_key(aliases, cur)) by {
                        if !has_key(aliases, cur) {
                        }
                    }
                    assert forall|k: int| 0 <= k < next.len() implies has_key(aliases, #[trigger] next[k]) by {
                        if k < seen.len() {
                            assert(next[k] == seen[k]);
                        }
                    }
                    assert forall|k: int| 0 <= k < next.len() implies #[trigger] leads_to(aliases, next[k], t@) by {
                        if k < seen.len() {
                            assert(next[k] == seen[k]);
                            assert(leads_to(aliases, seen[k], cur));
                            let m = choose|m: nat| m >= 1 && #[trigger] reaches(aliases, seen[k], cur, m);
                            lemma_reaches_trans(aliases, seen[k], cur, t@, m, 1);
                            assert(reaches(aliases, next[k], t@, m + 1));
                        } else {
                            assert(next[k] == cur);
                            assert(reaches(aliases, next[k], t@, 1));
                        }
                    }
                    assert(next.no_duplicates());
                    lemma_chase(aliases, t@, next, (fuel - 1) as nat);
                    let m = choose|m: nat| m <= fuel - 1 && #[trigger] reaches(aliases, t@, r, m);
                    lemma_reaches_trans(aliases, cur, t@, r, 1, m);
                    assert(reaches(aliases, cur, r, 1 + m));
                }
            },
        }
    }
}

/// The alias walk from `fqn` ends at a name reached from `fqn` within
/// |type_aliases| hops; at `fqn` itself when `fqn` is no alias; and when it
/// ends at an alias, that alias lies on a cycle of alias edges.
pub proof fn law_alias_walk(aliases: Seq<Keyed<String>>, fqn: Seq<char>)
    requires
        keys_unique(aliases),
    ensures
        exists|m: nat| m <= aliases.len() && #[trigger] reaches(aliases, fqn, alias_target(aliases, fqn), m),
        !has_key(aliases, fqn) ==> alias_target(aliases, fqn) == fqn,
        has_key(aliases, alias_target(aliases, fqn)) ==> exists|m: nat|
            m >= 1 && #[trigger] reaches(aliases, alias_target(aliases, fqn), alias_target(aliases, fqn), m),
{
    let empty = Seq::<Seq<char>>::empty();
    assert(empty.no_duplicates());
    lemma_chase(aliases, fqn, empty, aliases.len());
    assert(empty =~= seq![]);
    assert(alias_target(aliases, fqn) == chase(aliases, fqn, empty, aliases.len()));
    let m = choose|m: nat| m <= aliases.len() && #[trigger] reaches(aliases, fqn, chase(aliases, fqn, empty, aliases.len()), m);
    assert(reaches(aliases, fqn, alias_target(aliases, fqn), m));
    if !has_key(aliases, fqn) {
        assert(lookup(aliases, fqn) is None);
    }
}

/// A declaration that carries an FQN.
pub open spec fn is_decl(o: SymbolOccurrence) -> bool {
    is_declaration_kind(o.kind) && o.fqn is Some
}

/// The FQN of the first declaration in `list` that satisfies `p`.
pub open spec fn first_decl(list: Seq<SymbolOccurrence>, p: spec_fn(SymbolOccurrence) -> bool) -> Option<
    Seq<char>,
>
    decreases list.len(),
{
    if list.len() == 0 {
        None
    } else {
        match first_decl(list.drop_last(), p) {
            Some(f) => Some(f),
            None => if is_decl(list.last()) && p(list.last()) {
                Some(list.last().fqn->0@)
            } else {
                None
            },
        }
    }
}

/// Whether `list` holds a declaration with FQN `f`.
pub open spec fn has_decl_fqn(list: Seq<SymbolOccurrence>, f: Seq<char>) -> bool {
    exists|j: int| 0 <= j < list.len() && is_decl(#[trigger] list[j]) && list[j].fqn->0@ == f
}

/// The first wildcard import `I` (in import order) such that `list` declares
/// `I.path.name`; gives that FQN.
pub open spec fn wildcard_match(imports: Seq<ImportInfo>, list: Seq<SymbolOccurrence>, name: Seq<char>) -> Option<
    Seq<char>,
>
    decreases imports.len(),
{
    if imports.len() == 0 {
        None
    } else {
        match wildcard_match(imports.drop_last(), list, name) {
            Some(f) => Some(f),
            None => if imports.last().is_wildcard && has_decl_fqn(
                list,
                dotted(imports.last().path@, name),
            ) {
                Some(dotted(imports.last().path@, name))
            } else {
                None
            },
        }
    }
}

/// The packages every Kotlin file sees without an import.
pub open spec fn implicit_packages() -> Seq<Seq<char>> {
    seq![
        "kotlin"@,
        "kotlin.annotation"@,
        "kotlin.collections"@,
        "kotlin.comparisons"@,
        "kotlin.io"@,
        "kotlin.ranges"@,
        "kotlin.sequences"@,
        "kotlin.text"@,
    ]
}

pub open spec fn in_implicit_package(o: SymbolOccurrence, name: Seq<char>) -> bool {
    exists|k: int| 0 <= k < 8 && o.fqn->0@ == dotted(#[trigger] implicit_packages()[k], name)
}

/// The winning candidate for a reference named `name` in file `fi`, where
/// `list` is what the index holds under `name`: an explicit import, a
/// declaration in the same file, a wildcard import, the same package, the
/// implicit packages, in that order.
pub open spec fn candidate(name: Seq<char>, fi: FileInfo, list: Seq<SymbolOccurrence>) -> Option<
    Seq<char>,
> {
    match explicit_import(fi.imports@, name) {
        Some(p) => Some(p),
        None => match first_decl(list, |o: SymbolOccurrence| o.file@ == fi.path@) {
            Some(f) => Some(f),
            None => match wildcard_match(fi.imports@, list, name) {
                Some(f) => Some(f),
                None => if fi.package is Some && has_decl_fqn(
                    list,
                    dotted(fi.package->0@, name),
                ) {
                    Some(dotted(fi.package->0@, name))
                } else {
                    first_decl(list, |o: SymbolOccurrence| in_implicit_package(o, name))
                },
            },
        },
    }
}

/// The candidate with type aliases followed.
pub open spec fn resolution(
    name: Seq<char>,
    fi: FileInfo,
    list: Seq<SymbolOccurrence>,
    aliases: Seq<Keyed<String>>,
) -> Option<Seq<char>> {
    match candidate(name, fi, list) {
        Some(c) => Some(alias_target(aliases, c)),
        None => None,
    }
}

fn implicit_package(k: usize) -> (r: &'static str)
    requires
        k < 8,
    ensures
        r@ == implicit_packages()[k as int],
{
    if k == 0 {
        "kotlin"
    } else if k == 1 {
        "kotlin.annotation"
    } else if k == 2 {
        "kotlin.collections"
    } else if k == 3 {
        "kotlin.comparisons"
    } else if k == 4 {
        "kotlin.io"
    } else if k == 5 {
        "kotlin.ranges"
    } else if k == 6 {
        "kotlin.sequences"
    } else {
        "kotlin.text"
    }
}

pub proof fn lemma_first_decl_extends(
    list: Seq<SymbolOccurrence>,
    p: spec_fn(SymbolOccurrence) -> bool,
    i: int,
)
    requires
        0 <= i <= list.len(),
    ensures
        first_decl(list.take(i), p) is Some ==> first_decl(list, p) == first_decl(list.take(i), p),
    decreases list.len() - i,
{
    if i < list.len() {
        lemma_first_decl_extends(list, p, i + 1);
        assert(list.take(i + 1).drop_last() == list.take(i));
    } else {
        assert(list.take(i) == list);
    }
}

proof fn lemma_wildcard_extends(
    imports: Seq<ImportInfo>,
    list: Seq<SymbolOccurrence>,
    name: Seq<char>,
    i: int,
)
    requires
        0 <= i <= imports.len(),
    ensures
        wildcard_match(imports.take(i), list, name) is Some ==> wildcard_match(imports, list, name)
            == wildcard_match(imports.take(i), list, name),
    decreases imports.len() - i,
{
    if i < imports.len() {
        lemma_wildcard_extends(imports, list, name, i + 1);
        assert(imports.take(i + 1).drop_last() == imports.take(i));
    } else {
        assert(imports.take(i) == imports);
    }
}

/// The FQN of the first declaration in `list` whose file is `path`.
fn first_decl_in_file(list: &Vec<SymbolOccurrence>, path: &str) -> (r: Option<String>)
    ensures
        opt_view(r) == first_decl(list@, |o: SymbolOccurrence| o.file@ == path@),
{
    let ghost p = |o: SymbolOccurrence| o.file@ == path@;
    let mut i: usize = 0;
    while i < list.len()
        invariant
            i <= list@.len(),
            p == (|o: SymbolOccurrence| o.file@ == path@),
            first_decl(list@.take(i as int), p) is None,
        decreases list@.len() - i,
    {
        let o = &list[i];
        assert(list@.take(i + 1).drop_last() == list@.take(i as int));
        assert(list@.take(i + 1).last() == list@[i as int]);
        if o.kind.is_declaration() && o.fqn.is_some() && same_text(o.file.as_str(), path) {
            proof {
                lemma_first_decl_extends(list@, p, i + 1);
            }
            return copy_opt(&o.fqn);
        }
        i = i + 1;
    }
    assert(list@.take(i as int) == list@);
    None
}

fn copy_opt(s: &Option<String>) -> (r: Option<String>)
    ensures
        opt_view(r) == opt_view(*s),
{
    match s {
        Some(x) => Some(x.clone()),
        None => None,
    }
}

/// Whether `list` holds a declaration with FQN `f`.
pub fn declares_fqn(list: &Vec<SymbolOccurrence>, f: &str) -> (r: bool)
    ensures
        r == has_decl_fqn(list@, f@),
{
    for i in 0..list.len()
        invariant
            forall|j: int| 0 <= j < i ==> !(is_decl(#[trigger] list@[j]) && list@[j].fqn->0@ == f@),
    {
        let o = &list[i];
        if o.kind.is_declaration() {
            match &o.fqn {
                Some(g) => {
                    if same_text(g.as_str(), f) {
                        return true;
                    }
                },
                None => {},
            }
        }
    }
    false
}

fn wildcard_candidate(imports: &Vec<ImportInfo>, list: &Vec<SymbolOccurrence>, name: &str) -> (r:
    Option<String>)
    ensures
        opt_view(r) == wildcard_match(imports@, list@, name@),
{
    let mut i: usize = 0;
    while i < imports.len()
        invariant
            i <= imports@.len(),
            wildcard_match(imports@.take(i as int), list@, name@) is None,
        decreases imports@.len() - i,
    {
        let imp = &imports[i];
        assert(imports@.take(i + 1).drop_last() == imports@.take(i as int));
        assert(imports@.take(i + 1).last() == imports@[i as int]);
        if imp.is_wildcard {
            let c = join_dotted(imp.path.as_str(), name);
            if declares_fqn(list, c.as_str()) {
                proof {
                    lemma_wildcard_extends(imports@, list@, name@, i + 1);
                }
                return Some(c);
            }
        }
        i = i + 1;
    }
    assert(imports@.take(i as int) == imports@);
    None
}

fn implicit_candidate(list: &Vec<SymbolOccurrence>, name: &str) -> (r: Option<String>)
    ensures
        opt_view(r) == first_decl(list@, |o: SymbolOccurrence| in_implicit_package(o, name@)),
{
    let ghost p = |o: SymbolOccurrence| in_implicit_package(o, name@);
    let mut cands: Vec<String> = Vec::new();
    for k in 0..8
        invariant
            cands@.len() == k,
            forall|m: int| 0 <= m < k ==> #[trigger] cands@[m]@ == dotted(implicit_packages()[m], name@),
    {
        cands.push(join_dotted(implicit_package(k), name));
    }
    let mut i: usize = 0;
    while i < list.len()
        invariant
            i <= list@.len(),
            p == (|o: SymbolOccurrence| in_implicit_package(o, name@)),
            cands@.len() == 8,
            forall|m: int| 0 <= m < 8 ==> #[trigger] cands@[m]@ == dotted(implicit_packages()[m], name@),
            first_decl(list@.take(i as int), p) is None,
        decreases list@.len() - i,
    {
        let o = &list[i];
        assert(list@.take(i + 1).drop_last() == list@.take(i as int));
        assert(list@.take(i + 1).last() == list@[i as int]);
        if o.kind.is_declaration() {
            match &o.fqn {
                Some(g) => {
                    let mut hit = false;
                    for k in 0..8
                        invariant
                            cands@.len() == 8,
                            hit == exists|m: int| 0 <= m < k && g@ == #[trigger] cands@[m]@,
                    {
                        if same_text(g.as_str(), cands[k].as_str()) {
                            hit = true;
                        }
                    }
                    if hit {
                        proof {
                            let m = choose|m: int| 0 <= m < 8 && g@ == #[trigger] cands@[m]@;
                            assert(g@ == dotted(implicit_packages()[m], name@));
                            assert(p(list@[i as int]));
                            lemma_first_decl_extends(list@, p, i + 1);
                        }
                        return Some(g.clone());
                    } else {
                        proof {
                            assert forall|m: int| 0 <= m < 8 implies g@ != dotted(
                                #[trigger] implicit_packages()[m],
                                name@,
                            ) by {
                                assert(g@ != cands@[m]@);
                            }
                            assert(!p(list@[i as int]));
                        }
                    }
                },
                None => {},
            }
        }
        i = i + 1;
    }
    assert(list@.take(i as int) == list@);
    None
}

/// Resolves a reference named `name` in file `fi` against `list`, the
/// occurrences the index holds under `name`, following type aliases.
pub fn resolve_symbol_fqn(
    name: &str,
    fi: &FileInfo,
    list: &Vec<SymbolOccurrence>,
    aliases: &Vec<Keyed<String>>,
) -> (r: Option<String>)
    requires
        keys_unique(aliases@),
    ensures
        opt_view(r) == resolution(name@, *fi, list@, aliases@),
{
    let c = match find_explicit_import(&fi.imports, name) {
        Some(p) => Some(p),
        None => match first_decl_in_file(list, fi.path.as_str()) {
            Some(f) => Some(f),
            None => match wildcard_candidate(&fi.imports, list, name) {
                Some(f) => Some(f),
                None => {
                    let same_pkg = match &fi.package {
                        Some(p) => {
                            let c = join_dotted(p.as_str(), name);
                            if declares_fqn(list, c.as_str()) {
                                Some(c)
                            } else {
                                None
                            }
                        },
                        None => None,
                    };
                    match same_pkg {
                        Some(c) => Some(c),
                        None => implicit_candidate(list, name),
                    }
                },
            },
        },
    };
    match c {
        Some(c) => Some(follow_type_alias(c.as_str(), aliases)),
        None => None,
    }
}

} // verus!
