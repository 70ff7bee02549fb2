//! Occurrences, per-file records and the symbol index that groups them.
use vstd::prelude::*;

use crate::text::decimal;

verus! {

/// What an occurrence declares or refers to.
#[derive(Debug, Clone, Copy, PartialEq, Eq, Hash, Structural)]
pub enum SymbolKind {
    ClassDeclaration,
    InterfaceDeclaration,
    ObjectDeclaration,
    CompanionObjectDeclaration,
    FunctionDeclaration,
    PropertyDeclaration,
    EnumEntryDeclaration,
    TypeAliasDeclaration,
    RecordDeclaration,
    AnnotationTypeDeclaration,
    ConstructorDeclaration,
    ExtensionFunctionDeclaration,
    ParameterDeclaration,
    TypeReference,
    CallSite,
    PropertyReference,
    ExtensionFunctionCall,
    Import,
    PackageDeclaration,
}

pub open spec fn is_declaration_kind(k: SymbolKind) -> bool {
    match k {
        SymbolKind::ClassDeclaration | SymbolKind::InterfaceDeclaration
        | SymbolKind::ObjectDeclaration | SymbolKind::CompanionObjectDeclaration
        | SymbolKind::FunctionDeclaration | SymbolKind::PropertyDeclaration
        | SymbolKind::EnumEntryDeclaration | SymbolKind::TypeAliasDeclaration
        | SymbolKind::RecordDeclaration | SymbolKind::AnnotationTypeDeclaration
        | SymbolKind::ConstructorDeclaration | SymbolKind::ExtensionFunctionDeclaration
        | SymbolKind::ParameterDeclaration => true,
        _ => false,
    }
}

pub open spec fn is_reference_kind(k: SymbolKind) -> bool {
    match k {
        SymbolKind::TypeReference | SymbolKind::CallSite | SymbolKind::PropertyReference
        | SymbolKind::ExtensionFunctionCall => true,
        _ => false,
    }
}

impl SymbolKind {
    /// Declaration variants only.
    pub fn is_declaration(&self) -> (r: bool)
        ensures
            r == is_declaration_kind(*self),
    {
        match self {
            SymbolKind::ClassDeclaration | SymbolKind::InterfaceDeclaration
            | SymbolKind::ObjectDeclaration | SymbolKind::CompanionObjectDeclaration
            | SymbolKind::FunctionDeclaration | SymbolKind::PropertyDeclaration
            | SymbolKind::EnumEntryDeclaration | SymbolKind::TypeAliasDeclaration
            | SymbolKind::RecordDeclaration | SymbolKind::AnnotationTypeDeclaration
            | SymbolKind::ConstructorDeclaration | SymbolKind::ExtensionFunctionDeclaration
            | SymbolKind::ParameterDeclaration => true,
            _ => false,
        }
    }

    /// Reference variants only; never `Import` or `PackageDeclaration`.
    pub fn is_reference(&self) -> (r: bool)
        ensures
            r == is_reference_kind(*self),
    {
        match self {
            SymbolKind::TypeReference | SymbolKind::CallSite | SymbolKind::PropertyReference
            | SymbolKind::ExtensionFunctionCall => true,
            _ => false,
        }
    }

    pub fn is_import(&self) -> (r: bool)
        ensures
            r == (*self == SymbolKind::Import),
    {
        match self {
            SymbolKind::Import => true,
            _ => false,
        }
    }
}

/// A half-open byte interval of a source file.
#[derive(Debug, Clone, Copy, PartialEq, Eq, Hash, Structural)]
pub struct Span {
    pub start: usize,
    pub end: usize,
}

/// One appearance of an identifier in a source file.
#[derive(Debug, Clone)]
pub struct SymbolOccurrence {
    pub name: String,
    pub fqn: Option<String>,
    pub kind: SymbolKind,
    pub file: String,
    pub line: usize,
    pub column: usize,
    pub byte_range: Span,
    pub receiver_type: Option<String>,
}

pub fn copy_opt_string(s: &Option<String>) -> (r: Option<String>)
    ensures
        r == *s,
{
    match s {
        Some(x) => Some(x.clone()),
        None => None,
    }
}

impl SymbolOccurrence {
    /// A copy equal to `self`.
    pub fn duplicate(&self) -> (r: SymbolOccurrence)
        ensures
            r == *self,
    {
        SymbolOccurrence {
            name: self.name.clone(),
            fqn: copy_opt_string(&self.fqn),
            kind: self.kind,
            file: self.file.clone(),
            line: self.line,
            column: self.column,
            byte_range: self.byte_range,
            receiver_type: copy_opt_string(&self.receiver_type),
        }
    }
}

/// One import directive of a file.
#[derive(Debug, Clone)]
pub struct ImportInfo {
    pub path: String,
    pub alias: Option<String>,
    pub is_wildcard: bool,
    pub line: usize,
    pub column: usize,
    pub byte_range: Span,
}

impl ImportInfo {
    pub fn duplicate(&self) -> (r: ImportInfo)
        ensures
            r == *self,
    {
        ImportInfo {
            path: self.path.clone(),
            alias: copy_opt_string(&self.alias),
            is_wildcard: self.is_wildcard,
            line: self.line,
            column: self.column,
            byte_range: self.byte_range,
        }
    }
}

/// The per-file record: its path, package and imports in source order.
#[derive(Debug, Clone)]
pub struct FileInfo {
    pub path: String,
    pub package: Option<String>,
    pub imports: Vec<ImportInfo>,
}

pub fn copy_imports(v: &Vec<ImportInfo>) -> (r: Vec<ImportInfo>)
    ensures
        r@ == v@,
{
    let mut r: Vec<ImportInfo> = Vec::new();
    for i in 0..v.len()
        invariant
            r@ == v@.take(i as int),
    {
        r.push(v[i].duplicate());
        assert(v@.take(i + 1) == v@.take(i as int).push(v@[i as int]));
    }
    assert(v@.take(v.len() as int) == v@);
    r
}

impl FileInfo {
    pub fn duplicate(&self) -> (r: FileInfo)
        ensures
            r.path == self.path,
            r.package == self.package,
            r.imports@ == self.imports@,
    {
        FileInfo {
            path: self.path.clone(),
            package: copy_opt_string(&self.package),
            imports: copy_imports(&self.imports),
        }
    }
}

/// A value stored under a string key.
#[derive(Debug, Clone)]
pub struct Keyed<V> {
    pub key: String,
    pub value: V,
}

pub open spec fn keys_unique<V>(s: Seq<Keyed<V>>) -> bool {
    forall|i: int, j: int| 0 <= i < j < s.len() ==> s[i].key@ != s[j].key@
}

pub open spec fn has_key<V>(s: Seq<Keyed<V>>, k: Seq<char>) -> bool {
    exists|i: int| 0 <= i < s.len() && s[i].key@ == k
}

/// The value stored under `k`.
pub open spec fn lookup<V>(s: Seq<Keyed<V>>, k: Seq<char>) -> Option<V> {
    if has_key(s, k) {
        Some(s[choose|i: int| 0 <= i < s.len() && s[i].key@ == k].value)
    } else {
        None
    }
}

pub proof fn lemma_lookup_at<V>(s: Seq<Keyed<V>>, i: int)
    requires
        keys_unique(s),
        0 <= i < s.len(),
    ensures
        lookup(s, s[i].key@) == Some(s[i].value),
{
    let k = s[i].key@;
    assert(has_key(s, k));
    let j = choose|j: int| 0 <= j < s.len() && s[j].key@ == k;
    if j != i {
        if j < i {
            assert(s[j].key@ != s[i].key@);
        } else {
            assert(s[i].key@ != s[j].key@);
        }
    }
}

/// Position of the entry with key `key`.
pub fn find_key<V>(s: &Vec<Keyed<V>>, key: &str) -> (r: Option<usize>)
    ensures
        match r {
            Some(i) => i < s.len() && s@[i as int].key@ == key@,
            None => !has_key(s@, key@),
        },
{
    for i in 0..s.len()
        invariant
            forall|j: int| 0 <= j < i ==> s@[j].key@ != key@,
    {
        if crate::text::same_text(s[i].key.as_str(), key) {
            return Some(i);
        }
    }
    None
}

/// The occurrences stored under `k`, empty when there are none.
pub open spec fn occurrences_under(s: Seq<Keyed<Vec<SymbolOccurrence>>>, k: Seq<char>) -> Seq<
    SymbolOccurrence,
> {
    match lookup(s, k) {
        Some(v) => v@,
        None => seq![],
    }
}

/// Appends `occ` to the list under `key`, creating the list if needed.
pub fn append_under(s: &mut Vec<Keyed<Vec<SymbolOccurrence>>>, key: &str, occ: SymbolOccurrence)
    requires
        keys_unique(old(s)@),
    ensures
        keys_unique(final(s)@),
        forall|k: Seq<char>|
            #![trigger occurrences_under(final(s)@, k)]
            occurrences_under(final(s)@, k) == if k == key@ {
                occurrences_under(old(s)@, k).push(occ)
            } else {
                occurrences_under(old(s)@, k)
            },
        forall|k: Seq<char>| #[trigger] has_key(final(s)@, k) <==> (has_key(old(s)@, k) || k == key@),
{
    match find_key(s, key) {
        Some(i) => {
            let ghost before = s@;
            s[i].value.push(occ);
            proof {
                assert forall|j: int| 0 <= j < s@.len() && j != i implies s@[j] == before[j] by {}
                assert forall|k: Seq<char>| #[trigger] has_key(s@, k) <==> has_key(before, k) by {
                    if has_key(s@, k) {
                        let j = choose|j: int| 0 <= j < s@.len() && s@[j].key@ == k;
                        assert(before[j].key@ == k);
                    }
                    if has_key(before, k) {
                        let j = choose|j: int| 0 <= j < before.len() && before[j].key@ == k;
                        assert(s@[j].key@ == k);
                    }
                }
                assert forall|k: Seq<char>|
                    #![trigger occurrences_under(s@, k)]
                    occurrences_under(s@, k) == if k == key@ {
                        occurrences_under(before, k).push(occ)
                    } else {
                        occurrences_under(before, k)
                    } by {
                    lemma_lookup_at(before, i as int);
                    lemma_lookup_at(s@, i as int);
                    if has_key(s@, k) {
                        let j = choose|j: int| 0 <= j < s@.len() && s@[j].key@ == k;
                        lemma_lookup_at(before, j);
                        lemma_lookup_at(s@, j);
                    }
                }
            }
        },
        None => {
            let ghost before = s@;
            let mut v = Vec::new();
            v.push(occ);
            s.push(Keyed { key: key.to_owned(), value: v });
            proof {
                let n = before.len() as int;
                assert forall|k: Seq<char>| #[trigger] has_key(s@, k) <==> (has_key(before, k) || k == key@) by {
                    if has_key(s@, k) {
                        let j = choose|j: int| 0 <= j < s@.len() && s@[j].key@ == k;
                        if j < n {
                            assert(before[j].key@ == k);
                        }
                    }
                    if has_key(before, k) {
                        let j = choose|j: int| 0 <= j < before.len() && before[j].key@ == k;
                        assert(s@[j].key@ == k);
                    }
                    if k == key@ {
                        assert(s@[n].key@ == k);
                    }
                }
                assert forall|k: Seq<char>|
                    #![trigger occurrences_under(s@, k)]
                    occurrences_under(s@, k) == if k == key@ {
                        occurrences_under(before, k).push(occ)
                    } else {
                        occurrences_under(before, k)
                    } by {
                    lemma_lookup_at(s@, n);
                    assert(s@[n].value@ == seq![occ]);
                    if has_key(s@, k) && k != key@ {
                        let j = choose|j: int| 0 <= j < s@.len() && s@[j].key@ == k;
                        lemma_lookup_at(before, j);
                        lemma_lookup_at(s@, j);
                    }
                }
            }
        },
    }
}

} // verus!

verus! {

/// Stores `value` under `key`, replacing what was there.
pub fn put<V>(s: &mut Vec<Keyed<V>>, key: &str, value: V)
    requires
        keys_unique(old(s)@),
    ensures
        keys_unique(final(s)@),
        forall|k: Seq<char>|
            #![trigger lookup(final(s)@, k)]
            lookup(final(s)@, k) == if k == key@ {
                Some(value)
            } else {
                lookup(old(s)@, k)
            },
{
    let ghost before = s@;
    match find_key(s, key) {
        Some(i) => {
            s[i].value = value;
            proof {
                assert forall|k: Seq<char>|
                    #![trigger lookup(s@, k)]
                    lookup(s@, k) == if k == key@ {
                        Some(value)
                    } else {
                        lookup(before, k)
                    } by {
                    lemma_lookup_at(s@, i as int);
                    if has_key(s@, k) {
                        let j = choose|j: int| 0 <= j < s@.len() && s@[j].key@ == k;
                        lemma_lookup_at(before, j);
                        lemma_lookup_at(s@, j);
                    }
                    if has_key(before, k) {
                        let j = choose|j: int| 0 <= j < before.len() && before[j].key@ == k;
                        assert(s@[j].key@ == k);
                    }
                }
            }
        },
        None => {
            s.push(Keyed { key: key.to_owned(), value });
            proof {
                let n = before.len() as int;
                assert forall|k: Seq<char>|
                    #![trigger lookup(s@, k)]
                    lookup(s@, k) == if k == key@ {
                        Some(value)
                    } else {
                        lookup(before, k)
                    } by {
                    lemma_lookup_at(s@, n);
                    if has_key(s@, k) && k != key@ {
                        let j = choose|j: int| 0 <= j < s@.len() && s@[j].key@ == k;
                        lemma_lookup_at(before, j);
                        lemma_lookup_at(s@, j);
                    }
                    if has_key(before, k) {
                        let j = choose|j: int| 0 <= j < before.len() && before[j].key@ == k;
                        assert(s@[j].key@ == k);
                    }
                }
            }
        },
    }
}

/// Total number of occurrences over all lists.
pub open spec fn total_len(s: Seq<Keyed<Vec<SymbolOccurrence>>>) -> nat
    decreases s.len(),
{
    if s.len() == 0 {
        0
    } else {
        total_len(s.drop_last()) + s.last().value@.len()
    }
}

/// The assembled index: occurrences by simple name and by FQN, files by
/// path, type aliases (alias FQN to target as written) and the accessors
/// generated for annotated fields (field FQN to accessor FQNs).
#[derive(Debug)]
pub struct SymbolIndex {
    pub by_name: Vec<Keyed<Vec<SymbolOccurrence>>>,
    pub by_fqn: Vec<Keyed<Vec<SymbolOccurrence>>>,
    pub files: Vec<Keyed<FileInfo>>,
    pub type_aliases: Vec<Keyed<String>>,
    pub lombok_accessors: Vec<Keyed<Vec<String>>>,
}

/// Counts that summarise an index.
#[derive(Debug, Clone, Copy, PartialEq, Eq)]
pub struct IndexStats {
    pub files: usize,
    pub symbols_by_name: usize,
    pub symbols_by_fqn: usize,
    pub total_occurrences: usize,
    pub type_aliases: usize,
}

impl SymbolIndex {
    /// Every map has one entry per key.
    pub open spec fn wf(&self) -> bool {
        &&& keys_unique(self.by_name@)
        &&& keys_unique(self.by_fqn@)
        &&& keys_unique(self.files@)
        &&& keys_unique(self.type_aliases@)
        &&& keys_unique(self.lombok_accessors@)
    }

    pub open spec fn named(&self, name: Seq<char>) -> Seq<SymbolOccurrence> {
        occurrences_under(self.by_name@, name)
    }

    pub open spec fn qualified(&self, fqn: Seq<char>) -> Seq<SymbolOccurrence> {
        occurrences_under(self.by_fqn@, fqn)
    }

    /// Every occurrence is listed under its own name, and, when it has an
    /// FQN, under that FQN too; every list under an FQN holds only
    /// occurrences with that FQN.
    pub open spec fn consistent(&self) -> bool {
        &&& forall|k: Seq<char>, i: int|
            0 <= i < self.named(k).len() ==> {
                let o = #[trigger] self.named(k)[i];
                &&& o.name@ == k
                &&& o.fqn is Some ==> self.qualified(o.fqn->0@).contains(o)
            }
        &&& forall|k: Seq<char>, i: int|
            0 <= i < self.qualified(k).len() ==> {
                let o = #[trigger] self.qualified(k)[i];
                o.fqn is Some && o.fqn->0@ == k
            }
    }

    /// An empty index.
    pub fn new() -> (r: SymbolIndex)
        ensures
            r.wf(),
            r.consistent(),
            r.by_name@.len() == 0,
            r.by_fqn@.len() == 0,
            r.files@.len() == 0,
            r.type_aliases@.len() == 0,
            r.lombok_accessors@.len() == 0,
    {
        SymbolIndex {
            by_name: Vec::new(),
            by_fqn: Vec::new(),
            files: Vec::new(),
            type_aliases: Vec::new(),
            lombok_accessors: Vec::new(),
        }
    }

    /// Appends `occ` under its name and, when it has one, under its FQN.
    pub fn add_occurrence(&mut self, occ: SymbolOccurrence)
        requires
            old(self).wf(),
        ensures
            final(self).wf(),
            forall|k: Seq<char>|
                #![trigger final(self).named(k)]
                final(self).named(k) == if k == occ.name@ {
                    old(self).named(k).push(occ)
                } else {
                    old(self).named(k)
                },
            forall|k: Seq<char>|
                #![trigger final(self).qualified(k)]
                final(self).qualified(k) == if occ.fqn is Some && k == occ.fqn->0@ {
                    old(self).qualified(k).push(occ)
                } else {
                    old(self).qualified(k)
                },
            final(self).files == old(self).files,
            final(self).type_aliases == old(self).type_aliases,
            final(self).lombok_accessors == old(self).lombok_accessors,
    {
        match &occ.fqn {
            Some(f) => {
                let f2 = f.clone();
                append_under(&mut self.by_fqn, f2.as_str(), occ.duplicate());
            },
            None => {},
        }
        let name = occ.name.clone();
        append_under(&mut self.by_name, name.as_str(), occ);
    }

    /// Records `info` under its path, replacing an earlier record.
    pub fn add_file_info(&mut self, info: FileInfo)
        requires
            old(self).wf(),
        ensures
            final(self).wf(),
            forall|k: Seq<char>|
                #![trigger lookup(final(self).files@, k)]
                lookup(final(self).files@, k) == if k == info.path@ {
                    Some(info)
                } else {
                    lookup(old(self).files@, k)
                },
            final(self).by_name == old(self).by_name,
            final(self).by_fqn == old(self).by_fqn,
            final(self).type_aliases == old(self).type_aliases,
            final(self).lombok_accessors == old(self).lombok_accessors,
    {
        let path = info.path.clone();
        put(&mut self.files, path.as_str(), info);
    }

    /// Records the alias edge `alias -> target`.
    pub fn add_type_alias(&mut self, alias: String, target: String)
        requires
            old(self).wf(),
        ensures
            final(self).wf(),
            forall|k: Seq<char>|
                #![trigger lookup(final(self).type_aliases@, k)]
                lookup(final(self).type_aliases@, k) == if k == alias@ {
                    Some(target)
                } else {
                    lookup(old(self).type_aliases@, k)
                },
            final(self).by_name == old(self).by_name,
            final(self).by_fqn == old(self).by_fqn,
            final(self).files == old(self).files,
            final(self).lombok_accessors == old(self).lombok_accessors,
    {
        put(&mut self.type_aliases, alias.as_str(), target);
    }

    /// Empties every map.
    pub fn clear(&mut self)
        ensures
            final(self).wf(),
            final(self).consistent(),
            final(self).by_name@.len() == 0,
            final(self).by_fqn@.len() == 0,
            final(self).files@.len() == 0,
            final(self).type_aliases@.len() == 0,
            final(self).lombok_accessors@.len() == 0,
    {
        self.by_name.clear();
        self.by_fqn.clear();
        self.files.clear();
        self.type_aliases.clear();
        self.lombok_accessors.clear();
    }

    /// Sizes of the maps and the number of occurrences under all names
    /// (saturated at `usize::MAX`).
    pub fn stats(&self) -> (r: IndexStats)
        ensures
            r.files == self.files@.len(),
            r.symbols_by_name == self.by_name@.len(),
            r.symbols_by_fqn == self.by_fqn@.len(),
            r.type_aliases == self.type_aliases@.len(),
            r.total_occurrences == if total_len(self.by_name@) <= usize::MAX {
                total_len(self.by_name@)
            } else {
                usize::MAX as nat
            },
    {
        let mut total: usize = 0;
        let mut i: usize = 0;
        while i < self.by_name.len()
            invariant
                i <= self.by_name@.len(),
                total == if total_len(self.by_name@.take(i as int)) <= usize::MAX {
                    total_len(self.by_name@.take(i as int))
                } else {
                    usize::MAX as nat
                },
            decreases self.by_name@.len() - i,
        {
            assert(self.by_name@.take(i + 1).drop_last() == self.by_name@.take(i as int));
            total = total.saturating_add(self.by_name[i].value.len());
            i = i + 1;
        }
        assert(self.by_name@.take(i as int) == self.by_name@);
        IndexStats {
            files: self.files.len(),
            symbols_by_name: self.by_name.len(),
            symbols_by_fqn: self.by_fqn.len(),
            total_occurrences: total,
            type_aliases: self.type_aliases.len(),
        }
    }

    /// The occurrences listed under simple name `name`.
    pub fn occurrences_named(&self, name: &str) -> (r: Vec<SymbolOccurrence>)
        requires
            self.wf(),
        ensures
            r@ == self.named(name@),
    {
        match find_key(&self.by_name, name) {
            Some(i) => {
                proof {
                    lemma_lookup_at(self.by_name@, i as int);
                }
                copy_occurrences(&self.by_name[i].value)
            },
            None => Vec::new(),
        }
    }

    /// The occurrences listed under FQN `fqn`.
    pub fn occurrences_qualified(&self, fqn: &str) -> (r: Vec<SymbolOccurrence>)
        requires
            self.wf(),
        ensures
            r@ == self.qualified(fqn@),
    {
        match find_key(&self.by_fqn, fqn) {
            Some(i) => {
                proof {
                    lemma_lookup_at(self.by_fqn@, i as int);
                }
                copy_occurrences(&self.by_fqn[i].value)
            },
            None => Vec::new(),
        }
    }
}

pub fn copy_occurrences(v: &Vec<SymbolOccurrence>) -> (r: Vec<SymbolOccurrence>)
    ensures
        r@ == v@,
{
    let mut r: Vec<SymbolOccurrence> = Vec::new();
    for i in 0..v.len()
        invariant
            r@ == v@.take(i as int),
    {
        r.push(v[i].duplicate());
        assert(v@.take(i + 1) == v@.take(i as int).push(v@[i as int]));
    }
    assert(v@.take(v.len() as int) == v@);
    r
}

impl IndexStats {
    /// One line that states the counts.
    pub fn describe(&self) -> (r: String)
        ensures
            r@ == "Indexed "@ + decimal(self.files as nat) + " files: "@ + decimal(
                self.symbols_by_name as nat,
            ) + " unique names, "@ + decimal(self.symbols_by_fqn as nat) + " FQNs, "@ + decimal(
                self.total_occurrences as nat,
            ) + " total occurrences, "@
                + decimal(self.type_aliases as nat) + " type aliases"@,
    {
        let mut s = String::new();
        crate::text::append_text(&mut s, "Indexed ");
        crate::text::append_text(&mut s, crate::text::decimal_string(self.files).as_str());
        crate::text::append_text(&mut s, " files: ");
        crate::text::append_text(&mut s, crate::text::decimal_string(self.symbols_by_name).as_str());
        crate::text::append_text(&mut s, " unique names, ");
        crate::text::append_text(&mut s, crate::text::decimal_string(self.symbols_by_fqn).as_str());
        crate::text::append_text(&mut s, " FQNs, ");
        crate::text::append_text(
            &mut s,
            crate::text::decimal_string(self.total_occurrences).as_str(),
        );
        crate::text::append_text(&mut s, " total occurrences, ");
        crate::text::append_text(&mut s, crate::text::decimal_string(self.type_aliases).as_str());
        crate::text::append_text(&mut s, " type aliases");
        s
    }
}

/// Consistency depends on the two occurrence maps alone.
pub proof fn lemma_consistent_same_lists(a: SymbolIndex, b: SymbolIndex)
    requires
        a.consistent(),
        a.by_name == b.by_name,
        a.by_fqn == b.by_fqn,
    ensures
        b.consistent(),
{
    assert forall|k: Seq<char>| #[trigger] b.named(k) == a.named(k) by {}
    assert forall|k: Seq<char>| #[trigger] b.qualified(k) == a.qualified(k) by {}
}

/// Adding an occurrence keeps every occurrence listed under its name and
/// FQN: the index stays consistent.
pub proof fn lemma_add_keeps_consistent(before: SymbolIndex, after: SymbolIndex, occ: SymbolOccurrence)
    requires
        before.consistent(),
        forall|k: Seq<char>|
            #![trigger after.named(k)]
            after.named(k) == if k == occ.name@ {
                before.named(k).push(occ)
            } else {
                before.named(k)
            },
        forall|k: Seq<char>|
            #![trigger after.qualified(k)]
            after.qualified(k) == if occ.fqn is Some && k == occ.fqn->0@ {
                before.qualified(k).push(occ)
            } else {
                before.qualified(k)
            },
    ensures
        after.consistent(),
{
    assert forall|k: Seq<char>, x: SymbolOccurrence| #[trigger] before.qualified(k).contains(x) implies after.qualified(
        k,
    ).contains(x) by {
        let m = choose|m: int| 0 <= m < before.qualified(k).len() && before.qualified(k)[m] == x;
        assert(after.qualified(k)[m] == x);
    }
    assert forall|k: Seq<char>, i: int| 0 <= i < after.named(k).len() implies {
        let o = #[trigger] after.named(k)[i];
        &&& o.name@ == k
        &&& o.fqn is Some ==> after.qualified(o.fqn->0@).contains(o)
    } by {
        let o = after.named(k)[i];
        if k == occ.name@ && i == before.named(k).len() {
            assert(o == occ);
            if occ.fqn is Some {
                let q = after.qualified(occ.fqn->0@);
                assert(q[q.len() - 1] == occ);
            }
        } else {
            assert(o == before.named(k)[i]);
            if o.fqn is Some {
                assert(before.qualified(o.fqn->0@).contains(o));
            }
        }
    }
    assert forall|k: Seq<char>, i: int| 0 <= i < after.qualified(k).len() implies {
        let o = #[trigger] after.qualified(k)[i];
        o.fqn is Some && o.fqn->0@ == k
    } by {
        if !(occ.fqn is Some && k == occ.fqn->0@ && i == before.qualified(k).len()) {
            assert(after.qualified(k)[i] == before.qualified(k)[i]);
        }
    }
}

impl SymbolIndex {
    /// Appends `accessors` to those recorded for field `field`.
    pub fn add_accessors(&mut self, field: &str, accessors: Vec<String>)
        requires
            old(self).wf(),
        ensures
            final(self).wf(),
            final(self).by_name == old(self).by_name,
            final(self).by_fqn == old(self).by_fqn,
            final(self).files == old(self).files,
            final(self).type_aliases == old(self).type_aliases,
            lookup(final(self).lombok_accessors@, field@) is Some,
            lookup(final(self).lombok_accessors@, field@)->0@ == match lookup(old(self).lombok_accessors@, field@) {
                Some(v) => v@,
                None => Seq::<String>::empty(),
            } + accessors@,
            forall|k: Seq<char>|
                k != field@ ==> #[trigger] lookup(final(self).lombok_accessors@, k) == lookup(
                    old(self).lombok_accessors@,
                    k,
                ),
    {
        let mut all: Vec<String> = match find_key(&self.lombok_accessors, field) {
            Some(i) => {
                proof {
                    lemma_lookup_at(self.lombok_accessors@, i as int);
                }
                let mut v: Vec<String> = Vec::new();
                let mut k: usize = 0;
                while k < self.lombok_accessors[i].value.len()
                    invariant
                        i < self.lombok_accessors@.len(),
                        k <= self.lombok_accessors@[i as int].value@.len(),
                        v@ == self.lombok_accessors@[i as int].value@.take(k as int),
                    decreases self.lombok_accessors@[i as int].value@.len() - k,
                {
                    v.push(self.lombok_accessors[i].value[k].clone());
                    assert(self.lombok_accessors@[i as int].value@.take(k + 1) == self.lombok_accessors@[i as int].value@.take(k as int).push(self.lombok_accessors@[i as int].value@[k as int]));
                    k = k + 1;
                }
                assert(self.lombok_accessors@[i as int].value@.take(k as int) == self.lombok_accessors@[i as int].value@);
                v
            },
            None => Vec::new(),
        };
        let mut accessors = accessors;
        let ghost acc0 = accessors@;
        all.append(&mut accessors);
        put(&mut self.lombok_accessors, field, all);
    }
}

} // verus!
