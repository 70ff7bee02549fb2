//! Named containers of a file (classes, objects, bodies) and the FQN prefix
//! that they give to an offset.
use vstd::prelude::*;

use crate::index::Span;
use crate::text::append_text;

verus! {

/// A named container and the bytes its body covers.
#[derive(Debug, Clone)]
pub struct ScopeSegment {
    pub name: String,
    pub byte_range: Span,
}

/// The containers of one file.
#[derive(Debug)]
pub struct ScopeTree {
    pub segments: Vec<ScopeSegment>,
}

/// A segment as plain values: its name and range.
pub open spec fn seg_view(s: ScopeSegment) -> (Seq<char>, Span) {
    (s.name@, s.byte_range)
}

/// Sort key: the start of the range, or, with `by_size`, the size of the
/// range negated (largest first).
pub open spec fn seg_key(s: ScopeSegment, by_size: bool) -> int {
    if by_size {
        s.byte_range.start - s.byte_range.end
    } else {
        s.byte_range.start as int
    }
}

/// `x` inserted after every element whose key is not larger (stable).
pub open spec fn insert_by(s: Seq<ScopeSegment>, x: ScopeSegment, by_size: bool) -> Seq<
    ScopeSegment,
>
    decreases s.len(),
{
    if s.len() == 0 {
        seq![x]
    } else if seg_key(s.last(), by_size) <= seg_key(x, by_size) {
        s.push(x)
    } else {
        insert_by(s.drop_last(), x, by_size).push(s.last())
    }
}

/// Stable insertion sort by `seg_key`.
pub open spec fn sort_by(s: Seq<ScopeSegment>, by_size: bool) -> Seq<ScopeSegment>
    decreases s.len(),
{
    if s.len() == 0 {
        seq![]
    } else {
        insert_by(sort_by(s.drop_last(), by_size), s.last(), by_size)
    }
}

pub open spec fn contains_offset(s: ScopeSegment, offset: usize) -> bool {
    s.byte_range.start <= offset < s.byte_range.end
}

/// The names of the segments that strictly contain `offset`, outermost
/// (largest) first.
pub open spec fn chain_at(segs: Seq<ScopeSegment>, offset: usize) -> Seq<Seq<char>> {
    sort_by(segs.filter(|s: ScopeSegment| contains_offset(s, offset)), true).map_values(
        |s: ScopeSegment| s.name@,
    )
}

/// The parts joined with dots, empty parts left out.
pub open spec fn join_parts(parts: Seq<Seq<char>>) -> Seq<char>
    decreases parts.len(),
{
    if parts.len() == 0 {
        seq![]
    } else {
        let init = join_parts(parts.drop_last());
        let last = parts.last();
        if last.len() == 0 {
            init
        } else if init.len() == 0 {
            last
        } else {
            init + seq!['.'] + last
        }
    }
}

/// `package . outer . inner . …` at `offset`.
pub open spec fn prefix_at(segs: Seq<ScopeSegment>, package: Option<Seq<char>>, offset: usize) -> Seq<
    char,
> {
    let chain = chain_at(segs, offset);
    match package {
        Some(p) => join_parts(seq![p] + chain),
        None => join_parts(chain),
    }
}

proof fn lemma_insert_split(s: Seq<ScopeSegment>, x: ScopeSegment, by_size: bool, j: int)
    requires
        0 <= j <= s.len(),
        forall|k: int| j <= k < s.len() ==> seg_key(s[k], by_size) > seg_key(x, by_size),
        j > 0 ==> seg_key(s[j - 1], by_size) <= seg_key(x, by_size),
    ensures
        insert_by(s, x, by_size) == s.take(j).push(x) + s.skip(j),
    decreases s.len(),
{
    if s.len() == 0 {
        assert(s.take(j).push(x) + s.skip(j) == seq![x]);
    } else if j == s.len() {
        assert(s.take(j) == s);
        assert(s.skip(j) == Seq::<ScopeSegment>::empty());
        assert(s.take(j).push(x) + s.skip(j) == s.push(x));
    } else {
        let t = s.drop_last();
        assert forall|k: int| j <= k < t.len() implies seg_key(t[k], by_size) > seg_key(
            x,
            by_size,
        ) by {
            assert(t[k] == s[k]);
        }
        if j > 0 {
            assert(t[j - 1] == s[j - 1]);
        }
        lemma_insert_split(t, x, by_size, j);
        assert(t.take(j) == s.take(j));
        assert(s.skip(j) == t.skip(j).push(s.last()));
        assert(insert_by(s, x, by_size) == (t.take(j).push(x) + t.skip(j)).push(s.last()));
        assert((t.take(j).push(x) + t.skip(j)).push(s.last()) == t.take(j).push(x) + t.skip(
            j,
        ).push(s.last()));
    }
}

/// Inserts `x` into `v` after the last element whose key is not larger.
fn insert_sorted(v: &mut Vec<ScopeSegment>, x: ScopeSegment, by_size: bool)
    requires
        by_size ==> x.byte_range.start <= x.byte_range.end,
        by_size ==> forall|k: int|
            0 <= k < old(v)@.len() ==> old(v)@[k].byte_range.start <= old(v)@[k].byte_range.end,
    ensures
        final(v)@ == insert_by(old(v)@, x, by_size),
{
    let mut j = v.len();
    loop
        invariant
            j <= v@.len(),
            v@ == old(v)@,
            by_size ==> x.byte_range.start <= x.byte_range.end,
            by_size ==> forall|k: int|
                0 <= k < v@.len() ==> v@[k].byte_range.start <= v@[k].byte_range.end,
            forall|k: int| j <= k < v@.len() ==> seg_key(v@[k], by_size) > seg_key(x, by_size),
        ensures
            j <= v@.len(),
            v@ == old(v)@,
            forall|k: int| j <= k < v@.len() ==> seg_key(v@[k], by_size) > seg_key(x, by_size),
            j > 0 ==> seg_key(v@[j - 1], by_size) <= seg_key(x, by_size),
        decreases j,
    {
        if j == 0 {
            break;
        }
        let prev = &v[j - 1];
        let after = if by_size {
            prev.byte_range.end - prev.byte_range.start < x.byte_range.end - x.byte_range.start
        } else {
            prev.byte_range.start > x.byte_range.start
        };
        if !after {
            break;
        }
        j = j - 1;
    }
    proof {
        lemma_insert_split(v@, x, by_size, j as int);
    }
    v.insert(j, x);
    assert(v@ == old(v)@.take(j as int).push(x) + old(v)@.skip(j as int));
}

impl ScopeTree {
    /// A tree with no containers.
    pub fn new() -> (r: ScopeTree)
        ensures
            r.segments@.len() == 0,
    {
        ScopeTree { segments: Vec::new() }
    }

    /// Adds a container.
    pub fn add_scope(&mut self, name: String, byte_range: Span)
        ensures
            final(self).segments@ == old(self).segments@.push(
                ScopeSegment { name, byte_range },
            ),
    {
        self.segments.push(ScopeSegment { name, byte_range });
    }

    /// Orders the containers by the start of their ranges (stable).
    pub fn finalize(&mut self)
        ensures
            final(self).segments@ == sort_by(old(self).segments@, false),
    {
        let mut sorted: Vec<ScopeSegment> = Vec::new();
        let ghost orig = self.segments@;
        let mut rest: Vec<ScopeSegment> = Vec::new();
        std::mem::swap(&mut rest, &mut self.segments);
        assert(rest@ == orig);
        let mut i: usize = 0;
        let n = rest.len();
        while i < n
            invariant
                n == orig.len(),
                rest@.len() == n,
                forall|k: int| i <= k < n ==> rest@[k] == orig[k],
                i <= n,
                sorted@ == sort_by(orig.take(i as int), false),
            decreases n - i,
        {
            let x = rest[i].clone_segment();
            assert(orig.take(i + 1).drop_last() == orig.take(i as int));
            insert_sorted(&mut sorted, x, false);
            i = i + 1;
        }
        assert(orig.take(n as int) == orig);
        self.segments = sorted;
    }

    /// The names of the containers that hold `byte_offset`, outermost first.
    pub fn scope_chain_at(&self, byte_offset: usize) -> (r: Vec<String>)
        ensures
            r@.map_values(|s: String| s@) == chain_at(self.segments@, byte_offset),
    {
        let ghost segs = self.segments@;
        let mut sorted: Vec<ScopeSegment> = Vec::new();
        let mut i: usize = 0;
        while i < self.segments.len()
            invariant
                segs == self.segments@,
                i <= segs.len(),
                sorted@ == sort_by(segs.take(i as int).filter(|s: ScopeSegment| contains_offset(s, byte_offset)), true),
                forall|k: int|
                    0 <= k < sorted@.len() ==> sorted@[k].byte_range.start
                        <= sorted@[k].byte_range.end,
            decreases segs.len() - i,
        {
            let s = &self.segments[i];
            proof {
                let t = segs.take(i + 1);
                assert(t.drop_last() == segs.take(i as int));
                assert(t.filter(|s: ScopeSegment| contains_offset(s, byte_offset)) == if contains_offset(segs[i as int], byte_offset) {
                    segs.take(i as int).filter(|s: ScopeSegment| contains_offset(s, byte_offset)).push(segs[i as int])
                } else {
                    segs.take(i as int).filter(|s: ScopeSegment| contains_offset(s, byte_offset))
                }) by {
                    reveal(Seq::filter);
                }
            }
            if s.byte_range.start <= byte_offset && byte_offset < s.byte_range.end {
                let ghost before = sorted@;
                insert_sorted(&mut sorted, s.clone_segment(), true);
                proof {
                    lemma_insert_keeps(before, self.segments@[i as int], true);
                    assert(contains_offset(segs[i as int], byte_offset));
                    let f = segs.take(i + 1).filter(|s: ScopeSegment| contains_offset(s, byte_offset));
                    assert(f == segs.take(i as int).filter(|s: ScopeSegment| contains_offset(s, byte_offset)).push(segs[i as int]));
                    assert(f.drop_last() =~= segs.take(i as int).filter(|s: ScopeSegment| contains_offset(s, byte_offset)));
                    assert(f.last() == segs[i as int]);
                }
            }
            i = i + 1;
        }
        assert(segs.take(i as int) == segs);
        let mut r: Vec<String> = Vec::new();
        let mut j: usize = 0;
        while j < sorted.len()
            invariant
                j <= sorted@.len(),
                r@.map_values(|s: String| s@) == sorted@.take(j as int).map_values(
                    |s: ScopeSegment| s.name@,
                ),
            decreases sorted@.len() - j,
        {
            let ghost before = r@;
            r.push(sorted[j].name.clone());
            assert(sorted@.take(j + 1) == sorted@.take(j as int).push(sorted@[j as int]));
            assert(r@.map_values(|s: String| s@) =~= before.map_values(|s: String| s@).push(
                sorted@[j as int].name@,
            ));
            assert(sorted@.take(j + 1).map_values(|s: ScopeSegment| s.name@) =~= sorted@.take(
                j as int,
            ).map_values(|s: ScopeSegment| s.name@).push(sorted@[j as int].name@));
            j = j + 1;
        }
        assert(sorted@.take(j as int) == sorted@);
        r
    }

    /// `package . outer . inner . …` at `byte_offset`, empty parts left out.
    pub fn fqn_prefix_at(&self, package: Option<&str>, byte_offset: usize) -> (r: String)
        ensures
            r@ == prefix_at(
                self.segments@,
                match package {
                    Some(p) => Some(p@),
                    None => None,
                },
                byte_offset,
            ),
    {
        let chain = self.scope_chain_at(byte_offset);
        let ghost cv = chain@.map_values(|s: String| s@);
        let mut r = String::new();
        let ghost parts: Seq<Seq<char>> = match package {
            Some(p) => seq![p@] + cv,
            None => cv,
        };
        let ghost skip: int = match package {
            Some(p) => 1,
            None => 0,
        };
        match package {
            Some(p) => {
                append_part(&mut r, p);
                assert(parts.take(1) =~= seq![p@]);
                assert(parts.take(1).drop_last() =~= Seq::<Seq<char>>::empty());
                assert(join_parts(Seq::<Seq<char>>::empty()) == Seq::<char>::empty());
            },
            None => {
                assert(parts.take(0) =~= Seq::<Seq<char>>::empty());
                assert(join_parts(Seq::<Seq<char>>::empty()) == Seq::<char>::empty());
            },
        }
        let mut j: usize = 0;
        while j < chain.len()
            invariant
                j <= chain@.len(),
                cv == chain@.map_values(|s: String| s@),
                cv.len() == chain@.len(),
                skip == 0 || skip == 1,
                parts.len() == skip + cv.len(),
                forall|k: int| 0 <= k < cv.len() ==> parts[skip + k] == cv[k],
                r@ == join_parts(parts.take(skip + j)),
            decreases chain@.len() - j,
        {
            assert(parts.take(skip + j + 1).drop_last() =~= parts.take(skip + j));
            assert(cv[j as int] == chain@[j as int]@);
            assert(parts.take(skip + j + 1).last() == chain@[j as int]@);
            append_part(&mut r, chain[j].as_str());
            j = j + 1;
        }
        assert(parts.take(skip + j) == parts);
        r
    }
}

proof fn lemma_insert_keeps(s: Seq<ScopeSegment>, x: ScopeSegment, by_size: bool)
    requires
        forall|k: int| 0 <= k < s.len() ==> s[k].byte_range.start <= s[k].byte_range.end,
        x.byte_range.start <= x.byte_range.end,
    ensures
        forall|k: int|
            0 <= k < insert_by(s, x, by_size).len() ==> insert_by(s, x, by_size)[k].byte_range.start
                <= insert_by(s, x, by_size)[k].byte_range.end,
        insert_by(s, x, by_size).len() == s.len() + 1,
    decreases s.len(),
{
    if s.len() > 0 && seg_key(s.last(), by_size) > seg_key(x, by_size) {
        lemma_insert_keeps(s.drop_last(), x, by_size);
    }
}

/// Appends `part` to a dotted name, leaving out empty parts.
fn append_part(r: &mut String, part: &str)
    ensures
        final(r)@ == if part@.len() == 0 {
            old(r)@
        } else if old(r)@.len() == 0 {
            part@
        } else {
            old(r)@ + seq!['.'] + part@
        },
{
    if part.is_empty() {
        return;
    }
    if r.as_str().is_empty() {
        append_text(r, part);
        assert(r@ == part@);
        return;
    }
    let dot = ".";
    proof {
        reveal_strlit(".");
    }
    append_text(r, dot);
    append_text(r, part);
}

impl ScopeSegment {
    pub fn clone_segment(&self) -> (r: ScopeSegment)
        ensures
            r == *self,
    {
        ScopeSegment { name: self.name.clone(), byte_range: self.byte_range }
    }
}

} // verus!
