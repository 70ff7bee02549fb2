//! Parsing of the text that Gradle prints for `projects` and
//! `dependencies`, and the text rendering of a dependency tree.
use vstd::prelude::*;

use crate::text::{append_text, chars_of, is_white, string_of, white};

verus! {

/// A module of a Gradle build: its path (`:app`) and name (`app`).
#[derive(Debug, Clone)]
pub struct GradleModule {
    pub path: String,
    pub name: String,
}

/// The modules of a build and its root.
#[derive(Debug, Clone)]
pub struct GradleInfo {
    pub modules: Vec<GradleModule>,
    pub root_path: String,
}

/// One dependency and those it brings.
#[derive(Debug)]
pub struct DependencyNode {
    pub group: String,
    pub artifact: String,
    pub version: String,
    pub resolved_version: Option<String>,
    pub is_project: bool,
    pub is_transitive_duplicate: bool,
    pub children: Vec<DependencyNode>,
}

/// A line without the `\r` of a `\r\n`.
pub open spec fn strip_cr(l: Seq<char>) -> Seq<char> {
    if l.len() > 0 && l.last() == '\r' {
        l.drop_last()
    } else {
        l
    }
}

/// The complete lines and the unfinished line after the first `n`
/// characters of `s`.
pub open spec fn line_fold(s: Seq<char>, n: int) -> (Seq<Seq<char>>, Seq<char>)
    decreases n,
{
    if n <= 0 {
        (seq![], seq![])
    } else {
        let p = line_fold(s, n - 1);
        if s[n - 1] == '\n' {
            (p.0.push(strip_cr(p.1)), seq![])
        } else {
            (p.0, p.1.push(s[n - 1]))
        }
    }
}

/// The lines of `s`: split at `\n`, the `\r` of a `\r\n` dropped; no
/// empty line after a final newline.
pub open spec fn lines_of(s: Seq<char>) -> Seq<Seq<char>> {
    let p = line_fold(s, s.len() as int);
    if p.1.len() > 0 {
        p.0.push(p.1)
    } else {
        p.0
    }
}

pub open spec fn char_rows(v: Seq<Vec<char>>) -> Seq<Seq<char>> {
    v.map_values(|l: Vec<char>| l@)
}

/// The lines of `s`.
pub fn split_lines(s: &str) -> (r: Vec<Vec<char>>)
    ensures
        char_rows(r@) == lines_of(s@),
{
    let chars = chars_of(s);
    let mut lines: Vec<Vec<char>> = Vec::new();
    let mut cur: Vec<char> = Vec::new();
    let mut i: usize = 0;
    while i < chars.len()
        invariant
            i <= chars@.len(),
            chars@ == s@,
            line_fold(chars@, i as int) == (char_rows(lines@), cur@),
        decreases chars@.len() - i,
    {
        let ghost rows = char_rows(lines@);
        if chars[i] == '\n' {
            if cur.len() > 0 && cur[cur.len() - 1] == '\r' {
                cur.pop();
            }
            assert(cur@ == strip_cr(line_fold(chars@, i as int).1));
            let done = cur;
            lines.push(done);
            cur = Vec::new();
            assert(char_rows(lines@) =~= rows.push(strip_cr(line_fold(chars@, i as int).1)));
        } else {
            cur.push(chars[i]);
        }
        i = i + 1;
    }
    if cur.len() > 0 {
        let ghost rows = char_rows(lines@);
        lines.push(cur);
        assert(char_rows(lines@) =~= rows.push(line_fold(chars@, chars@.len() as int).1));
    }
    lines
}

/// The first position from `from` on, before `to`, that is not white
/// space (or `to`).
pub open spec fn trim_lo(s: Seq<char>, from: int, to: int) -> int
    decreases to - from,
{
    if from < to && is_white(s[from]) {
        trim_lo(s, from + 1, to)
    } else {
        from
    }
}

/// One past the last position before `to`, not before `lo`, that is not
/// white space (or `lo`).
pub open spec fn trim_hi(s: Seq<char>, lo: int, to: int) -> int
    decreases to - lo,
{
    if to > lo && is_white(s[to - 1]) {
        trim_hi(s, lo, to - 1)
    } else {
        to
    }
}

/// `s[from..to]` without leading and trailing white space, as bounds.
fn trim_bounds(s: &Vec<char>, from: usize, to: usize) -> (r: (usize, usize))
    requires
        from <= to <= s@.len(),
    ensures
        r.0 == trim_lo(s@, from as int, to as int),
        r.1 == trim_hi(s@, r.0 as int, to as int),
        from <= r.0 <= r.1 <= to,
        forall|k: int| from <= k < r.0 ==> is_white(s@[k]),
        forall|k: int| r.1 <= k < to ==> is_white(s@[k]),
        r.0 < r.1 ==> !is_white(s@[r.0 as int]) && !is_white(s@[r.1 - 1]),
{
    let mut b = from;
    while b < to && white(s[b])
        invariant
            from <= b <= to <= s@.len(),
            forall|k: int| from <= k < b ==> is_white(s@[k]),
            trim_lo(s@, from as int, to as int) == trim_lo(s@, b as int, to as int),
        decreases to - b,
    {
        b = b + 1;
    }
    let mut e = to;
    while e > b && white(s[e - 1])
        invariant
            b <= e <= to <= s@.len(),
            forall|k: int| e <= k < to ==> is_white(s@[k]),
            trim_hi(s@, b as int, to as int) == trim_hi(s@, b as int, e as int),
        decreases e,
    {
        e = e - 1;
    }
    (b, e)
}

/// The first position `p` from `from` on with `pat` at `s[p..]` inside `s[..to]`.
pub open spec fn first_match(s: Seq<char>, from: int, to: int, pat: Seq<char>) -> Option<int>
    decreases to - from,
{
    if from < 0 || from + pat.len() > to || to > s.len() {
        None
    } else if pat.len() == 0 || s.subrange(from, from + pat.len()) == pat {
        Some(from)
    } else {
        first_match(s, from + 1, to, pat)
    }
}

/// Position of `pat` in `s[from..to]`, the first one.
fn find_in(s: &Vec<char>, from: usize, to: usize, pat: &Vec<char>) -> (r: Option<usize>)
    requires
        from <= to <= s@.len(),
    ensures
        r matches Some(p) ==> from <= p && p + pat@.len() <= to && s@.subrange(p as int, p + pat@.len())
            == pat@,
        match r {
            Some(p) => first_match(s@, from as int, to as int, pat@) == Some(p as int),
            None => first_match(s@, from as int, to as int, pat@) is None,
        },
{
    if pat.len() > to - from {
        return None;
    }
    let last = to - pat.len();
    let mut p = from;
    while p <= last
        invariant
            from <= p <= last + 1,
            last + pat@.len() == to,
            to <= s@.len(),
            first_match(s@, from as int, to as int, pat@) == first_match(s@, p as int, to as int, pat@),
        decreases last + 1 - p,
    {
        let mut k: usize = 0;
        let mut ok = true;
        while k < pat.len()
            invariant
                k <= pat@.len(),
                p <= last,
                last + pat@.len() == to,
                to <= s@.len(),
                ok == forall|q: int| 0 <= q < k ==> s@[p + q] == pat@[q],
            decreases pat@.len() - k,
        {
            if s[p + k] != pat[k] {
                ok = false;
            }
            k = k + 1;
        }
        if ok {
            assert(s@.subrange(p as int, p + pat@.len()) =~= pat@);
            return Some(p);
        }
        proof {
            let q = choose|q: int| 0 <= q < pat@.len() && s@[p + q] != pat@[q];
            assert(s@.subrange(p as int, p + pat@.len())[q] != pat@[q]);
        }
        if p == last {
            assert(first_match(s@, p + 1, to as int, pat@) is None);
            return None;
        }
        p = p + 1;
    }
    None
}


/// The first position in `s[from..to]` holding `c`, or `to`.
pub open spec fn first_char(s: Seq<char>, from: int, to: int, c: char) -> int
    decreases to - from,
{
    if from < to && s[from] != c {
        first_char(s, from + 1, to, c)
    } else {
        from
    }
}

/// The position after the last `c` in `s[lo..hi]`, or `lo`.
pub open spec fn after_last(s: Seq<char>, lo: int, hi: int, c: char) -> int
    decreases hi - lo,
{
    if hi > lo && s[hi - 1] != c {
        after_last(s, lo, hi - 1, c)
    } else {
        hi
    }
}

/// The module a line of `gradlew projects` names: the text between
/// `Project '` and the next `'` (within the trimmed line), and its last
/// `:`-separated segment, when that is not empty.
pub open spec fn project_of(line: Seq<char>) -> Option<(Seq<char>, Seq<char>)> {
    let b = trim_lo(line, 0, line.len() as int);
    let e = trim_hi(line, b, line.len() as int);
    match first_match(line, b, e, "Project '"@) {
        Some(st) => {
            let rest = st + "Project '"@.len();
            let end = first_char(line, rest, e, '\'');
            if end < e && after_last(line, rest, end, ':') < end {
                Some((line.subrange(rest, end), line.subrange(after_last(line, rest, end, ':'), end)))
            } else {
                None
            }
        },
        None => None,
    }
}

/// The modules named by `lines`, in order.
pub open spec fn projects_of(lines: Seq<Seq<char>>) -> Seq<(Seq<char>, Seq<char>)>
    decreases lines.len(),
{
    if lines.len() == 0 {
        seq![]
    } else {
        let prev = projects_of(lines.drop_last());
        match project_of(lines.last()) {
            Some(m) => prev.push(m),
            None => prev,
        }
    }
}

pub open spec fn module_view(m: GradleModule) -> (Seq<char>, Seq<char>) {
    (m.path@, m.name@)
}

/// The modules listed by `gradlew projects -q`: for every line holding
/// `Project '<path>'`, the path and its last `:`-separated segment, when
/// that segment is not empty.
pub fn parse_projects_output(output: &str) -> (r: Vec<GradleModule>)
    ensures
        r@.map_values(|m: GradleModule| module_view(m)) == projects_of(lines_of(output@)),
        forall|k: int| 0 <= k < r@.len() ==> (#[trigger] r@[k]).name@.len() > 0,
{
    let lines = split_lines(output);
    let marker = chars_of("Project '");
    let mut modules: Vec<GradleModule> = Vec::new();
    let mut i: usize = 0;
    while i < lines.len()
        invariant
            i <= lines@.len(),
            char_rows(lines@) == lines_of(output@),
            marker@ == "Project '"@,
            modules@.map_values(|m: GradleModule| module_view(m)) == projects_of(char_rows(lines@).take(i as int)),
            forall|k: int| 0 <= k < modules@.len() ==> (#[trigger] modules@[k]).name@.len() > 0,
        decreases lines@.len() - i,
    {
        let line = &lines[i];
        let ghost lv = line@;
        let ghost before = modules@;
        proof {
            assert(char_rows(lines@).take(i + 1).drop_last() == char_rows(lines@).take(i as int));
            assert(char_rows(lines@).take(i + 1).last() == lv);
        }
        let (b, e) = trim_bounds(line, 0, line.len());
        match find_in(line, b, e, &marker) {
            Some(start) => {
                let rest = start + marker.len();
                let mut end = rest;
                while end < e && line[end] != '\''
                    invariant
                        rest <= end <= e <= line@.len(),
                        first_char(line@, rest as int, e as int, '\'') == first_char(line@, end as int, e as int, '\''),
                    decreases e - end,
                {
                    end = end + 1;
                }
                if end < e {
                    let mut cut = end;
                    while cut > rest && line[cut - 1] != ':'
                        invariant
                            rest <= cut <= end,
                            end <= line@.len(),
                            after_last(line@, rest as int, end as int, ':') == after_last(line@, rest as int, cut as int, ':'),
                        decreases cut,
                    {
                        cut = cut - 1;
                    }
                    if cut < end {
                        let path = string_of(line, rest, end);
                        let name = string_of(line, cut, end);
                        modules.push(GradleModule { path, name });
                        proof {
                            assert(modules@.map_values(|m: GradleModule| module_view(m)) =~= before.map_values(
                                |m: GradleModule| module_view(m),
                            ).push(project_of(lv)->0));
                        }
                    }
                }
            },
            None => {},
        }
        i = i + 1;
    }
    assert(char_rows(lines@).take(i as int) == char_rows(lines@));
    modules
}

/// The number of leading `"|    "` or five-space chunks from `pos` on.
pub open spec fn indent_from(line: Seq<char>, pos: int) -> nat
    decreases line.len() - pos,
{
    if 0 <= pos && pos + 5 <= line.len() && (line[pos] == '|' || line[pos] == ' ') && line[pos + 1] == ' '
        && line[pos + 2] == ' ' && line[pos + 3] == ' ' && line[pos + 4] == ' ' {
        1 + indent_from(line, pos + 5)
    } else {
        0
    }
}

/// The nesting level of a dependency line: the number of leading
/// `"|    "` or five-space chunks.
pub fn dependency_indent_level(line: &Vec<char>) -> (r: usize)
    ensures
        r == indent_from(line@, 0),
        r * 5 <= line@.len(),
{
    let mut level: usize = 0;
    let mut pos: usize = 0;
    loop
        invariant
            pos == level * 5,
            pos <= line@.len(),
            indent_from(line@, 0) == level + indent_from(line@, pos as int),
        ensures
            indent_from(line@, 0) == level,
            pos == level * 5,
            pos <= line@.len(),
        decreases line@.len() - pos,
    {
        if line.len() - pos < 5 {
            break;
        }
        let c = line[pos];
        if c != '|' && c != ' ' {
            break;
        }
        let blank = line[pos + 1] == ' ' && line[pos + 2] == ' ' && line[pos + 3] == ' ' && line[pos + 4] == ' ';
        if !blank {
            break;
        }
        level = level + 1;
        pos = pos + 5;
    }
    level
}

pub open spec fn is_tree_mark(c: char) -> bool {
    c == '|' || c == ' ' || c == '+' || c == '\\' || c == '-'
}

fn is_tree_char(c: char) -> (r: bool)
    ensures
        r == is_tree_mark(c),
{
    c == '|' || c == ' ' || c == '+' || c == '\\' || c == '-'
}

/// The first position from `from` on that holds no tree-drawing mark.
pub open spec fn skip_marks(s: Seq<char>, from: int) -> int
    decreases s.len() - from,
{
    if 0 <= from < s.len() && is_tree_mark(s[from]) {
        skip_marks(s, from + 1)
    } else {
        from
    }
}

/// The end of `s[b..e]` once every trailing `(*)` is removed.
pub open spec fn strip_dups(s: Seq<char>, b: int, e: int) -> int
    decreases e - b,
{
    if e - b >= 3 && s[e - 3] == '(' && s[e - 2] == '*' && s[e - 1] == ')' {
        strip_dups(s, b, e - 3)
    } else {
        e
    }
}

/// Whether `s[from..to]` starts with `pat`.
pub open spec fn has_prefix_at(s: Seq<char>, from: int, to: int, pat: Seq<char>) -> bool {
    pat.len() <= to - from && s.subrange(from, from + pat.len()) == pat
}

/// The position after every leading `project ` of `s[from..to]`.
pub open spec fn strip_projects(s: Seq<char>, from: int, to: int) -> int
    decreases to - from,
{
    if has_prefix_at(s, from, to, "project "@) && to - from >= 8 && "project "@.len() == 8 {
        strip_projects(s, from + 8, to)
    } else {
        from
    }
}

/// The first position from `from` on, before `to`, that is not `c`.
pub open spec fn skip_char(s: Seq<char>, from: int, to: int, c: char) -> int
    decreases to - from,
{
    if from < to && s[from] == c {
        skip_char(s, from + 1, to, c)
    } else {
        from
    }
}

/// One past the last position before `to`, not before `lo`, that is not `c`.
pub open spec fn trim_char_end(s: Seq<char>, lo: int, to: int, c: char) -> int
    decreases to - lo,
{
    if to > lo && s[to - 1] == c {
        trim_char_end(s, lo, to - 1, c)
    } else {
        to
    }
}

/// The `:`-separated pieces of `s[start..to]`, scanning from `k`.
pub open spec fn colon_pieces(s: Seq<char>, start: int, k: int, to: int) -> Seq<(int, int)>
    decreases to - k,
{
    if k >= to {
        seq![(start, to)]
    } else if s[k] == ':' {
        seq![(start, k)] + colon_pieces(s, k + 1, k + 1, to)
    } else {
        colon_pieces(s, start, k + 1, to)
    }
}

/// A dependency as plain values: group, artifact, version, resolved
/// version, project flag, repeated-subtree flag.
pub type DependencyView = (Seq<char>, Seq<char>, Seq<char>, Option<Seq<char>>, bool, bool);

pub open spec fn dependency_view(n: DependencyNode) -> DependencyView {
    (
        n.group@,
        n.artifact@,
        n.version@,
        match n.resolved_version {
            Some(v) => Some(v@),
            None => None,
        },
        n.is_project,
        n.is_transitive_duplicate,
    )
}

/// What one line of a dependency tree gives: `project :x`, or
/// `group:artifact[:version]` with an optional `-> resolved`; a trailing
/// `(*)` marks a repeated subtree.
pub open spec fn dependency_of(line: Seq<char>) -> Option<DependencyView> {
    let n = line.len() as int;
    let b0 = skip_marks(line, 0);
    let b1 = trim_lo(line, b0, n);
    let e1 = trim_hi(line, b1, n);
    if b1 == e1 {
        None
    } else {
        let e2 = strip_dups(line, b1, e1);
        let dup = e2 < e1;
        let b = trim_lo(line, b1, e2);
        let e = trim_hi(line, b, e2);
        if has_prefix_at(line, b, e, "project "@) {
            let x = skip_char(line, strip_projects(line, b, e), e, ':');
            let y = trim_char_end(line, x, e, ':');
            let ab = trim_lo(line, x, y);
            let ae = trim_hi(line, ab, y);
            Some(("project"@, line.subrange(ab, ae), seq![], None, true, dup))
        } else {
            let arrow = first_match(line, b, e, " -> "@);
            let base_end = match arrow {
                Some(p) => p,
                None => e,
            };
            let resolved = match arrow {
                Some(p) => {
                    let rb = trim_lo(line, p + " -> "@.len(), e);
                    Some(line.subrange(rb, trim_hi(line, rb, e)))
                },
                None => None,
            };
            let ps = colon_pieces(line, b, b, base_end);
            if ps.len() >= 3 {
                Some(
                    (
                        line.subrange(ps[0].0, ps[0].1),
                        line.subrange(ps[1].0, ps[1].1),
                        line.subrange(ps[2].0, ps[2].1),
                        resolved,
                        false,
                        dup,
                    ),
                )
            } else if ps.len() == 2 {
                Some((line.subrange(ps[0].0, ps[0].1), line.subrange(ps[1].0, ps[1].1), seq![], resolved, false, dup))
            } else {
                None
            }
        }
    }
}

fn starts_with_at(s: &Vec<char>, from: usize, to: usize, pat: &str) -> (r: bool)
    requires
        from <= to <= s@.len(),
    ensures
        r == has_prefix_at(s@, from as int, to as int, pat@),
{
    let p = chars_of(pat);
    if p.len() > to - from {
        return false;
    }
    let mut k: usize = 0;
    while k < p.len()
        invariant
            from + p@.len() <= to <= s@.len(),
            p@ == pat@,
            k <= p@.len(),
            forall|q: int| 0 <= q < k ==> s@[from + q] == p@[q],
        decreases p@.len() - k,
    {
        if s[from + k] != p[k] {
            assert(s@.subrange(from as int, from + p@.len())[k as int] != p@[k as int]);
            return false;
        }
        k = k + 1;
    }
    assert(s@.subrange(from as int, from + p@.len()) =~= p@);
    true
}

proof fn lemma_pieces_bounded(s: Seq<char>, start: int, k: int, to: int)
    requires
        start <= k <= to,
    ensures
        forall|q: int|
            0 <= q < colon_pieces(s, start, k, to).len() ==> start <= (#[trigger] colon_pieces(s, start, k, to)[q]).0
                <= colon_pieces(s, start, k, to)[q].1 <= to,
    decreases to - k,
{
    if k < to {
        if s[k] == ':' {
            lemma_pieces_bounded(s, k + 1, k + 1, to);
            let rest = colon_pieces(s, k + 1, k + 1, to);
            assert(colon_pieces(s, start, k, to) == seq![(start, k)] + rest);
            assert forall|q: int|
                0 <= q < colon_pieces(s, start, k, to).len() implies start <= (#[trigger] colon_pieces(
                s,
                start,
                k,
                to,
            )[q]).0 <= colon_pieces(s, start, k, to)[q].1 <= to by {
                if q > 0 {
                    assert(colon_pieces(s, start, k, to)[q] == rest[q - 1]);
                }
            }
        } else {
            lemma_pieces_bounded(s, start, k + 1, to);
            assert(colon_pieces(s, start, k, to) == colon_pieces(s, start, k + 1, to));
        }
    } else {
        assert(colon_pieces(s, start, k, to) == seq![(start, to)]);
        assert forall|q: int|
            0 <= q < colon_pieces(s, start, k, to).len() implies start <= (#[trigger] colon_pieces(
            s,
            start,
            k,
            to,
        )[q]).0 <= colon_pieces(s, start, k, to)[q].1 <= to by {
            assert(q == 0);
        }
    }
}

/// One dependency line: `project :x`, or `group:artifact[:version]` with
/// an optional `-> resolved` and a `(*)` mark for a repeated subtree.
pub fn parse_dependency_line(line: &Vec<char>) -> (r: Option<DependencyNode>)
    ensures
        match r {
            Some(n) => dependency_of(line@) == Some(dependency_view(n)) && n.children@.len() == 0,
            None => dependency_of(line@) is None,
        },
{
    let mut b: usize = 0;
    while b < line.len() && is_tree_char(line[b])
        invariant
            b <= line@.len(),
            skip_marks(line@, 0) == skip_marks(line@, b as int),
        decreases line@.len() - b,
    {
        b = b + 1;
    }
    let (b, e1) = trim_bounds(line, b, line.len());
    if b == e1 {
        return None;
    }
    let mut duplicate = false;
    let mut e = e1;
    while e - b >= 3 && line[e - 3] == '(' && line[e - 2] == '*' && line[e - 1] == ')'
        invariant
            b <= e <= e1 <= line@.len(),
            strip_dups(line@, b as int, e1 as int) == strip_dups(line@, b as int, e as int),
            duplicate == (e < e1),
        decreases e,
    {
        duplicate = true;
        e = e - 3;
    }
    let (b, e) = trim_bounds(line, b, e);
    if starts_with_at(line, b, e, "project ") {
        let mut s = b;
        loop
            invariant
                b <= s <= e <= line@.len(),
                strip_projects(line@, b as int, e as int) == strip_projects(line@, s as int, e as int),
            ensures
                s == strip_projects(line@, b as int, e as int),
            decreases e - s,
        {
            let more = starts_with_at(line, s, e, "project ");
            proof {
                reveal_strlit("project ");
            }
            if !more || e - s < 8 {
                break;
            }
            s = s + 8;
        }
        let mut x = s;
        while x < e && line[x] == ':'
            invariant
                s <= x <= e,
                e <= line@.len(),
                skip_char(line@, s as int, e as int, ':') == skip_char(line@, x as int, e as int, ':'),
            decreases e - x,
        {
            x = x + 1;
        }
        let mut y = e;
        while y > x && line[y - 1] == ':'
            invariant
                x <= y <= e,
                e <= line@.len(),
                trim_char_end(line@, x as int, e as int, ':') == trim_char_end(line@, x as int, y as int, ':'),
            decreases y,
        {
            y = y - 1;
        }
        let (x, y) = trim_bounds(line, x, y);
        let group = "project".to_owned();
        return Some(
            DependencyNode {
                group,
                artifact: string_of(line, x, y),
                version: String::new(),
                resolved_version: None,
                is_project: true,
                is_transitive_duplicate: duplicate,
                children: Vec::new(),
            },
        );
    }
    let arrow = chars_of(" -> ");
    let (base_end, resolved) = match find_in(line, b, e, &arrow) {
        Some(p) => {
            let (rb, re) = trim_bounds(line, p + arrow.len(), e);
            (p, Some(string_of(line, rb, re)))
        },
        None => (e, None),
    };
    let mut segs: Vec<(usize, usize)> = Vec::new();
    let mut s = b;
    let mut k = b;
    let ghost all = colon_pieces(line@, b as int, b as int, base_end as int);
    proof {
        lemma_pieces_bounded(line@, b as int, b as int, base_end as int);
    }
    while k < base_end
        invariant
            b <= s <= k <= base_end <= line@.len(),
            all == colon_pieces(line@, b as int, b as int, base_end as int),
            all == segs@.map_values(|p: (usize, usize)| (p.0 as int, p.1 as int)) + colon_pieces(
                line@,
                s as int,
                k as int,
                base_end as int,
            ),
            forall|q: int| 0 <= q < segs@.len() ==> (#[trigger] segs@[q]).0 <= segs@[q].1 <= base_end,
        decreases base_end - k,
    {
        if line[k] == ':' {
            let ghost before = segs@;
            segs.push((s, k));
            assert(segs@.map_values(|p: (usize, usize)| (p.0 as int, p.1 as int)) =~= before.map_values(
                |p: (usize, usize)| (p.0 as int, p.1 as int),
            ).push((s as int, k as int)));
            s = k + 1;
        }
        k = k + 1;
    }
    let ghost before = segs@;
    segs.push((s, base_end));
    assert(segs@.map_values(|p: (usize, usize)| (p.0 as int, p.1 as int)) =~= before.map_values(
        |p: (usize, usize)| (p.0 as int, p.1 as int),
    ).push((s as int, base_end as int)));
    assert(all =~= segs@.map_values(|p: (usize, usize)| (p.0 as int, p.1 as int)));
    if segs.len() >= 3 {
        Some(
            DependencyNode {
                group: string_of(line, segs[0].0, segs[0].1),
                artifact: string_of(line, segs[1].0, segs[1].1),
                version: string_of(line, segs[2].0, segs[2].1),
                resolved_version: resolved,
                is_project: false,
                is_transitive_duplicate: duplicate,
                children: Vec::new(),
            },
        )
    } else if segs.len() == 2 {
        Some(
            DependencyNode {
                group: string_of(line, segs[0].0, segs[0].1),
                artifact: string_of(line, segs[1].0, segs[1].1),
                version: String::new(),
                resolved_version: resolved,
                is_project: false,
                is_transitive_duplicate: duplicate,
                children: Vec::new(),
            },
        )
    } else {
        None
    }
}

/// The nodes at `base` level from line `start` on, with their children
/// parsed from the deeper lines after each; and how many lines were used.
pub fn parse_dep_tree(lines: &Vec<Vec<char>>, start: usize, base: usize) -> (r: (Vec<DependencyNode>, usize))
    requires
        start <= lines@.len(),
    ensures
        start + r.1 <= lines@.len(),
    decreases lines@.len() - start, 0nat,
{
    let mut nodes: Vec<DependencyNode> = Vec::new();
    let mut i = start;
    while i < lines.len()
        invariant
            start <= i <= lines@.len(),
        decreases lines@.len() - i,
    {
        let line = &lines[i];
        let indent = dependency_indent_level(line);
        if indent < base && base > 0 {
            break;
        }
        if indent == base || (base == 0 && nodes.len() == 0) {
            match parse_dependency_line(line) {
                Some(mut node) => {
                    if indent < usize::MAX {
                        let (children, used) = parse_dep_tree(lines, i + 1, indent + 1);
                        node.children = children;
                        nodes.push(node);
                        i = i + 1 + used;
                    } else {
                        nodes.push(node);
                        i = i + 1;
                    }
                    continue;
                },
                None => {},
            }
        } else if indent > base {
            break;
        }
        i = i + 1;
    }
    (nodes, i - start)
}

fn trimmed_starts(line: &Vec<char>, pat: &str) -> (r: bool) {
    let (b, e) = trim_bounds(line, 0, line.len());
    starts_with_at(line, b, e, pat)
}

fn holds_text(line: &Vec<char>, pat: &str) -> (r: bool) {
    let p = chars_of(pat);
    find_in(line, 0, line.len(), &p).is_some()
}

/// The dependency tree printed by `gradlew :m:dependencies --configuration
/// compileClasspath -q`: the tree lines after the configuration header,
/// up to the first line that is not part of the tree.
pub fn parse_dependencies_output(output: &str) -> (r: Vec<DependencyNode>) {
    let lines = split_lines(output);
    let mut start: usize = 0;
    let mut i: usize = 0;
    while i < lines.len()
        decreases lines@.len() - i,
    {
        if holds_text(&lines[i], "compileClasspath") || trimmed_starts(&lines[i], "+---") || trimmed_starts(
            &lines[i],
            "\\---",
        ) {
            start = i;
            break;
        }
        i = i + 1;
    }
    if start < lines.len() && holds_text(&lines[start], "compileClasspath") && holds_text(&lines[start], "-") {
        start = start + 1;
    }
    let mut tree: Vec<Vec<char>> = Vec::new();
    let mut j = start;
    while j < lines.len()
        decreases lines@.len() - j,
    {
        let line = &lines[j];
        let (b, e) = trim_bounds(line, 0, line.len());
        if b == e {
            break;
        }
        let c = line[b];
        if !(c == '+' || c == '\\' || c == '|') {
            break;
        }
        let mut copy: Vec<char> = Vec::new();
        let mut k: usize = 0;
        while k < line.len()
            decreases line@.len() - k,
        {
            copy.push(line[k]);
            k = k + 1;
        }
        tree.push(copy);
        j = j + 1;
    }
    parse_dep_tree(&tree, 0, 0).0
}

/// Writes `node` and its subtree, two spaces of indent per level and a
/// branch mark below the top.
pub fn format_dep_node(output: &mut String, node: &DependencyNode, depth: usize)
    decreases usize::MAX - depth,
{
    let mut d: usize = 0;
    while d < depth
        decreases depth - d,
    {
        append_text(output, "  ");
        d = d + 1;
    }
    if depth > 0 {
        append_text(output, "├── ");
    }
    if node.is_project {
        append_text(output, "project :");
        append_text(output, node.artifact.as_str());
    } else {
        append_text(output, node.group.as_str());
        append_text(output, ":");
        append_text(output, node.artifact.as_str());
        append_text(output, ":");
        append_text(output, node.version.as_str());
        match &node.resolved_version {
            Some(v) => {
                append_text(output, " -> ");
                append_text(output, v.as_str());
            },
            None => {},
        }
        if node.is_transitive_duplicate {
            append_text(output, " (*)");
        }
    }
    append_text(output, "\n");
    if depth < usize::MAX - 1 {
        let mut c: usize = 0;
        while c < node.children.len()
            invariant
                depth < usize::MAX - 1,
            decreases node.children@.len() - c,
        {
            format_dep_node(output, &node.children[c], depth + 1);
            c = c + 1;
        }
    }
}

/// The text for the dependencies of `module`.
pub fn format_dependencies(module: &str, deps: &Vec<DependencyNode>) -> (r: String) {
    let mut out = String::new();
    append_text(&mut out, "Dependencies for module '");
    append_text(&mut out, module);
    append_text(&mut out, "':\n\n");
    let mut i: usize = 0;
    while i < deps.len()
        decreases deps@.len() - i,
    {
        format_dep_node(&mut out, &deps[i], 0);
        i = i + 1;
    }
    out
}

/// The line that lists one module.
pub open spec fn module_line(m: GradleModule) -> Seq<char> {
    "  "@ + m.path@ + " ("@ + m.name@ + ")\n"@
}

pub open spec fn module_lines(ms: Seq<GradleModule>) -> Seq<char>
    decreases ms.len(),
{
    if ms.len() == 0 {
        seq![]
    } else {
        module_lines(ms.drop_last()) + module_line(ms.last())
    }
}

/// The text that lists the modules of a build.
pub fn format_modules(modules: &Vec<GradleModule>) -> (r: String)
    ensures
        r@ == "Project modules ("@ + crate::text::decimal(modules@.len() as nat) + " total):\n\n"@
            + module_lines(modules@),
{
    let mut out = String::new();
    append_text(&mut out, "Project modules (");
    append_text(&mut out, crate::text::decimal_string(modules.len()).as_str());
    append_text(&mut out, " total):\n\n");
    let ghost head = out@;
    let mut i: usize = 0;
    while i < modules.len()
        invariant
            i <= modules@.len(),
            out@ == head + module_lines(modules@.take(i as int)),
        decreases modules@.len() - i,
    {
        let ghost before = out@;
        append_text(&mut out, "  ");
        append_text(&mut out, modules[i].path.as_str());
        append_text(&mut out, " (");
        append_text(&mut out, modules[i].name.as_str());
        append_text(&mut out, ")\n");
        proof {
            assert(modules@.take(i + 1).drop_last() == modules@.take(i as int));
            assert(modules@.take(i + 1).last() == modules@[i as int]);
            assert(out@ =~= before + module_line(modules@[i as int]));
        }
        i = i + 1;
    }
    assert(modules@.take(i as int) == modules@);
    out
}

} // verus!
