//! The library's own syntax tree: the nodes of a tree-sitter parse in
//! pre-order, each with its kind, field name, parent, byte range, 1-based
//! position and text; and the child queries the extractors use.
use vstd::prelude::*;

use crate::text::same_text;

verus! {

#[verifier::external_type_specification]
#[verifier::external_body]
pub struct ExParser(tree_sitter::Parser);

#[verifier::external_type_specification]
#[verifier::external_body]
pub struct ExTree(tree_sitter::Tree);

#[verifier::external_type_specification]
#[verifier::external_body]
pub struct ExTreeCursor<'tree>(tree_sitter::TreeCursor<'tree>);

/// The grammar code of Kotlin.
pub open spec fn kotlin_grammar() -> nat {
    0
}

/// The grammar code of Java.
pub open spec fn java_grammar() -> nat {
    1
}

/// Whether the parser accepts grammar `g` (the grammar's ABI version is
/// one the runtime supports).
pub uninterp spec fn grammar_loads(g: nat) -> bool;

/// The number of nodes of the parse of `src` with grammar `g`.
pub uninterp spec fn parse_size(g: nat, src: Seq<char>) -> nat;

/// The kind of node `i` (in pre-order) of the parse of `src`.
pub uninterp spec fn parse_kind(g: nat, src: Seq<char>, i: nat) -> Seq<char>;

/// The field under which node `i` hangs from its parent.
pub uninterp spec fn parse_field(g: nat, src: Seq<char>, i: nat) -> Option<Seq<char>>;

/// The depth of node `i` below the root.
pub uninterp spec fn parse_depth(g: nat, src: Seq<char>, i: nat) -> nat;

/// The first byte of node `i`.
pub uninterp spec fn parse_start(g: nat, src: Seq<char>, i: nat) -> nat;

/// One past the last byte of node `i`.
pub uninterp spec fn parse_end(g: nat, src: Seq<char>, i: nat) -> nat;

/// The 0-based row where node `i` starts.
pub uninterp spec fn parse_row(g: nat, src: Seq<char>, i: nat) -> nat;

/// The 0-based column where node `i` starts.
pub uninterp spec fn parse_column(g: nat, src: Seq<char>, i: nat) -> nat;

/// The source text of node `i` (empty when not valid UTF-8).
pub uninterp spec fn parse_text(g: nat, src: Seq<char>, i: nat) -> Seq<char>;

/// A parser loaded with a grammar.
pub struct LoadedParser {
    parser: tree_sitter::Parser,
    pub grammar: Ghost<nat>,
}

/// The parse of `source` with grammar `grammar`.
pub struct ParsedSource {
    tree: tree_sitter::Tree,
    pub grammar: Ghost<nat>,
    pub source: Ghost<Seq<char>>,
}

/// A cursor on node `index` of a parse.
pub struct NodeCursor<'a> {
    cursor: tree_sitter::TreeCursor<'a>,
    pub grammar: Ghost<nat>,
    pub source: Ghost<Seq<char>>,
    pub index: Ghost<nat>,
}

/// Relies on `tree_sitter::Parser::new` and `Parser::set_language` with
/// `tree_sitter_kotlin_ng::LANGUAGE`: a Kotlin parser unless the grammar is
/// refused.
#[verifier::external_body]
fn kotlin_parser() -> (r: Option<LoadedParser>)
    ensures
        r is Some <==> grammar_loads(kotlin_grammar()),
        r matches Some(p) ==> p.grammar@ == kotlin_grammar(),
{
    let mut parser = tree_sitter::Parser::new();
    match parser.set_language(&tree_sitter_kotlin_ng::LANGUAGE.into()) {
        Ok(()) => Some(LoadedParser { parser, grammar: Ghost(0) }),
        Err(_) => None,
    }
}

/// Relies on `tree_sitter::Parser::new` and `Parser::set_language` with
/// `tree_sitter_java::LANGUAGE`: a Java parser unless the grammar is
/// refused.
#[verifier::external_body]
fn java_parser() -> (r: Option<LoadedParser>)
    ensures
        r is Some <==> grammar_loads(java_grammar()),
        r matches Some(p) ==> p.grammar@ == java_grammar(),
{
    let mut parser = tree_sitter::Parser::new();
    match parser.set_language(&tree_sitter_java::LANGUAGE.into()) {
        Ok(()) => Some(LoadedParser { parser, grammar: Ghost(1) }),
        Err(_) => None,
    }
}

/// Relies on `tree_sitter::Parser::parse`: with a language set (and no
/// cancellation or timeout), it gives the tree of `source`.
#[verifier::external_body]
fn parse_text_with(parser: &mut LoadedParser, source: &str) -> (r: ParsedSource)
    ensures
        r.grammar@ == old(parser).grammar@,
        r.source@ == source@,
        final(parser).grammar@ == old(parser).grammar@,
{
    let tree = parser.parser.parse(source, None).unwrap();
    ParsedSource { tree, grammar: Ghost(parser.grammar@), source: Ghost(source@) }
}

/// Relies on `tree_sitter::Tree::root_node` and `Node::descendant_count`:
/// the number of nodes of the tree.
#[verifier::external_body]
fn node_count(t: &ParsedSource) -> (r: usize)
    ensures
        r == parse_size(t.grammar@, t.source@),
{
    t.tree.root_node().descendant_count()
}

/// Relies on `tree_sitter::Tree::walk`: a cursor on the root (node 0).
#[verifier::external_body]
fn cursor_on(t: &ParsedSource) -> (r: NodeCursor<'_>)
    ensures
        r.grammar == t.grammar,
        r.source == t.source,
        r.index@ == 0,
{
    NodeCursor { cursor: t.tree.walk(), grammar: Ghost(t.grammar@), source: Ghost(t.source@), index: Ghost(0) }
}

/// Relies on `tree_sitter::TreeCursor::goto_descendant`: moves to the node
/// with that pre-order index.
#[verifier::external_body]
fn goto_descendant(c: &mut NodeCursor, index: usize)
    requires
        index < parse_size(old(c).grammar@, old(c).source@),
    ensures
        final(c).grammar == old(c).grammar,
        final(c).source == old(c).source,
        final(c).index@ == index,
{
    c.cursor.goto_descendant(index);
    c.index = Ghost(index as nat);
}

/// Relies on `tree_sitter::TreeCursor::depth`.
#[verifier::external_body]
fn cursor_depth(c: &NodeCursor) -> (r: u32)
    ensures
        r == parse_depth(c.grammar@, c.source@, c.index@),
{
    c.cursor.depth()
}

/// Relies on `tree_sitter::TreeCursor::field_name`.
#[verifier::external_body]
fn cursor_field(c: &NodeCursor) -> (r: Option<String>)
    ensures
        crate::resolve::opt_view(r) == parse_field(c.grammar@, c.source@, c.index@),
{
    c.cursor.field_name().map(|f| f.to_string())
}

/// Relies on `tree_sitter::TreeCursor::node` and `Node::kind`.
#[verifier::external_body]
fn node_kind(c: &NodeCursor) -> (r: String)
    ensures
        r@ == parse_kind(c.grammar@, c.source@, c.index@),
{
    c.cursor.node().kind().to_string()
}

/// Relies on `tree_sitter::TreeCursor::node` and `Node::start_byte`.
#[verifier::external_body]
fn node_start(c: &NodeCursor) -> (r: usize)
    ensures
        r == parse_start(c.grammar@, c.source@, c.index@),
{
    c.cursor.node().start_byte()
}

/// Relies on `tree_sitter::TreeCursor::node` and `Node::end_byte`.
#[verifier::external_body]
fn node_end(c: &NodeCursor) -> (r: usize)
    ensures
        r == parse_end(c.grammar@, c.source@, c.index@),
{
    c.cursor.node().end_byte()
}

/// Relies on `tree_sitter::TreeCursor::node` and `Node::start_position`:
/// 0-based row and column.
#[verifier::external_body]
fn node_position(c: &NodeCursor) -> (r: (usize, usize))
    ensures
        r.0 == parse_row(c.grammar@, c.source@, c.index@),
        r.1 == parse_column(c.grammar@, c.source@, c.index@),
{
    let p = c.cursor.node().start_position();
    (p.row, p.column)
}

/// Relies on `tree_sitter::TreeCursor::node` and `Node::utf8_text`: the
/// node's text, empty when it is not valid UTF-8. `source` is the text that
/// was parsed, so the node's range lies inside it.
#[verifier::external_body]
fn node_text(c: &NodeCursor, source: &str) -> (r: String)
    requires
        source@ == c.source@,
    ensures
        r@ == parse_text(c.grammar@, c.source@, c.index@),
{
    c.cursor.node().utf8_text(source.as_bytes()).unwrap_or("").to_string()
}

/// One node of a syntax tree.
#[derive(Debug, Clone)]
pub struct SyntaxNode {
    pub kind: String,
    pub field: Option<String>,
    pub parent: Option<usize>,
    pub start_byte: usize,
    pub end_byte: usize,
    pub line: usize,
    pub column: usize,
    pub text: String,
}

/// The nodes of a parse in pre-order; `ends[i]` bounds the indices of the
/// children of node `i`.
#[derive(Debug)]
pub struct SyntaxTree {
    pub nodes: Vec<SyntaxNode>,
    pub ends: Vec<usize>,
}

impl SyntaxTree {
    /// Parents come first; every child of `p` lies in `(p, ends[p])`;
    /// positions are 1-based.
    pub open spec fn wf(&self) -> bool {
        &&& self.nodes@.len() == self.ends@.len()
        &&& self.nodes@.len() < usize::MAX
        &&& forall|i: int|
            0 <= i < self.nodes@.len() ==> {
                &&& i < #[trigger] self.ends@[i] <= self.nodes@.len()
                &&& self.nodes@[i].line >= 1
                &&& self.nodes@[i].column >= 1
                &&& match self.nodes@[i].parent {
                    Some(p) => p < i && i < self.ends@[p as int],
                    None => true,
                }
            }
    }

    pub open spec fn len(&self) -> nat {
        self.nodes@.len()
    }

    pub open spec fn is_child(&self, j: int, p: int) -> bool {
        match self.nodes@[j].parent {
            Some(q) => q as int == p,
            None => false,
        }
    }

    pub open spec fn kind(&self, j: int) -> Seq<char> {
        self.nodes@[j].kind@
    }
}

/// `v` with at most `d` elements kept.
pub open spec fn keep_prefix(v: Seq<usize>, d: nat) -> Seq<usize> {
    if v.len() > d {
        v.take(d as int)
    } else {
        v
    }
}

/// The chain of open ancestors before node `i` is read.
pub open spec fn open_chain(g: nat, src: Seq<char>, i: nat) -> Seq<usize>
    decreases i,
{
    if i == 0 {
        seq![]
    } else {
        keep_prefix(open_chain(g, src, (i - 1) as nat), parse_depth(g, src, (i - 1) as nat)).push(
            (i - 1) as usize,
        )
    }
}

/// The parent of node `i`: the deepest open ancestor above its depth.
pub open spec fn parse_parent(g: nat, src: Seq<char>, i: nat) -> Option<usize> {
    let s = keep_prefix(open_chain(g, src, i), parse_depth(g, src, i));
    if s.len() > 0 {
        Some(s.last())
    } else {
        None
    }
}

/// `n + 1`, saturated.
pub open spec fn one_based(n: nat) -> usize {
    if n < usize::MAX {
        (n + 1) as usize
    } else {
        usize::MAX
    }
}

/// The number of nodes kept from a parse of `n` nodes.
pub open spec fn kept_nodes(n: nat) -> nat {
    if n >= usize::MAX {
        (usize::MAX - 1) as nat
    } else {
        n
    }
}

/// Node `i` of `t` is node `i` of the parse of `src` with grammar `g`.
pub open spec fn node_is(t: SyntaxTree, g: nat, src: Seq<char>, i: int) -> bool {
    node_matches(t.nodes@[i], g, src, i)
}

/// `n` is node `i` of the parse of `src` with grammar `g`.
pub open spec fn node_matches(n: SyntaxNode, g: nat, src: Seq<char>, i: int) -> bool {
    &&& n.kind@ == parse_kind(g, src, i as nat)
    &&& crate::resolve::opt_view(n.field) == parse_field(g, src, i as nat)
    &&& n.parent == parse_parent(g, src, i as nat)
    &&& n.start_byte == parse_start(g, src, i as nat)
    &&& n.end_byte == parse_end(g, src, i as nat)
    &&& n.line == one_based(parse_row(g, src, i as nat))
    &&& n.column == one_based(parse_column(g, src, i as nat))
    &&& n.text@ == parse_text(g, src, i as nat)
}

/// `t` is the parse of `src` with grammar `g`, node for node.
pub open spec fn is_parse(t: SyntaxTree, g: nat, src: Seq<char>) -> bool {
    &&& t.nodes@.len() == kept_nodes(parse_size(g, src))
    &&& forall|i: int| 0 <= i < t.nodes@.len() ==> #[trigger] node_is(t, g, src, i)
}

/// Parses `source` with grammar `g` (Kotlin or Java) and flattens the tree;
/// `None` exactly when the grammar is refused.
pub fn parse_tree(java: bool, source: &str) -> (r: Option<SyntaxTree>)
    ensures
        ({
            let g = if java {
                java_grammar()
            } else {
                kotlin_grammar()
            };
            match r {
                Some(t) => grammar_loads(g) && t.wf() && is_parse(t, g, source@),
                None => !grammar_loads(g),
            }
        }),
{
    let loaded = if java {
        java_parser()
    } else {
        kotlin_parser()
    };
    match loaded {
        Some(mut parser) => {
            let parsed = parse_text_with(&mut parser, source);
            Some(flatten(&parsed, source))
        },
        None => None,
    }
}

/// The nodes of `parsed` in pre-order, with parents found from depths.
fn flatten(parsed: &ParsedSource, source: &str) -> (r: SyntaxTree)
    requires
        source@ == parsed.source@,
    ensures
        r.wf(),
        is_parse(r, parsed.grammar@, parsed.source@),
{
    let ghost g = parsed.grammar@;
    let ghost src = parsed.source@;
    let count = node_count(parsed);
    let mut cursor = cursor_on(parsed);
    let mut nodes: Vec<SyntaxNode> = Vec::new();
    let mut stack: Vec<usize> = Vec::new();
    let mut i: usize = 0;
    let count = if count == usize::MAX { count - 1 } else { count };
    assert(count == kept_nodes(parse_size(g, src)));
    while i < count
        invariant
            count < usize::MAX,
            count <= parse_size(g, src),
            count == kept_nodes(parse_size(g, src)),
            source@ == src,
            cursor.grammar@ == g,
            cursor.source@ == src,
            i <= count,
            nodes@.len() == i,
            stack@ == open_chain(g, src, i as nat),
            forall|k: int| 0 <= k < stack@.len() ==> #[trigger] stack@[k] < i,
            forall|k: int|
                0 <= k < i ==> {
                    &&& (#[trigger] nodes@[k]).line >= 1
                    &&& nodes@[k].column >= 1
                    &&& match nodes@[k].parent {
                        Some(p) => p < k,
                        None => true,
                    }
                },
            forall|k: int| 0 <= k < i ==> node_matches(#[trigger] nodes@[k], g, src, k),
        decreases count - i,
    {
        goto_descendant(&mut cursor, i);
        let depth = cursor_depth(&cursor) as usize;
        let ghost chain = stack@;
        while stack.len() > depth
            invariant
                forall|k: int| 0 <= k < stack@.len() ==> #[trigger] stack@[k] < i,
                stack@.len() <= chain.len(),
                stack@ == chain.take(stack@.len() as int),
                chain.len() > depth ==> stack@.len() >= depth,
                chain.len() <= depth ==> stack@ == chain,
            decreases stack@.len(),
        {
            stack.pop();
        }
        assert(stack@ == keep_prefix(chain, depth as nat)) by {
            if chain.len() > depth {
                assert(stack@.len() == depth);
            }
        }
        let parent = if stack.len() > 0 {
            Some(stack[stack.len() - 1])
        } else {
            None
        };
        let (row, col) = node_position(&cursor);
        let node = SyntaxNode {
            kind: node_kind(&cursor),
            field: cursor_field(&cursor),
            parent,
            start_byte: node_start(&cursor),
            end_byte: node_end(&cursor),
            line: row.saturating_add(1),
            column: col.saturating_add(1),
            text: node_text(&cursor, source),
        };
        let ghost before = nodes@;
        nodes.push(node);
        stack.push(i);
        proof {
            assert forall|k: int| 0 <= k < i + 1 implies node_matches(#[trigger] nodes@[k], g, src, k) by {
                if k < i {
                    assert(nodes@[k] == before[k]);
                }
            }
        }
        i = i + 1;
    }
    let n = nodes.len();
    let mut ends: Vec<usize> = Vec::new();
    let mut k: usize = 0;
    while k < n
        invariant
            k <= n,
            n == nodes@.len(),
            ends@.len() == k,
            forall|q: int| 0 <= q < k ==> #[trigger] ends@[q] == q + 1,
        decreases n - k,
    {
        ends.push(k + 1);
        k = k + 1;
    }
    let mut j: usize = n;
    while j > 0
        invariant
            j <= n,
            n == nodes@.len(),
            ends@.len() == n,
            forall|q: int| 0 <= q < n ==> q < #[trigger] ends@[q] <= n,
            forall|q: int|
                0 <= q < n ==> match (#[trigger] nodes@[q]).parent {
                    Some(p) => p < q,
                    None => true,
                },
            forall|q: int|
                j <= q < n ==> match (#[trigger] nodes@[q]).parent {
                    Some(p) => q < ends@[p as int],
                    None => true,
                },
        decreases j,
    {
        j = j - 1;
        match nodes[j].parent {
            Some(p) => {
                if ends[p] < ends[j] {
                    let e = ends[j];
                    ends.set(p, e);
                }
            },
            None => {},
        }
    }
    let t = SyntaxTree { nodes, ends };
    assert forall|q: int| 0 <= q < t.nodes@.len() implies #[trigger] node_is(t, g, src, q) by {
        assert(node_matches(t.nodes@[q], g, src, q));
    }
    t
}

/// What a child query looks for: any node; a node whose field is
/// `field`; or a node whose kind is among `kinds`.
pub struct Probe {
    pub any: bool,
    pub field: Option<&'static str>,
    pub kinds: Vec<&'static str>,
}

pub open spec fn kind_among(n: SyntaxNode, ks: Seq<&'static str>) -> bool {
    exists|k: int| 0 <= k < ks.len() && n.kind@ == (#[trigger] ks[k])@
}

pub open spec fn probe_holds(probe: Probe, n: SyntaxNode) -> bool {
    if probe.any {
        true
    } else {
        match probe.field {
            Some(f) => n.field is Some && n.field->0@ == f@,
            None => kind_among(n, probe.kinds@),
        }
    }
}

fn probe_exec(probe: &Probe, n: &SyntaxNode) -> (r: bool)
    ensures
        r == probe_holds(*probe, *n),
{
    if probe.any {
        return true;
    }
    if probe.field.is_some() {
        let f: &str = probe.field.unwrap();
        return match &n.field {
            Some(g) => same_text(g.as_str(), f),
            None => false,
        };
    }
    let mut k: usize = 0;
    while k < probe.kinds.len()
        invariant
            k <= probe.kinds@.len(),
            !probe.any,
            probe.field is None,
            forall|q: int| 0 <= q < k ==> n.kind@ != (#[trigger] probe.kinds@[q])@,
        decreases probe.kinds@.len() - k,
    {
        if same_text(n.kind.as_str(), probe.kinds[k]) {
            assert(n.kind@ == probe.kinds@[k as int]@);
            return true;
        }
        k = k + 1;
    }
    false
}

/// A probe for any of `kinds`.
pub fn kinds(ks: Vec<&'static str>) -> (r: Probe)
    ensures
        !r.any,
        r.field is None,
        r.kinds@ == ks@,
{
    Probe { any: false, field: None, kinds: ks }
}

/// A probe for field `f`.
pub fn field(f: &'static str) -> (r: Probe)
    ensures
        !r.any,
        r.field == Some(f),
{
    Probe { any: false, field: Some(f), kinds: Vec::new() }
}

/// A probe for any node.
pub fn any_node() -> (r: Probe)
    ensures
        r.any,
{
    Probe { any: true, field: None, kinds: Vec::new() }
}

/// The first child of `p`, at index `from` or later, that satisfies
/// `probe`.
pub open spec fn child_from(t: SyntaxTree, p: int, from: int, probe: Probe) -> Option<int>
    decreases t.nodes@.len() - from,
{
    if from < 0 || from >= t.nodes@.len() {
        None
    } else if t.is_child(from, p) && probe_holds(probe, t.nodes@[from]) {
        Some(from)
    } else {
        child_from(t, p, from + 1, probe)
    }
}

/// The first child of `p` that satisfies `probe`.
pub open spec fn first_child(t: SyntaxTree, p: int, probe: Probe) -> Option<int> {
    child_from(t, p, p + 1, probe)
}

proof fn lemma_no_child_beyond(t: SyntaxTree, p: int, from: int, probe: Probe)
    requires
        t.wf(),
        0 <= p < t.nodes@.len(),
        from >= t.ends@[p],
    ensures
        child_from(t, p, from, probe) is None,
    decreases t.nodes@.len() - from,
{
    if 0 <= from < t.nodes@.len() {
        assert(from < t.ends@[from]);
        lemma_no_child_beyond(t, p, from + 1, probe);
    }
}

/// The first child of `p`, at index `from` or later, that satisfies `probe`.
pub fn find_child_from(t: &SyntaxTree, p: usize, from: usize, probe: &Probe) -> (r: Option<usize>)
    requires
        t.wf(),
        p < t.nodes@.len(),
        p < from,
    ensures
        match r {
            Some(j) => child_from(*t, p as int, from as int, *probe) == Some(j as int),
            None => child_from(*t, p as int, from as int, *probe) is None,
        },
        r matches Some(j) ==> from <= j < t.nodes@.len() && t.is_child(j as int, p as int),
{
    proof {
        lemma_child_in_range(*t, p as int, from as int, *probe);
    }
    let end = t.ends[p];
    let mut j = from;
    while j < end
        invariant
            t.wf(),
            p < t.nodes@.len(),
            end == t.ends@[p as int],
            end <= t.nodes@.len(),
            from <= j,
            child_from(*t, p as int, from as int, *probe) == child_from(*t, p as int, j as int, *probe),
        decreases end - j,
    {
        let n = &t.nodes[j];
        let is_child = match n.parent {
            Some(q) => q == p,
            None => false,
        };
        if is_child && probe_exec(probe, n) {
            return Some(j);
        }
        j = j + 1;
    }
    proof {
        lemma_no_child_beyond(*t, p as int, j as int, *probe);
    }
    None
}

/// The first child of `p` that satisfies `probe`.
pub fn find_child(t: &SyntaxTree, p: usize, probe: &Probe) -> (r: Option<usize>)
    requires
        t.wf(),
        p < t.nodes@.len(),
    ensures
        match r {
            Some(j) => first_child(*t, p as int, *probe) == Some(j as int),
            None => first_child(*t, p as int, *probe) is None,
        },
        r matches Some(j) ==> p < j < t.nodes@.len() && t.is_child(j as int, p as int),
{
    let _n = t.nodes.len();
    find_child_from(t, p, p + 1, probe)
}

/// The last child of `p` below index `upto`.
pub open spec fn last_child_below(t: SyntaxTree, p: int, upto: int) -> Option<int>
    decreases upto,
{
    if upto <= 0 || upto > t.nodes@.len() {
        None
    } else if t.is_child(upto - 1, p) {
        Some(upto - 1)
    } else {
        last_child_below(t, p, upto - 1)
    }
}

/// The last child of `p`.
pub open spec fn last_child(t: SyntaxTree, p: int) -> Option<int> {
    last_child_below(t, p, t.nodes@.len() as int)
}

proof fn lemma_last_child_within(t: SyntaxTree, p: int, upto: int)
    requires
        t.wf(),
        0 <= p < t.nodes@.len(),
        t.ends@[p] <= upto <= t.nodes@.len(),
    ensures
        last_child_below(t, p, upto) == last_child_below(t, p, t.ends@[p] as int),
    decreases upto,
{
    if upto > t.ends@[p] {
        assert(upto - 1 < t.ends@[upto - 1]);
        lemma_last_child_within(t, p, upto - 1);
    }
}

/// The last child of `p`.
pub fn find_last_child(t: &SyntaxTree, p: usize) -> (r: Option<usize>)
    requires
        t.wf(),
        p < t.nodes@.len(),
    ensures
        match r {
            Some(j) => last_child(*t, p as int) == Some(j as int),
            None => last_child(*t, p as int) is None,
        },
        r matches Some(j) ==> j < t.nodes@.len() && t.is_child(j as int, p as int),
{
    proof {
        lemma_last_child_in_range(*t, p as int, t.nodes@.len() as int);
        lemma_last_child_within(*t, p as int, t.nodes@.len() as int);
    }
    let mut j = t.ends[p];
    while j > p + 1
        invariant
            t.wf(),
            p < t.nodes@.len(),
            p + 1 <= j <= t.ends@[p as int],
            last_child(*t, p as int) == last_child_below(*t, p as int, j as int),
        decreases j,
    {
        let is_child = match t.nodes[j - 1].parent {
            Some(q) => q == p,
            None => false,
        };
        if is_child {
            return Some(j - 1);
        }
        j = j - 1;
    }
    proof {
        lemma_last_below_parent(*t, p as int, j as int);
    }
    None
}

proof fn lemma_last_below_parent(t: SyntaxTree, p: int, upto: int)
    requires
        t.wf(),
        0 <= p < t.nodes@.len(),
        0 <= upto <= p + 1,
    ensures
        last_child_below(t, p, upto) is None,
    decreases upto,
{
    if upto > 0 {
        assert(upto - 1 < t.ends@[upto - 1]);
        match t.nodes@[upto - 1].parent {
            Some(q) => {
                assert(q < upto - 1);
            },
            None => {},
        }
        assert(!t.is_child(upto - 1, p));
        lemma_last_below_parent(t, p, upto - 1);
    }
}

/// Whether node `i` has kind `k`.
pub fn kind_is(t: &SyntaxTree, i: usize, k: &str) -> (r: bool)
    requires
        i < t.nodes@.len(),
    ensures
        r == (t.nodes@[i as int].kind@ == k@),
{
    same_text(t.nodes[i].kind.as_str(), k)
}

/// A child found by a query lies in the tree.
pub proof fn lemma_child_in_range(t: SyntaxTree, p: int, from: int, probe: Probe)
    ensures
        child_from(t, p, from, probe) matches Some(j) ==> from <= j < t.nodes@.len() && t.is_child(j, p),
    decreases t.nodes@.len() - from,
{
    if 0 <= from < t.nodes@.len() && !(t.is_child(from, p) && probe_holds(probe, t.nodes@[from])) {
        lemma_child_in_range(t, p, from + 1, probe);
    }
}

/// A last child lies in the tree.
pub proof fn lemma_last_child_in_range(t: SyntaxTree, p: int, upto: int)
    ensures
        last_child_below(t, p, upto) matches Some(j) ==> 0 <= j < upto && j < t.nodes@.len() && t.is_child(j, p),
    decreases upto,
{
    if 0 < upto <= t.nodes@.len() && !t.is_child(upto - 1, p) {
        lemma_last_child_in_range(t, p, upto - 1);
    }
}

/// The first child of `p`, at index `from` or later, whose kind is among
/// `ks`.
pub open spec fn kind_child_from(t: SyntaxTree, p: int, from: int, ks: Seq<&'static str>) -> Option<int>
    decreases t.nodes@.len() - from,
{
    if from < 0 || from >= t.nodes@.len() {
        None
    } else if t.is_child(from, p) && kind_among(t.nodes@[from], ks) {
        Some(from)
    } else {
        kind_child_from(t, p, from + 1, ks)
    }
}

pub proof fn lemma_kind_probe(t: SyntaxTree, p: int, from: int, probe: Probe)
    requires
        !probe.any,
        probe.field is None,
    ensures
        child_from(t, p, from, probe) == kind_child_from(t, p, from, probe.kinds@),
    decreases t.nodes@.len() - from,
{
    if 0 <= from < t.nodes@.len() {
        lemma_kind_probe(t, p, from + 1, probe);
    }
}

/// The first child of `p` at `from` or later whose kind is among `ks`.
pub fn find_kind_child_from(t: &SyntaxTree, p: usize, from: usize, ks: Vec<&'static str>) -> (r: Option<usize>)
    requires
        t.wf(),
        p < t.nodes@.len(),
        p < from,
    ensures
        match r {
            Some(j) => kind_child_from(*t, p as int, from as int, ks@) == Some(j as int),
            None => kind_child_from(*t, p as int, from as int, ks@) is None,
        },
        r matches Some(j) ==> from <= j < t.nodes@.len() && t.is_child(j as int, p as int),
{
    let probe = kinds(ks);
    proof {
        lemma_kind_probe(*t, p as int, from as int, probe);
    }
    find_child_from(t, p, from, &probe)
}

/// The first child of `p` whose kind is among `ks`.
pub fn find_kind_child(t: &SyntaxTree, p: usize, ks: Vec<&'static str>) -> (r: Option<usize>)
    requires
        t.wf(),
        p < t.nodes@.len(),
    ensures
        match r {
            Some(j) => kind_child_from(*t, p as int, p + 1, ks@) == Some(j as int),
            None => kind_child_from(*t, p as int, p + 1, ks@) is None,
        },
        r matches Some(j) ==> p < j < t.nodes@.len() && t.is_child(j as int, p as int),
{
    let _n = t.nodes.len();
    find_kind_child_from(t, p, p + 1, ks)
}

/// No node at or past `ends[p]` is a child of `p`.
pub proof fn lemma_no_child_past_end(t: SyntaxTree, p: int, j: int)
    requires
        t.wf(),
        0 <= p < t.nodes@.len(),
        t.ends@[p] <= j < t.nodes@.len(),
    ensures
        !t.is_child(j, p),
{
    assert(j < t.ends@[j]);
}

/// The first child of `p`, at index `from` or later, hung under field `f`.
pub open spec fn field_child_from(t: SyntaxTree, p: int, from: int, f: Seq<char>) -> Option<int>
    decreases t.nodes@.len() - from,
{
    if from < 0 || from >= t.nodes@.len() {
        None
    } else if t.is_child(from, p) && t.nodes@[from].field is Some && t.nodes@[from].field->0@ == f {
        Some(from)
    } else {
        field_child_from(t, p, from + 1, f)
    }
}

proof fn lemma_field_probe(t: SyntaxTree, p: int, from: int, probe: Probe)
    requires
        !probe.any,
        probe.field is Some,
    ensures
        child_from(t, p, from, probe) == field_child_from(t, p, from, probe.field->0@),
    decreases t.nodes@.len() - from,
{
    if 0 <= from < t.nodes@.len() {
        lemma_field_probe(t, p, from + 1, probe);
    }
}

/// The first child of `p` hung under field `f`.
pub fn find_field_child(t: &SyntaxTree, p: usize, f: &'static str) -> (r: Option<usize>)
    requires
        t.wf(),
        p < t.nodes@.len(),
    ensures
        match r {
            Some(j) => field_child_from(*t, p as int, p + 1, f@) == Some(j as int),
            None => field_child_from(*t, p as int, p + 1, f@) is None,
        },
        r matches Some(j) ==> p < j < t.nodes@.len() && t.is_child(j as int, p as int),
{
    let probe = field(f);
    proof {
        lemma_field_probe(*t, p as int, (p + 1) as int, probe);
    }
    find_child(t, p, &probe)
}

/// The first child of `p` at index `from` or later.
pub open spec fn any_child_from(t: SyntaxTree, p: int, from: int) -> Option<int>
    decreases t.nodes@.len() - from,
{
    if from < 0 || from >= t.nodes@.len() {
        None
    } else if t.is_child(from, p) {
        Some(from)
    } else {
        any_child_from(t, p, from + 1)
    }
}

proof fn lemma_any_probe(t: SyntaxTree, p: int, from: int, probe: Probe)
    requires
        probe.any,
    ensures
        child_from(t, p, from, probe) == any_child_from(t, p, from),
    decreases t.nodes@.len() - from,
{
    if 0 <= from < t.nodes@.len() {
        lemma_any_probe(t, p, from + 1, probe);
    }
}

/// The first child of `p` at `from` or later.
pub fn find_any_child_from(t: &SyntaxTree, p: usize, from: usize) -> (r: Option<usize>)
    requires
        t.wf(),
        p < t.nodes@.len(),
        p < from,
    ensures
        match r {
            Some(j) => any_child_from(*t, p as int, from as int) == Some(j as int),
            None => any_child_from(*t, p as int, from as int) is None,
        },
        r matches Some(j) ==> from <= j < t.nodes@.len() && t.is_child(j as int, p as int),
{
    let probe = any_node();
    proof {
        lemma_any_probe(*t, p as int, from as int, probe);
    }
    find_child_from(t, p, from, &probe)
}

/// The first child of `p`.
pub fn find_any_child(t: &SyntaxTree, p: usize) -> (r: Option<usize>)
    requires
        t.wf(),
        p < t.nodes@.len(),
    ensures
        match r {
            Some(j) => any_child_from(*t, p as int, p + 1) == Some(j as int),
            None => any_child_from(*t, p as int, p + 1) is None,
        },
        r matches Some(j) ==> p < j < t.nodes@.len() && t.is_child(j as int, p as int),
{
    let _n = t.nodes.len();
    find_any_child_from(t, p, p + 1)
}

} // verus!
