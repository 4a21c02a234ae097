//! Phase 1 of one file, from its raw contents.
//!
//! tree-sitter parses the contents and runs the language's queries. Its
//! results depend on the contents and the query text alone, so each is named
//! as plain values: the nodes of the parse in pre-order, the capture names
//! and property settings of a query, and the matches of a query over the
//! contents. Small wrappers hand the library those values, and the library
//! turns them into its own `SyntaxTree` and `QueryMatch` records.

use crate::hash::content_hash;
use crate::lang::{claims, module_segments, position_for_path, LanguageDef};
use crate::order::{str_eq, views};
use crate::phase1::{
    tier1_result, tier1_symbols, tree_ok, Capture, FileAnalysis, PatternProperties, QueryMatch, SyntaxNode, SyntaxTree,
};
use crate::symbol::Symbol;
use crate::tier0::{indentation_widths, lines, nonblank_widths};
use crate::walk::text_hash;
use tree_sitter::StreamingIterator;
use vstd::prelude::*;

verus! {

#[verifier::external_type_specification]
#[verifier::external_body]
pub struct ExTree(tree_sitter::Tree);

#[verifier::external_type_specification]
#[verifier::external_body]
pub struct ExQuery(tree_sitter::Query);

/// A node of a parse as plain values: its kind; its text, when its byte
/// range of the contents is valid UTF-8; its start and end byte; its start
/// and end row and column; the pre-order position of its parent; and the
/// number of its children.
pub type NodeView = (Seq<char>, Option<Seq<char>>, usize, usize, (usize, usize), (usize, usize), Option<usize>, usize);

/// The nodes of the Rust grammar's parse of `contents`, in pre-order;
/// `None` when the grammar is refused or the parse stops.
pub uninterp spec fn rust_syntax(contents: Seq<char>) -> Option<Seq<NodeView>>;

/// A query as plain values: its capture names, and the property settings
/// of each of its patterns as key and value.
pub type QueryView = (Seq<Seq<char>>, Seq<Seq<(Seq<char>, Option<Seq<char>>)>>);

/// The query that the Rust grammar compiles from `source`; `None` when the
/// grammar refuses it.
pub uninterp spec fn rust_query(source: Seq<char>) -> Option<QueryView>;

/// A capture as plain values: its capture index, and its node's start
/// byte, end byte and kind.
pub type RawCapture = (u32, (usize, usize, Seq<char>));

/// A match as plain values: its pattern index and its captures.
pub type RawMatch = (usize, Seq<RawCapture>);

/// The matches, in the order tree-sitter reports them, of the Rust query
/// compiled from `query` over the Rust parse of `contents`.
pub uninterp spec fn rust_matches(query: Seq<char>, contents: Seq<char>) -> Seq<RawMatch>;

/// A Rust parse, kept beside the contents it was made from. Only
/// `parse_rust` makes one.
pub struct ParsedRust {
    tree: tree_sitter::Tree,
    contents: String,
}

impl ParsedRust {
    /// The parse's nodes as plain values.
    pub closed spec fn model(self) -> Seq<NodeView> {
        rust_syntax(self.contents@)->0
    }
}

/// A query compiled by the Rust grammar, kept beside its source. Only
/// `compile_rust_query` makes one.
pub struct RustQuery {
    query: tree_sitter::Query,
    source: String,
}

impl RustQuery {
    /// The query as plain values.
    pub closed spec fn model(self) -> QueryView {
        rust_query(self.source@)->0
    }
}

/// `Parser::set_language` with `tree_sitter_rust::LANGUAGE`, then
/// `Parser::parse`: the parse of the contents, or `None` when the grammar is
/// refused or parsing stops. It depends on the contents alone.
#[verifier::external_body]
fn parse_rust(contents: &str) -> (r: Option<ParsedRust>)
    ensures
        r is Some <==> rust_syntax(contents@) is Some,
        r matches Some(p) ==> p.contents@ == contents@,
{
    let mut parser = tree_sitter::Parser::new();
    match parser.set_language(&tree_sitter_rust::LANGUAGE.into()) {
        Ok(()) => parser.parse(contents, None).map(|tree| ParsedRust { tree, contents: contents.to_owned() }),
        Err(_) => None,
    }
}

/// `Node::descendant_count` of the root: the number of nodes of the parse.
#[verifier::external_body]
fn node_count(p: &ParsedRust) -> (r: usize)
    ensures
        r == p.model().len(),
{
    p.tree.root_node().descendant_count()
}

/// `TreeCursor::goto_descendant` from the root, to the node at pre-order
/// position `k`: its kind, start and end byte, start and end position, the
/// position of its parent (`TreeCursor::goto_parent`, then
/// `TreeCursor::descendant_index`) and its number of children.
#[verifier::external_body]
fn node_at(p: &ParsedRust, k: usize) -> (r: (String, usize, usize, (usize, usize), (usize, usize), Option<usize>, usize))
    requires
        k < p.model().len(),
    ensures
        r.0@ == p.model()[k as int].0,
        r.1 == p.model()[k as int].2,
        r.2 == p.model()[k as int].3,
        r.3 == p.model()[k as int].4,
        r.4 == p.model()[k as int].5,
        r.5 == p.model()[k as int].6,
        r.6 == p.model()[k as int].7,
{
    let mut cursor = p.tree.root_node().walk();
    cursor.goto_descendant(k);
    let node = cursor.node();
    let (start, end) = (node.start_position(), node.end_position());
    let kind = node.kind().to_owned();
    let parent = if cursor.goto_parent() { Some(cursor.descendant_index()) } else { None };
    (kind, node.start_byte(), node.end_byte(), (start.row, start.column), (end.row, end.column), parent, node.child_count())
}

/// The text of the byte range (`Node::byte_range`) of the node at pre-order
/// position `k`, read from the contents: `None` when the range does not lie
/// within them or is not valid UTF-8.
#[verifier::external_body]
fn node_text_at(p: &ParsedRust, k: usize) -> (r: Option<String>)
    requires
        k < p.model().len(),
    ensures
        match r {
            Some(t) => p.model()[k as int].1 == Some(t@),
            None => p.model()[k as int].1 is None,
        },
{
    let mut cursor = p.tree.root_node().walk();
    cursor.goto_descendant(k);
    match p.contents.as_bytes().get(cursor.node().byte_range()) {
        Some(bytes) => std::str::from_utf8(bytes).ok().map(|text| text.to_owned()),
        None => None,
    }
}

/// `Query::new` with `tree_sitter_rust::LANGUAGE`: the compiled query, or
/// `None` when the grammar refuses it. It depends on the source alone.
#[verifier::external_body]
fn compile_rust_query(source: &str) -> (r: Option<RustQuery>)
    ensures
        r is Some <==> rust_query(source@) is Some,
        r matches Some(q) ==> q.source@ == source@,
{
    match tree_sitter::Query::new(&tree_sitter_rust::LANGUAGE.into(), source) {
        Ok(query) => Some(RustQuery { query, source: source.to_owned() }),
        Err(_) => None,
    }
}

/// `Query::capture_names`, owned.
#[verifier::external_body]
fn capture_names(q: &RustQuery) -> (r: Vec<String>)
    ensures
        views(r@) == q.model().0,
{
    q.query.capture_names().iter().map(|name| name.to_string()).collect()
}

/// A setting as plain values.
pub open spec fn setting_view(s: (String, Option<String>)) -> (Seq<char>, Option<Seq<char>>) {
    (s.0@, opt_view(s.1))
}

/// Settings as plain values.
pub open spec fn settings_view(s: Seq<(String, Option<String>)>) -> Seq<(Seq<char>, Option<Seq<char>>)> {
    s.map_values(|x: (String, Option<String>)| setting_view(x))
}

/// `Query::property_settings` of every pattern (`Query::pattern_count` of
/// them), each setting as its key and value.
#[verifier::external_body]
fn property_settings(q: &RustQuery) -> (r: Vec<Vec<(String, Option<String>)>>)
    ensures
        r@.len() == q.model().1.len(),
        forall|i: int| 0 <= i < r@.len() ==> settings_view(#[trigger] r@[i]@) == q.model().1[i],
{
    (0..q.query.pattern_count()).map(
        |pattern| {
            q.query.property_settings(pattern).iter().map(
                |setting| (setting.key.to_string(), setting.value.as_ref().map(|v| v.to_string())),
            ).collect()
        },
    ).collect()
}

/// A capture's node key as plain values.
pub open spec fn raw_key_view(k: (usize, usize, String)) -> (usize, usize, Seq<char>) {
    (k.0, k.1, k.2@)
}

/// A reported match as plain values.
pub open spec fn raw_match_view(m: (usize, Vec<(u32, (usize, usize, String))>)) -> RawMatch {
    (m.0, m.1@.map_values(|c: (u32, (usize, usize, String))| (c.0, raw_key_view(c.1))))
}

/// `QueryCursor::matches` of the query over the whole parse: every match, as
/// its pattern index and its captures, each as its capture index and its
/// node's start byte, end byte and kind. A text predicate reads a node's
/// byte range of the contents, or nothing where that range does not lie
/// within them.
#[verifier::external_body]
fn query_matches(q: &RustQuery, p: &ParsedRust) -> (r: Vec<(usize, Vec<(u32, (usize, usize, String))>)>)
    ensures
        r@.map_values(|m: (usize, Vec<(u32, (usize, usize, String))>)| raw_match_view(m)) == rust_matches(
            q.source@,
            p.contents@,
        ),
{
    let mut cursor = tree_sitter::QueryCursor::new();
    let bytes = p.contents.as_bytes();
    let text = |node: tree_sitter::Node| std::iter::once(bytes.get(node.byte_range()).unwrap_or(&[]));
    let mut found = cursor.matches(&q.query, p.tree.root_node(), text);
    let mut out = Vec::new();
    while let Some(m) = found.next() {
        out.push((m.pattern_index, m.captures.iter().map(|c| (c.index, (c.node.start_byte(), c.node.end_byte(), c.node.kind().to_owned()))).collect()));
    }
    out
}

/// An optional text as plain values.
pub open spec fn opt_view(o: Option<String>) -> Option<Seq<char>> {
    match o {
        Some(s) => Some(s@),
        None => None,
    }
}

/// The parent of node `k`, when it comes before it.
pub open spec fn parent_in(m: Seq<NodeView>, k: int) -> Option<usize> {
    match m[k].6 {
        Some(q) => if q < k {
            Some(q)
        } else {
            None
        },
        None => None,
    }
}

/// The positions before `n` whose parent is `v`, ascending.
pub open spec fn kids(m: Seq<NodeView>, v: int, n: int) -> Seq<usize>
    decreases n,
{
    if n <= 0 {
        Seq::empty()
    } else {
        let rest = kids(m, v, n - 1);
        if parent_in(m, n - 1) == Some(v as usize) {
            rest.push((n - 1) as usize)
        } else {
            rest
        }
    }
}

/// A plain tree node as plain values: position, kind, text, start byte,
/// start row and column, end row and column, parent and children.
pub type FlatView = (usize, Seq<char>, Option<Seq<char>>, usize, usize, usize, usize, usize, Option<usize>, Seq<usize>);

pub open spec fn syntax_node_view(n: SyntaxNode) -> FlatView {
    (n.id, n.kind@, opt_view(n.text), n.start_byte, n.start_row, n.start_column, n.end_row, n.end_column, n.parent, n.children@)
}

/// Node `k` of the parse as the library records it, with the children among
/// the first `n` nodes: only a leaf keeps its text.
pub open spec fn flat_node(m: Seq<NodeView>, k: int, n: int) -> FlatView {
    (
        k as usize,
        m[k].0,
        if m[k].7 == 0 {
            m[k].1
        } else {
            None
        },
        m[k].2,
        m[k].4.0,
        m[k].4.1,
        m[k].5.0,
        m[k].5.1,
        parent_in(m, k),
        kids(m, k, n),
    )
}

/// `t` is the library's plain tree of the parse `m`.
pub open spec fn tree_of(t: Seq<SyntaxNode>, m: Seq<NodeView>) -> bool {
    &&& t.len() == m.len()
    &&& forall|k: int| 0 <= k < t.len() ==> syntax_node_view(#[trigger] t[k]) == flat_node(m, k, m.len() as int)
}

proof fn lemma_kids_before(m: Seq<NodeView>, v: int, n: int)
    requires
        0 <= n <= v + 1,
        v <= usize::MAX,
    ensures
        kids(m, v, n) == Seq::<usize>::empty(),
    decreases n,
{
    if n > 0 {
        lemma_kids_before(m, v, n - 1);
    }
}

/// Every child listed lies after its parent and before `n`.
proof fn lemma_kids_bounds(m: Seq<NodeView>, v: int, n: int)
    requires
        0 <= n <= usize::MAX,
        0 <= v <= usize::MAX,
    ensures
        forall|j: int| 0 <= j < kids(m, v, n).len() ==> v < #[trigger] kids(m, v, n)[j] < n,
    decreases n,
{
    if n > 0 {
        lemma_kids_bounds(m, v, n - 1);
        let rest = kids(m, v, n - 1);
        assert forall|j: int| 0 <= j < kids(m, v, n).len() implies v < #[trigger] kids(m, v, n)[j] < n by {
            if j < rest.len() {
                assert(kids(m, v, n)[j] == rest[j]);
            }
        }
    }
}

/// The parse as the library's plain tree, nodes in pre-order, each knowing
/// its parent and children; the end byte of every node beside it. Only
/// leaves carry their text: nothing reads the text of an inner node.
fn flatten(p: &ParsedRust) -> (r: (SyntaxTree, Vec<usize>))
    ensures
        tree_ok(r.0.nodes@),
        tree_of(r.0.nodes@, p.model()),
        r.1@.len() == p.model().len(),
        forall|k: int| 0 <= k < r.1@.len() ==> #[trigger] r.1@[k] == p.model()[k].3,
{
    let ghost m = p.model();
    let n = node_count(p);
    let mut nodes: Vec<SyntaxNode> = Vec::new();
    let mut ends: Vec<usize> = Vec::new();
    let mut k: usize = 0;
    while k < n
        invariant
            k <= n,
            n == m.len(),
            m == p.model(),
            nodes@.len() == k,
            ends@.len() == k,
            forall|j: int| 0 <= j < k ==> #[trigger] ends@[j] == m[j].3,
            forall|j: int| 0 <= j < k ==> syntax_node_view(#[trigger] nodes@[j]) == flat_node(m, j, k as int),
        decreases n - k,
    {
        let (kind, start_byte, end_byte, start, end, raw_parent, count) = node_at(p, k);
        let text = if count == 0 {
            node_text_at(p, k)
        } else {
            None
        };
        let parent = match raw_parent {
            Some(q) => if q < k {
                Some(q)
            } else {
                None
            },
            None => None,
        };
        let ghost before = nodes@;
        nodes.push(
            SyntaxNode {
                id: k,
                kind,
                text,
                start_byte,
                start_row: start.0,
                start_column: start.1,
                end_row: end.0,
                end_column: end.1,
                parent,
                children: Vec::new(),
            },
        );
        ends.push(end_byte);
        proof {
            lemma_kids_before(m, k as int, k as int + 1);
            assert(syntax_node_view(nodes@[k as int]) == flat_node(m, k as int, k + 1));
        }
        let ghost pushed = nodes@;
        match parent {
            Some(q) => {
                let mut entry = SyntaxNode {
                    id: 0,
                    kind: String::new(),
                    text: None,
                    start_byte: 0,
                    start_row: 0,
                    start_column: 0,
                    end_row: 0,
                    end_column: 0,
                    parent: None,
                    children: Vec::new(),
                };
                std::mem::swap(&mut entry, &mut nodes[q]);
                entry.children.push(k);
                nodes.set(q, entry);
                proof {
                    assert forall|j: int| 0 <= j < k + 1 implies syntax_node_view(#[trigger] nodes@[j]) == flat_node(
                        m,
                        j,
                        k + 1,
                    ) by {
                        if j != q {
                            assert(nodes@[j] == pushed[j]);
                        } else {
                            assert(nodes@[j].children@ =~= pushed[j].children@.push(k));
                        }
                    }
                }
            },
            None => {
                proof {
                    assert forall|j: int| 0 <= j < k + 1 implies syntax_node_view(#[trigger] nodes@[j]) == flat_node(
                        m,
                        j,
                        k + 1,
                    ) by {
                        if j < k {
                            assert(nodes@[j] == before[j]);
                        }
                    }
                }
            },
        }
        k = k + 1;
    }
    proof {
        assert forall|v: int, j: int|
            0 <= v < nodes@.len() && 0 <= j < nodes@[v].children@.len() implies v < #[trigger] nodes@[v].children@[j]
            < nodes@.len() by {
            lemma_kids_bounds(m, v, n as int);
            assert(nodes@[v].children@ == kids(m, v, n as int));
        }
        assert forall|v: int| 0 <= v < nodes@.len() && (#[trigger] nodes@[v]).parent is Some implies nodes@[v].parent->0
            < v by {
            assert(nodes@[v].parent == parent_in(m, v));
        }
    }
    (SyntaxTree { nodes }, ends)
}

/// A node's key as plain values: start byte, end byte and kind.
pub open spec fn node_key(v: NodeView) -> (usize, usize, Seq<char>) {
    (v.2, v.3, v.0)
}

/// `k` is the first node with key `key`.
pub open spec fn first_with(m: Seq<NodeView>, key: (usize, usize, Seq<char>), k: int) -> bool {
    &&& 0 <= k < m.len()
    &&& node_key(m[k]) == key
    &&& forall|j: int| 0 <= j < k ==> node_key(#[trigger] m[j]) != key
}

/// The first node, in pre-order, with the key `key`.
pub open spec fn node_for(m: Seq<NodeView>, key: (usize, usize, Seq<char>)) -> Option<usize> {
    if exists|k: int| 0 <= k < m.len() && node_key(#[trigger] m[k]) == key {
        Some((choose|k: int| first_with(m, key, k)) as usize)
    } else {
        None
    }
}

/// A capture as plain values: name, node position and text.
pub type CaptureView = (Seq<char>, usize, Seq<char>);

/// An optional text, empty when absent.
pub open spec fn text_or_empty(t: Option<Seq<char>>) -> Seq<char> {
    match t {
        Some(s) => s,
        None => Seq::empty(),
    }
}

/// A reported capture placed in the parse: its name, the first node with its
/// node's key, and that node's text; none when no node has the key or the
/// query names no capture at its index.
pub open spec fn placed_capture(m: Seq<NodeView>, names: Seq<Seq<char>>, c: RawCapture) -> Option<CaptureView> {
    match node_for(m, c.1) {
        Some(pos) => if (c.0 as int) < names.len() {
            Some((names[c.0 as int], pos, text_or_empty(m[pos as int].1)))
        } else {
            None
        },
        None => None,
    }
}

/// The placed captures of a match, in order.
pub open spec fn placed_captures(m: Seq<NodeView>, names: Seq<Seq<char>>, cs: Seq<RawCapture>) -> Seq<CaptureView>
    decreases cs.len(),
{
    if cs.len() == 0 {
        Seq::empty()
    } else {
        let rest = placed_captures(m, names, cs.drop_last());
        match placed_capture(m, names, cs.last()) {
            Some(v) => rest.push(v),
            None => rest,
        }
    }
}

/// A match as plain values: pattern index and placed captures.
pub type MatchView = (usize, Seq<CaptureView>);

/// The reported matches, each with its captures placed in the parse.
pub open spec fn placed_matches(raw: Seq<RawMatch>, m: Seq<NodeView>, names: Seq<Seq<char>>) -> Seq<MatchView> {
    raw.map_values(|x: RawMatch| (x.0, placed_captures(m, names, x.1)))
}

pub open spec fn capture_view(c: Capture) -> CaptureView {
    (c.name@, c.node, c.text@)
}

pub open spec fn match_view(q: QueryMatch) -> MatchView {
    (q.pattern, q.captures@.map_values(|c: Capture| capture_view(c)))
}

/// Matches as plain values.
pub open spec fn matches_view(s: Seq<QueryMatch>) -> Seq<MatchView> {
    s.map_values(|q: QueryMatch| match_view(q))
}

/// The first node with key `key`.
fn find_node(nodes: &Vec<SyntaxNode>, ends: &Vec<usize>, key: (usize, usize, &str), Ghost(m): Ghost<Seq<NodeView>>) -> (r: Option<usize>)
    requires
        tree_of(nodes@, m),
        ends@.len() == m.len(),
        forall|k: int| 0 <= k < ends@.len() ==> #[trigger] ends@[k] == m[k].3,
    ensures
        r == node_for(m, (key.0, key.1, key.2@)),
        r matches Some(k) ==> k < m.len(),
{
    let ghost kv = (key.0, key.1, key.2@);
    let mut k: usize = 0;
    while k < nodes.len()
        invariant
            k <= nodes@.len(),
            tree_of(nodes@, m),
            ends@.len() == m.len(),
            forall|i: int| 0 <= i < ends@.len() ==> #[trigger] ends@[i] == m[i].3,
            kv == (key.0, key.1, key.2@),
            forall|j: int| 0 <= j < k ==> node_key(#[trigger] m[j]) != kv,
        decreases nodes@.len() - k,
    {
        proof {
            assert(syntax_node_view(nodes@[k as int]) == flat_node(m, k as int, m.len() as int));
        }
        if nodes[k].start_byte == key.0 && ends[k] == key.1 && str_eq(nodes[k].kind.as_str(), key.2) {
            proof {
                assert(node_key(m[k as int]) == kv);
                assert(first_with(m, kv, k as int));
                let c = choose|c: int| first_with(m, kv, c);
                if c < k {
                    assert(node_key(m[c]) != kv);
                } else if c > k {
                    assert(node_key(m[k as int]) != kv);
                }
            }
            return Some(k);
        }
        k = k + 1;
    }
    None
}

/// The matches of a query over the parse, each capture placed at the first
/// node, in pre-order, with its node's start byte, end byte and kind; a
/// capture that no node or capture name fits is left out.
fn matches_of(q: &RustQuery, p: &ParsedRust, syntax: &SyntaxTree, ends: &Vec<usize>) -> (r: Vec<QueryMatch>)
    requires
        tree_of(syntax.nodes@, p.model()),
        ends@.len() == p.model().len(),
        forall|k: int| 0 <= k < ends@.len() ==> #[trigger] ends@[k] == p.model()[k].3,
    ensures
        matches_view(r@) == placed_matches(rust_matches(q.source@, p.contents@), p.model(), q.model().0),
{
    let ghost m = p.model();
    let ghost raw_view = rust_matches(q.source@, p.contents@);
    let names = capture_names(q);
    let raw = query_matches(q, p);
    let mut out: Vec<QueryMatch> = Vec::new();
    let mut i: usize = 0;
    while i < raw.len()
        invariant
            i <= raw@.len(),
            m == p.model(),
            tree_of(syntax.nodes@, m),
            ends@.len() == m.len(),
            forall|k: int| 0 <= k < ends@.len() ==> #[trigger] ends@[k] == m[k].3,
            views(names@) == q.model().0,
            raw@.map_values(|x: (usize, Vec<(u32, (usize, usize, String))>)| raw_match_view(x)) == raw_view,
            out@.len() == i,
            forall|j: int| 0 <= j < i ==> match_view(#[trigger] out@[j]) == (raw_view[j].0, placed_captures(m, q.model().0, raw_view[j].1)),
        decreases raw@.len() - i,
    {
        let captured = &raw[i].1;
        let ghost cs = raw_view[i as int].1;
        proof {
            assert(raw_match_view(raw@[i as int]) == raw_view[i as int]);
        }
        let mut captures: Vec<Capture> = Vec::new();
        let mut c: usize = 0;
        while c < captured.len()
            invariant
                c <= captured@.len(),
                m == p.model(),
                tree_of(syntax.nodes@, m),
                ends@.len() == m.len(),
                forall|k: int| 0 <= k < ends@.len() ==> #[trigger] ends@[k] == m[k].3,
                views(names@) == q.model().0,
                captured@.map_values(|x: (u32, (usize, usize, String))| (x.0, raw_key_view(x.1))) == cs,
                captures@.map_values(|x: Capture| capture_view(x)) == placed_captures(m, q.model().0, cs.take(c as int)),
            decreases captured@.len() - c,
        {
            let (index, key) = (&captured[c].0, &captured[c].1);
            proof {
                assert(cs[c as int] == (*index, raw_key_view(*key)));
                assert(cs.take(c + 1).drop_last() =~= cs.take(c as int));
                assert(cs.take(c + 1).last() == cs[c as int]);
            }
            let name_at = *index as usize;
            let ghost before = captures@;
            match find_node(&syntax.nodes, ends, (key.0, key.1, key.2.as_str()), Ghost(m)) {
                Some(position) => {
                    if name_at < names.len() {
                        let text = match node_text_at(p, position) {
                            Some(t) => t,
                            None => String::new(),
                        };
                        proof {
                            reveal_strlit("");
                            assert(views(names@)[name_at as int] == names@[name_at as int]@);
                        }
                        let ghost tv = text@;
                        proof {
                            assert(tv == text_or_empty(m[position as int].1));
                        }
                        captures.push(Capture { name: names[name_at].clone(), node: position, text });
                        proof {
                            assert(capture_view(captures@[before.len() as int]) == (
                                q.model().0[name_at as int],
                                position,
                                text_or_empty(m[position as int].1),
                            ));
                            assert(placed_capture(m, q.model().0, cs[c as int]) == Some(
                                capture_view(captures@[before.len() as int]),
                            ));
                            assert(captures@.map_values(|x: Capture| capture_view(x)) =~= before.map_values(
                                |x: Capture| capture_view(x),
                            ).push(capture_view(captures@[before.len() as int])));
                        }
                    } else {
                        proof {
                            assert(placed_capture(m, q.model().0, cs[c as int]) is None);
                        }
                    }
                },
                None => {
                    proof {
                        assert(placed_capture(m, q.model().0, cs[c as int]) is None);
                    }
                },
            }
            proof {
                assert(captures@.map_values(|x: Capture| capture_view(x)) =~= placed_captures(m, q.model().0, cs.take(c + 1)));
            }
            c = c + 1;
        }
        proof {
            assert(cs.take(captured@.len() as int) =~= cs);
        }
        let pattern = raw[i].0;
        out.push(QueryMatch { pattern, captures });
        proof {
            assert(match_view(out@[i as int]) == (raw_view[i as int].0, placed_captures(m, q.model().0, raw_view[i as int].1)));
        }
        i = i + 1;
    }
    proof {
        assert(matches_view(out@) =~= placed_matches(raw_view, m, q.model().0));
    }
    out
}

/// The value of the first setting with key `key`.
pub open spec fn setting_value(settings: Seq<(Seq<char>, Option<Seq<char>>)>, key: Seq<char>) -> Option<Seq<char>>
    decreases settings.len(),
{
    if settings.len() == 0 {
        None
    } else if settings[0].0 == key {
        settings[0].1
    } else {
        setting_value(settings.drop_first(), key)
    }
}

fn setting(settings: &Vec<(String, Option<String>)>, key: &str) -> (r: Option<String>)
    ensures
        opt_view(r) == setting_value(settings_view(settings@), key@),
{
    let ghost sv = settings_view(settings@);
    let mut k: usize = 0;
    proof {
        assert(sv.skip(0) =~= sv);
    }
    while k < settings.len()
        invariant
            k <= settings@.len(),
            sv == settings_view(settings@),
            setting_value(sv, key@) == setting_value(sv.skip(k as int), key@),
        decreases settings@.len() - k,
    {
        proof {
            assert(sv.skip(k as int).drop_first() =~= sv.skip(k + 1));
            assert(sv.skip(k as int)[0] == setting_view(settings@[k as int]));
        }
        if str_eq(settings[k].0.as_str(), key) {
            return match &settings[k].1 {
                Some(v) => Some(v.clone()),
                None => None,
            };
        }
        k = k + 1;
    }
    proof {
        assert(sv.skip(k as int) =~= Seq::<(Seq<char>, Option<Seq<char>>)>::empty());
    }
    None
}

/// The `kind` and `format` settings of each pattern, as plain values.
pub open spec fn props_of(s: Seq<Seq<(Seq<char>, Option<Seq<char>>)>>) -> Seq<(Option<Seq<char>>, Option<Seq<char>>)> {
    s.map_values(
        |x: Seq<(Seq<char>, Option<Seq<char>>)>| (setting_value(x, "kind"@), setting_value(x, "format"@)),
    )
}

/// Pattern properties as plain values.
pub open spec fn props_view(s: Seq<PatternProperties>) -> Seq<(Option<Seq<char>>, Option<Seq<char>>)> {
    s.map_values(|p: PatternProperties| (opt_view(p.kind), opt_view(p.format)))
}

/// The `kind` and `format` settings of every pattern of a query.
fn properties_of(q: &RustQuery) -> (r: Vec<PatternProperties>)
    ensures
        props_view(r@) == props_of(q.model().1),
{
    let settings = property_settings(q);
    let mut out: Vec<PatternProperties> = Vec::new();
    let mut p: usize = 0;
    while p < settings.len()
        invariant
            p <= settings@.len(),
            settings@.len() == q.model().1.len(),
            forall|i: int| 0 <= i < settings@.len() ==> settings_view(#[trigger] settings@[i]@) == q.model().1[i],
            out@.len() == p,
            forall|i: int|
                0 <= i < p ==> (opt_view((#[trigger] out@[i]).kind), opt_view(out@[i].format)) == (
                    setting_value(q.model().1[i], "kind"@),
                    setting_value(q.model().1[i], "format"@),
                ),
        decreases settings@.len() - p,
    {
        let kind = setting(&settings[p], "kind");
        let format = setting(&settings[p], "format");
        out.push(PatternProperties { kind, format });
        p = p + 1;
    }
    proof {
        assert(props_view(out@) =~= props_of(q.model().1));
    }
    out
}

/// One language's compiled symbols, scopes and complexity queries.
pub struct CompiledLanguage {
    symbols: RustQuery,
    scopes: RustQuery,
    complexity: RustQuery,
}

impl CompiledLanguage {
    /// The queries were compiled from those of `language`.
    pub closed spec fn compiled_from(self, language: LanguageDef) -> bool {
        &&& self.symbols.source@ == language.symbols_query@
        &&& self.scopes.source@ == language.scopes_query@
        &&& self.complexity.source@ == language.complexity_query@
    }
}

/// A language has a grammar here (only `rust` does) that accepts its three
/// queries.
pub open spec fn compile_ok(language: LanguageDef) -> bool {
    &&& language.id@ == "rust"@
    &&& rust_query(language.symbols_query@) is Some
    &&& rust_query(language.scopes_query@) is Some
    &&& rust_query(language.complexity_query@) is Some
}

/// The symbols, scopes and complexity queries of a language compiled by its
/// grammar; `None` for a language without a grammar here or whose queries
/// the grammar refuses.
pub fn compile(language: &LanguageDef) -> (r: Option<CompiledLanguage>)
    ensures
        r is Some <==> compile_ok(*language),
        r matches Some(c) ==> c.compiled_from(*language),
{
    proof {
        reveal_strlit("rust");
    }
    if !str_eq(language.id.as_str(), "rust") {
        return None;
    }
    let symbols = match compile_rust_query(language.symbols_query.as_str()) {
        Some(q) => q,
        None => return None,
    };
    let scopes = match compile_rust_query(language.scopes_query.as_str()) {
        Some(q) => q,
        None => return None,
    };
    let complexity = match compile_rust_query(language.complexity_query.as_str()) {
        Some(q) => q,
        None => return None,
    };
    Some(CompiledLanguage { symbols, scopes, complexity })
}

/// The tier-1 symbols of `contents` in `language` at `path`: those of the
/// plain tree of the Rust parse of the contents and of the matches of the
/// language's scopes, symbols and complexity queries over it.
pub open spec fn tier1_of_contents(language: LanguageDef, path: Seq<char>, contents: Seq<char>, symbols: Seq<Symbol>) -> bool {
    let m = rust_syntax(contents)->0;
    let sq = language.scopes_query@;
    let yq = language.symbols_query@;
    let cq = language.complexity_query@;
    exists|t: Seq<SyntaxNode>, sm: Seq<QueryMatch>, sp: Seq<PatternProperties>, ym: Seq<QueryMatch>, yp: Seq<
        PatternProperties,
    >, cm: Seq<QueryMatch>|
        #![trigger tier1_result(t, sm, sp, ym, yp, cm, language, path, symbols)]
        {
            &&& tree_ok(t)
            &&& tree_of(t, m)
            &&& matches_view(sm) == placed_matches(rust_matches(sq, contents), m, (rust_query(sq)->0).0)
            &&& props_view(sp) == props_of((rust_query(sq)->0).1)
            &&& matches_view(ym) == placed_matches(rust_matches(yq, contents), m, (rust_query(yq)->0).0)
            &&& props_view(yp) == props_of((rust_query(yq)->0).1)
            &&& matches_view(cm) == placed_matches(rust_matches(cq, contents), m, (rust_query(cq)->0).0)
            &&& tier1_result(t, sm, sp, ym, yp, cm, language, path, symbols)
        }
}

/// What phase 1 makes of a file with these contents at this path: the
/// path, the content address of the contents and their non-blank line
/// count; when a language of the table claims the path, that language, tier
/// 1, the file's module path, and, when the language's queries compile and
/// the grammar parses the contents, the tier-1 symbols of that parse (none
/// otherwise); when no language claims the path, tier 0 and nothing more.
/// No occurrence or import is recorded.
pub open spec fn phase1_of(table: Seq<LanguageDef>, path: Seq<char>, contents: Seq<char>, r: FileAnalysis) -> bool {
    &&& r.path@ == path
    &&& r.content_hash@ == text_hash(contents)
    &&& r.lines == nonblank_widths(lines(contents)).len()
    &&& r.occurrences@.len() == 0
    &&& r.imports@.len() == 0
    &&& if exists|i: int| 0 <= i < table.len() && claims(#[trigger] table[i], path) {
        let i = choose|i: int|
            0 <= i < table.len() && claims(#[trigger] table[i], path) && forall|k: int|
                0 <= k < i ==> !claims(#[trigger] table[k], path);
        &&& r.language matches Some(id) && id@ == table[i].id@
        &&& r.tier == 1
        &&& views(r.module_segments@) == module_segments(table[i].module_paths, path)
        &&& if compile_ok(table[i]) && rust_syntax(contents) is Some {
            tier1_of_contents(table[i], path, contents, r.symbols@)
        } else {
            r.symbols@.len() == 0
        }
    } else {
        &&& r.language is None
        &&& r.tier == 0
        &&& r.module_segments@.len() == 0
        &&& r.symbols@.len() == 0
    }
}

/// The compiled queries stand for the languages of the table, one each.
pub open spec fn compiled_for(table: Seq<LanguageDef>, compiled: Seq<Option<CompiledLanguage>>) -> bool {
    &&& compiled.len() == table.len()
    &&& forall|i: int| 0 <= i < table.len() ==> ((#[trigger] compiled[i]) is Some <==> compile_ok(table[i]))
    &&& forall|i: int| 0 <= i < table.len() && (#[trigger] compiled[i]) is Some ==> compiled[i]->0.compiled_from(table[i])
}

/// Phase 1 of one file: a function of its path and contents and the
/// language table, through the parse and queries of the claiming language.
pub fn analyze(table: &Vec<LanguageDef>, compiled: &Vec<Option<CompiledLanguage>>, path: &str, contents: &str) -> (r: FileAnalysis)
    requires
        compiled_for(table@, compiled@),
    ensures
        phase1_of(table@, path@, contents@, r),
{
    let widths = indentation_widths(contents);
    let line_count = widths.len();
    proof {
        assert(widths@.map_values(|w: usize| w as nat).len() == widths@.len());
    }
    let hash = content_hash(contents.as_bytes());
    let position = match position_for_path(table, path) {
        None => {
            return FileAnalysis {
                path: path.to_owned(),
                language: None,
                content_hash: hash,
                tier: 0,
                lines: line_count,
                symbols: Vec::new(),
                module_segments: Vec::new(),
                occurrences: Vec::new(),
                imports: Vec::new(),
            };
        },
        Some(p) => p,
    };
    let language = &table[position];
    let mut symbols: Vec<crate::symbol::Symbol> = Vec::new();
    match &compiled[position] {
        Some(c) => {
            match parse_rust(contents) {
                Some(p) => {
                    let (syntax, ends) = flatten(&p);
                    let sm = matches_of(&c.scopes, &p, &syntax, &ends);
                    let sp = properties_of(&c.scopes);
                    let ym = matches_of(&c.symbols, &p, &syntax, &ends);
                    let yp = properties_of(&c.symbols);
                    let cm = matches_of(&c.complexity, &p, &syntax, &ends);
                    symbols = tier1_symbols(&syntax, &sm, &sp, &ym, &yp, &cm, language, path);
                    proof {
                        assert(c.compiled_from(*language));
                        assert(tier1_result(syntax.nodes@, sm@, sp@, ym@, yp@, cm@, *language, path@, symbols@));
                        assert(tier1_of_contents(*language, path@, contents@, symbols@));
                    }
                },
                None => {},
            }
        },
        None => {},
    }
    let segments = language.module_paths.segments(path);
    let r = FileAnalysis {
        path: path.to_owned(),
        language: Some(language.id.clone()),
        content_hash: hash,
        tier: 1,
        lines: line_count,
        symbols,
        module_segments: segments,
        occurrences: Vec::new(),
        imports: Vec::new(),
    };
    proof {
        assert(nonblank_widths(lines(contents@)).len() == widths@.len());
        let i = choose|i: int|
            0 <= i < table@.len() && claims(#[trigger] table@[i], path@) && forall|k: int|
                0 <= k < i ==> !claims(#[trigger] table@[k], path@);
        if i < position {
        } else if i > position {
            assert(!claims(table@[position as int], path@));
        }
    }
    r
}

} // verus!
