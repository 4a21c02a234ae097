//! What phase 1 knows about one file, and the parts of phase 1 that work on
//! plain values: identity assignment, name formats, token streams and
//! cognitive complexity over a syntax tree.

use crate::lang::join;
use crate::order::{str_eq, views};
use crate::lang::LanguageDef;
use crate::symbol::{content_fingerprint, opt_nat, opt_view, spec_symbol_id, symbol_id, token_material, token_views, Symbol};
use crate::hash::sha256;
use crate::text::hex_lower;
use vstd::utf8::encode_utf8;
use crate::text::{chars_of, contains_sub, push_char, push_str, str_contains, string_of_range};
use vstd::prelude::*;

verus! {

/// Everything phase 1 knows about one file, but its indentation density.
pub struct FileAnalysis {
    /// Repo-relative, forward-slash separated.
    pub path: String,
    /// Language id, or `None` when no grammar claims the file.
    pub language: Option<String>,
    /// Content address of the analyzed content. The cache key's other half.
    pub content_hash: String,
    /// Highest tier reached for this file.
    pub tier: u8,
    /// Non-blank line count, as tier 0 counts them.
    pub lines: usize,
    /// Empty when the file did not reach tier 1.
    pub symbols: Vec<Symbol>,
    /// The module path the file's location gives it.
    pub module_segments: Vec<String>,
    /// Identifier occurrences that may refer to a symbol.
    pub occurrences: Vec<Occurrence>,
    /// What the file brings into scope.
    pub imports: Vec<Import>,
}

/// An identifier written somewhere in a file.
pub struct Occurrence {
    /// The identifier itself.
    pub name: String,
    /// What narrows it, as in `Type::name` or `module::name`.
    pub qualifier: Option<String>,
    /// Position of the innermost symbol of the file it is written inside.
    pub within: Option<usize>,
    /// The syntactic position it is written in.
    pub kind: String,
}

/// One name an import brings into scope.
pub struct Import {
    /// The name the file uses.
    pub local_name: String,
    /// The path it stands for, segment by segment.
    pub path: Vec<String>,
    /// Brings in everything under `path` rather than one name.
    pub glob: bool,
}

/// Position of the first `c` in `s` at or after `from`, or -1.
pub open spec fn find_from(s: Seq<char>, c: char, from: int) -> int
    decreases s.len() - from,
{
    if from < 0 || from >= s.len() {
        -1
    } else if s[from] == c {
        from
    } else {
        find_from(s, c, from + 1)
    }
}

pub proof fn lemma_find_from(s: Seq<char>, c: char, from: int)
    requires
        0 <= from,
    ensures
        find_from(s, c, from) == -1 || (from <= find_from(s, c, from) < s.len() && s[find_from(s, c, from)] == c),
        find_from(s, c, from) == -1 ==> forall|k: int| from <= k < s.len() ==> s[k] != c,
        find_from(s, c, from) >= 0 ==> forall|k: int| from <= k < find_from(s, c, from) ==> s[k] != c,
    decreases s.len() - from,
{
    if from < s.len() && s[from] != c {
        lemma_find_from(s, c, from + 1);
    }
}

/// The value last bound to `key`, if any.
pub open spec fn lookup(variables: Seq<(Seq<char>, Seq<char>)>, key: Seq<char>) -> Option<Seq<char>>
    decreases variables.len(),
{
    if variables.len() == 0 {
        None
    } else if variables.last().0 == key {
        Some(variables.last().1)
    } else {
        lookup(variables.drop_last(), key)
    }
}

/// A name format with each `{capture}` replaced by the captured text, or by
/// nothing when that capture is absent. An opening brace with no closing
/// brace after it ends the substitution: what precedes it is written, and
/// then the whole unprocessed remainder, brace included.
pub open spec fn spec_render(format: Seq<char>, variables: Seq<(Seq<char>, Seq<char>)>) -> Seq<char>
    decreases format.len(),
{
    let open = find_from(format, '{', 0);
    if open < 0 {
        format
    } else {
        let close = find_from(format, '}', open);
        if close < 0 {
            format.take(open) + format
        } else {
            proof {
                lemma_find_from(format, '{', 0);
                lemma_find_from(format, '}', open);
            }
            let key = format.subrange(open + 1, close);
            let value = match lookup(variables, key) {
                Some(v) => v,
                None => Seq::empty(),
            };
            format.take(open) + value + spec_render(format.skip(close + 1), variables)
        }
    }
}

fn find_char(cs: &Vec<char>, c: char, from: usize) -> (r: Option<usize>)
    requires
        from <= cs@.len(),
    ensures
        match r {
            Some(i) => i as int == find_from(cs@, c, from as int),
            None => find_from(cs@, c, from as int) == -1,
        },
{
    let mut i = from;
    while i < cs.len()
        invariant
            from <= i <= cs@.len(),
            find_from(cs@, c, from as int) == find_from(cs@, c, i as int),
        decreases cs@.len() - i,
    {
        if cs[i] == c {
            return Some(i);
        }
        i = i + 1;
    }
    None
}

fn lookup_value<'a>(variables: &'a Vec<(String, String)>, key: &str) -> (r: Option<&'a String>)
    ensures
        match r {
            Some(v) => lookup(variable_views(variables@), key@) == Some(v@),
            None => lookup(variable_views(variables@), key@) is None,
        },
{
    let mut i = variables.len();
    proof {
        assert(variables@.take(i as int) =~= variables@);
    }
    while i > 0
        invariant
            i <= variables@.len(),
            lookup(variable_views(variables@), key@) == lookup(variable_views(variables@.take(i as int)), key@),
        decreases i,
    {
        proof {
            assert(variable_views(variables@.take(i as int)).drop_last() =~= variable_views(variables@.take(i - 1)));
        }
        if str_eq(variables[i - 1].0.as_str(), key) {
            return Some(&variables[i - 1].1);
        }
        i = i - 1;
    }
    None
}

/// Substitute `{capture}` placeholders with captured text.
#[verifier::rlimit(40)]
pub fn render(format: &str, variables: &Vec<(String, String)>) -> (r: String)
    ensures
        r@ == spec_render(format@, variable_views(variables@)),
{
    let cs = chars_of(format);
    let n = cs.len();
    let mut out = String::new();
    let mut start: usize = 0;
    proof {
        assert(cs@.skip(0) =~= cs@);
    }
    loop
        invariant
            start <= n,
            n == cs@.len(),
            cs@ == format@,
            out@ + spec_render(cs@.skip(start as int), variable_views(variables@)) == spec_render(
                format@,
                variable_views(variables@),
            ),
        decreases n - start,
    {
        let ghost rest = cs@.skip(start as int);
        proof {
            lemma_find_from(rest, '{', 0);
            lemma_find_from(cs@, '{', start as int);
            lemma_find_shift(cs@, '{', start as int, 0);
        }
        match find_char(&cs, '{', start) {
            None => {
                let tail = string_of_range(cs.as_slice(), start, n);
                push_str(&mut out, tail.as_str());
                proof {
                    assert(tail@ =~= rest);
                }
                return out;
            },
            Some(open) => {
                let head = string_of_range(cs.as_slice(), start, open);
                proof {
                    lemma_find_from(cs@, '}', open as int);
                    lemma_find_shift(cs@, '}', start as int, open - start);
                    assert(head@ =~= rest.take(open - start));
                }
                match find_char(&cs, '}', open) {
                    None => {
                        push_str(&mut out, head.as_str());
                        let tail = string_of_range(cs.as_slice(), start, n);
                        push_str(&mut out, tail.as_str());
                        proof {
                            assert(tail@ =~= rest);
                        }
                        return out;
                    },
                    Some(close) => {
                        let key = string_of_range(cs.as_slice(), open + 1, close);
                        push_str(&mut out, head.as_str());
                        match lookup_value(variables, key.as_str()) {
                            Some(v) => push_str(&mut out, v.as_str()),
                            None => {},
                        }
                        proof {
                            assert(key@ =~= rest.subrange(open - start + 1, close - start));
                            assert(rest.skip(close - start + 1) =~= cs@.skip(close + 1));
                        }
                        start = close + 1;
                    },
                }
            },
        }
    }
}

proof fn lemma_find_shift(s: Seq<char>, c: char, start: int, from: int)
    requires
        0 <= start <= s.len(),
        0 <= from,
    ensures
        find_from(s.skip(start), c, from) == if find_from(s, c, start + from) < 0 {
            -1
        } else {
            find_from(s, c, start + from) - start
        },
    decreases s.len() - start - from,
{
    if start + from < s.len() {
        assert(s.skip(start)[from] == s[start + from]);
        if s[start + from] != c {
            lemma_find_shift(s, c, start, from + 1);
        }
    }
}

/// The view of an optional owned string.
pub open spec fn string_opt_view(s: Option<String>) -> Option<Seq<char>> {
    match s {
        Some(t) => Some(t@),
        None => None,
    }
}

/// Two symbols no declared metadata tells apart: the same kind, qualified
/// path and discriminator.
pub open spec fn indistinguishable(a: Symbol, b: Symbol) -> bool {
    &&& a.kind@ == b.kind@
    &&& a.qualified_path@ == b.qualified_path@
    &&& string_opt_view(a.discriminator) == string_opt_view(b.discriminator)
}

/// Number of the first `k` symbols indistinguishable from `x`.
pub open spec fn twins_before(s: Seq<Symbol>, x: Symbol, k: int) -> nat
    decreases k,
{
    if k <= 0 {
        0
    } else {
        twins_before(s, x, k - 1) + if indistinguishable(s[k - 1], x) {
            1nat
        } else {
            0nat
        }
    }
}

/// The positional ordinal of the symbol at `i`: its 1-based rank among the
/// symbols indistinguishable from it, when there is more than one.
pub open spec fn ordinal_at(s: Seq<Symbol>, i: int) -> Option<nat> {
    if twins_before(s, s[i], s.len() as int) > 1 {
        Some(twins_before(s, s[i], i + 1))
    } else {
        None
    }
}

/// The symbol at `i` of `s`, carrying the identity `finish` assigns.
pub open spec fn identified(s: Seq<Symbol>, i: int, r: Symbol) -> bool {
    let x = s[i];
    &&& r.id@ == spec_symbol_id(
        x.language@,
        x.path@,
        x.kind@,
        x.qualified_path@,
        string_opt_view(x.discriminator),
        ordinal_at(s, i),
    )
    &&& r == Symbol { id: r.id, ..x }
}

proof fn lemma_twins_bound(s: Seq<Symbol>, x: Symbol, k: int)
    requires
        0 <= k <= s.len(),
    ensures
        twins_before(s, x, k) <= k,
    decreases k,
{
    if k > 0 {
        lemma_twins_bound(s, x, k - 1);
    }
}

fn count_twins(s: &Vec<Symbol>, x: &Symbol, k: usize) -> (r: usize)
    requires
        k <= s@.len(),
    ensures
        r == twins_before(s@, *x, k as int),
{
    let mut count: usize = 0;
    let mut j: usize = 0;
    while j < k
        invariant
            j <= k <= s@.len(),
            count == twins_before(s@, *x, j as int),
        decreases k - j,
    {
        proof {
            lemma_twins_bound(s@, *x, j as int);
        }
        let same_discriminator = match (&s[j].discriminator, &x.discriminator) {
            (Some(a), Some(b)) => str_eq(a.as_str(), b.as_str()),
            (None, None) => true,
            _ => false,
        };
        if str_eq(s[j].kind.as_str(), x.kind.as_str()) && str_eq(
            s[j].qualified_path.as_str(),
            x.qualified_path.as_str(),
        ) && same_discriminator {
            count = count + 1;
        }
        j = j + 1;
    }
    count
}

/// Assign identity, disambiguating symbols that are otherwise identical by
/// their position among their twins.
pub fn finish(symbols: Vec<Symbol>) -> (r: Vec<Symbol>)
    ensures
        r@.len() == symbols@.len(),
        forall|i: int| 0 <= i < r@.len() ==> identified(symbols@, i, #[trigger] r@[i]),
{
    let n = symbols.len();
    let mut ordinals: Vec<Option<usize>> = Vec::new();
    let mut i: usize = 0;
    while i < n
        invariant
            i <= n,
            n == symbols@.len(),
            ordinals@.len() == i,
            forall|k: int| 0 <= k < i ==> opt_nat(#[trigger] ordinals@[k]) == ordinal_at(symbols@, k),
        decreases n - i,
    {
        let total = count_twins(&symbols, &symbols[i], n);
        if total > 1 {
            let rank = count_twins(&symbols, &symbols[i], i + 1);
            ordinals.push(Some(rank));
        } else {
            ordinals.push(None);
        }
        i = i + 1;
    }
    let ghost input = symbols@;
    let mut rest = symbols;
    let mut out: Vec<Symbol> = Vec::new();
    let mut k: usize = 0;
    while k < n
        invariant
            k <= n,
            n == input.len(),
            ordinals@.len() == n,
            rest@ == input.skip(k as int),
            out@.len() == k,
            forall|j: int| 0 <= j < n ==> opt_nat(#[trigger] ordinals@[j]) == ordinal_at(input, j),
            forall|j: int| 0 <= j < k ==> identified(input, j, #[trigger] out@[j]),
        decreases n - k,
    {
        let mut symbol = rest.remove(0);
        proof {
            assert(symbol == input[k as int]);
        }
        let discriminator = match &symbol.discriminator {
            Some(d) => Some(d.as_str()),
            None => None,
        };
        let id = symbol_id(
            symbol.language.as_str(),
            symbol.path.as_str(),
            symbol.kind.as_str(),
            symbol.qualified_path.as_str(),
            discriminator,
            ordinals[k],
        );
        proof {
            assert(opt_view(discriminator) == string_opt_view(symbol.discriminator));
        }
        symbol.id = id;
        out.push(symbol);
        proof {
            assert(rest@ =~= input.skip(k + 1));
        }
        k = k + 1;
    }
    out
}

/// One node of a parsed file.
pub struct SyntaxNode {
    /// The node's position in pre-order.
    pub id: usize,
    pub kind: String,
    /// The node's source text, when it is valid UTF-8.
    pub text: Option<String>,
    pub start_byte: usize,
    /// 0-based.
    pub start_row: usize,
    pub start_column: usize,
    /// 0-based.
    pub end_row: usize,
    pub end_column: usize,
    /// Position of the parent node, for every node but the root.
    pub parent: Option<usize>,
    /// Positions of the child nodes, in source order.
    pub children: Vec<usize>,
}

/// A parsed file: its nodes, the root first.
pub struct SyntaxTree {
    pub nodes: Vec<SyntaxNode>,
}

/// Children come after their parent and parents before their children, so
/// walking down or up always ends.
pub open spec fn tree_ok(t: Seq<SyntaxNode>) -> bool {
    &&& forall|v: int, j: int|
        0 <= v < t.len() && 0 <= j < t[v].children@.len() ==> v < #[trigger] t[v].children@[j] < t.len()
    &&& forall|v: int| 0 <= v < t.len() && (#[trigger] t[v]).parent is Some ==> t[v].parent->0 < v
}

/// The leaf tokens of the subtree at `v`, in source order, without comments:
/// a node whose kind mentions `comment` contributes nothing, a leaf its kind
/// and text, any other node the tokens of its children.
pub open spec fn spec_tokens(t: Seq<SyntaxNode>, v: int) -> Seq<(Seq<char>, Seq<char>)>
    decreases t.len() - v, t[v].children@.len() + 1,
{
    if !(0 <= v < t.len()) {
        Seq::empty()
    } else if contains_sub(t[v].kind@, "comment"@) {
        Seq::empty()
    } else if t[v].children@.len() == 0 {
        match t[v].text {
            Some(text) => seq![(t[v].kind@, text@)],
            None => Seq::empty(),
        }
    } else {
        children_tokens(t, v, t[v].children@.len() as int)
    }
}

/// The tokens of the first `k` children of `v`.
pub open spec fn children_tokens(t: Seq<SyntaxNode>, v: int, k: int) -> Seq<(Seq<char>, Seq<char>)>
    decreases t.len() - v, k,
{
    if k <= 0 || !(0 <= v < t.len()) || k > t[v].children@.len() {
        Seq::empty()
    } else {
        let c = t[v].children@[k - 1] as int;
        children_tokens(t, v, k - 1) + if v < c < t.len() {
            spec_tokens(t, c)
        } else {
            Seq::empty()
        }
    }
}

/// The views of a token list.
pub open spec fn owned_token_views(tokens: Seq<(String, String)>) -> Seq<(Seq<char>, Seq<char>)> {
    tokens.map_values(|p: (String, String)| (p.0@, p.1@))
}

fn collect_tokens(tree: &SyntaxTree, v: usize, out: &mut Vec<(String, String)>)
    requires
        tree_ok(tree.nodes@),
        v < tree.nodes@.len(),
    ensures
        owned_token_views(final(out)@) == owned_token_views(old(out)@) + spec_tokens(tree.nodes@, v as int),
    decreases tree.nodes@.len() - v, tree.nodes@[v as int].children@.len() + 1,
{
    let ghost t = tree.nodes@;
    let node = &tree.nodes[v];
    proof {
        reveal_strlit("comment");
    }
    if str_contains(node.kind.as_str(), "comment") {
        proof {
            assert(owned_token_views(out@) =~= owned_token_views(old(out)@) + Seq::empty());
        }
        return;
    }
    if node.children.len() == 0 {
        match &node.text {
            Some(text) => {
                let ghost before = out@;
                out.push((node.kind.clone(), text.clone()));
                proof {
                    assert(owned_token_views(out@) =~= owned_token_views(before) + seq![(node.kind@, text@)]);
                }
            },
            None => {
                proof {
                    assert(owned_token_views(out@) =~= owned_token_views(old(out)@) + Seq::empty());
                }
            },
        }
        return;
    }
    let n = node.children.len();
    let mut k: usize = 0;
    while k < n
        invariant
            k <= n,
            t == tree.nodes@,
            tree_ok(t),
            v < t.len(),
            n == t[v as int].children@.len(),
            !contains_sub(t[v as int].kind@, "comment"@),
            owned_token_views(out@) == owned_token_views(old(out)@) + children_tokens(t, v as int, k as int),
        decreases n - k,
    {
        let c = tree.nodes[v].children[k];
        proof {
            assert(v < c < t.len());
        }
        let ghost before = out@;
        collect_tokens(tree, c, out);
        proof {
            assert(children_tokens(t, v as int, k + 1) == children_tokens(t, v as int, k as int) + spec_tokens(
                t,
                c as int,
            ));
            assert(owned_token_views(out@) =~= owned_token_views(old(out)@) + children_tokens(t, v as int, k + 1));
        }
        k = k + 1;
    }
}

/// The `(kind, text)` leaf tokens of the subtree at `v`, in source order,
/// without comments.
///
/// Leaves are where all the text lives; interior node kinds are implied by
/// the leaf sequence for any given grammar. Comments are dropped so a
/// rewrapped doc comment does not read as a structural change.
pub fn tokens(tree: &SyntaxTree, v: usize) -> (r: Vec<(String, String)>)
    requires
        tree_ok(tree.nodes@),
        v < tree.nodes@.len(),
    ensures
        owned_token_views(r@) == spec_tokens(tree.nodes@, v as int),
{
    let mut out: Vec<(String, String)> = Vec::new();
    collect_tokens(tree, v, &mut out);
    proof {
        assert(owned_token_views(Seq::<(String, String)>::empty()) =~= Seq::empty());
        assert(owned_token_views(out@) =~= spec_tokens(tree.nodes@, v as int));
    }
    out
}

/// The segment last recorded for the node at `v`.
pub open spec fn segment_of(scopes: Seq<(usize, String)>, v: int) -> Option<Seq<char>>
    decreases scopes.len(),
{
    if scopes.len() == 0 {
        None
    } else if scopes.last().0 as int == v {
        Some(scopes.last().1@)
    } else {
        segment_of(scopes.drop_last(), v)
    }
}

/// The scope segments of the strict ancestors of `v`, outermost first.
pub open spec fn ancestor_segments(t: Seq<SyntaxNode>, scopes: Seq<(usize, String)>, v: int) -> Seq<Seq<char>>
    decreases v,
{
    if !(0 <= v < t.len()) {
        Seq::empty()
    } else {
        match t[v].parent {
            None => Seq::empty(),
            Some(p) => if 0 <= p < v {
                ancestor_segments(t, scopes, p as int) + match segment_of(scopes, p as int) {
                    Some(segment) => seq![segment],
                    None => Seq::empty(),
                }
            } else {
                Seq::empty()
            },
        }
    }
}

fn scope_segment<'a>(scopes: &'a Vec<(usize, String)>, v: usize) -> (r: Option<&'a String>)
    ensures
        match r {
            Some(s) => segment_of(scopes@, v as int) == Some(s@),
            None => segment_of(scopes@, v as int) is None,
        },
{
    let mut i = scopes.len();
    proof {
        assert(scopes@.take(i as int) =~= scopes@);
    }
    while i > 0
        invariant
            i <= scopes@.len(),
            segment_of(scopes@, v as int) == segment_of(scopes@.take(i as int), v as int),
        decreases i,
    {
        proof {
            assert(scopes@.take(i as int).drop_last() =~= scopes@.take(i - 1));
        }
        if scopes[i - 1].0 == v {
            return Some(&scopes[i - 1].1);
        }
        i = i - 1;
    }
    None
}

fn push_ancestor_segments(tree: &SyntaxTree, scopes: &Vec<(usize, String)>, v: usize, out: &mut Vec<String>)
    requires
        v < tree.nodes@.len(),
    ensures
        views(final(out)@) == views(old(out)@) + ancestor_segments(tree.nodes@, scopes@, v as int),
    decreases v,
{
    match tree.nodes[v].parent {
        None => {
            proof {
                assert(views(out@) =~= views(old(out)@) + Seq::<Seq<char>>::empty());
            }
        },
        Some(p) => {
            if p < v {
                push_ancestor_segments(tree, scopes, p, out);
                match scope_segment(scopes, p) {
                    Some(segment) => {
                        let ghost before = out@;
                        out.push(segment.clone());
                        proof {
                            assert(views(out@) =~= views(before).push(segment@));
                        }
                    },
                    None => {},
                }
                proof {
                    assert(views(out@) =~= views(old(out)@) + ancestor_segments(tree.nodes@, scopes@, v as int));
                }
            } else {
                proof {
                    assert(views(out@) =~= views(old(out)@) + Seq::<Seq<char>>::empty());
                }
            }
        },
    }
}

/// The items joined, with `separator` between consecutive items.
pub fn join_with(parts: &Vec<String>, separator: &str) -> (r: String)
    ensures
        r@ == join(views(parts@), separator@),
{
    let mut out = String::new();
    let mut i: usize = 0;
    while i < parts.len()
        invariant
            i <= parts@.len(),
            out@ == join(views(parts@.take(i as int)), separator@),
        decreases parts@.len() - i,
    {
        let ghost before = views(parts@.take(i as int));
        if i > 0 {
            push_str(&mut out, separator);
        }
        push_str(&mut out, parts[i].as_str());
        proof {
            let now = views(parts@.take(i + 1));
            assert(now.drop_last() =~= before);
            assert(now.last() == parts@[i as int]@);
            if i == 0 {
                assert(now.len() == 1);
            }
        }
        i = i + 1;
    }
    proof {
        assert(parts@.take(parts@.len() as int) =~= parts@);
    }
    out
}

/// Join enclosing scope segments, outermost first, with the symbol's own
/// name.
pub fn qualify(tree: &SyntaxTree, scopes: &Vec<(usize, String)>, v: usize, name: &str, separator: &str) -> (r: String)
    requires
        v < tree.nodes@.len(),
    ensures
        r@ == join(ancestor_segments(tree.nodes@, scopes@, v as int).push(name@), separator@),
{
    let mut segments: Vec<String> = Vec::new();
    push_ancestor_segments(tree, scopes, v, &mut segments);
    let ghost before = segments@;
    segments.push(name.to_owned());
    proof {
        assert(views(Seq::<String>::empty()) =~= Seq::empty());
        assert(views(segments@) =~= views(before).push(name@));
    }
    join_with(&segments, separator)
}

/// What the complexity query says of one node.
#[derive(Clone, Copy, Debug, PartialEq, Eq, Structural)]
pub struct NodeFlags {
    /// Costs one, plus the current nesting.
    pub increment: bool,
    /// Costs one, whatever the nesting.
    pub flat: bool,
    /// Nests what it contains one level deeper.
    pub nesting: bool,
    /// Costs nothing, whatever else it is.
    pub no_increment: bool,
    /// Does not nest, whatever else it is.
    pub no_nesting: bool,
}

/// `a + b`, or `u32::MAX` when that is larger.
pub open spec fn sat(x: int) -> u32 {
    if x > u32::MAX {
        u32::MAX
    } else if x < 0 {
        0
    } else {
        x as u32
    }
}

fn sat_add(a: u32, b: u32) -> (r: u32)
    ensures
        r == sat(a + b),
{
    match a.checked_add(b) {
        Some(c) => c,
        None => u32::MAX,
    }
}

/// The costs after walking the subtree at `v` at nesting `nesting` within
/// the symbol `owner`: a node that starts a symbol starts a fresh nesting
/// frame for it; within a symbol, an increment costs one plus the nesting,
/// a flat increment one; a nesting node nests its children one deeper.
/// Sums saturate at `u32::MAX`.
pub open spec fn spec_accumulate(
    t: Seq<SyntaxNode>,
    flags: Seq<NodeFlags>,
    owner_of: Seq<Option<usize>>,
    v: int,
    nesting: u32,
    owner: Option<usize>,
    costs: Seq<u32>,
) -> Seq<u32>
    decreases t.len() - v, t[v].children@.len() + 1,
{
    if !(0 <= v < t.len()) || v >= flags.len() || v >= owner_of.len() {
        costs
    } else {
        let (nest, own) = match owner_of[v] {
            Some(i) => (0u32, Some(i)),
            None => (nesting, owner),
        };
        let f = flags[v];
        let here = match own {
            Some(i) => if (i as int) < costs.len() && !f.no_increment {
                if f.increment {
                    costs.update(i as int, sat(costs[i as int] + sat(1 + nest)))
                } else if f.flat {
                    costs.update(i as int, sat(costs[i as int] + 1))
                } else {
                    costs
                }
            } else {
                costs
            },
            None => costs,
        };
        let child_nesting = if f.nesting && !f.no_nesting {
            sat(nest + 1)
        } else {
            nest
        };
        accumulate_children(t, flags, owner_of, v, t[v].children@.len() as int, child_nesting, own, here)
    }
}

/// The costs after walking the first `k` children of `v`, in order.
pub open spec fn accumulate_children(
    t: Seq<SyntaxNode>,
    flags: Seq<NodeFlags>,
    owner_of: Seq<Option<usize>>,
    v: int,
    k: int,
    nesting: u32,
    owner: Option<usize>,
    costs: Seq<u32>,
) -> Seq<u32>
    decreases t.len() - v, k,
{
    if k <= 0 || !(0 <= v < t.len()) || k > t[v].children@.len() {
        costs
    } else {
        let c = t[v].children@[k - 1] as int;
        let before = accumulate_children(t, flags, owner_of, v, k - 1, nesting, owner, costs);
        if v < c < t.len() {
            spec_accumulate(t, flags, owner_of, c, nesting, owner, before)
        } else {
            before
        }
    }
}

fn accumulate(
    tree: &SyntaxTree,
    flags: &Vec<NodeFlags>,
    owner_of: &Vec<Option<usize>>,
    v: usize,
    nesting: u32,
    owner: Option<usize>,
    costs: &mut Vec<u32>,
)
    requires
        tree_ok(tree.nodes@),
        v < tree.nodes@.len(),
    ensures
        final(costs)@ == spec_accumulate(tree.nodes@, flags@, owner_of@, v as int, nesting, owner, old(costs)@),
    decreases tree.nodes@.len() - v, tree.nodes@[v as int].children@.len() + 1,
{
    let ghost t = tree.nodes@;
    if v >= flags.len() || v >= owner_of.len() {
        return;
    }
    let (nest, own) = match owner_of[v] {
        Some(i) => (0u32, Some(i)),
        None => (nesting, owner),
    };
    let f = flags[v];
    match own {
        Some(i) => {
            if i < costs.len() && !f.no_increment {
                if f.increment {
                    let add = sat_add(1, nest);
                    let updated = sat_add(costs[i], add);
                    costs.set(i, updated);
                } else if f.flat {
                    let updated = sat_add(costs[i], 1);
                    costs.set(i, updated);
                }
            }
        },
        None => {},
    }
    let child_nesting = if f.nesting && !f.no_nesting {
        sat_add(nest, 1)
    } else {
        nest
    };
    let ghost here = costs@;
    let n = tree.nodes[v].children.len();
    let mut k: usize = 0;
    while k < n
        invariant
            k <= n,
            t == tree.nodes@,
            tree_ok(t),
            v < t.len(),
            n == t[v as int].children@.len(),
            costs@ == accumulate_children(t, flags@, owner_of@, v as int, k as int, child_nesting, own, here),
        decreases n - k,
    {
        let c = tree.nodes[v].children[k];
        proof {
            assert(v < c < t.len());
        }
        accumulate(tree, flags, owner_of, c, child_nesting, own, costs);
        k = k + 1;
    }
}

/// What one node costs its symbol at nesting depth `d`: nothing when it is
/// marked as no increment, one plus the depth for an increment, one for a
/// flat increment.
pub open spec fn node_cost(f: NodeFlags, d: int) -> int {
    if f.no_increment {
        0
    } else if f.increment {
        1 + d
    } else if f.flat {
        1
    } else {
        0
    }
}

/// The cost of the nodes `vs`, the `k`-th of them (from 0) at depth `n + k`.
pub open spec fn chain_cost(flags: Seq<NodeFlags>, vs: Seq<int>, n: int) -> int
    decreases vs.len(),
{
    if vs.len() == 0 {
        0
    } else {
        chain_cost(flags, vs.drop_last(), n) + node_cost(flags[vs.last()], n + vs.len() - 1)
    }
}

/// `vs` is a chain of nodes within one symbol, each but the last a nesting
/// node whose only child is the next, the last a leaf.
pub open spec fn nesting_chain(
    t: Seq<SyntaxNode>,
    flags: Seq<NodeFlags>,
    owner_of: Seq<Option<usize>>,
    vs: Seq<int>,
) -> bool {
    &&& vs.len() > 0
    &&& forall|k: int|
        0 <= k < vs.len() ==> 0 <= #[trigger] vs[k] < t.len() && vs[k] < flags.len() && vs[k] < owner_of.len()
            && owner_of[vs[k]] is None
    &&& forall|k: int|
        0 <= k < vs.len() - 1 ==> t[#[trigger] vs[k]].children@.len() == 1 && t[vs[k]].children@[0] == vs[k + 1]
            && flags[vs[k]].nesting && !flags[vs[k]].no_nesting
    &&& t[vs[vs.len() - 1]].children@.len() == 0
}

proof fn lemma_chain_cost_front(flags: Seq<NodeFlags>, vs: Seq<int>, n: int)
    requires
        vs.len() > 0,
    ensures
        chain_cost(flags, vs, n) == node_cost(flags[vs[0]], n) + chain_cost(flags, vs.drop_first(), n + 1),
    decreases vs.len(),
{
    if vs.len() > 1 {
        lemma_chain_cost_front(flags, vs.drop_last(), n);
        assert(vs.drop_last().drop_first() =~= vs.drop_first().drop_last());
        assert(vs.drop_last()[0] == vs[0]);
        assert(vs.drop_first().last() == vs.last());
        assert(chain_cost(flags, vs.drop_first(), n + 1) == chain_cost(flags, vs.drop_first().drop_last(), n + 1)
            + node_cost(flags[vs.last()], n + 1 + vs.drop_first().len() - 1));
        assert(chain_cost(flags, vs, n) == chain_cost(flags, vs.drop_last(), n) + node_cost(flags[vs.last()], n + vs.len() - 1));
        assert(chain_cost(flags, vs.drop_last().drop_first(), n + 1) == chain_cost(flags, vs.drop_first().drop_last(), n + 1));
    } else {
        assert(vs.drop_first() =~= Seq::<int>::empty());
        assert(vs.drop_last() =~= Seq::<int>::empty());
        assert(vs.last() == vs[0]);
        assert(chain_cost(flags, vs.drop_last(), n) == 0);
        assert(chain_cost(flags, vs.drop_first(), n + 1) == 0);
        assert(chain_cost(flags, vs, n) == node_cost(flags[vs[0]], n));
    }
}

proof fn lemma_chain_cost_nonnegative(flags: Seq<NodeFlags>, vs: Seq<int>, n: int)
    requires
        n >= 0,
    ensures
        chain_cost(flags, vs, n) >= 0,
    decreases vs.len(),
{
    if vs.len() > 0 {
        lemma_chain_cost_nonnegative(flags, vs.drop_last(), n);
    }
}

/// Within one symbol, each nesting node nests its children exactly one level
/// deeper: walking a chain of nested nodes from nesting `n` adds to the
/// symbol the cost of each node at its own depth, an increment at depth
/// `n + k` costing `1 + n + k`, while the sums stay below `u32::MAX`.
pub proof fn law_each_nesting_level_costs_one_more(
    t: Seq<SyntaxNode>,
    flags: Seq<NodeFlags>,
    owner_of: Seq<Option<usize>>,
    vs: Seq<int>,
    n: u32,
    i: usize,
    costs: Seq<u32>,
)
    requires
        tree_ok(t),
        nesting_chain(t, flags, owner_of, vs),
        (i as int) < costs.len(),
        n + vs.len() <= u32::MAX,
        costs[i as int] + chain_cost(flags, vs, n as int) <= u32::MAX,
    ensures
        spec_accumulate(t, flags, owner_of, vs[0], n, Some(i), costs) == costs.update(
            i as int,
            (costs[i as int] + chain_cost(flags, vs, n as int)) as u32,
        ),
    decreases vs.len(),
{
    let v = vs[0];
    let f = flags[v];
    let rest = vs.drop_first();
    lemma_chain_cost_front(flags, vs, n as int);
    lemma_chain_cost_nonnegative(flags, rest, n + 1);
    let here = if !f.no_increment && (f.increment || f.flat) {
        costs.update(i as int, (costs[i as int] + node_cost(f, n as int)) as u32)
    } else {
        costs
    };
    assert(here =~= costs.update(i as int, (costs[i as int] + node_cost(f, n as int)) as u32));
    if vs.len() == 1 {
        assert(rest.len() == 0);
        assert(t[v].children@.len() == 0);
    } else {
        let c = vs[1];
        assert(t[v].children@.len() == 1 && t[v].children@[0] == c);
        assert(v < c < t.len());
        assert(accumulate_children(t, flags, owner_of, v, 0, (n + 1) as u32, Some(i), here) == here);
        assert(nesting_chain(t, flags, owner_of, rest)) by {
            assert forall|k: int| 0 <= k < rest.len() implies 0 <= #[trigger] rest[k] < t.len() && rest[k]
                < flags.len() && rest[k] < owner_of.len() && owner_of[rest[k]] is None by {
                assert(rest[k] == vs[k + 1]);
            }
            assert forall|k: int| 0 <= k < rest.len() - 1 implies t[#[trigger] rest[k]].children@.len() == 1
                && t[rest[k]].children@[0] == rest[k + 1] && flags[rest[k]].nesting && !flags[rest[k]].no_nesting by {
                assert(rest[k] == vs[k + 1]);
                assert(rest[k + 1] == vs[k + 2]);
            }
            assert(rest[rest.len() - 1] == vs[vs.len() - 1]);
        }
        assert(rest[0] == c);
        law_each_nesting_level_costs_one_more(t, flags, owner_of, rest, (n + 1) as u32, i, here);
        assert(costs.update(i as int, (costs[i as int] + chain_cost(flags, vs, n as int)) as u32) =~= here.update(
            i as int,
            (here[i as int] + chain_cost(flags, rest, n + 1)) as u32,
        ));
    }
}

/// A node that starts a symbol starts a fresh nesting frame: whatever the
/// nesting and the symbol it is walked under, the node and a chain of nested
/// nodes below it cost the new symbol as if from nesting zero, the node at
/// depth zero and the `k`-th below it at depth `k`.
pub proof fn law_symbols_start_at_depth_zero(
    t: Seq<SyntaxNode>,
    flags: Seq<NodeFlags>,
    owner_of: Seq<Option<usize>>,
    vs: Seq<int>,
    nesting: u32,
    owner: Option<usize>,
    i: usize,
    costs: Seq<u32>,
)
    requires
        tree_ok(t),
        vs.len() > 0,
        0 <= vs[0] < t.len(),
        vs[0] < flags.len(),
        vs[0] < owner_of.len(),
        owner_of[vs[0]] == Some(i),
        vs.len() == 1 ==> t[vs[0]].children@.len() == 0,
        vs.len() > 1 ==> t[vs[0]].children@.len() == 1 && t[vs[0]].children@[0] == vs[1] && flags[vs[0]].nesting
            && !flags[vs[0]].no_nesting && nesting_chain(t, flags, owner_of, vs.drop_first()),
        (i as int) < costs.len(),
        vs.len() <= u32::MAX,
        costs[i as int] + chain_cost(flags, vs, 0) <= u32::MAX,
    ensures
        spec_accumulate(t, flags, owner_of, vs[0], nesting, owner, costs) == costs.update(
            i as int,
            (costs[i as int] + chain_cost(flags, vs, 0)) as u32,
        ),
{
    let v = vs[0];
    let f = flags[v];
    let rest = vs.drop_first();
    lemma_chain_cost_front(flags, vs, 0);
    lemma_chain_cost_nonnegative(flags, rest, 1);
    let here = costs.update(i as int, (costs[i as int] + node_cost(f, 0)) as u32);
    assert(spec_accumulate(t, flags, owner_of, v, nesting, owner, costs) == accumulate_children(
        t,
        flags,
        owner_of,
        v,
        t[v].children@.len() as int,
        if f.nesting && !f.no_nesting { 1u32 } else { 0u32 },
        Some(i),
        here,
    )) by {
        if !(!f.no_increment && (f.increment || f.flat)) {
            assert(here =~= costs);
        }
    }
    if vs.len() > 1 {
        let c = vs[1];
        assert(v < c < t.len());
        assert(accumulate_children(t, flags, owner_of, v, 0, 1u32, Some(i), here) == here);
        assert(rest[0] == c);
        law_each_nesting_level_costs_one_more(t, flags, owner_of, rest, 1u32, i, here);
        assert(costs.update(i as int, (costs[i as int] + chain_cost(flags, vs, 0)) as u32) =~= here.update(
            i as int,
            (here[i as int] + chain_cost(flags, rest, 1)) as u32,
        ));
    }
}

/// The cognitive complexity of each of `symbols` symbols, whose nodes are
/// given by `owner_of`: the costs of walking the whole tree from its root,
/// every symbol starting at zero.
pub fn complexity(tree: &SyntaxTree, flags: &Vec<NodeFlags>, owner_of: &Vec<Option<usize>>, symbols: usize) -> (r: Vec<u32>)
    requires
        tree_ok(tree.nodes@),
    ensures
        tree.nodes@.len() == 0 ==> r@ == Seq::new(symbols as nat, |i: int| 0u32),
        tree.nodes@.len() > 0 ==> r@ == spec_accumulate(
            tree.nodes@,
            flags@,
            owner_of@,
            0,
            0,
            None,
            Seq::new(symbols as nat, |i: int| 0u32),
        ),
{
    let mut costs: Vec<u32> = Vec::new();
    let mut i: usize = 0;
    while i < symbols
        invariant
            i <= symbols,
            costs@ == Seq::new(i as nat, |k: int| 0u32),
        decreases symbols - i,
    {
        costs.push(0);
        proof {
            assert(costs@ =~= Seq::new((i + 1) as nat, |k: int| 0u32));
        }
        i = i + 1;
    }
    if tree.nodes.len() > 0 {
        accumulate(tree, flags, owner_of, 0, 0, None, &mut costs);
    }
    costs
}

/// One captured node of a query match.
pub struct Capture {
    /// The capture's name in the query.
    pub name: String,
    /// Position of the captured node in the tree.
    pub node: usize,
    /// The captured node's source text; empty when it is not valid UTF-8.
    pub text: String,
}

/// One match of a query pattern.
pub struct QueryMatch {
    /// Index of the pattern that matched.
    pub pattern: usize,
    pub captures: Vec<Capture>,
}

/// The `#set!` properties of one query pattern that phase 1 reads.
pub struct PatternProperties {
    /// What kind of symbol the pattern captures.
    pub kind: Option<String>,
    /// How the captured name is spelled; `{name}` when unset.
    pub format: Option<String>,
}

/// The node a match captures under `name`: the last such capture's.
pub open spec fn captured_node(captures: Seq<Capture>, name: Seq<char>) -> Option<usize>
    decreases captures.len(),
{
    if captures.len() == 0 {
        None
    } else if captures.last().name@ == name {
        Some(captures.last().node)
    } else {
        captured_node(captures.drop_last(), name)
    }
}

/// The texts of every other capture of a match, by capture name, in order.
pub open spec fn capture_variables(captures: Seq<Capture>, name: Seq<char>) -> Seq<(Seq<char>, Seq<char>)>
    decreases captures.len(),
{
    if captures.len() == 0 {
        Seq::empty()
    } else {
        let rest = capture_variables(captures.drop_last(), name);
        if captures.last().name@ == name {
            rest
        } else {
            rest.push((captures.last().name@, captures.last().text@))
        }
    }
}

/// The views of a list of variables.
pub open spec fn variable_views(vs: Seq<(String, String)>) -> Seq<(Seq<char>, Seq<char>)> {
    vs.map_values(|p: (String, String)| (p.0@, p.1@))
}

/// Split a match into the node captured under `name` and the other
/// captures' texts.
fn split_captures(captures: &Vec<Capture>, name: &str) -> (r: (Option<usize>, Vec<(String, String)>))
    ensures
        r.0 == captured_node(captures@, name@),
        variable_views(r.1@) == capture_variables(captures@, name@),
{
    let mut node: Option<usize> = None;
    let mut variables: Vec<(String, String)> = Vec::new();
    let mut i: usize = 0;
    while i < captures.len()
        invariant
            i <= captures@.len(),
            node == captured_node(captures@.take(i as int), name@),
            variable_views(variables@) == capture_variables(captures@.take(i as int), name@),
        decreases captures@.len() - i,
    {
        let ghost before = variables@;
        proof {
            assert(captures@.take(i + 1).drop_last() =~= captures@.take(i as int));
        }
        if str_eq(captures[i].name.as_str(), name) {
            node = Some(captures[i].node);
        } else {
            variables.push((captures[i].name.clone(), captures[i].text.clone()));
            proof {
                assert(variable_views(variables@) =~= variable_views(before).push(
                    (captures@[i as int].name@, captures@[i as int].text@),
                ));
            }
        }
        i = i + 1;
    }
    proof {
        assert(captures@.take(captures@.len() as int) =~= captures@);
    }
    (node, variables)
}

/// The value of one property of a pattern.
fn pattern_format<'a>(properties: &'a Vec<PatternProperties>, pattern: usize) -> (r: Option<&'a String>)
    ensures
        match r {
            Some(f) => pattern < properties@.len() && properties@[pattern as int].format == Some(*f),
            None => pattern >= properties@.len() || properties@[pattern as int].format is None,
        },
{
    if pattern < properties.len() {
        match &properties[pattern].format {
            Some(f) => Some(f),
            None => None,
        }
    } else {
        None
    }
}

fn pattern_kind<'a>(properties: &'a Vec<PatternProperties>, pattern: usize) -> (r: Option<&'a String>)
    ensures
        match r {
            Some(k) => pattern < properties@.len() && properties@[pattern as int].kind == Some(*k),
            None => pattern >= properties@.len() || properties@[pattern as int].kind is None,
        },
{
    if pattern < properties.len() {
        match &properties[pattern].kind {
            Some(k) => Some(k),
            None => None,
        }
    } else {
        None
    }
}

/// The name format of a pattern: its `format` property, `{name}` when unset.
pub open spec fn format_of(properties: Seq<PatternProperties>, pattern: usize) -> Seq<char> {
    if pattern < properties.len() && properties[pattern as int].format is Some {
        properties[pattern as int].format->0@
    } else {
        "{name}"@
    }
}

/// The segment every scope match contributes, in match order.
pub open spec fn scope_entries(matches: Seq<QueryMatch>, properties: Seq<PatternProperties>) -> Seq<(int, Seq<char>)>
    decreases matches.len(),
{
    if matches.len() == 0 {
        Seq::empty()
    } else {
        let rest = scope_entries(matches.drop_last(), properties);
        let m = matches.last();
        match captured_node(m.captures@, "scope"@) {
            Some(node) => rest.push(
                (
                    node as int,
                    spec_render(format_of(properties, m.pattern), capture_variables(m.captures@, "scope"@)),
                ),
            ),
            None => rest,
        }
    }
}

/// The views of scope entries.
pub open spec fn scope_views(scopes: Seq<(usize, String)>) -> Seq<(int, Seq<char>)> {
    scopes.map_values(|p: (usize, String)| (p.0 as int, p.1@))
}

fn format_or_default(properties: &Vec<PatternProperties>, pattern: usize) -> (r: String)
    ensures
        r@ == format_of(properties@, pattern),
{
    proof {
        reveal_strlit("{name}");
    }
    match pattern_format(properties, pattern) {
        Some(f) => f.clone(),
        None => "{name}".to_owned(),
    }
}

/// Map every scope node to the qualified-path segment it contributes; a
/// node matched again takes the later segment.
pub fn collect_scopes(matches: &Vec<QueryMatch>, properties: &Vec<PatternProperties>) -> (r: Vec<(usize, String)>)
    ensures
        scope_views(r@) == scope_entries(matches@, properties@),
{
    let mut scopes: Vec<(usize, String)> = Vec::new();
    proof {
        reveal_strlit("scope");
    }
    let mut m: usize = 0;
    while m < matches.len()
        invariant
            m <= matches@.len(),
            scope_views(scopes@) == scope_entries(matches@.take(m as int), properties@),
        decreases matches@.len() - m,
    {
        proof {
            assert(matches@.take(m + 1).drop_last() =~= matches@.take(m as int));
        }
        let (node, variables) = split_captures(&matches[m].captures, "scope");
        match node {
            Some(n) => {
                let format = format_or_default(properties, matches[m].pattern);
                let segment = render(format.as_str(), &variables);
                let ghost before = scopes@;
                scopes.push((n, segment));
                proof {
                    assert(scope_views(scopes@) =~= scope_views(before).push((n as int, segment@)));
                }
            },
            None => {},
        }
        m = m + 1;
    }
    proof {
        assert(matches@.take(matches@.len() as int) =~= matches@);
    }
    scopes
}

/// `name` is among the names captured at node `v`.
pub open spec fn captured_at(matches: Seq<QueryMatch>, v: int, name: Seq<char>) -> bool {
    exists|m: int, c: int|
        0 <= m < matches.len() && 0 <= c < matches[m].captures@.len() && (#[trigger] matches[m].captures@[c]).node
            == v && matches[m].captures@[c].name@ == name
}

/// What the complexity query's captures say of each of `nodes` nodes.
pub fn node_flags(matches: &Vec<QueryMatch>, nodes: usize) -> (r: Vec<NodeFlags>)
    ensures
        r@.len() == nodes,
        forall|v: int|
            0 <= v < nodes ==> {
                &&& (#[trigger] r@[v]).increment == captured_at(matches@, v, "increment"@)
                &&& r@[v].flat == captured_at(matches@, v, "increment.flat"@)
                &&& r@[v].nesting == captured_at(matches@, v, "nesting"@)
                &&& r@[v].no_increment == captured_at(matches@, v, "no_increment"@)
                &&& r@[v].no_nesting == captured_at(matches@, v, "no_nesting"@)
            },
{
    let mut flags: Vec<NodeFlags> = Vec::new();
    let mut i: usize = 0;
    while i < nodes
        invariant
            i <= nodes,
            flags@.len() == i,
            forall|v: int| 0 <= v < i ==> #[trigger] flags@[v] == (NodeFlags {
                increment: false,
                flat: false,
                nesting: false,
                no_increment: false,
                no_nesting: false,
            }),
        decreases nodes - i,
    {
        flags.push(NodeFlags { increment: false, flat: false, nesting: false, no_increment: false, no_nesting: false });
        i = i + 1;
    }
    proof {
        reveal_strlit("increment");
        reveal_strlit("increment.flat");
        reveal_strlit("nesting");
        reveal_strlit("no_increment");
        reveal_strlit("no_nesting");
    }
    let mut m: usize = 0;
    while m < matches.len()
        invariant
            m <= matches@.len(),
            flags@.len() == nodes,
            forall|v: int|
                0 <= v < nodes ==> {
                    &&& (#[trigger] flags@[v]).increment == captured_upto(matches@, m as int, 0, v, "increment"@)
                    &&& flags@[v].flat == captured_upto(matches@, m as int, 0, v, "increment.flat"@)
                    &&& flags@[v].nesting == captured_upto(matches@, m as int, 0, v, "nesting"@)
                    &&& flags@[v].no_increment == captured_upto(matches@, m as int, 0, v, "no_increment"@)
                    &&& flags@[v].no_nesting == captured_upto(matches@, m as int, 0, v, "no_nesting"@)
                },
        decreases matches@.len() - m,
    {
        let captures = &matches[m].captures;
        let mut c: usize = 0;
        while c < captures.len()
            invariant
                m < matches@.len(),
                captures == &matches@[m as int].captures,
                c <= captures@.len(),
                flags@.len() == nodes,
                forall|v: int|
                    0 <= v < nodes ==> {
                        &&& (#[trigger] flags@[v]).increment == captured_upto(matches@, m as int, c as int, v, "increment"@)
                        &&& flags@[v].flat == captured_upto(matches@, m as int, c as int, v, "increment.flat"@)
                        &&& flags@[v].nesting == captured_upto(matches@, m as int, c as int, v, "nesting"@)
                        &&& flags@[v].no_increment == captured_upto(matches@, m as int, c as int, v, "no_increment"@)
                        &&& flags@[v].no_nesting == captured_upto(matches@, m as int, c as int, v, "no_nesting"@)
                    },
            decreases captures@.len() - c,
        {
            let v = captures[c].node;
            let name = captures[c].name.as_str();
            proof {
                reveal_strlit("increment");
                reveal_strlit("increment.flat");
                reveal_strlit("nesting");
                reveal_strlit("no_increment");
                reveal_strlit("no_nesting");
            }
            let ghost old_flags = flags@;
            if v < nodes {
                let f = mark(flags[v], name);
                flags.set(v, f);
            }
            proof {
                lemma_captured_step(matches@, m as int, c as int);
                let cap = matches@[m as int].captures@[c as int];
                assert(cap.node == v && cap.name@ == name@);
                assert forall|w: int| 0 <= w < nodes implies {
                    &&& (#[trigger] flags@[w]).increment == captured_upto(matches@, m as int, c + 1, w, "increment"@)
                    &&& flags@[w].flat == captured_upto(matches@, m as int, c + 1, w, "increment.flat"@)
                    &&& flags@[w].nesting == captured_upto(matches@, m as int, c + 1, w, "nesting"@)
                    &&& flags@[w].no_increment == captured_upto(matches@, m as int, c + 1, w, "no_increment"@)
                    &&& flags@[w].no_nesting == captured_upto(matches@, m as int, c + 1, w, "no_nesting"@)
                } by {
                    if w != v {
                        assert(flags@[w] == old_flags[w]);
                    }
                    assert(captured_upto(matches@, m as int, c + 1, w, "increment"@) == (captured_upto(matches@, m as int, c as int, w, "increment"@) || (v == w && name@ == "increment"@)));
                    assert(captured_upto(matches@, m as int, c + 1, w, "increment.flat"@) == (captured_upto(matches@, m as int, c as int, w, "increment.flat"@) || (v == w && name@ == "increment.flat"@)));
                    assert(captured_upto(matches@, m as int, c + 1, w, "nesting"@) == (captured_upto(matches@, m as int, c as int, w, "nesting"@) || (v == w && name@ == "nesting"@)));
                    assert(captured_upto(matches@, m as int, c + 1, w, "no_increment"@) == (captured_upto(matches@, m as int, c as int, w, "no_increment"@) || (v == w && name@ == "no_increment"@)));
                    assert(captured_upto(matches@, m as int, c + 1, w, "no_nesting"@) == (captured_upto(matches@, m as int, c as int, w, "no_nesting"@) || (v == w && name@ == "no_nesting"@)));
                }
            }
            c = c + 1;
        }
        proof {
            lemma_captured_next_match(matches@, m as int);
        }
        m = m + 1;
    }
    proof {
        assert forall|v: int| 0 <= v < nodes implies {
            &&& (#[trigger] flags@[v]).increment == captured_at(matches@, v, "increment"@)
            &&& flags@[v].flat == captured_at(matches@, v, "increment.flat"@)
            &&& flags@[v].nesting == captured_at(matches@, v, "nesting"@)
            &&& flags@[v].no_increment == captured_at(matches@, v, "no_increment"@)
            &&& flags@[v].no_nesting == captured_at(matches@, v, "no_nesting"@)
        } by {
            lemma_captured_all(matches@, v, "increment"@);
            lemma_captured_all(matches@, v, "increment.flat"@);
            lemma_captured_all(matches@, v, "nesting"@);
            lemma_captured_all(matches@, v, "no_increment"@);
            lemma_captured_all(matches@, v, "no_nesting"@);
        }
    }
    flags
}

/// The flags of a node with one more capture named `name`.
fn mark(f: NodeFlags, name: &str) -> (r: NodeFlags)
    ensures
        r.increment == (f.increment || name@ == "increment"@),
        r.flat == (f.flat || name@ == "increment.flat"@),
        r.nesting == (f.nesting || name@ == "nesting"@),
        r.no_increment == (f.no_increment || name@ == "no_increment"@),
        r.no_nesting == (f.no_nesting || name@ == "no_nesting"@),
{
    proof {
        reveal_strlit("increment");
        reveal_strlit("increment.flat");
        reveal_strlit("nesting");
        reveal_strlit("no_increment");
        reveal_strlit("no_nesting");
        assert("increment"@.len() == 9);
        assert("increment.flat"@.len() == 14);
        assert("nesting"@.len() == 7);
        assert("no_increment"@.len() == 12);
        assert("no_nesting"@.len() == 10);
    }
    let mut r = f;
    if str_eq(name, "increment") {
        r.increment = true;
    } else if str_eq(name, "increment.flat") {
        r.flat = true;
    } else if str_eq(name, "nesting") {
        r.nesting = true;
    } else if str_eq(name, "no_increment") {
        r.no_increment = true;
    } else if str_eq(name, "no_nesting") {
        r.no_nesting = true;
    }
    r
}

/// `name` is captured at `v` by a capture before capture `c` of match `m`.
pub open spec fn captured_upto(matches: Seq<QueryMatch>, m: int, c: int, v: int, name: Seq<char>) -> bool {
    exists|i: int, j: int|
        0 <= i <= m && i < matches.len() && 0 <= j < matches[i].captures@.len() && (i < m || j < c) && (#[trigger] matches[i].captures@[j]).node
            == v && matches[i].captures@[j].name@ == name
}

proof fn lemma_captured_step(matches: Seq<QueryMatch>, m: int, c: int)
    requires
        0 <= m < matches.len(),
        0 <= c < matches[m].captures@.len(),
    ensures
        forall|v: int, name: Seq<char>|
            #[trigger] captured_upto(matches, m, c + 1, v, name) <==> (captured_upto(matches, m, c, v, name) || (
            matches[m].captures@[c].node == v && matches[m].captures@[c].name@ == name)),
{
    assert forall|v: int, name: Seq<char>|
        #[trigger] captured_upto(matches, m, c + 1, v, name) <==> (captured_upto(matches, m, c, v, name) || (
        matches[m].captures@[c].node == v && matches[m].captures@[c].name@ == name)) by {
        if captured_upto(matches, m, c + 1, v, name) {
            let (i, j) = choose|i: int, j: int|
                0 <= i <= m && i < matches.len() && 0 <= j < matches[i].captures@.len() && (i < m || j < c + 1) && (#[trigger] matches[i].captures@[j]).node
                    == v && matches[i].captures@[j].name@ == name;
            if !(i == m && j == c) {
                assert(captured_upto(matches, m, c, v, name));
            }
        }
        if captured_upto(matches, m, c, v, name) {
            let (i, j) = choose|i: int, j: int|
                0 <= i <= m && i < matches.len() && 0 <= j < matches[i].captures@.len() && (i < m || j < c) && (#[trigger] matches[i].captures@[j]).node
                    == v && matches[i].captures@[j].name@ == name;
            assert(captured_upto(matches, m, c + 1, v, name));
        }
        if matches[m].captures@[c].node == v && matches[m].captures@[c].name@ == name {
            assert(captured_upto(matches, m, c + 1, v, name));
        }
    }
}

proof fn lemma_captured_next_match(matches: Seq<QueryMatch>, m: int)
    requires
        0 <= m < matches.len(),
    ensures
        forall|v: int, name: Seq<char>|
            #[trigger] captured_upto(matches, m + 1, 0, v, name) == captured_upto(
                matches,
                m,
                matches[m].captures@.len() as int,
                v,
                name,
            ),
{
    assert forall|v: int, name: Seq<char>|
        #[trigger] captured_upto(matches, m + 1, 0, v, name) == captured_upto(
            matches,
            m,
            matches[m].captures@.len() as int,
            v,
            name,
        ) by {
        if captured_upto(matches, m + 1, 0, v, name) {
            let (i, j) = choose|i: int, j: int|
                0 <= i <= m + 1 && i < matches.len() && 0 <= j < matches[i].captures@.len() && (i < m + 1 || j < 0) && (#[trigger] matches[i].captures@[j]).node
                    == v && matches[i].captures@[j].name@ == name;
            assert(captured_upto(matches, m, matches[m].captures@.len() as int, v, name));
        }
        if captured_upto(matches, m, matches[m].captures@.len() as int, v, name) {
            let (i, j) = choose|i: int, j: int|
                0 <= i <= m && i < matches.len() && 0 <= j < matches[i].captures@.len() && (i < m || j
                    < matches[m].captures@.len()) && (#[trigger] matches[i].captures@[j]).node == v
                    && matches[i].captures@[j].name@ == name;
            assert(captured_upto(matches, m + 1, 0, v, name));
        }
    }
}

proof fn lemma_captured_all(matches: Seq<QueryMatch>, v: int, name: Seq<char>)
    ensures
        captured_upto(matches, matches.len() as int, 0, v, name) == captured_at(matches, v, name),
{
    if captured_at(matches, v, name) {
        let (i, j) = choose|i: int, j: int|
            0 <= i < matches.len() && 0 <= j < matches[i].captures@.len() && (#[trigger] matches[i].captures@[j]).node
                == v && matches[i].captures@[j].name@ == name;
        assert(captured_upto(matches, matches.len() as int, 0, v, name));
    }
    if captured_upto(matches, matches.len() as int, 0, v, name) {
        let (i, j) = choose|i: int, j: int|
            0 <= i <= matches.len() && i < matches.len() && 0 <= j < matches[i].captures@.len() && (i
                < matches.len() || j < 0) && (#[trigger] matches[i].captures@[j]).node == v
                && matches[i].captures@[j].name@ == name;
        assert(captured_at(matches, v, name));
    }
}

/// A symbol under construction, with the node it came from.
pub struct Pending {
    /// Position of the symbol's node in the tree.
    pub node: usize,
    pub start_byte: usize,
    pub symbol: Symbol,
}

/// Match `m` yields `p`: it captures the symbol node, its pattern names a
/// kind, and `p` is the symbol of that node, named by the pattern's format,
/// qualified by its enclosing scopes, fingerprinted by its tokens.
pub open spec fn yields(
    m: QueryMatch,
    properties: Seq<PatternProperties>,
    t: Seq<SyntaxNode>,
    scopes: Seq<(usize, String)>,
    language: LanguageDef,
    path: Seq<char>,
    p: Pending,
) -> bool {
    let name = spec_render(format_of(properties, m.pattern), capture_variables(m.captures@, "symbol"@));
    &&& captured_node(m.captures@, "symbol"@) == Some(p.node)
    &&& p.node < t.len()
    &&& m.pattern < properties.len()
    &&& properties[m.pattern as int].kind matches Some(named) && p.symbol.kind@ == named@
    &&& p.start_byte == t[p.node as int].start_byte
    &&& p.symbol.path@ == path
    &&& p.symbol.language@ == language.id@
    &&& p.symbol.name@ == name
    &&& p.symbol.qualified_path@ == join(
        ancestor_segments(t, scopes, p.node as int).push(name),
        language.path_separator@,
    )
    &&& p.symbol.discriminator is None
    &&& p.symbol.start_line == t[p.node as int].start_row + 1
    &&& p.symbol.end_line == t[p.node as int].end_row + 1
    &&& p.symbol.start_column == t[p.node as int].start_column
    &&& p.symbol.end_column == t[p.node as int].end_column
    &&& p.symbol.id@.len() == 0
    &&& p.symbol.declaration is None
    &&& p.symbol.cognitive_complexity == 0
    &&& p.symbol.tier == 1
    &&& p.symbol.content_fingerprint@ == hex_lower(sha256(encode_utf8(token_material(spec_tokens(t, p.node as int)))))
    &&& p.symbol.body_fingerprint@ == p.symbol.content_fingerprint@
}

fn borrowed_tokens(tokens: &Vec<(String, String)>) -> (r: Vec<(&str, &str)>)
    ensures
        token_views(r@) == owned_token_views(tokens@),
{
    let mut out: Vec<(&str, &str)> = Vec::new();
    let mut i: usize = 0;
    while i < tokens.len()
        invariant
            i <= tokens@.len(),
            token_views(out@) == owned_token_views(tokens@.take(i as int)),
        decreases tokens@.len() - i,
    {
        let ghost before = out@;
        out.push((tokens[i].0.as_str(), tokens[i].1.as_str()));
        proof {
            assert(token_views(out@) =~= token_views(before).push((tokens@[i as int].0@, tokens@[i as int].1@)));
            assert(owned_token_views(tokens@.take(i + 1)) =~= owned_token_views(tokens@.take(i as int)).push(
                (tokens@[i as int].0@, tokens@[i as int].1@),
            ));
        }
        i = i + 1;
    }
    proof {
        assert(tokens@.take(tokens@.len() as int) =~= tokens@);
    }
    out
}

/// The match yields a symbol: it captures a symbol node of the tree, its
/// pattern names a kind, and the node's rows can be counted from one.
pub open spec fn qualifies(m: QueryMatch, properties: Seq<PatternProperties>, t: Seq<SyntaxNode>) -> bool {
    &&& captured_node(m.captures@, "symbol"@) matches Some(v) && v < t.len() && t[v as int].start_row < usize::MAX
        && t[v as int].end_row < usize::MAX
    &&& m.pattern < properties.len()
    &&& properties[m.pattern as int].kind is Some
}

/// How many of the first `n` matches yield a symbol.
pub open spec fn count_qualifying(matches: Seq<QueryMatch>, properties: Seq<PatternProperties>, t: Seq<SyntaxNode>, n: nat) -> nat
    decreases n,
{
    if n == 0 {
        0
    } else {
        count_qualifying(matches, properties, t, (n - 1) as nat) + if qualifies(matches[n - 1], properties, t) {
            1nat
        } else {
            0nat
        }
    }
}

/// Every match of the first `n` that yields a symbol has its symbol among
/// `found`.
#[verifier::opaque]
pub open spec fn all_collected(
    matches: Seq<QueryMatch>,
    properties: Seq<PatternProperties>,
    t: Seq<SyntaxNode>,
    scopes: Seq<(usize, String)>,
    language: LanguageDef,
    path: Seq<char>,
    found: Seq<Pending>,
    n: int,
) -> bool {
    forall|k: int|
        0 <= k < n && qualifies(#[trigger] matches[k], properties, t) ==> exists|i: int|
            0 <= i < found.len() && yields(matches[k], properties, t, scopes, language, path, #[trigger] found[i])
}

proof fn lemma_collected_insert(
    matches: Seq<QueryMatch>,
    properties: Seq<PatternProperties>,
    t: Seq<SyntaxNode>,
    scopes: Seq<(usize, String)>,
    language: LanguageDef,
    path: Seq<char>,
    before: Seq<Pending>,
    after: Seq<Pending>,
    j: int,
    p: Pending,
    m: int,
)
    requires
        all_collected(matches, properties, t, scopes, language, path, before, m),
        0 <= j <= before.len(),
        after == before.insert(j, p),
        0 <= m < matches.len(),
        yields(matches[m], properties, t, scopes, language, path, p),
    ensures
        all_collected(matches, properties, t, scopes, language, path, after, m + 1),
{
    reveal(all_collected);
    assert forall|k: int| 0 <= k < m + 1 && qualifies(#[trigger] matches[k], properties, t) implies exists|i: int|
        0 <= i < after.len() && yields(matches[k], properties, t, scopes, language, path, #[trigger] after[i]) by {
        if k < m {
            let i = choose|i: int|
                0 <= i < before.len() && yields(matches[k], properties, t, scopes, language, path, #[trigger] before[i]);
            if i < j {
                assert(after[i] == before[i]);
            } else {
                assert(after[i + 1] == before[i]);
            }
        } else {
            assert(after[j] == p);
        }
    }
}

/// The symbols the matches of the symbols query capture, ordered by where
/// they start; a match without a symbol node, or whose pattern names no
/// kind, yields nothing.
pub fn collect_symbols(
    matches: &Vec<QueryMatch>,
    properties: &Vec<PatternProperties>,
    tree: &SyntaxTree,
    scopes: &Vec<(usize, String)>,
    language: &LanguageDef,
    path: &str,
) -> (r: Vec<Pending>)
    requires
        tree_ok(tree.nodes@),
    ensures
        r@.len() <= matches@.len(),
        r@.len() == count_qualifying(matches@, properties@, tree.nodes@, matches@.len()),
        all_yielded(matches@, properties@, tree.nodes@, scopes@, *language, path@, r@),
        all_collected(matches@, properties@, tree.nodes@, scopes@, *language, path@, r@, matches@.len() as int),
        forall|i: int, j: int| 0 <= i < j < r@.len() ==> (#[trigger] r@[i]).start_byte <= (#[trigger] r@[j]).start_byte,
{
    let mut found: Vec<Pending> = Vec::new();
    proof {
        reveal(all_collected);
        reveal_strlit("symbol");
    }
    let mut m: usize = 0;
    while m < matches.len()
        invariant
            m <= matches@.len(),
            tree_ok(tree.nodes@),
            found@.len() <= m,
            found@.len() == count_qualifying(matches@, properties@, tree.nodes@, m as nat),
            all_yielded(matches@, properties@, tree.nodes@, scopes@, *language, path@, found@),
            all_collected(matches@, properties@, tree.nodes@, scopes@, *language, path@, found@, m as int),
            forall|i: int, j: int|
                0 <= i < j < found@.len() ==> (#[trigger] found@[i]).start_byte <= (#[trigger] found@[j]).start_byte,
        decreases matches@.len() - m,
    {
        proof {
            reveal(all_collected);
        }
        let (node, variables) = split_captures(&matches[m].captures, "symbol");
        let kind = pattern_kind(properties, matches[m].pattern);
        match (node, kind) {
            (Some(v), Some(kind)) => {
                if v < tree.nodes.len() {
                    let format = format_or_default(properties, matches[m].pattern);
                    let name = render(format.as_str(), &variables);
                    let qualified_path = qualify(tree, scopes, v, name.as_str(), language.path_separator.as_str());
                    let owned = tokens(tree, v);
                    let borrowed = borrowed_tokens(&owned);
                    let fingerprint = content_fingerprint(borrowed.as_slice());
                    let node = &tree.nodes[v];
                    if node.start_row < usize::MAX && node.end_row < usize::MAX {
                        let symbol = Symbol {
                            id: String::new(),
                            path: path.to_owned(),
                            language: language.id.clone(),
                            kind: kind.clone(),
                            name,
                            qualified_path,
                            discriminator: None,
                            start_line: node.start_row + 1,
                            start_column: node.start_column,
                            end_line: node.end_row + 1,
                            end_column: node.end_column,
                            declaration: None,
                            cognitive_complexity: 0,
                            tier: 1,
                            body_fingerprint: fingerprint.clone(),
                            content_fingerprint: fingerprint,
                        };
                        let pending = Pending { node: v, start_byte: node.start_byte, symbol };
                        proof {
                            assert(yields(matches@[m as int], properties@, tree.nodes@, scopes@, *language, path@, pending));
                        }
                        let ghost before = found@;
                        insert_by_start(&mut found, pending);
                        proof {
                            lemma_yielded_insert(
                                matches@,
                                properties@,
                                tree.nodes@,
                                scopes@,
                                *language,
                                path@,
                                before,
                                found@,
                                pending,
                                m as int,
                            );
                            assert(qualifies(matches@[m as int], properties@, tree.nodes@));
                            let j = choose|j: int| 0 <= j <= before.len() && found@ == before.insert(j, pending);
                            lemma_collected_insert(
                                matches@,
                                properties@,
                                tree.nodes@,
                                scopes@,
                                *language,
                                path@,
                                before,
                                found@,
                                j,
                                pending,
                                m as int,
                            );
                        }
                    } else {
                        proof {
                            assert(!qualifies(matches@[m as int], properties@, tree.nodes@));
                        }
                    }
                } else {
                    proof {
                        assert(!qualifies(matches@[m as int], properties@, tree.nodes@));
                    }
                }
            },
            _ => {
                proof {
                    assert(!qualifies(matches@[m as int], properties@, tree.nodes@));
                }
            },
        }
        m = m + 1;
    }
    found
}

/// Every entry of `found` is yielded by one of the matches.
pub open spec fn all_yielded(
    matches: Seq<QueryMatch>,
    properties: Seq<PatternProperties>,
    t: Seq<SyntaxNode>,
    scopes: Seq<(usize, String)>,
    language: LanguageDef,
    path: Seq<char>,
    found: Seq<Pending>,
) -> bool {
    forall|i: int|
        #![trigger found[i]]
        0 <= i < found.len() ==> exists|k: int|
            0 <= k < matches.len() && yields(#[trigger] matches[k], properties, t, scopes, language, path, found[i])
}

proof fn lemma_yielded_insert(
    matches: Seq<QueryMatch>,
    properties: Seq<PatternProperties>,
    t: Seq<SyntaxNode>,
    scopes: Seq<(usize, String)>,
    language: LanguageDef,
    path: Seq<char>,
    before: Seq<Pending>,
    after: Seq<Pending>,
    p: Pending,
    m: int,
)
    requires
        all_yielded(matches, properties, t, scopes, language, path, before),
        0 <= m < matches.len(),
        yields(matches[m], properties, t, scopes, language, path, p),
        forall|i: int| 0 <= i < after.len() ==> #[trigger] after[i] == p || before.contains(after[i]),
    ensures
        all_yielded(matches, properties, t, scopes, language, path, after),
{
    assert forall|i: int| #![trigger after[i]] 0 <= i < after.len() implies exists|k: int|
        0 <= k < matches.len() && yields(#[trigger] matches[k], properties, t, scopes, language, path, after[i]) by {
        if after[i] == p {
            assert(yields(matches[m], properties, t, scopes, language, path, after[i]));
        } else {
            assert(before.contains(after[i]));
            let b = choose|b: int| 0 <= b < before.len() && before[b] == after[i];
            assert(exists|k: int|
                0 <= k < matches.len() && yields(#[trigger] matches[k], properties, t, scopes, language, path, before[b]));
        }
    }
}

/// Insert after every entry starting no later, keeping the order stable.
fn insert_by_start(found: &mut Vec<Pending>, p: Pending)
    requires
        forall|i: int, j: int|
            0 <= i < j < old(found)@.len() ==> (#[trigger] old(found)@[i]).start_byte <= (#[trigger] old(found)@[j]).start_byte,
    ensures
        final(found)@.len() == old(found)@.len() + 1,
        forall|i: int, j: int|
            0 <= i < j < final(found)@.len() ==> (#[trigger] final(found)@[i]).start_byte <= (#[trigger] final(found)@[j]).start_byte,
        forall|i: int| 0 <= i < final(found)@.len() ==> #[trigger] final(found)@[i] == p || old(found)@.contains(final(found)@[i]),
        exists|k: int| 0 <= k <= old(found)@.len() && final(found)@ == old(found)@.insert(k, p),
{
    let mut k = found.len();
    while k > 0 && p.start_byte < found[k - 1].start_byte
        invariant
            k <= found@.len(),
            forall|j: int| k <= j < found@.len() ==> p.start_byte < (#[trigger] found@[j]).start_byte,
        decreases k,
    {
        k = k - 1;
    }
    let ghost before = found@;
    found.insert(k, p);
    proof {
        assert forall|i: int| 0 <= i < found@.len() implies #[trigger] found@[i] == p || before.contains(found@[i]) by {
            if i < k {
                assert(found@[i] == before[i]);
            } else if i > k {
                assert(found@[i] == before[i - 1]);
            }
        }
        assert forall|i: int, j: int| 0 <= i < j < found@.len() implies (#[trigger] found@[i]).start_byte <= (#[trigger] found@[j]).start_byte by {
            if i < k && j == k {
                assert(found@[i] == before[i]);
                if k > 0 {
                    assert(before[i].start_byte <= before[k - 1].start_byte);
                }
            } else if i == k && j > k {
                assert(found@[j] == before[j - 1]);
            } else {
                let bi = if i < k { i } else { i - 1 };
                let bj = if j < k { j } else { j - 1 };
                assert(found@[i] == before[bi]);
                assert(found@[j] == before[bj]);
            }
        }
    }
}

/// The last pending symbol whose node is `v`.
pub open spec fn owner_at(found: Seq<Pending>, v: int) -> Option<usize>
    decreases found.len(),
{
    if found.len() == 0 {
        None
    } else if found.last().node as int == v {
        Some((found.len() - 1) as usize)
    } else {
        owner_at(found.drop_last(), v)
    }
}

/// For each of `n` nodes, the symbol it starts, if any.
fn owner_of(found: &Vec<Pending>, n: usize) -> (r: Vec<Option<usize>>)
    ensures
        r@.len() == n,
        forall|v: int| 0 <= v < n ==> #[trigger] r@[v] == owner_at(found@, v),
{
    let mut owners: Vec<Option<usize>> = Vec::new();
    let mut v: usize = 0;
    while v < n
        invariant
            v <= n,
            owners@.len() == v,
            forall|w: int| 0 <= w < v ==> #[trigger] owners@[w] == owner_at(found@, w),
        decreases n - v,
    {
        let mut i = found.len();
        let mut owner: Option<usize> = None;
        proof {
            assert(found@.take(i as int) =~= found@);
        }
        while i > 0
            invariant_except_break
                i <= found@.len(),
                owner is None,
                owner_at(found@, v as int) == owner_at(found@.take(i as int), v as int),
            ensures
                owner == owner_at(found@, v as int),
            decreases i,
        {
            proof {
                assert(found@.take(i as int).drop_last() =~= found@.take(i - 1));
            }
            if found[i - 1].node == v {
                owner = Some(i - 1);
                break;
            }
            i = i - 1;
        }
        owners.push(owner);
        v = v + 1;
    }
    owners
}

/// What the complexity query's captures say of each of `n` nodes.
pub open spec fn flags_of(matches: Seq<QueryMatch>, n: int) -> Seq<NodeFlags> {
    Seq::new(
        n as nat,
        |v: int|
            NodeFlags {
                increment: captured_at(matches, v, "increment"@),
                flat: captured_at(matches, v, "increment.flat"@),
                nesting: captured_at(matches, v, "nesting"@),
                no_increment: captured_at(matches, v, "no_increment"@),
                no_nesting: captured_at(matches, v, "no_nesting"@),
            },
    )
}

/// For each of `n` nodes, the found symbol it starts, if any.
pub open spec fn owners_of(found: Seq<Pending>, n: int) -> Seq<Option<usize>> {
    Seq::new(n as nat, |v: int| owner_at(found, v))
}

/// The cognitive complexity of each found symbol: the tree walked from its
/// root, each node charged to the innermost symbol containing it.
pub open spec fn symbol_costs(matches: Seq<QueryMatch>, t: Seq<SyntaxNode>, found: Seq<Pending>) -> Seq<u32> {
    let zeros = Seq::new(found.len(), |i: int| 0u32);
    if t.len() == 0 {
        zeros
    } else {
        spec_accumulate(t, flags_of(matches, t.len() as int), owners_of(found, t.len() as int), 0, 0, None, zeros)
    }
}


/// The cognitive complexity of each pending symbol, from the captures of
/// the complexity query.
pub fn complexity_by_symbol(matches: &Vec<QueryMatch>, tree: &SyntaxTree, found: &Vec<Pending>) -> (r: Vec<u32>)
    requires
        tree_ok(tree.nodes@),
    ensures
        r@.len() == found@.len(),
        r@ == symbol_costs(matches@, tree.nodes@, found@),
{
    let n = tree.nodes.len();
    let flags = node_flags(matches, n);
    let owners = owner_of(found, n);
    proof {
        assert(flags@ =~= flags_of(matches@, n as int));
        assert(owners@ =~= owners_of(found@, n as int));
    }
    let costs = complexity(tree, &flags, &owners, found.len());
    proof {
        if n > 0 {
            lemma_accumulate_len(tree.nodes@, flags@, owners@, 0, 0, None, Seq::new(found@.len(), |i: int| 0u32));
        }
    }
    costs
}

proof fn lemma_accumulate_len(
    t: Seq<SyntaxNode>,
    flags: Seq<NodeFlags>,
    owner_of: Seq<Option<usize>>,
    v: int,
    nesting: u32,
    owner: Option<usize>,
    costs: Seq<u32>,
)
    ensures
        spec_accumulate(t, flags, owner_of, v, nesting, owner, costs).len() == costs.len(),
    decreases t.len() - v, t[v].children@.len() + 1,
{
    if 0 <= v < t.len() && v < flags.len() && v < owner_of.len() {
        let (nest, own) = match owner_of[v] {
            Some(i) => (0u32, Some(i)),
            None => (nesting, owner),
        };
        let f = flags[v];
        let here = match own {
            Some(i) => if (i as int) < costs.len() && !f.no_increment {
                if f.increment {
                    costs.update(i as int, sat(costs[i as int] + sat(1 + nest)))
                } else if f.flat {
                    costs.update(i as int, sat(costs[i as int] + 1))
                } else {
                    costs
                }
            } else {
                costs
            },
            None => costs,
        };
        let child_nesting = if f.nesting && !f.no_nesting {
            sat(nest + 1)
        } else {
            nest
        };
        lemma_accumulate_children_len(t, flags, owner_of, v, t[v].children@.len() as int, child_nesting, own, here);
    }
}

proof fn lemma_accumulate_children_len(
    t: Seq<SyntaxNode>,
    flags: Seq<NodeFlags>,
    owner_of: Seq<Option<usize>>,
    v: int,
    k: int,
    nesting: u32,
    owner: Option<usize>,
    costs: Seq<u32>,
)
    ensures
        accumulate_children(t, flags, owner_of, v, k, nesting, owner, costs).len() == costs.len(),
    decreases t.len() - v, k,
{
    if k > 0 && 0 <= v < t.len() && k <= t[v].children@.len() {
        lemma_accumulate_children_len(t, flags, owner_of, v, k - 1, nesting, owner, costs);
        let c = t[v].children@[k - 1] as int;
        if v < c < t.len() {
            lemma_accumulate_len(
                t,
                flags,
                owner_of,
                c,
                nesting,
                owner,
                accumulate_children(t, flags, owner_of, v, k - 1, nesting, owner, costs),
            );
        }
    }
}

/// The found symbols, each carrying its complexity.
pub open spec fn scored_of(found: Seq<Pending>, costs: Seq<u32>) -> Seq<Symbol> {
    Seq::new(found.len(), |i: int| Symbol { cognitive_complexity: costs[i], ..found[i].symbol })
}

/// What phase 1 makes of one parsed file: the scopes are what the scope
/// query captures; the symbols found are every symbol the symbols query
/// yields, ordered by where they start; each result symbol is the found one
/// at its position with the complexity charged to it and the identity that
/// `finish` assigns; every result is a tier-1 symbol of `path` in `language`.
pub open spec fn tier1_result(
    t: Seq<SyntaxNode>,
    scope_matches: Seq<QueryMatch>,
    scope_properties: Seq<PatternProperties>,
    symbol_matches: Seq<QueryMatch>,
    symbol_properties: Seq<PatternProperties>,
    complexity_matches: Seq<QueryMatch>,
    language: LanguageDef,
    path: Seq<char>,
    r: Seq<Symbol>,
) -> bool {
    &&& r.len() <= symbol_matches.len()
    &&& exists|scopes: Seq<(usize, String)>, found: Seq<Pending>|
        {
            &&& scope_views(scopes) == scope_entries(scope_matches, scope_properties)
            &&& all_yielded(symbol_matches, symbol_properties, t, scopes, language, path, found)
            &&& found.len() == count_qualifying(symbol_matches, symbol_properties, t, symbol_matches.len())
            &&& all_collected(symbol_matches, symbol_properties, t, scopes, language, path, found, symbol_matches.len() as int)
            &&& forall|i: int, j: int|
                0 <= i < j < found.len() ==> (#[trigger] found[i]).start_byte <= (#[trigger] found[j]).start_byte
            &&& r.len() == found.len()
            &&& forall|i: int|
                0 <= i < r.len() ==> identified(
                    scored_of(found, symbol_costs(complexity_matches, t, found)),
                    i,
                    #[trigger] r[i],
                )
        }
    &&& forall|i: int|
        0 <= i < r.len() ==> (#[trigger] r[i]).tier == 1 && r[i].path@ == path && r[i].language@ == language.id@
}

/// Tier 1: the symbols of a parsed file, from the matches of its language's
/// scopes, symbols and complexity queries, each scored and identified.
///
/// Every symbol comes from a match of the symbols query, in source order,
/// named and qualified through the scopes the scopes query found; its
/// complexity is what the complexity query charges to it as the innermost
/// symbol; and its identity is the one `finish` assigns.
pub fn tier1_symbols(
    tree: &SyntaxTree,
    scope_matches: &Vec<QueryMatch>,
    scope_properties: &Vec<PatternProperties>,
    symbol_matches: &Vec<QueryMatch>,
    symbol_properties: &Vec<PatternProperties>,
    complexity_matches: &Vec<QueryMatch>,
    language: &LanguageDef,
    path: &str,
) -> (r: Vec<Symbol>)
    requires
        tree_ok(tree.nodes@),
    ensures
        tier1_result(
            tree.nodes@,
            scope_matches@,
            scope_properties@,
            symbol_matches@,
            symbol_properties@,
            complexity_matches@,
            *language,
            path@,
            r@,
        ),
{
    let scopes = collect_scopes(scope_matches, scope_properties);
    let found = collect_symbols(symbol_matches, symbol_properties, tree, &scopes, language, path);
    let costs = complexity_by_symbol(complexity_matches, tree, &found);
    let ghost input = found@;
    let ghost want = scored_of(input, costs@);
    let mut rest = found;
    let mut scored: Vec<Symbol> = Vec::new();
    let n = rest.len();
    let mut i: usize = 0;
    while i < n
        invariant
            i <= n,
            n == input.len(),
            costs@.len() == n,
            want == scored_of(input, costs@),
            rest@ == input.skip(i as int),
            scored@ == want.take(i as int),
            all_yielded(symbol_matches@, symbol_properties@, tree.nodes@, scopes@, *language, path@, input),
            input.len() == count_qualifying(symbol_matches@, symbol_properties@, tree.nodes@, symbol_matches@.len()),
            all_collected(
                symbol_matches@,
                symbol_properties@,
                tree.nodes@,
                scopes@,
                *language,
                path@,
                input,
                symbol_matches@.len() as int,
            ),
            forall|k: int|
                0 <= k < i ==> (#[trigger] scored@[k]).tier == 1 && scored@[k].path@ == path@ && scored@[k].language@
                    == language.id@,
        decreases n - i,
    {
        let pending = rest.remove(0);
        proof {
            assert(pending == input[i as int]);
            assert(rest@ =~= input.skip(i + 1));
            let k = choose|k: int|
                0 <= k < symbol_matches@.len() && yields(
                    #[trigger] symbol_matches@[k],
                    symbol_properties@,
                    tree.nodes@,
                    scopes@,
                    *language,
                    path@,
                    input[i as int],
                );
        }
        let mut symbol = pending.symbol;
        symbol.cognitive_complexity = costs[i];
        proof {
            assert(symbol == want[i as int]);
        }
        scored.push(symbol);
        proof {
            assert(scored@ =~= want.take(i + 1));
        }
        i = i + 1;
    }
    proof {
        assert(want.take(n as int) =~= want);
    }
    let r = finish(scored);
    proof {
        assert forall|i: int| 0 <= i < r@.len() implies (#[trigger] r@[i]).tier == 1 && r@[i].path@ == path@
            && r@[i].language@ == language.id@ by {
            assert(identified(scored@, i, r@[i]));
        }
        assert(scored@ == scored_of(found@, symbol_costs(complexity_matches@, tree.nodes@, found@)));
    }
    r
}

/// No tree and no matches give no symbols.
pub proof fn lemma_tier1_empty(language: LanguageDef, path: Seq<char>)
    ensures
        tier1_result(
            Seq::empty(),
            Seq::empty(),
            Seq::empty(),
            Seq::empty(),
            Seq::empty(),
            Seq::empty(),
            language,
            path,
            Seq::empty(),
        ),
{
    reveal(all_collected);
    let scopes = Seq::<(usize, String)>::empty();
    let found = Seq::<Pending>::empty();
    let t = Seq::<SyntaxNode>::empty();
    let m = Seq::<QueryMatch>::empty();
    let p = Seq::<PatternProperties>::empty();
    assert(scope_views(scopes) =~= scope_entries(m, p));
    assert(count_qualifying(m, p, t, 0) == 0);
    assert(all_yielded(m, p, t, scopes, language, path, found));
    assert(all_collected(m, p, t, scopes, language, path, found, 0));
    assert(Seq::<Symbol>::empty().len() == found.len());
}

} // verus!
