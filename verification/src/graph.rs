//! The reference graph.
//!
//! Fan-in and fan-out are kept apart because they mean opposite things. Fan-in
//! is how much depends on a symbol, so it is the blast radius of changing it.
//! Fan-out is how much a symbol depends on, so it is how much has to be
//! understood to read it. Summing them would destroy both.

use crate::code_graph::connect::{
    adj_symmetric, lemma_reaches_self, lemma_reaches_symmetric, lemma_reaches_trans, push_step,
};
use crate::code_graph::index::{adj_closed, adj_step, breadth_first, reach_correct, reaches};
use crate::order::{contains_view, insert_sorted, sorted_strict, str_eq, views};
use crate::lang::{by_id, spec_by_id, LanguageDef};
use crate::phase1::FileAnalysis;
use crate::resolve::{separator_for, ResolutionStats};
use crate::resolve::{last_segment, scope_mentions, spec_last_segment, spec_scope_mentions, Edge};
use crate::symbol::Symbol;
use vstd::prelude::*;

verus! {

/// Degree of one symbol in the reference graph.
#[derive(Debug, Clone, Copy, PartialEq, Eq, Structural)]
pub struct Degree {
    /// Distinct symbols that reference this one.
    pub fan_in: usize,
    /// Distinct symbols this one references.
    pub fan_out: usize,
}

/// The resolved reference graph over a file set.
pub struct Graph {
    /// Stably sorted, deduplicated.
    pub edges: Vec<Edge>,
    /// Degree by symbol id, ascending by id. Only symbols with a non-zero
    /// degree appear.
    pub degree: Vec<(String, Degree)>,
    /// Cohesion component of each symbol, file by file in symbol order.
    pub component: Vec<(String, usize)>,
    /// Number of connected components in each file, by repo-relative path,
    /// in file order.
    pub components_per_file: Vec<(String, usize)>,
    /// What resolution could and could not do.
    pub resolution: ResolutionStats,
}

/// The ids an edge from `x` leads to.
pub open spec fn out_partners(edges: Seq<Edge>, x: Seq<char>) -> Set<Seq<char>> {
    Set::new(|y: Seq<char>| exists|e: int| 0 <= e < edges.len() && (#[trigger] edges[e]).from@ == x && edges[e].to@ == y)
}

/// The ids an edge to `x` comes from.
pub open spec fn in_partners(edges: Seq<Edge>, x: Seq<char>) -> Set<Seq<char>> {
    Set::new(|y: Seq<char>| exists|e: int| 0 <= e < edges.len() && (#[trigger] edges[e]).to@ == x && edges[e].from@ == y)
}

/// Some edge starts or ends at `x`.
pub open spec fn is_endpoint(edges: Seq<Edge>, x: Seq<char>) -> bool {
    exists|e: int| 0 <= e < edges.len() && ((#[trigger] edges[e]).from@ == x || edges[e].to@ == x)
}

/// The ids of a list of keyed entries.
pub open spec fn degree_ids(ds: Seq<(String, Degree)>) -> Seq<Seq<char>> {
    ds.map_values(|p: (String, Degree)| p.0@)
}

/// `ds` holds, ascending by id, one entry for every id an edge touches,
/// counting its distinct partners each way.
pub open spec fn degrees_of(edges: Seq<Edge>, ds: Seq<(String, Degree)>) -> bool {
    &&& sorted_strict(degree_ids(ds))
    &&& forall|y: Seq<char>| #[trigger] contains_view(degree_ids(ds), y) <==> is_endpoint(edges, y)
    &&& forall|i: int|
        0 <= i < ds.len() ==> (#[trigger] ds[i]).1.fan_out == out_partners(edges, ds[i].0@).len()
            && ds[i].1.fan_in == in_partners(edges, ds[i].0@).len()
}

/// `labels` numbers the vertices by the class of vertices they reach, in
/// order of each class's first vertex: two vertices share a label exactly
/// when one reaches the other, and every label but the first follows one
/// already used at an earlier vertex.
pub open spec fn first_appearance_labels(adj: Seq<Seq<(usize, usize)>>, labels: Seq<usize>) -> bool {
    &&& labels.len() == adj.len()
    &&& forall|i: int, j: int|
        0 <= i < labels.len() && 0 <= j < labels.len() ==> (#[trigger] labels[i] == #[trigger] labels[j]
            <==> reaches(adj, i, j))
    &&& forall|i: int|
        0 <= i < labels.len() && #[trigger] labels[i] > 0 ==> exists|j: int|
            0 <= j < i && labels[j] + 1 == #[trigger] labels[i]
}

/// Label `l` is carried by one of the vertices `0..i`.
spec fn used_before(labels: Seq<usize>, i: int, l: int) -> bool {
    exists|u: int| 0 <= u < i && #[trigger] labels[u] == l
}

/// The labelling so far: vertices `0..i` and those reachable from them carry
/// labels `0..next`, numbered as `first_appearance_labels` asks.
spec fn labelled_upto(
    adj: Seq<Seq<(usize, usize)>>,
    assigned: Seq<bool>,
    labels: Seq<usize>,
    i: int,
    next: int,
) -> bool {
    &&& assigned.len() == adj.len()
    &&& labels.len() == adj.len()
    &&& 0 <= next <= i <= adj.len()
    &&& forall|v: int| 0 <= v < i ==> #[trigger] assigned[v]
    &&& forall|v: int| 0 <= v < adj.len() && #[trigger] assigned[v] ==> labels[v] < next
    &&& forall|u: int, v: int|
        0 <= u < adj.len() && 0 <= v < adj.len() && #[trigger] assigned[u] && #[trigger] assigned[v] ==> (
        labels[u] == labels[v] <==> reaches(adj, u, v))
    &&& forall|u: int, v: int|
        0 <= u < adj.len() && 0 <= v < adj.len() && #[trigger] assigned[u] && !#[trigger] assigned[v]
            ==> !reaches(adj, u, v)
    &&& forall|l: int| 0 <= l < next ==> #[trigger] used_before(labels, i, l)
    &&& forall|u: int|
        0 <= u < adj.len() && #[trigger] assigned[u] && labels[u] > 0 ==> exists|j: int|
            0 <= j < u && #[trigger] assigned[j] && labels[j] + 1 == labels[u]
}

/// Number the classes of mutually reachable vertices of a symmetric
/// adjacency in order of their first vertex.
pub fn label_components(adj: &Vec<Vec<(usize, usize)>>) -> (labels: Vec<usize>)
    requires
        adj_closed(adj@.map_values(|l: Vec<(usize, usize)>| l@)),
        adj_symmetric(adj@.map_values(|l: Vec<(usize, usize)>| l@)),
    ensures
        first_appearance_labels(adj@.map_values(|l: Vec<(usize, usize)>| l@), labels@),
        forall|i: int| 0 <= i < labels@.len() ==> #[trigger] labels@[i] <= i,
{
    let ghost g = adj@.map_values(|l: Vec<(usize, usize)>| l@);
    let n = adj.len();
    let mut labels: Vec<usize> = Vec::new();
    let mut assigned: Vec<bool> = Vec::new();
    let mut k: usize = 0;
    while k < n
        invariant
            k <= n,
            n == g.len(),
            labels@.len() == k,
            assigned@.len() == k,
            forall|v: int| 0 <= v < k ==> !#[trigger] assigned@[v],
        decreases n - k,
    {
        labels.push(0);
        assigned.push(false);
        k = k + 1;
    }
    let mut next: usize = 0;
    let mut i: usize = 0;
    while i < n
        invariant
            n == g.len(),
            g == adj@.map_values(|l: Vec<(usize, usize)>| l@),
            adj_closed(g),
            adj_symmetric(g),
            labelled_upto(g, assigned@, labels@, i as int, next as int),
            forall|v: int| 0 <= v < n && #[trigger] assigned@[v] ==> labels@[v] <= v,
        decreases n - i,
    {
        if !assigned[i] {
            let r = breadth_first(adj, i);
            let ghost old_assigned = assigned@;
            let ghost old_labels = labels@;
            proof {
                assert forall|v: int| 0 <= v < n && #[trigger] r.visited@[v] implies !old_assigned[v] by {
                    if old_assigned[v] {
                        lemma_reaches_symmetric(g, i as int, v);
                        assert(!old_assigned[i as int]);
                    }
                }
            }
            let mut v: usize = 0;
            while v < n
                invariant
                    v <= n,
                    n == g.len(),
                    reach_correct(g, i as int, r),
                    assigned@.len() == n,
                    labels@.len() == n,
                    old_assigned.len() == n,
                    old_labels.len() == n,
                    forall|w: int| 0 <= w < n && #[trigger] r.visited@[w] ==> !old_assigned[w],
                    forall|w: int|
                        0 <= w < n ==> #[trigger] assigned@[w] == if w < v && r.visited@[w] {
                            true
                        } else {
                            old_assigned[w]
                        },
                    forall|w: int|
                        0 <= w < n ==> #[trigger] labels@[w] == if w < v && r.visited@[w] {
                            next
                        } else {
                            old_labels[w]
                        },
                decreases n - v,
            {
                if r.visited[v] {
                    assigned.set(v, true);
                    labels.set(v, next);
                }
                v = v + 1;
            }
            proof {
                lemma_label_class(g, r, old_assigned, old_labels, assigned@, labels@, i as int, next as int);
            }
            next = next + 1;
        } else {
            proof {
                assert forall|l: int| 0 <= l < next implies #[trigger] used_before(labels@, i + 1, l) by {
                    assert(used_before(labels@, i as int, l));
                    let u = choose|u: int| 0 <= u < i && #[trigger] labels@[u] == l;
                }
            }
        }
        i = i + 1;
    }
    proof {
        let ls = labels@;
        assert forall|a: int, b: int| 0 <= a < ls.len() && 0 <= b < ls.len() implies (#[trigger] ls[a]
            == #[trigger] ls[b] <==> reaches(g, a, b)) by {
            assert(assigned@[a] && assigned@[b]);
        }
        assert forall|a: int| 0 <= a < ls.len() && #[trigger] ls[a] > 0 implies exists|j: int|
            0 <= j < a && ls[j] + 1 == #[trigger] ls[a] by {
            assert(assigned@[a]);
        }
        assert forall|a: int| 0 <= a < ls.len() implies #[trigger] ls[a] <= a by {
            assert(assigned@[a]);
        }
    }
    labels
}

proof fn lemma_label_class(
    g: Seq<Seq<(usize, usize)>>,
    r: crate::code_graph::index::Reach,
    old_assigned: Seq<bool>,
    old_labels: Seq<usize>,
    assigned: Seq<bool>,
    labels: Seq<usize>,
    i: int,
    next: int,
)
    requires
        adj_symmetric(g),
        0 <= i < g.len(),
        reach_correct(g, i, r),
        labelled_upto(g, old_assigned, old_labels, i, next),
        !old_assigned[i],
        forall|v: int| 0 <= v < g.len() && #[trigger] old_assigned[v] ==> old_labels[v] <= v,
        forall|w: int| 0 <= w < g.len() && #[trigger] r.visited@[w] ==> !old_assigned[w],
        assigned.len() == g.len(),
        labels.len() == g.len(),
        forall|w: int|
            0 <= w < g.len() ==> #[trigger] assigned[w] == if r.visited@[w] {
                true
            } else {
                old_assigned[w]
            },
        forall|w: int|
            0 <= w < g.len() ==> #[trigger] labels[w] == if r.visited@[w] {
                next as usize
            } else {
                old_labels[w]
            },
    ensures
        labelled_upto(g, assigned, labels, i + 1, next + 1),
        forall|v: int| 0 <= v < g.len() && #[trigger] assigned[v] ==> labels[v] <= v,
{
    let n = g.len();
    lemma_reaches_self(g, i);
    assert(r.visited@[i]);
    assert forall|v: int| 0 <= v < n && #[trigger] r.visited@[v] implies v >= i by {
        if v < i {
            assert(old_assigned[v]);
        }
    }
    assert forall|u: int, v: int|
        0 <= u < n && 0 <= v < n && #[trigger] assigned[u] && #[trigger] assigned[v] implies (labels[u]
        == labels[v] <==> reaches(g, u, v)) by {
        if r.visited@[u] && r.visited@[v] {
            lemma_reaches_symmetric(g, i, u);
            lemma_reaches_trans(g, u, i, v);
        } else if r.visited@[u] && !r.visited@[v] {
            assert(old_assigned[v]);
            assert(old_labels[v] < next);
            if reaches(g, u, v) {
                lemma_reaches_trans(g, i, u, v);
                lemma_reaches_symmetric(g, i, v);
            }
        } else if !r.visited@[u] && r.visited@[v] {
            assert(old_assigned[u]);
            assert(old_labels[u] < next);
            if reaches(g, u, v) {
                lemma_reaches_symmetric(g, i, v);
                lemma_reaches_trans(g, u, v, i);
            }
        }
    }
    assert forall|u: int, v: int|
        0 <= u < n && 0 <= v < n && #[trigger] assigned[u] && !#[trigger] assigned[v] implies !reaches(g, u, v) by {
        assert(!r.visited@[v]);
        assert(!old_assigned[v]);
        if r.visited@[u] && reaches(g, u, v) {
            lemma_reaches_trans(g, i, u, v);
        }
    }
    assert forall|l: int| 0 <= l < next + 1 implies #[trigger] used_before(labels, i + 1, l) by {
        if l < next {
            assert(used_before(old_labels, i, l));
            let u = choose|u: int| 0 <= u < i && #[trigger] old_labels[u] == l;
            assert(old_assigned[u]);
            assert(!r.visited@[u]);
            assert(labels[u] == l);
        } else {
            assert(labels[i] == l);
        }
    }
    assert forall|u: int|
        0 <= u < n && #[trigger] assigned[u] && labels[u] > 0 implies exists|j: int|
        0 <= j < u && #[trigger] assigned[j] && labels[j] + 1 == labels[u] by {
        if r.visited@[u] {
            let l = next - 1;
            assert(used_before(old_labels, i, l));
            let j = choose|j: int| 0 <= j < i && #[trigger] old_labels[j] == l;
            assert(old_assigned[j]);
            assert(!r.visited@[j]);
            assert(u >= i);
            assert(assigned[j] && labels[j] + 1 == labels[u]);
        } else {
            let j = choose|j: int| 0 <= j < u && #[trigger] old_assigned[j] && old_labels[j] + 1 == old_labels[u];
            assert(!r.visited@[j]);
            assert(assigned[j] && labels[j] + 1 == labels[u]);
        }
    }
    assert forall|v: int| 0 <= v < n && #[trigger] assigned[v] implies labels[v] <= v by {
        if r.visited@[v] {
            assert(v >= i);
        }
    }
}

/// The adjacency a vector of step lists describes.
pub open spec fn lists_view(adj: Seq<Vec<(usize, usize)>>) -> Seq<Seq<(usize, usize)>> {
    adj.map_values(|l: Vec<(usize, usize)>| l@)
}

/// `p` is the first position of a symbol with id `id`.
pub open spec fn is_first_position(symbols: Seq<Symbol>, id: Seq<char>, p: int) -> bool {
    &&& 0 <= p < symbols.len()
    &&& symbols[p].id@ == id
    &&& forall|k: int| 0 <= k < p ==> (#[trigger] symbols[k]).id@ != id
}

/// Some edge runs from the first symbol with id `from` at `u` to the first
/// with id `to` at `v`.
pub open spec fn edge_joins(symbols: Seq<Symbol>, edges: Seq<Edge>, u: int, v: int) -> bool {
    exists|e: int|
        0 <= e < edges.len() && is_first_position(symbols, (#[trigger] edges[e]).from@, u) && is_first_position(
            symbols,
            edges[e].to@,
            v,
        )
}

/// The scope of the symbol at `u` names the symbol at `v`, as a method's
/// scope names its type.
pub open spec fn scope_joins(symbols: Seq<Symbol>, separator: Seq<char>, u: int, v: int) -> bool {
    &&& u != v
    &&& spec_scope_mentions(
        symbols[u].qualified_path@,
        separator,
        spec_last_segment(symbols[v].qualified_path@, separator),
    )
}

/// The symbols at `u` and `v` belong together, read undirected: an edge
/// joins them, or the scope of one names the other.
pub open spec fn cohesion_link(symbols: Seq<Symbol>, separator: Seq<char>, edges: Seq<Edge>, u: int, v: int) -> bool {
    &&& 0 <= u < symbols.len()
    &&& 0 <= v < symbols.len()
    &&& (edge_joins(symbols, edges, u, v) || edge_joins(symbols, edges, v, u) || scope_joins(symbols, separator, u, v)
        || scope_joins(symbols, separator, v, u))
}

/// `adj` lists exactly the cohesion links among the positions of `symbols`.
pub open spec fn cohesion_adjacency(
    symbols: Seq<Symbol>,
    separator: Seq<char>,
    edges: Seq<Edge>,
    adj: Seq<Seq<(usize, usize)>>,
) -> bool {
    &&& adj.len() == symbols.len()
    &&& adj_closed(adj)
    &&& forall|u: int, v: int| #[trigger] adj_step(adj, u, v) <==> cohesion_link(symbols, separator, edges, u, v)
}

/// The first position of a symbol with id `id`.
fn first_position(symbols: &Vec<Symbol>, id: &str) -> (r: Option<usize>)
    ensures
        match r {
            Some(p) => is_first_position(symbols@, id@, p as int),
            None => forall|k: int| 0 <= k < symbols@.len() ==> (#[trigger] symbols@[k]).id@ != id@,
        },
{
    let n = symbols.len();
    let mut k: usize = 0;
    while k < n
        invariant
            k <= n,
            n == symbols@.len(),
            forall|j: int| 0 <= j < k ==> (#[trigger] symbols@[j]).id@ != id@,
        decreases n - k,
    {
        if str_eq(symbols[k].id.as_str(), id) {
            return Some(k);
        }
        k = k + 1;
    }
    None
}

proof fn lemma_push_step(adj: Seq<Seq<(usize, usize)>>, next: Seq<Seq<(usize, usize)>>, a: int, b: usize)
    requires
        0 <= a < adj.len(),
        next.len() == adj.len(),
        next[a] == adj[a].push((b, 0usize)),
        forall|w: int| 0 <= w < adj.len() && w != a ==> next[w] == adj[w],
    ensures
        forall|u: int, v: int| #[trigger] adj_step(next, u, v) <==> (adj_step(adj, u, v) || (u == a && v == b)),
{
    assert forall|u: int, v: int| #[trigger] adj_step(next, u, v) <==> (adj_step(adj, u, v) || (u == a && v == b)) by {
        if adj_step(next, u, v) {
            let j = choose|j: int| 0 <= j < next[u].len() && #[trigger] next[u][j].0 == v;
            if u == a && j < adj[a].len() {
                assert(adj[u][j].0 == v);
            } else if u != a {
                assert(adj[u][j].0 == v);
            }
        }
        if adj_step(adj, u, v) {
            let j = choose|j: int| 0 <= j < adj[u].len() && #[trigger] adj[u][j].0 == v;
            assert(next[u][j].0 == v);
        }
        if u == a && v == b {
            assert(next[a][adj[a].len() as int].0 == v);
        }
    }
}

/// The links listed so far: every edge before `k`, each way.
spec fn edge_links_upto(symbols: Seq<Symbol>, edges: Seq<Edge>, k: int, u: int, v: int) -> bool {
    exists|e: int|
        0 <= e < k && ((is_first_position(symbols, (#[trigger] edges[e]).from@, u) && is_first_position(
            symbols,
            edges[e].to@,
            v,
        )) || (is_first_position(symbols, edges[e].from@, v) && is_first_position(symbols, edges[e].to@, u)))
}

/// Scope links listed so far: pairs `(a, b)` before `(i, j)`, each way.
spec fn scope_links_upto(symbols: Seq<Symbol>, separator: Seq<char>, i: int, j: int, u: int, v: int) -> bool {
    (0 <= u && (u < i || (u == i && v < j)) && 0 <= v < symbols.len() && scope_joins(symbols, separator, u, v)) || (0
        <= v && (v < i || (v == i && u < j)) && 0 <= u < symbols.len() && scope_joins(symbols, separator, v, u))
}

/// Adjacency lists of the cohesion links of one file's symbols.
fn cohesion_lists(symbols: &Vec<Symbol>, separator: &str, edges: &Vec<Edge>) -> (adj: Vec<Vec<(usize, usize)>>)
    ensures
        cohesion_adjacency(symbols@, separator@, edges@, lists_view(adj@)),
{
    let n = symbols.len();
    let mut adj: Vec<Vec<(usize, usize)>> = Vec::new();
    let mut k: usize = 0;
    while k < n
        invariant
            k <= n,
            adj@.len() == k,
            forall|u: int| 0 <= u < k ==> (#[trigger] adj@[u])@.len() == 0,
        decreases n - k,
    {
        adj.push(Vec::new());
        k = k + 1;
    }
    let ghost s = symbols@;
    let ghost es = edges@;
    proof {
        let g = lists_view(adj@);
        assert forall|u: int, v: int| #[trigger] adj_step(g, u, v) implies false by {
            assert(g[u].len() == 0);
        }
    }
    let m = edges.len();
    let mut e: usize = 0;
    while e < m
        invariant
            e <= m,
            m == es.len(),
            n == s.len(),
            s == symbols@,
            es == edges@,
            adj@.len() == n,
            adj_closed(lists_view(adj@)),
            forall|u: int, v: int|
                #[trigger] adj_step(lists_view(adj@), u, v) <==> edge_links_upto(
                    s,
                    es,
                    e as int,
                    u,
                    v,
                ),
        decreases m - e,
    {
        let from = first_position(symbols, edges[e].from.as_str());
        let to = first_position(symbols, edges[e].to.as_str());
        let ghost g0 = lists_view(adj@);
        match (from, to) {
            (Some(a), Some(b)) => {
                push_step(&mut adj, a, (b, 0));
                let ghost g1 = lists_view(adj@);
                proof {
                    lemma_push_step(g0, g1, a as int, b);
                }
                push_step(&mut adj, b, (a, 0));
                let ghost g2 = lists_view(adj@);
                proof {
                    lemma_push_step(g1, g2, b as int, a);
                    assert forall|u: int, v: int| #[trigger] adj_step(g2, u, v) <==> edge_links_upto(s, es, e + 1, u, v) by {
                        if edge_links_upto(s, es, e + 1, u, v) {
                            let x = choose|x: int|
                                0 <= x < e + 1 && ((is_first_position(s, (#[trigger] es[x]).from@, u) && is_first_position(
                                    s,
                                    es[x].to@,
                                    v,
                                )) || (is_first_position(s, es[x].from@, v) && is_first_position(s, es[x].to@, u)));
                            if x < e {
                                assert(edge_links_upto(s, es, e as int, u, v));
                            } else {
                                lemma_first_position_unique(s, es[x].from@, u, a as int);
                                lemma_first_position_unique(s, es[x].to@, v, b as int);
                                lemma_first_position_unique(s, es[x].from@, v, a as int);
                                lemma_first_position_unique(s, es[x].to@, u, b as int);
                            }
                        }
                        if adj_step(g2, u, v) {
                            if adj_step(g0, u, v) {
                                let x = choose|x: int|
                                    0 <= x < e && ((is_first_position(s, (#[trigger] es[x]).from@, u) && is_first_position(
                                        s,
                                        es[x].to@,
                                        v,
                                    )) || (is_first_position(s, es[x].from@, v) && is_first_position(s, es[x].to@, u)));
                                assert(0 <= x < e + 1);
                            } else {
                                assert(0 <= e < e + 1);
                                assert(es[e as int].from@ == edges@[e as int].from@);
                            }
                        }
                    }
                    assert(adj_closed(g2)) by {
                        assert forall|u: int, j: int| 0 <= u < g2.len() && 0 <= j < g2[u].len() implies (#[trigger] g2[u][j]).0
                            < g2.len() by {
                            assert(adj_step(g2, u, g2[u][j].0 as int));
                            assert(edge_links_upto(s, es, e + 1, u, g2[u][j].0 as int));
                        }
                    }
                }
            },
            _ => {
                proof {
                    assert forall|u: int, v: int| #[trigger] adj_step(g0, u, v) <==> edge_links_upto(s, es, e + 1, u, v) by {
                        if edge_links_upto(s, es, e + 1, u, v) {
                            let x = choose|x: int|
                                0 <= x < e + 1 && ((is_first_position(s, (#[trigger] es[x]).from@, u) && is_first_position(
                                    s,
                                    es[x].to@,
                                    v,
                                )) || (is_first_position(s, es[x].from@, v) && is_first_position(s, es[x].to@, u)));
                            if x < e {
                                assert(edge_links_upto(s, es, e as int, u, v));
                            } else {
                                assert(es[x].from@ == edges@[e as int].from@);
                            }
                        }
                        if adj_step(g0, u, v) {
                            let x = choose|x: int|
                                0 <= x < e && ((is_first_position(s, (#[trigger] es[x]).from@, u) && is_first_position(
                                    s,
                                    es[x].to@,
                                    v,
                                )) || (is_first_position(s, es[x].from@, v) && is_first_position(s, es[x].to@, u)));
                            assert(0 <= x < e + 1);
                        }
                    }
                }
            },
        }
        e = e + 1;
    }
    let mut i: usize = 0;
    while i < n
        invariant
            i <= n,
            m == es.len(),
            n == s.len(),
            s == symbols@,
            es == edges@,
            adj@.len() == n,
            adj_closed(lists_view(adj@)),
            forall|u: int, v: int|
                #[trigger] adj_step(lists_view(adj@), u, v) <==> (edge_links_upto(
                    s,
                    es,
                    m as int,
                    u,
                    v,
                ) || scope_links_upto(s, separator@, i as int, 0, u, v)),
        decreases n - i,
    {
        let mut j: usize = 0;
        while j < n
            invariant
                i < n,
                j <= n,
                m == es.len(),
                n == s.len(),
                s == symbols@,
                es == edges@,
                adj@.len() == n,
                adj_closed(lists_view(adj@)),
                forall|u: int, v: int|
                    #[trigger] adj_step(lists_view(adj@), u, v) <==> (edge_links_upto(
                        s,
                        es,
                        m as int,
                        u,
                        v,
                    ) || scope_links_upto(s, separator@, i as int, j as int, u, v)),
            decreases n - j,
        {
            let ghost g0 = lists_view(adj@);
            let name = last_segment(symbols[j].qualified_path.as_str(), separator);
            if i != j && scope_mentions(symbols[i].qualified_path.as_str(), separator, name.as_str()) {
                push_step(&mut adj, i, (j, 0));
                let ghost g1 = lists_view(adj@);
                proof {
                    lemma_push_step(g0, g1, i as int, j);
                }
                push_step(&mut adj, j, (i, 0));
                let ghost g2 = lists_view(adj@);
                proof {
                    lemma_push_step(g1, g2, j as int, i);
                    assert(scope_joins(s, separator@, i as int, j as int));
                    assert forall|u: int, v: int| #[trigger] adj_step(g2, u, v) <==> (edge_links_upto(
                        s,
                        es,
                        m as int,
                        u,
                        v,
                    ) || scope_links_upto(s, separator@, i as int, j + 1, u, v)) by {}
                    assert(adj_closed(g2)) by {
                        assert forall|u: int, k: int| 0 <= u < g2.len() && 0 <= k < g2[u].len() implies (#[trigger] g2[u][k]).0
                            < g2.len() by {
                            assert(adj_step(g2, u, g2[u][k].0 as int));
                            if edge_links_upto(s, es, m as int, u, g2[u][k].0 as int) {
                                let x = choose|x: int|
                                    0 <= x < m && ((is_first_position(s, (#[trigger] es[x]).from@, u) && is_first_position(
                                        s,
                                        es[x].to@,
                                        g2[u][k].0 as int,
                                    )) || (is_first_position(s, es[x].from@, g2[u][k].0 as int) && is_first_position(
                                        s,
                                        es[x].to@,
                                        u,
                                    )));
                            }
                        }
                    }
                }
            } else {
                proof {
                    assert(!scope_joins(s, separator@, i as int, j as int));
                    assert forall|u: int, v: int| #[trigger] adj_step(g0, u, v) <==> (edge_links_upto(
                        s,
                        es,
                        m as int,
                        u,
                        v,
                    ) || scope_links_upto(s, separator@, i as int, j + 1, u, v)) by {}
                }
            }
            j = j + 1;
        }
        proof {
            let g = lists_view(adj@);
            assert forall|u: int, v: int| #[trigger] adj_step(g, u, v) <==> (edge_links_upto(
                s,
                es,
                m as int,
                u,
                v,
            ) || scope_links_upto(s, separator@, i + 1, 0, u, v)) by {
                if adj_step(g, u, v) && !edge_links_upto(s, es, m as int, u, v) {
                    assert(0 <= u < n);
                    assert(0 <= v < n) by {
                        let k = choose|k: int| 0 <= k < g[u].len() && #[trigger] g[u][k].0 == v;
                    }
                }
            }
        }
        i = i + 1;
    }
    proof {
        let g = lists_view(adj@);
        assert forall|u: int, v: int| #[trigger] adj_step(g, u, v) <==> cohesion_link(s, separator@, es, u, v) by {
            if edge_links_upto(s, es, m as int, u, v) {
                let x = choose|x: int|
                    0 <= x < m && ((is_first_position(s, (#[trigger] es[x]).from@, u) && is_first_position(s, es[x].to@, v))
                        || (is_first_position(s, es[x].from@, v) && is_first_position(s, es[x].to@, u)));
            }
            if edge_joins(s, es, u, v) {
                let x = choose|x: int|
                    0 <= x < es.len() && is_first_position(s, (#[trigger] es[x]).from@, u) && is_first_position(
                        s,
                        es[x].to@,
                        v,
                    );
                assert(edge_links_upto(s, es, m as int, u, v));
            }
            if edge_joins(s, es, v, u) {
                let x = choose|x: int|
                    0 <= x < es.len() && is_first_position(s, (#[trigger] es[x]).from@, v) && is_first_position(
                        s,
                        es[x].to@,
                        u,
                    );
                assert(edge_links_upto(s, es, m as int, u, v));
            }
        }
    }
    adj
}

proof fn lemma_first_position_unique(symbols: Seq<Symbol>, id: Seq<char>, p: int, q: int)
    requires
        is_first_position(symbols, id, q),
        0 <= p < symbols.len(),
    ensures
        is_first_position(symbols, id, p) <==> p == q,
{
    if is_first_position(symbols, id, p) {
        if p < q {
            assert(symbols[p].id@ != id);
        }
        if q < p {
            assert(symbols[q].id@ != id);
        }
    }
}

/// The labels of an assignment.
pub open spec fn assigned_labels(a: Seq<(String, usize)>) -> Seq<usize> {
    a.map_values(|p: (String, usize)| p.1)
}

/// Partition one file's symbols into connected components.
///
/// Edges are read undirected and only within the file. Declaring a method on
/// a type counts as connection alongside referring to it: `Ledger` and
/// `Ledger::tally` belong to the same component whether or not the method
/// body names its own type. This applies to cohesion only; it is not a
/// reference and never reaches fan-in or fan-out.
///
/// The result pairs each symbol's id, in the file's symbol order, with its
/// component number; numbers are assigned in that order, so they are stable
/// for a given file and mean nothing across files.
pub fn components(symbols: &Vec<Symbol>, separator: &str, edges: &Vec<Edge>) -> (r: Vec<(String, usize)>)
    ensures
        r@.len() == symbols@.len(),
        forall|i: int| 0 <= i < r@.len() ==> (#[trigger] r@[i]).0@ == symbols@[i].id@,
        exists|adj: Seq<Seq<(usize, usize)>>|
            cohesion_adjacency(symbols@, separator@, edges@, adj) && #[trigger] first_appearance_labels(
                adj,
                assigned_labels(r@),
            ),
{
    let adj = cohesion_lists(symbols, separator, edges);
    let ghost g = lists_view(adj@);
    proof {
        assert forall|u: int, v: int| #[trigger] adj_step(g, u, v) implies adj_step(g, v, u) by {
            assert(cohesion_link(symbols@, separator@, edges@, u, v));
        }
    }
    let labels = label_components(&adj);
    let mut out: Vec<(String, usize)> = Vec::new();
    let n = symbols.len();
    let mut i: usize = 0;
    while i < n
        invariant
            i <= n,
            n == symbols@.len(),
            labels@.len() == n,
            out@.len() == i,
            forall|k: int| 0 <= k < i ==> (#[trigger] out@[k]).0@ == symbols@[k].id@ && out@[k].1 == labels@[k],
        decreases n - i,
    {
        out.push((symbols[i].id.clone(), labels[i]));
        i = i + 1;
    }
    proof {
        assert(assigned_labels(out@) =~= labels@);
    }
    out
}

/// One of the first `upto` labels is `l`.
pub open spec fn uses_label(labels: Seq<usize>, upto: int, l: int) -> bool {
    exists|i: int| 0 <= i < upto && #[trigger] labels[i] == l
}

/// `count` is the number of labels an assignment uses, all of them below it.
pub open spec fn counts_labels(labels: Seq<usize>, count: nat) -> bool {
    &&& forall|i: int| 0 <= i < labels.len() ==> #[trigger] labels[i] < count
    &&& forall|l: int| 0 <= l < count ==> #[trigger] uses_label(labels, labels.len() as int, l)
}

/// Number of connected components in a file's assignment.
pub fn count_components(assignment: &Vec<(String, usize)>) -> (r: usize)
    requires
        forall|i: int|
            0 <= i < assignment@.len() && #[trigger] assignment@[i].1 > 0 ==> exists|j: int|
                0 <= j < i && assignment@[j].1 + 1 == #[trigger] assignment@[i].1,
    ensures
        counts_labels(assigned_labels(assignment@), r as nat),
{
    let ghost ls = assigned_labels(assignment@);
    let n = assignment.len();
    let mut next: usize = 0;
    let mut i: usize = 0;
    while i < n
        invariant
            i <= n,
            n == ls.len(),
            ls == assigned_labels(assignment@),
            next <= i,
            forall|k: int| 0 <= k < i ==> #[trigger] ls[k] < next,
            forall|l: int| 0 <= l < next ==> #[trigger] uses_label(ls, i as int, l),
            forall|i: int|
                0 <= i < assignment@.len() && #[trigger] assignment@[i].1 > 0 ==> exists|j: int|
                    0 <= j < i && assignment@[j].1 + 1 == #[trigger] assignment@[i].1,
        decreases n - i,
    {
        let l = assignment[i].1;
        proof {
            assert(ls[i as int] == l);
            if l > 0 {
                let j = choose|j: int| 0 <= j < i && assignment@[j].1 + 1 == #[trigger] assignment@[i as int].1;
                assert(ls[j] < next);
            }
        }
        if l >= next {
            next = next + 1;
            proof {
                assert forall|m: int| 0 <= m < next implies #[trigger] uses_label(ls, i + 1, m) by {
                    if m < next - 1 {
                        assert(uses_label(ls, i as int, m));
                        let k = choose|k: int| 0 <= k < i && #[trigger] ls[k] == m;
                    } else {
                        assert(ls[i as int] == m);
                    }
                }
            }
        } else {
            proof {
                assert forall|m: int| 0 <= m < next implies #[trigger] uses_label(ls, i + 1, m) by {
                    assert(uses_label(ls, i as int, m));
                    let k = choose|k: int| 0 <= k < i && #[trigger] ls[k] == m;
                }
            }
        }
        i = i + 1;
    }
    next
}

/// A strictly ascending sequence has as many members as entries.
proof fn lemma_sorted_len(s: Seq<Seq<char>>)
    requires
        sorted_strict(s),
    ensures
        s.to_set().len() == s.len(),
{
    assert(s.no_duplicates()) by {
        assert forall|i: int, j: int| 0 <= i < s.len() && 0 <= j < s.len() && i != j implies s[i] != s[j] by {
            if i < j {
                assert(crate::order::seq_lt(s[i], s[j]));
                crate::order::lemma_seq_lt_irreflexive(s[i]);
            } else {
                assert(crate::order::seq_lt(s[j], s[i]));
                crate::order::lemma_seq_lt_irreflexive(s[j]);
            }
        }
    }
    s.unique_seq_to_set();
}

/// The distinct far ends of the edges whose near end is `x`, ascending; from
/// `to` ends when `outgoing`, else from `from` ends.
fn partners(edges: &Vec<Edge>, x: &str, outgoing: bool) -> (r: Vec<String>)
    ensures
        sorted_strict(views(r@)),
        views(r@).to_set() == if outgoing {
            out_partners(edges@, x@)
        } else {
            in_partners(edges@, x@)
        },
        r@.len() == if outgoing {
            out_partners(edges@, x@).len()
        } else {
            in_partners(edges@, x@).len()
        },
{
    let mut out: Vec<String> = Vec::new();
    let m = edges.len();
    let mut e: usize = 0;
    while e < m
        invariant
            e <= m,
            m == edges@.len(),
            sorted_strict(views(out@)),
            forall|y: Seq<char>|
                #[trigger] contains_view(views(out@), y) <==> exists|k: int|
                    0 <= k < e && if outgoing {
                        (#[trigger] edges@[k]).from@ == x@ && edges@[k].to@ == y
                    } else {
                        edges@[k].to@ == x@ && edges@[k].from@ == y
                    },
        decreases m - e,
    {
        let near = if outgoing { edges[e].from.as_str() } else { edges[e].to.as_str() };
        let far = if outgoing { edges[e].to.as_str() } else { edges[e].from.as_str() };
        if str_eq(near, x) {
            insert_sorted(&mut out, far);
        }
        proof {
            assert forall|y: Seq<char>| #[trigger] contains_view(views(out@), y) <==> exists|k: int|
                0 <= k < e + 1 && if outgoing {
                    (#[trigger] edges@[k]).from@ == x@ && edges@[k].to@ == y
                } else {
                    edges@[k].to@ == x@ && edges@[k].from@ == y
                } by {
                if exists|k: int|
                    0 <= k < e + 1 && if outgoing {
                        (#[trigger] edges@[k]).from@ == x@ && edges@[k].to@ == y
                    } else {
                        edges@[k].to@ == x@ && edges@[k].from@ == y
                    } {
                    let k = choose|k: int|
                        0 <= k < e + 1 && if outgoing {
                            (#[trigger] edges@[k]).from@ == x@ && edges@[k].to@ == y
                        } else {
                            edges@[k].to@ == x@ && edges@[k].from@ == y
                        };
                    if k < e {
                    }
                }
            }
        }
        e = e + 1;
    }
    proof {
        let want = if outgoing {
            out_partners(edges@, x@)
        } else {
            in_partners(edges@, x@)
        };
        assert(views(out@).to_set() =~= want) by {
            assert forall|y: Seq<char>| views(out@).to_set().contains(y) <==> want.contains(y) by {
                if views(out@).to_set().contains(y) {
                    let i = choose|i: int| 0 <= i < views(out@).len() && views(out@)[i] == y;
                    assert(contains_view(views(out@), y));
                }
                if want.contains(y) {
                    let k = choose|k: int|
                        0 <= k < edges@.len() && if outgoing {
                            (#[trigger] edges@[k]).from@ == x@ && edges@[k].to@ == y
                        } else {
                            edges@[k].to@ == x@ && edges@[k].from@ == y
                        };
                    assert(contains_view(views(out@), y));
                    let i = choose|i: int| 0 <= i < views(out@).len() && #[trigger] views(out@)[i] == y;
                    assert(views(out@).to_set().contains(views(out@)[i]));
                }
            }
        }
        lemma_sorted_len(views(out@));
    }
    out
}

/// Degree of every symbol an edge touches, ascending by id. Degree counts
/// distinct partners, not occurrences: calling one function twenty times is
/// one dependency, not twenty.
pub fn degrees(edges: &Vec<Edge>) -> (r: Vec<(String, Degree)>)
    ensures
        degrees_of(edges@, r@),
{
    let mut ids: Vec<String> = Vec::new();
    let m = edges.len();
    let mut e: usize = 0;
    while e < m
        invariant
            e <= m,
            m == edges@.len(),
            sorted_strict(views(ids@)),
            forall|y: Seq<char>|
                #[trigger] contains_view(views(ids@), y) <==> exists|k: int|
                    0 <= k < e && ((#[trigger] edges@[k]).from@ == y || edges@[k].to@ == y),
        decreases m - e,
    {
        insert_sorted(&mut ids, edges[e].from.as_str());
        insert_sorted(&mut ids, edges[e].to.as_str());
        proof {
            assert forall|y: Seq<char>| #[trigger] contains_view(views(ids@), y) <==> exists|k: int|
                0 <= k < e + 1 && ((#[trigger] edges@[k]).from@ == y || edges@[k].to@ == y) by {
                if exists|k: int| 0 <= k < e + 1 && ((#[trigger] edges@[k]).from@ == y || edges@[k].to@ == y) {
                    let k = choose|k: int| 0 <= k < e + 1 && ((#[trigger] edges@[k]).from@ == y || edges@[k].to@ == y);
                    if k < e {
                    }
                }
            }
        }
        e = e + 1;
    }
    let mut out: Vec<(String, Degree)> = Vec::new();
    let n = ids.len();
    let mut i: usize = 0;
    while i < n
        invariant
            i <= n,
            n == ids@.len(),
            out@.len() == i,
            forall|k: int| 0 <= k < i ==> (#[trigger] out@[k]).0@ == ids@[k]@,
            forall|k: int|
                0 <= k < i ==> (#[trigger] out@[k]).1.fan_out == out_partners(edges@, out@[k].0@).len()
                    && out@[k].1.fan_in == in_partners(edges@, out@[k].0@).len(),
        decreases n - i,
    {
        let outs = partners(edges, ids[i].as_str(), true);
        let ins = partners(edges, ids[i].as_str(), false);
        out.push((ids[i].clone(), Degree { fan_in: ins.len(), fan_out: outs.len() }));
        i = i + 1;
    }
    proof {
        assert(degree_ids(out@) =~= views(ids@)) by {
            assert forall|k: int| 0 <= k < n implies degree_ids(out@)[k] == views(ids@)[k] by {
                assert(out@[k].0@ == ids@[k]@);
            }
        }
        assert forall|y: Seq<char>| #[trigger] contains_view(degree_ids(out@), y) <==> is_endpoint(edges@, y) by {
            if is_endpoint(edges@, y) {
                let k = choose|k: int| 0 <= k < edges@.len() && ((#[trigger] edges@[k]).from@ == y || edges@[k].to@ == y);
                assert(contains_view(views(ids@), y));
            }
            if contains_view(views(ids@), y) {
                let k = choose|k: int| 0 <= k < m && ((#[trigger] edges@[k]).from@ == y || edges@[k].to@ == y);
            }
        }
    }
    out
}

/// The cohesion separator of a file: its language's path separator, `::`
/// when the language is unknown.
fn file_separator<'a>(file: &FileAnalysis, table: &'a Vec<LanguageDef>) -> (r: &'a str)
    ensures
        r@ == match file.language {
            Some(id) => match spec_by_id(table@, id@) {
                Some(l) => l.path_separator@,
                None => "::"@,
            },
            None => "::"@,
        },
{
    proof {
        reveal_strlit("::");
    }
    match &file.language {
        Some(id) => {
            let found = by_id(table, id.as_str());
            separator_for(found)
        },
        None => "::",
    }
}

/// The cohesion separator of a file under a language table.
pub open spec fn separator_of(file: FileAnalysis, table: Seq<LanguageDef>) -> Seq<char> {
    match file.language {
        Some(id) => match spec_by_id(table, id@) {
            Some(l) => l.path_separator@,
            None => "::"@,
        },
        None => "::"@,
    }
}

/// `a` assigns the symbols of one file their cohesion components.
pub open spec fn is_assignment(
    symbols: Seq<Symbol>,
    separator: Seq<char>,
    edges: Seq<Edge>,
    a: Seq<(String, usize)>,
) -> bool {
    &&& a.len() == symbols.len()
    &&& forall|i: int| 0 <= i < a.len() ==> (#[trigger] a[i]).0@ == symbols[i].id@
    &&& exists|adj: Seq<Seq<(usize, usize)>>|
        cohesion_adjacency(symbols, separator, edges, adj) && #[trigger] first_appearance_labels(
            adj,
            assigned_labels(a),
        )
}

/// `g` is the graph of `files` under `table` given the resolver's edges and
/// statistics: the edges and statistics as given, the degree of every id an
/// edge touches, and each file's cohesion components and their number.
pub open spec fn graph_of(
    files: Seq<FileAnalysis>,
    table: Seq<LanguageDef>,
    edges: Seq<Edge>,
    resolution: ResolutionStats,
    g: Graph,
) -> bool {
    &&& g.edges@ == edges
    &&& g.resolution == resolution
    &&& degrees_of(edges, g.degree@)
    &&& g.components_per_file@.len() == files.len()
    &&& exists|parts: Seq<Seq<(String, usize)>>|
        #![trigger parts.flatten()]
        {
            &&& parts.len() == files.len()
            &&& g.component@ == parts.flatten()
            &&& forall|f: int|
                0 <= f < files.len() ==> {
                    &&& is_assignment(files[f].symbols@, separator_of(files[f], table), edges, #[trigger] parts[f])
                    &&& g.components_per_file@[f].0@ == files[f].path@
                    &&& counts_labels(assigned_labels(parts[f]), g.components_per_file@[f].1 as nat)
                }
        }
}

/// Build the graph for a file set from the edges and statistics a resolver
/// produced for it.
pub fn build(
    files: &Vec<FileAnalysis>,
    table: &Vec<LanguageDef>,
    edges: Vec<Edge>,
    resolution: ResolutionStats,
) -> (g: Graph)
    ensures
        graph_of(files@, table@, edges@, resolution, g),
{
    let degree = degrees(&edges);
    let mut component: Vec<(String, usize)> = Vec::new();
    let mut components_per_file: Vec<(String, usize)> = Vec::new();
    let ghost mut parts: Seq<Seq<(String, usize)>> = Seq::empty();
    let n = files.len();
    let mut f: usize = 0;
    while f < n
        invariant
            f <= n,
            n == files@.len(),
            parts.len() == f,
            components_per_file@.len() == f,
            component@ == parts.flatten(),
            forall|k: int|
                0 <= k < f ==> {
                    &&& is_assignment(files@[k].symbols@, separator_of(files@[k], table@), edges@, #[trigger] parts[k])
                    &&& components_per_file@[k].0@ == files@[k].path@
                    &&& counts_labels(assigned_labels(parts[k]), components_per_file@[k].1 as nat)
                },
        decreases n - f,
    {
        let file = &files[f];
        let separator = file_separator(file, table);
        let assignment = components(&file.symbols, separator, &edges);
        proof {
            let adj = choose|adj: Seq<Seq<(usize, usize)>>|
                cohesion_adjacency(file.symbols@, separator@, edges@, adj) && #[trigger] first_appearance_labels(
                    adj,
                    assigned_labels(assignment@),
                );
            assert forall|i: int|
                0 <= i < assignment@.len() && #[trigger] assignment@[i].1 > 0 implies exists|j: int|
                    0 <= j < i && assignment@[j].1 + 1 == #[trigger] assignment@[i].1 by {
                assert(assigned_labels(assignment@)[i] == assignment@[i].1);
                let j = choose|j: int| 0 <= j < i && assigned_labels(assignment@)[j] + 1 == #[trigger] assigned_labels(assignment@)[i];
                assert(assigned_labels(assignment@)[j] == assignment@[j].1);
            }
        }
        let count = count_components(&assignment);
        components_per_file.push((file.path.clone(), count));
        let ghost before = component@;
        let mut k: usize = 0;
        while k < assignment.len()
            invariant
                k <= assignment@.len(),
                component@ == before + assignment@.take(k as int),
            decreases assignment@.len() - k,
        {
            let entry = (assignment[k].0.clone(), assignment[k].1);
            component.push(entry);
            proof {
                assert(assignment@.take(k + 1) =~= assignment@.take(k as int).push(assignment@[k as int]));
            }
            k = k + 1;
        }
        proof {
            assert(assignment@.take(assignment@.len() as int) =~= assignment@);
            let old_parts = parts;
            parts = parts.push(assignment@);
            assert(parts.drop_last() =~= old_parts);
            old_parts.lemma_flatten_push(assignment@);
            assert(separator@ == separator_of(files@[f as int], table@));
        }
        f = f + 1;
    }
    Graph { edges, degree, component, components_per_file, resolution }
}

} // verus!
