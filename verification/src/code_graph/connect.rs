//! Connectivity over the ids of a graph, and its position-level counterpart.
//!
//! A link between two ids is either a directed edge between them, or (for weak
//! connectivity) an edge in either direction between two node ids, neither of
//! which is a removed one. Chains of links are compared with reachability in
//! adjacency lists over positions.

use crate::code_graph::graph_index::{is_node_id, lemma_sorted_positions_unique, GraphIndex};
use crate::code_graph::index::{
    adj_closed, adj_step, lemma_within_pred, lemma_within_start, lemma_within_succ, reaches, within,
};
use crate::code_graph::model::CodeGraph;
use crate::order::{contains_view, views};
use vstd::prelude::*;

verus! {

/// Edge `e` goes from `x` to `y`.
pub open spec fn edge_joins(g: CodeGraph, e: int, x: Seq<char>, y: Seq<char>) -> bool {
    0 <= e < g.edges@.len() && g.edges@[e].from@ == x && g.edges@[e].to@ == y
}

/// Some edge goes from `x` to `y`.
pub open spec fn directed_link(g: CodeGraph, x: Seq<char>, y: Seq<char>) -> bool {
    exists|e: int| #[trigger] edge_joins(g, e, x, y)
}

/// `x` is a node id other than the removed one.
pub open spec fn kept(g: CodeGraph, removed: Option<Seq<char>>, x: Seq<char>) -> bool {
    is_node_id(g, x) && removed != Some(x)
}

/// Some edge joins the kept ids `x` and `y`, in either direction.
pub open spec fn weak_link(g: CodeGraph, removed: Option<Seq<char>>, x: Seq<char>, y: Seq<char>) -> bool {
    &&& kept(g, removed, x)
    &&& kept(g, removed, y)
    &&& (directed_link(g, x, y) || directed_link(g, y, x))
}

/// A weak link when `weak`, else a directed one.
pub open spec fn link(g: CodeGraph, weak: bool, removed: Option<Seq<char>>, x: Seq<char>, y: Seq<char>) -> bool {
    if weak {
        weak_link(g, removed, x, y)
    } else {
        directed_link(g, x, y)
    }
}

/// The `i`-th and next ids of `xs` are linked.
pub open spec fn chain_step(g: CodeGraph, weak: bool, removed: Option<Seq<char>>, xs: Seq<Seq<char>>, i: int) -> bool {
    link(g, weak, removed, xs[i], xs[i + 1])
}

/// A non-empty sequence of ids, each linked to the next.
pub open spec fn is_chain(g: CodeGraph, weak: bool, removed: Option<Seq<char>>, xs: Seq<Seq<char>>) -> bool {
    &&& xs.len() >= 1
    &&& forall|i: int| 0 <= i < xs.len() - 1 ==> #[trigger] chain_step(g, weak, removed, xs, i)
}

/// A chain of links leads from `x` to `y`.
pub open spec fn connected(g: CodeGraph, weak: bool, removed: Option<Seq<char>>, x: Seq<char>, y: Seq<char>) -> bool {
    exists|xs: Seq<Seq<char>>| #[trigger] is_chain(g, weak, removed, xs) && xs[0] == x && xs.last() == y
}

/// The removed id as seen through positions.
pub open spec fn removed_id(ix: GraphIndex, removed: Option<usize>) -> Option<Seq<char>> {
    match removed {
        Some(r) => Some(views(ix.ids@)[r as int]),
        None => None,
    }
}

/// The adjacency lists join two positions exactly when their ids are linked.
pub open spec fn links_exact(
    g: CodeGraph,
    ix: GraphIndex,
    weak: bool,
    removed: Option<Seq<char>>,
    adj: Seq<Seq<(usize, usize)>>,
) -> bool {
    &&& ix.describes(g)
    &&& adj.len() == ix.ids@.len()
    &&& adj_closed(adj)
    &&& forall|u: int, v: int|
        0 <= u < adj.len() && 0 <= v < adj.len() ==> (#[trigger] adj_step(adj, u, v) <==> link(
            g,
            weak,
            removed,
            views(ix.ids@)[u],
            views(ix.ids@)[v],
        ))
}

/// Every step is matched by one back.
pub open spec fn adj_symmetric(adj: Seq<Seq<(usize, usize)>>) -> bool {
    forall|u: int, v: int| #[trigger] adj_step(adj, u, v) ==> adj_step(adj, v, u)
}

/// Linked ids are ids of the index.
pub proof fn lemma_link_in_ids(g: CodeGraph, ix: GraphIndex, weak: bool, removed: Option<Seq<char>>, x: Seq<char>, y: Seq<char>)
    requires
        ix.describes(g),
        link(g, weak, removed, x, y),
    ensures
        contains_view(views(ix.ids@), x),
        contains_view(views(ix.ids@), y),
{
    let ids = views(ix.ids@);
    if weak {
        let i = choose|i: int| 0 <= i < g.nodes@.len() && #[trigger] g.nodes@[i].id@ == x;
        assert(ids[ix.node_at@[i] as int] == x);
        let j = choose|j: int| 0 <= j < g.nodes@.len() && #[trigger] g.nodes@[j].id@ == y;
        assert(ids[ix.node_at@[j] as int] == y);
    } else {
        let e = choose|e: int| #[trigger] edge_joins(g, e, x, y);
        assert(ix.ends@[e].0 < ids.len() && ix.ends@[e].1 < ids.len());
        assert(ids[ix.ends@[e].0 as int] == x);
        assert(ids[ix.ends@[e].1 as int] == y);
    }
}

proof fn lemma_within_chain(
    g: CodeGraph,
    ix: GraphIndex,
    weak: bool,
    removed: Option<Seq<char>>,
    adj: Seq<Seq<(usize, usize)>>,
    s: int,
    v: int,
    k: nat,
)
    requires
        links_exact(g, ix, weak, removed, adj),
        0 <= s < adj.len(),
        0 <= v < adj.len(),
        within(adj, s, v, k),
    ensures
        connected(g, weak, removed, views(ix.ids@)[s], views(ix.ids@)[v]),
    decreases k,
{
    let ids = views(ix.ids@);
    if v == s {
        let xs = seq![ids[s]];
        assert(is_chain(g, weak, removed, xs));
    } else {
        if k == 0 {
            assert(false);
        } else {
            let u = lemma_within_pred(adj, s, v, (k - 1) as nat);
            assert(0 <= u < adj.len());
            lemma_within_chain(g, ix, weak, removed, adj, s, u, (k - 1) as nat);
            let xs = choose|xs: Seq<Seq<char>>| #[trigger] is_chain(g, weak, removed, xs) && xs[0] == ids[s] && xs.last() == ids[u];
            let ys = xs.push(ids[v]);
            assert(link(g, weak, removed, ids[u], ids[v]));
            assert forall|i: int| 0 <= i < ys.len() - 1 implies #[trigger] chain_step(g, weak, removed, ys, i) by {
                if i < xs.len() - 1 {
                    assert(chain_step(g, weak, removed, xs, i));
                }
            }
            assert(is_chain(g, weak, removed, ys));
        }
    }
}

proof fn lemma_chain_reaches(
    g: CodeGraph,
    ix: GraphIndex,
    weak: bool,
    removed: Option<Seq<char>>,
    adj: Seq<Seq<(usize, usize)>>,
    xs: Seq<Seq<char>>,
    s: int,
) -> (v: int)
    requires
        links_exact(g, ix, weak, removed, adj),
        0 <= s < adj.len(),
        is_chain(g, weak, removed, xs),
        xs[0] == views(ix.ids@)[s],
    ensures
        0 <= v < adj.len(),
        views(ix.ids@)[v] == xs.last(),
        reaches(adj, s, v),
    decreases xs.len(),
{
    let ids = views(ix.ids@);
    if xs.len() == 1 {
        lemma_reaches_self(adj, s);
        s
    } else {
        let ys = xs.drop_last();
        assert forall|i: int| 0 <= i < ys.len() - 1 implies #[trigger] chain_step(g, weak, removed, ys, i) by {
            assert(chain_step(g, weak, removed, xs, i));
        }
        let u = lemma_chain_reaches(g, ix, weak, removed, adj, ys, s);
        let last = xs.len() - 2;
        assert(chain_step(g, weak, removed, xs, last));
        lemma_link_in_ids(g, ix, weak, removed, xs[last], xs[last + 1]);
        let v = choose|v: int| 0 <= v < ids.len() && #[trigger] ids[v] == xs[last + 1];
        assert(adj_step(adj, u, v));
        lemma_reaches_step(adj, s, u, v);
        v
    }
}

/// Reachability in exact adjacency lists is connectivity of the ids.
pub proof fn lemma_connected_iff(
    g: CodeGraph,
    ix: GraphIndex,
    weak: bool,
    removed: Option<Seq<char>>,
    adj: Seq<Seq<(usize, usize)>>,
    s: int,
    v: int,
)
    requires
        links_exact(g, ix, weak, removed, adj),
        0 <= s < adj.len(),
        0 <= v < adj.len(),
    ensures
        reaches(adj, s, v) <==> connected(g, weak, removed, views(ix.ids@)[s], views(ix.ids@)[v]),
{
    let ids = views(ix.ids@);
    if reaches(adj, s, v) {
        let k = choose|k: nat| within(adj, s, v, k);
        lemma_within_chain(g, ix, weak, removed, adj, s, v, k);
    }
    if connected(g, weak, removed, ids[s], ids[v]) {
        let xs = choose|xs: Seq<Seq<char>>| #[trigger] is_chain(g, weak, removed, xs) && xs[0] == ids[s] && xs.last() == ids[v];
        let w = lemma_chain_reaches(g, ix, weak, removed, adj, xs, s);
        lemma_sorted_positions_unique(ids, w, v);
    }
}

/// Edge `e` links position `u` to position `v`.
pub open spec fn pos_link(ix: GraphIndex, weak: bool, removed: Option<usize>, e: int, u: int, v: int) -> bool {
    if weak {
        &&& ix.is_node@[u]
        &&& ix.is_node@[v]
        &&& removed != Some(u as usize)
        &&& removed != Some(v as usize)
        &&& ((ix.ends@[e].0 == u && ix.ends@[e].1 == v) || (ix.ends@[e].0 == v && ix.ends@[e].1 == u))
    } else {
        ix.ends@[e].0 == u && ix.ends@[e].1 == v
    }
}

/// The lists hold exactly the links made by the first `k` edges.
pub open spec fn lists_upto(
    ix: GraphIndex,
    weak: bool,
    removed: Option<usize>,
    adj: Seq<Seq<(usize, usize)>>,
    k: int,
) -> bool {
    &&& adj.len() == ix.ids@.len()
    &&& forall|u: int, j: int|
        0 <= u < adj.len() && 0 <= j < adj[u].len() ==> {
            &&& (#[trigger] adj[u][j]).0 < adj.len()
            &&& adj[u][j].1 < k
            &&& pos_link(ix, weak, removed, adj[u][j].1 as int, u, adj[u][j].0 as int)
        }
    &&& forall|e: int, u: int, v: int|
        0 <= e < k && 0 <= u < adj.len() && 0 <= v < adj.len() && #[trigger] pos_link(ix, weak, removed, e, u, v)
            ==> exists|j: int| 0 <= j < adj[u].len() && adj[u][j] == (v as usize, e as usize)
}

/// Append one step to the list of position `u`.
pub fn push_step(adj: &mut Vec<Vec<(usize, usize)>>, u: usize, step: (usize, usize))
    requires
        u < old(adj)@.len(),
    ensures
        final(adj)@.len() == old(adj)@.len(),
        final(adj)@[u as int]@ == old(adj)@[u as int]@.push(step),
        forall|w: int| 0 <= w < old(adj)@.len() && w != u ==> final(adj)@[w] == old(adj)@[w],
{
    let mut list: Vec<(usize, usize)> = Vec::new();
    std::mem::swap(&mut list, &mut adj[u]);
    list.push(step);
    adj.set(u, list);
}

/// Adjacency lists over the positions of `ix` for the links of `g`.
pub fn link_lists(g: &CodeGraph, ix: &GraphIndex, weak: bool, removed: Option<usize>) -> (adj: Vec<Vec<(usize, usize)>>)
    requires
        ix.describes(*g),
        removed matches Some(r) ==> r < ix.ids@.len(),
    ensures
        links_exact(*g, *ix, weak, removed_id(*ix, removed), adj@.map_values(|l: Vec<(usize, usize)>| l@)),
{
    let n = ix.ids.len();
    let mut adj: Vec<Vec<(usize, usize)>> = Vec::new();
    let mut p: usize = 0;
    while p < n
        invariant
            p <= n,
            adj@.len() == p,
            forall|q: int| 0 <= q < p ==> (#[trigger] adj@[q])@.len() == 0,
        decreases n - p,
    {
        adj.push(Vec::new());
        p = p + 1;
    }
    let ghost m0 = adj@.map_values(|l: Vec<(usize, usize)>| l@);
    proof {
        assert forall|u: int, j: int| 0 <= u < m0.len() && 0 <= j < m0[u].len() implies {
            &&& (#[trigger] m0[u][j]).0 < m0.len()
            &&& m0[u][j].1 < 0
            &&& pos_link(*ix, weak, removed, m0[u][j].1 as int, u, m0[u][j].0 as int)
        } by {
            assert(m0[u].len() == 0);
        }
    }
    let ne = g.edges.len();
    let mut e: usize = 0;
    while e < ne
        invariant
            e <= ne,
            ne == g.edges@.len(),
            n == ix.ids@.len(),
            ix.describes(*g),
            removed matches Some(r) ==> r < n,
            adj@.len() == n,
            lists_upto(*ix, weak, removed, adj@.map_values(|l: Vec<(usize, usize)>| l@), e as int),
        decreases ne - e,
    {
        let ghost before = adj@.map_values(|l: Vec<(usize, usize)>| l@);
        let (a, b) = ix.ends[e];
        proof {
            assert(ix.ends@[e as int].0 < n && ix.ends@[e as int].1 < n);
        }
        if weak {
            let keep_a = ix.is_node[a] && !matches!(removed, Some(r) if r == a);
            let keep_b = ix.is_node[b] && !matches!(removed, Some(r) if r == b);
            if keep_a && keep_b {
                push_step(&mut adj, a, (b, e));
                let ghost mid = adj@.map_values(|l: Vec<(usize, usize)>| l@);
                push_step(&mut adj, b, (a, e));
                proof {
                    let after = adj@.map_values(|l: Vec<(usize, usize)>| l@);
                    lemma_lists_push_both(*ix, removed, before, mid, after, a, b, e);
                }
            } else {
                proof {
                    lemma_lists_skip(*ix, weak, removed, before, e as int);
                }
            }
        } else {
            push_step(&mut adj, a, (b, e));
            proof {
                let after = adj@.map_values(|l: Vec<(usize, usize)>| l@);
                lemma_lists_push_directed(*ix, removed, before, after, a, b, e);
            }
        }
        e = e + 1;
    }
    proof {
        let m = adj@.map_values(|l: Vec<(usize, usize)>| l@);
        lemma_lists_exact(*g, *ix, weak, removed, m);
    }
    adj
}

proof fn lemma_lists_skip(ix: GraphIndex, weak: bool, removed: Option<usize>, adj: Seq<Seq<(usize, usize)>>, e: int)
    requires
        weak,
        lists_upto(ix, weak, removed, adj, e),
        0 <= ix.ends@[e].0 < adj.len(),
        0 <= ix.ends@[e].1 < adj.len(),
        !(ix.is_node@[ix.ends@[e].0 as int] && removed != Some(ix.ends@[e].0) && ix.is_node@[ix.ends@[e].1 as int]
            && removed != Some(ix.ends@[e].1)),
    ensures
        lists_upto(ix, weak, removed, adj, e + 1),
{
    assert forall|f: int, u: int, v: int|
        0 <= f < e + 1 && 0 <= u < adj.len() && 0 <= v < adj.len() && #[trigger] pos_link(ix, weak, removed, f, u, v)
        implies exists|j: int| 0 <= j < adj[u].len() && adj[u][j] == (v as usize, f as usize) by {
        assert(f != e);
    }
}

proof fn lemma_lists_push_directed(
    ix: GraphIndex,
    removed: Option<usize>,
    before: Seq<Seq<(usize, usize)>>,
    after: Seq<Seq<(usize, usize)>>,
    a: usize,
    b: usize,
    e: usize,
)
    requires
        lists_upto(ix, false, removed, before, e as int),
        e < ix.ends@.len(),
        ix.ends@[e as int].0 == a,
        ix.ends@[e as int].1 == b,
        a < before.len(),
        b < before.len(),
        after.len() == before.len(),
        after[a as int] == before[a as int].push((b, e)),
        forall|w: int| 0 <= w < before.len() && w != a as int ==> after[w] == before[w],
    ensures
        lists_upto(ix, false, removed, after, e + 1),
{
    assert forall|u: int, j: int| 0 <= u < after.len() && 0 <= j < after[u].len() implies {
        &&& (#[trigger] after[u][j]).0 < after.len()
        &&& after[u][j].1 < e + 1
        &&& pos_link(ix, false, removed, after[u][j].1 as int, u, after[u][j].0 as int)
    } by {
        if u != a as int || j < before[u].len() {
            assert(after[u][j] == before[u][j]);
        }
    }
    assert forall|f: int, u: int, v: int|
        0 <= f < e + 1 && 0 <= u < after.len() && 0 <= v < after.len() && #[trigger] pos_link(ix, false, removed, f, u, v)
        implies exists|j: int| 0 <= j < after[u].len() && after[u][j] == (v as usize, f as usize) by {
        if f == e as int {
            assert(after[a as int][before[a as int].len() as int] == (b, e));
        } else {
            let j = choose|j: int| 0 <= j < before[u].len() && before[u][j] == (v as usize, f as usize);
            assert(after[u][j] == before[u][j]);
        }
    }
}

proof fn lemma_lists_push_both(
    ix: GraphIndex,
    removed: Option<usize>,
    before: Seq<Seq<(usize, usize)>>,
    mid: Seq<Seq<(usize, usize)>>,
    after: Seq<Seq<(usize, usize)>>,
    a: usize,
    b: usize,
    e: usize,
)
    requires
        lists_upto(ix, true, removed, before, e as int),
        e < ix.ends@.len(),
        ix.ends@[e as int].0 == a,
        ix.ends@[e as int].1 == b,
        a < before.len(),
        b < before.len(),
        ix.is_node@[a as int] && ix.is_node@[b as int] && removed != Some(a) && removed != Some(b),
        mid.len() == before.len(),
        mid[a as int] == before[a as int].push((b, e)),
        forall|w: int| 0 <= w < before.len() && w != a as int ==> mid[w] == before[w],
        after.len() == before.len(),
        after[b as int] == mid[b as int].push((a, e)),
        forall|w: int| 0 <= w < before.len() && w != b as int ==> after[w] == mid[w],
    ensures
        lists_upto(ix, true, removed, after, e + 1),
{
    assert forall|u: int, j: int| 0 <= u < after.len() && 0 <= j < after[u].len() implies {
        &&& (#[trigger] after[u][j]).0 < after.len()
        &&& after[u][j].1 < e + 1
        &&& pos_link(ix, true, removed, after[u][j].1 as int, u, after[u][j].0 as int)
    } by {
        if u == b as int && j == mid[b as int].len() {
        } else {
            assert(after[u][j] == mid[u][j]);
            if u == a as int && j == before[a as int].len() {
            } else {
                assert(mid[u][j] == before[u][j]);
            }
        }
    }
    assert forall|f: int, u: int, v: int|
        0 <= f < e + 1 && 0 <= u < after.len() && 0 <= v < after.len() && #[trigger] pos_link(ix, true, removed, f, u, v)
        implies exists|j: int| 0 <= j < after[u].len() && after[u][j] == (v as usize, f as usize) by {
        if f == e as int {
            if u == b as int && v == a as int {
                assert(after[b as int][mid[b as int].len() as int] == (a, e));
            } else {
                assert(u == a as int && v == b as int);
                assert(mid[a as int][before[a as int].len() as int] == (b, e));
                assert(after[a as int][before[a as int].len() as int] == mid[a as int][before[a as int].len() as int]);
            }
        } else {
            let j = choose|j: int| 0 <= j < before[u].len() && before[u][j] == (v as usize, f as usize);
            assert(mid[u][j] == before[u][j]);
            assert(after[u][j] == mid[u][j]);
        }
    }
}

proof fn lemma_lists_exact(g: CodeGraph, ix: GraphIndex, weak: bool, removed: Option<usize>, adj: Seq<Seq<(usize, usize)>>)
    requires
        ix.describes(g),
        removed matches Some(r) ==> r < ix.ids@.len(),
        lists_upto(ix, weak, removed, adj, g.edges@.len() as int),
    ensures
        links_exact(g, ix, weak, removed_id(ix, removed), adj),
{
    let ids = views(ix.ids@);
    let rid = removed_id(ix, removed);
    assert forall|u: int, v: int| 0 <= u < adj.len() && 0 <= v < adj.len() implies (#[trigger] adj_step(adj, u, v)
        <==> link(g, weak, rid, ids[u], ids[v])) by {
        if adj_step(adj, u, v) {
            let j = choose|j: int| 0 <= j < adj[u].len() && #[trigger] adj[u][j].0 == v;
            let e = adj[u][j].1 as int;
            assert(pos_link(ix, weak, removed, e, u, v));
            assert(ix.ends@[e].0 < ids.len() && ix.ends@[e].1 < ids.len());
            if weak {
                if let Some(r) = removed {
                    if ids[r as int] == ids[u] {
                        lemma_sorted_positions_unique(ids, r as int, u);
                    }
                    if ids[r as int] == ids[v] {
                        lemma_sorted_positions_unique(ids, r as int, v);
                    }
                }
                if ix.ends@[e].0 == u {
                    assert(edge_joins(g, e, ids[u], ids[v]));
                } else {
                    assert(edge_joins(g, e, ids[v], ids[u]));
                }
            } else {
                assert(edge_joins(g, e, ids[u], ids[v]));
            }
        }
        if link(g, weak, rid, ids[u], ids[v]) {
            let e = if weak {
                if directed_link(g, ids[u], ids[v]) {
                    choose|e: int| #[trigger] edge_joins(g, e, ids[u], ids[v])
                } else {
                    choose|e: int| #[trigger] edge_joins(g, e, ids[v], ids[u])
                }
            } else {
                choose|e: int| #[trigger] edge_joins(g, e, ids[u], ids[v])
            };
            assert(ix.ends@[e].0 < ids.len() && ix.ends@[e].1 < ids.len());
            if weak {
                if directed_link(g, ids[u], ids[v]) {
                    lemma_sorted_positions_unique(ids, ix.ends@[e].0 as int, u);
                    lemma_sorted_positions_unique(ids, ix.ends@[e].1 as int, v);
                } else {
                    lemma_sorted_positions_unique(ids, ix.ends@[e].0 as int, v);
                    lemma_sorted_positions_unique(ids, ix.ends@[e].1 as int, u);
                }
                assert(ix.is_node@[u] && ix.is_node@[v]);
            } else {
                lemma_sorted_positions_unique(ids, ix.ends@[e].0 as int, u);
                lemma_sorted_positions_unique(ids, ix.ends@[e].1 as int, v);
            }
            assert(pos_link(ix, weak, removed, e, u, v));
            let j = choose|j: int| 0 <= j < adj[u].len() && adj[u][j] == (v as usize, e as usize);
            assert(adj[u][j].0 == v);
        }
    }
}

/// Reaching `u` and then stepping to `v` reaches `v`.
pub proof fn lemma_reaches_step(adj: Seq<Seq<(usize, usize)>>, a: int, u: int, v: int)
    requires
        reaches(adj, a, u),
        adj_step(adj, u, v),
    ensures
        reaches(adj, a, v),
{
    let k = choose|k: nat| within(adj, a, u, k);
    lemma_within_succ(adj, a, u, v, k);
}

/// Every vertex reaches itself.
pub proof fn lemma_reaches_self(adj: Seq<Seq<(usize, usize)>>, a: int)
    ensures
        reaches(adj, a, a),
{
    lemma_within_start(adj, a, 0);
}

/// Reachability is transitive.
pub proof fn lemma_reaches_trans(adj: Seq<Seq<(usize, usize)>>, a: int, b: int, c: int)
    requires
        reaches(adj, a, b),
        reaches(adj, b, c),
    ensures
        reaches(adj, a, c),
{
    let k = choose|k: nat| within(adj, b, c, k);
    lemma_reaches_trans_within(adj, a, b, c, k);
}

proof fn lemma_reaches_trans_within(adj: Seq<Seq<(usize, usize)>>, a: int, b: int, c: int, k: nat)
    requires
        reaches(adj, a, b),
        within(adj, b, c, k),
    ensures
        reaches(adj, a, c),
    decreases k,
{
    if c != b {
        if k == 0 {
            assert(within(adj, b, c, 0));
            assert(false);
        } else {
            let u = lemma_within_pred(adj, b, c, (k - 1) as nat);
            lemma_reaches_trans_within(adj, a, b, u, (k - 1) as nat);
            lemma_reaches_step(adj, a, u, c);
        }
    }
}

/// In symmetric adjacency, reachability is symmetric.
pub proof fn lemma_reaches_symmetric(adj: Seq<Seq<(usize, usize)>>, a: int, b: int)
    requires
        adj_symmetric(adj),
        reaches(adj, a, b),
    ensures
        reaches(adj, b, a),
{
    let k = choose|k: nat| within(adj, a, b, k);
    lemma_reaches_symmetric_within(adj, a, b, k);
}

proof fn lemma_reaches_symmetric_within(adj: Seq<Seq<(usize, usize)>>, a: int, b: int, k: nat)
    requires
        adj_symmetric(adj),
        within(adj, a, b, k),
    ensures
        reaches(adj, b, a),
    decreases k,
{
    if b == a {
        lemma_reaches_self(adj, a);
    } else {
        if k == 0 {
            assert(false);
        } else {
            let u = lemma_within_pred(adj, a, b, (k - 1) as nat);
            lemma_reaches_symmetric_within(adj, a, u, (k - 1) as nat);
            assert(adj_step(adj, b, u));
            lemma_reaches_self(adj, b);
            lemma_reaches_step(adj, b, b, u);
            lemma_reaches_trans(adj, b, u, a);
        }
    }
}

} // verus!
