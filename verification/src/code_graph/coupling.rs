//! Reproducible coupling views derived only from stored nodes and edges.

use crate::code_graph::connect::{
    adj_symmetric, connected, directed_link, edge_joins, kept, lemma_connected_iff,
    lemma_reaches_self, lemma_reaches_symmetric, lemma_reaches_trans, link, link_lists, links_exact,
    removed_id, weak_link,
};
use crate::code_graph::graph_index::{edge_touches, is_node_id, lemma_sorted_positions_unique, GraphIndex};
use crate::code_graph::query::{paths_view, reach_paths, DependencyPath, Direction, GraphQuery};
use crate::code_graph::index::{adj_step, breadth_first, lemma_within_pred, reach_correct, reaches, within};
use crate::code_graph::integrity::{edge_issue, edge_issues, first_from, first_issue, IntegrityIssue};
use crate::code_graph::model::CodeGraph;
use crate::order::{contains_view, insert_sorted, seq_lt, sorted_strict, str_eq, views};
use vstd::prelude::*;

verus! {

/// A set of nodes and the edges among them.
pub struct Region {
    pub nodes: Vec<String>,
    pub evidence_edges: Vec<String>,
}

/// The view of a region: its node ids and its edge ids.
pub open spec fn region_view(r: Region) -> (Seq<Seq<char>>, Seq<Seq<char>>) {
    (views(r.nodes@), views(r.evidence_edges@))
}

/// The views of a list of regions.
pub open spec fn regions_view(rs: Seq<Region>) -> Seq<(Seq<Seq<char>>, Seq<Seq<char>>)> {
    rs.map_values(|r: Region| region_view(r))
}

/// Ids of the first `k` edges whose two ends are both in `ns`, in edge order.
pub open spec fn inner_edge_ids(g: CodeGraph, ns: Seq<Seq<char>>, k: int) -> Seq<Seq<char>>
    decreases k,
{
    if k <= 0 {
        Seq::empty()
    } else {
        let rest = inner_edge_ids(g, ns, k - 1);
        let e = g.edges@[k - 1];
        if contains_view(ns, e.from@) && contains_view(ns, e.to@) {
            rest.push(e.id@)
        } else {
            rest
        }
    }
}

/// The ids in `ns`, with the edges among them.
pub open spec fn region_of(g: CodeGraph, ns: Seq<Seq<char>>) -> (Seq<Seq<char>>, Seq<Seq<char>>) {
    (ns, inner_edge_ids(g, ns, g.edges@.len() as int))
}

/// `ns` lists, ascending, the kept ids weakly connected to its first one.
pub open spec fn is_component(g: CodeGraph, removed: Option<Seq<char>>, ns: Seq<Seq<char>>) -> bool {
    &&& ns.len() >= 1
    &&& sorted_strict(ns)
    &&& kept(g, removed, ns[0])
    &&& forall|y: Seq<char>|
        #![trigger contains_view(ns, y)]
        #![trigger connected(g, true, removed, ns[0], y)]
        contains_view(ns, y) <==> (kept(g, removed, y) && connected(g, true, removed, ns[0], y))
}

/// `comps` lists every weakly connected set of kept ids once, ordered by
/// their first (least) id.
#[verifier::opaque]
pub open spec fn components_of(g: CodeGraph, removed: Option<Seq<char>>, comps: Seq<Seq<Seq<char>>>) -> bool {
    &&& forall|i: int| 0 <= i < comps.len() ==> is_component(g, removed, #[trigger] comps[i])
    &&& forall|i: int, j: int| 0 <= i < j < comps.len() ==> seq_lt((#[trigger] comps[i])[0], (#[trigger] comps[j])[0])
    &&& forall|y: Seq<char>|
        #[trigger] kept(g, removed, y) ==> exists|i: int| 0 <= i < comps.len() && contains_view(comps[i], y)
}

/// The ids at the positions of each list.
pub open spec fn ids_of_lists(ix: GraphIndex, ls: Seq<Vec<usize>>) -> Seq<Seq<Seq<char>>> {
    ls.map_values(|l: Vec<usize>| ids_at(ix, l@))
}

/// The ids at the given positions.
pub open spec fn ids_at(ix: GraphIndex, ps: Seq<usize>) -> Seq<Seq<char>> {
    ps.map_values(|p: usize| views(ix.ids@)[p as int])
}

/// Strictly ascending positions below `n`.
pub open spec fn ascending_below(ps: Seq<usize>, n: int) -> bool {
    &&& forall|i: int| 0 <= i < ps.len() ==> #[trigger] ps[i] < n
    &&& forall|i: int, j: int| 0 <= i < j < ps.len() ==> #[trigger] ps[i] < #[trigger] ps[j]
}

/// Position `w` is listed in `ps`.
pub open spec fn in_list(ps: Seq<usize>, w: int) -> bool {
    exists|k: int| 0 <= k < ps.len() && #[trigger] ps[k] == w
}

proof fn lemma_in_list_push(ps: Seq<usize>, x: usize, w: int)
    ensures
        in_list(ps.push(x), w) <==> (in_list(ps, w) || w == x),
{
    let qs = ps.push(x);
    if in_list(qs, w) {
        let k = choose|k: int| 0 <= k < qs.len() && #[trigger] qs[k] == w;
        if k < ps.len() {
            assert(ps[k] == w);
        }
    }
    if in_list(ps, w) {
        let k = choose|k: int| 0 <= k < ps.len() && #[trigger] ps[k] == w;
        assert(qs[k] == w);
    }
    if w == x {
        assert(qs[ps.len() as int] == w);
    }
}

/// Ascending positions give ascending ids.
proof fn lemma_ids_at_sorted(ix: GraphIndex, ps: Seq<usize>)
    requires
        sorted_strict(views(ix.ids@)),
        ascending_below(ps, ix.ids@.len() as int),
    ensures
        sorted_strict(ids_at(ix, ps)),
{
    let ids = views(ix.ids@);
    assert forall|i: int, j: int| 0 <= i < j < ps.len() implies seq_lt(
        #[trigger] ids_at(ix, ps)[i],
        #[trigger] ids_at(ix, ps)[j],
    ) by {
        assert(ps[i] < ps[j]);
        assert(seq_lt(ids[ps[i] as int], ids[ps[j] as int]));
    }
}

/// An id appears among the ids at some positions exactly when its position does.
proof fn lemma_ids_at_contains(ix: GraphIndex, ps: Seq<usize>, p: int)
    requires
        sorted_strict(views(ix.ids@)),
        ascending_below(ps, ix.ids@.len() as int),
        0 <= p < ix.ids@.len(),
    ensures
        contains_view(ids_at(ix, ps), views(ix.ids@)[p]) <==> in_list(ps, p),
{
    let ids = views(ix.ids@);
    if contains_view(ids_at(ix, ps), ids[p]) {
        let i = choose|i: int| 0 <= i < ids_at(ix, ps).len() && #[trigger] ids_at(ix, ps)[i] == ids[p];
        lemma_sorted_positions_unique(ids, ps[i] as int, p);
        assert(ps[i] == p);
    }
    if in_list(ps, p) {
        let i = choose|i: int| 0 <= i < ps.len() && #[trigger] ps[i] == p;
        assert(ids_at(ix, ps)[i] == ids[p]);
    }
}

/// Position `p` holds a kept id.
pub open spec fn kept_pos(ix: GraphIndex, removed: Option<usize>, p: int) -> bool {
    ix.is_node@[p] && match removed {
        Some(r) => r as int != p,
        None => true,
    }
}

proof fn lemma_kept_pos(g: CodeGraph, ix: GraphIndex, removed: Option<usize>, p: int)
    requires
        ix.describes(g),
        removed matches Some(r) ==> r < ix.ids@.len(),
        0 <= p < ix.ids@.len(),
    ensures
        kept_pos(ix, removed, p) <==> kept(g, removed_id(ix, removed), views(ix.ids@)[p]),
{
    let ids = views(ix.ids@);
    assert(ix.is_node@[p] <==> is_node_id(g, ids[p]));
    if let Some(r) = removed {
        assert(removed_id(ix, removed) == Some(ids[r as int]));
        if ids[r as int] == ids[p] {
            lemma_sorted_positions_unique(ids, r as int, p);
        }

    }
}

/// A kept id sits at some position.
proof fn lemma_kept_position(g: CodeGraph, ix: GraphIndex, removed: Option<Seq<char>>, y: Seq<char>) -> (p: int)
    requires
        ix.describes(g),
        kept(g, removed, y),
    ensures
        0 <= p < ix.ids@.len(),
        views(ix.ids@)[p] == y,
{
    let i = choose|i: int| 0 <= i < g.nodes@.len() && #[trigger] g.nodes@[i].id@ == y;
    ix.node_at@[i] as int
}

/// Whatever is reached from `s` in weak adjacency, other than `s`, is kept.
proof fn lemma_reached_kept(
    g: CodeGraph,
    ix: GraphIndex,
    removed: Option<Seq<char>>,
    adj: Seq<Seq<(usize, usize)>>,
    s: int,
    v: int,
)
    requires
        links_exact(g, ix, true, removed, adj),
        reaches(adj, s, v),
        v != s,
        0 <= v < adj.len(),
    ensures
        kept(g, removed, views(ix.ids@)[v]),
{
    let k = choose|k: nat| within(adj, s, v, k);
    if k == 0 {
        assert(within(adj, s, v, 0));
    } else {
        let u = lemma_within_pred(adj, s, v, (k - 1) as nat);
        assert(link(g, true, removed, views(ix.ids@)[u], views(ix.ids@)[v]));
    }
}

/// Weak adjacency is symmetric.
proof fn lemma_weak_symmetric(g: CodeGraph, ix: GraphIndex, removed: Option<Seq<char>>, adj: Seq<Seq<(usize, usize)>>)
    requires
        links_exact(g, ix, true, removed, adj),
    ensures
        adj_symmetric(adj),
{
    let ids = views(ix.ids@);
    assert forall|u: int, v: int| #[trigger] adj_step(adj, u, v) implies adj_step(adj, v, u) by {
        let j = choose|j: int| 0 <= j < adj[u].len() && #[trigger] adj[u][j].0 == v;
        assert(v < adj.len());
        assert(link(g, true, removed, ids[u], ids[v]));
        assert(link(g, true, removed, ids[v], ids[u]));
    }
}

/// The connected sets found from the least position of each.
proof fn lemma_components_final(
    g: CodeGraph,
    ix: GraphIndex,
    removed: Option<usize>,
    adj: Seq<Seq<(usize, usize)>>,
    starts: Seq<int>,
    comps: Seq<Vec<usize>>,
    assigned: Seq<bool>,
)
    requires
        removed matches Some(r) ==> r < ix.ids@.len(),
        links_exact(g, ix, true, removed_id(ix, removed), adj),
        comps.len() == starts.len(),
        assigned.len() == adj.len(),
        forall|i: int| 0 <= i < starts.len() ==> 0 <= #[trigger] starts[i] < adj.len() && kept_pos(ix, removed, starts[i]),
        forall|i: int, j: int| 0 <= i < j < starts.len() ==> #[trigger] starts[i] < #[trigger] starts[j],
        forall|i: int|
            0 <= i < comps.len() ==> {
                &&& ascending_below((#[trigger] comps[i])@, adj.len() as int)
                &&& comps[i]@.len() >= 1
                &&& comps[i]@[0] == starts[i]
                &&& forall|v: int| 0 <= v < adj.len() ==> (in_list(comps[i]@, v) <==> reaches(adj, starts[i], v))
            },
        forall|v: int| 0 <= v < adj.len() ==> (#[trigger] assigned[v] <==> exists|i: int|
            0 <= i < starts.len() && reaches(adj, starts[i], v)),
        forall|v: int| 0 <= v < adj.len() && kept_pos(ix, removed, v) ==> #[trigger] assigned[v],
    ensures
        components_of(g, removed_id(ix, removed), ids_of_lists(ix, comps)),
{
    reveal(components_of);
    let ids = views(ix.ids@);
    let rid = removed_id(ix, removed);
    let cs = ids_of_lists(ix, comps);
    assert forall|i: int| 0 <= i < cs.len() implies is_component(g, rid, #[trigger] cs[i]) by {
        let ns = cs[i];
        let st = starts[i];
        assert(ns == ids_at(ix, comps[i]@));
        lemma_ids_at_sorted(ix, comps[i]@);
        assert(ns[0] == ids[st]);
        lemma_kept_pos(g, ix, removed, st);
        assert forall|y: Seq<char>| contains_view(ns, y) <==> (kept(g, rid, y) && connected(g, true, rid, ns[0], y)) by {
            if contains_view(ns, y) {
                let k = choose|k: int| 0 <= k < ns.len() && #[trigger] ns[k] == y;
                let v = comps[i]@[k] as int;
                assert(in_list(comps[i]@, v));
                assert(y == ids[v]);
                lemma_connected_iff(g, ix, true, rid, adj, st, v);
                if v != st {
                    lemma_reached_kept(g, ix, rid, adj, st, v);
                }
            }
            if kept(g, rid, y) && connected(g, true, rid, ns[0], y) {
                let v = lemma_kept_position(g, ix, rid, y);
                lemma_connected_iff(g, ix, true, rid, adj, st, v);
                lemma_ids_at_contains(ix, comps[i]@, v);
            }
        }
    }
    assert forall|i: int, j: int| 0 <= i < j < cs.len() implies seq_lt((#[trigger] cs[i])[0], (#[trigger] cs[j])[0]) by {
        assert(cs[i] == ids_at(ix, comps[i]@));
        assert(cs[j] == ids_at(ix, comps[j]@));
        assert(starts[i] < starts[j]);
    }
    assert forall|y: Seq<char>| #[trigger] kept(g, rid, y) implies exists|i: int|
        0 <= i < cs.len() && contains_view(cs[i], y) by {
        let v = lemma_kept_position(g, ix, rid, y);
        lemma_kept_pos(g, ix, removed, v);
        assert(assigned[v]);
        let i = choose|i: int| 0 <= i < starts.len() && reaches(adj, starts[i], v);
        assert(in_list(comps[i]@, v));
        assert(cs[i] == ids_at(ix, comps[i]@));
        lemma_ids_at_contains(ix, comps[i]@, v);
    }
}

/// The weakly connected sets of kept nodes, each as ascending positions,
/// ordered by their least position.
fn components(g: &CodeGraph, ix: &GraphIndex, removed: Option<usize>) -> (r: Vec<Vec<usize>>)
    requires
        ix.describes(*g),
        removed matches Some(q) ==> q < ix.ids@.len(),
    ensures
        forall|i: int| 0 <= i < r@.len() ==> ascending_below((#[trigger] r@[i])@, ix.ids@.len() as int),
        components_of(*g, removed_id(*ix, removed), ids_of_lists(*ix, r@)),
{
    let adj = link_lists(g, ix, true, removed);
    let ghost am = adj@.map_values(|l: Vec<(usize, usize)>| l@);
    let ghost rid = removed_id(*ix, removed);
    proof {
        lemma_weak_symmetric(*g, *ix, rid, am);
    }
    let n = ix.ids.len();
    let mut assigned: Vec<bool> = Vec::new();
    let mut q: usize = 0;
    while q < n
        invariant
            q <= n,
            assigned@.len() == q,
            forall|w: int| 0 <= w < q ==> !#[trigger] assigned@[w],
        decreases n - q,
    {
        assigned.push(false);
        q = q + 1;
    }
    let mut comps: Vec<Vec<usize>> = Vec::new();
    let ghost mut starts: Seq<int> = Seq::empty();
    let mut s: usize = 0;
    while s < n
        invariant
            s <= n,
            n == ix.ids@.len(),
            n == am.len(),
            ix.describes(*g),
            removed matches Some(r) ==> r < n,
            am == adj@.map_values(|l: Vec<(usize, usize)>| l@),
            rid == removed_id(*ix, removed),
            links_exact(*g, *ix, true, rid, am),
            adj_symmetric(am),
            assigned@.len() == n,
            comps@.len() == starts.len(),
            forall|i: int| 0 <= i < starts.len() ==> 0 <= #[trigger] starts[i] < s && kept_pos(*ix, removed, starts[i]),
            forall|i: int, j: int| 0 <= i < j < starts.len() ==> #[trigger] starts[i] < #[trigger] starts[j],
            forall|i: int|
                0 <= i < comps@.len() ==> {
                    &&& ascending_below((#[trigger] comps@[i])@, n as int)
                    &&& comps@[i]@.len() >= 1
                    &&& comps@[i]@[0] == starts[i]
                    &&& forall|v: int| 0 <= v < n ==> (in_list(comps@[i]@, v) <==> reaches(am, starts[i], v))
                },
            forall|v: int| 0 <= v < n ==> (#[trigger] assigned@[v] <==> exists|i: int|
                0 <= i < starts.len() && reaches(am, starts[i], v)),
            forall|v: int| 0 <= v < s && kept_pos(*ix, removed, v) ==> #[trigger] assigned@[v],
        decreases n - s,
    {
        let keep = ix.is_node[s] && !matches!(removed, Some(r) if r == s);
        if keep && !assigned[s] {
            proof {
                assert forall|v: int| 0 <= v < s implies !#[trigger] reaches(am, s as int, v) by {
                    if reaches(am, s as int, v) {
                        lemma_reached_kept(*g, *ix, rid, am, s as int, v);
                        lemma_kept_pos(*g, *ix, removed, v);
                        assert(assigned@[v]);
                        let i = choose|i: int| 0 <= i < starts.len() && reaches(am, starts[i], v);
                        lemma_reaches_symmetric(am, s as int, v);
                        lemma_reaches_trans(am, starts[i], v, s as int);
                        assert(assigned@[s as int]);
                    }
                }
            }
            let reach = breadth_first(&adj, s);
            let ghost before = assigned@;
            let mut members: Vec<usize> = Vec::new();
            let mut v: usize = 0;
            while v < n
                invariant
                    v <= n,
                    n == am.len(),
                    s < n,
                    reach_correct(am, s as int, reach),
                    assigned@.len() == n,
                    before.len() == n,
                    forall|w: int| 0 <= w < n ==> (#[trigger] before[w] <==> exists|i: int|
                        0 <= i < starts.len() && reaches(am, starts[i], w)),
                    ascending_below(members@, v as int),
                    forall|w: int| 0 <= w < n ==> (in_list(members@, w) <==> (w < v && reaches(am, s as int, w))),
                    forall|w: int| 0 <= w < n ==> (#[trigger] assigned@[w] <==> (before[w] || (w < v && reaches(am, s as int, w)))),
                decreases n - v,
            {
                if reach.visited[v] {
                    let ghost old_members = members@;
                    members.push(v);
                    assigned.set(v, true);
                    proof {
                        assert forall|w: int| 0 <= w < n implies (in_list(members@, w) <==> (w < v + 1
                            && reaches(am, s as int, w))) by {
                            lemma_in_list_push(old_members, v, w);
                        }
                    }
                } else {
                    proof {
                        assert(!reaches(am, s as int, v as int));
                        assert forall|w: int| 0 <= w < n implies (in_list(members@, w) <==> (w < v + 1
                            && reaches(am, s as int, w))) by {}
                    }
                }
                v = v + 1;
            }
            proof {
                lemma_reaches_self(am, s as int);
                assert(in_list(members@, s as int));
                let k = choose|k: int| 0 <= k < members@.len() && #[trigger] members@[k] == s as int;
                if k > 0 {
                    assert(members@[0] < members@[k]);
                    assert(in_list(members@, members@[0] as int));
                    assert(reaches(am, s as int, members@[0] as int));
                }
                assert(members@[0] == s);
            }
            comps.push(members);
            proof {
                let old_starts = starts;
                starts = starts.push(s as int);
                assert forall|w: int| 0 <= w < n implies (#[trigger] assigned@[w] <==> exists|i: int|
                    0 <= i < starts.len() && reaches(am, starts[i], w)) by {
                    if before[w] {
                        let i = choose|i: int| 0 <= i < old_starts.len() && reaches(am, old_starts[i], w);
                        assert(starts[i] == old_starts[i]);
                    }
                    if reaches(am, s as int, w) {
                        assert(starts[old_starts.len() as int] == s as int);
                    }
                    if exists|i: int| 0 <= i < starts.len() && reaches(am, starts[i], w) {
                        let i = choose|i: int| 0 <= i < starts.len() && reaches(am, starts[i], w);
                        if i < old_starts.len() {
                            assert(old_starts[i] == starts[i]);
                        }
                    }
                }
                assert forall|i: int| 0 <= i < comps@.len() implies {
                    &&& ascending_below((#[trigger] comps@[i])@, n as int)
                    &&& comps@[i]@.len() >= 1
                    &&& comps@[i]@[0] == starts[i]
                    &&& forall|v: int| 0 <= v < n ==> (in_list(comps@[i]@, v) <==> reaches(am, starts[i], v))
                } by {
                    if i == comps@.len() - 1 {
                        assert(comps@[i] == members);
                    }
                }
            }
        } else {
            proof {
                assert forall|w: int| 0 <= w < s + 1 && kept_pos(*ix, removed, w) implies #[trigger] assigned@[w] by {
                    if w == s as int {
                        assert(keep == kept_pos(*ix, removed, w));
                    }
                }
            }
        }
        s = s + 1;
    }
    proof {
        lemma_components_final(*g, *ix, removed, am, starts, comps@, assigned@);
    }
    comps
}

/// `rs` are the regions of the weakly connected sets of kept nodes, ordered
/// by their least id.
pub open spec fn weak_partition(
    g: CodeGraph,
    removed: Option<Seq<char>>,
    rs: Seq<(Seq<Seq<char>>, Seq<Seq<char>>)>,
) -> bool {
    &&& components_of(g, removed, rs.map_values(|r: (Seq<Seq<char>>, Seq<Seq<char>>)| r.0))
    &&& forall|i: int| 0 <= i < rs.len() ==> #[trigger] rs[i] == region_of(g, rs[i].0)
}

/// The regions of the weakly connected sets of kept nodes.
fn weak_regions(g: &CodeGraph, ix: &GraphIndex, removed: Option<usize>) -> (r: Vec<Region>)
    requires
        ix.describes(*g),
        removed matches Some(q) ==> q < ix.ids@.len(),
    ensures
        weak_partition(*g, removed_id(*ix, removed), regions_view(r@)),
{
    let comps = components(g, ix, removed);
    let ghost cs = ids_of_lists(*ix, comps@);
    let mut out: Vec<Region> = Vec::new();
    let mut i: usize = 0;
    while i < comps.len()
        invariant
            i <= comps@.len(),
            ix.describes(*g),
            cs == ids_of_lists(*ix, comps@),
            forall|k: int| 0 <= k < comps@.len() ==> ascending_below((#[trigger] comps@[k])@, ix.ids@.len() as int),
            out@.len() == i,
            forall|k: int| 0 <= k < i ==> region_view(#[trigger] out@[k]) == region_of(*g, cs[k]),
        decreases comps@.len() - i,
    {
        let r = region(g, ix, &comps[i]);
        out.push(r);
        i = i + 1;
    }
    proof {
        let rs = regions_view(out@);
        assert(rs.map_values(|r: (Seq<Seq<char>>, Seq<Seq<char>>)| r.0) =~= cs);
    }
    out
}

/// `y` is a node id or the source of some edge.
pub open spec fn is_vertex(g: CodeGraph, y: Seq<char>) -> bool {
    is_node_id(g, y) || exists|e: int| 0 <= e < g.edges@.len() && #[trigger] g.edges@[e].from@ == y
}

/// Every edge ends at a node id or at the source of some edge.
pub open spec fn targets_are_vertices(g: CodeGraph) -> bool {
    forall|e: int| 0 <= e < g.edges@.len() ==> is_vertex(g, #[trigger] g.edges@[e].to@)
}

/// No issue from position `i` on means every issue there is absent.
proof fn lemma_no_issue_from(issues: Seq<Option<IntegrityIssue>>, i: int)
    requires
        0 <= i,
        first_from(issues, i) is None,
    ensures
        forall|k: int| i <= k < issues.len() ==> #[trigger] issues[k] is None,
    decreases issues.len() - i,
{
    if i < issues.len() {
        lemma_no_issue_from(issues, i + 1);
    }
}

/// A graph that passes the integrity check has every edge end at a node,
/// so coupling analysis may measure it.
pub proof fn law_valid_graphs_can_be_measured(g: CodeGraph, expected_id: Seq<char>)
    requires
        first_issue(g, expected_id) is None,
    ensures
        targets_are_vertices(g),
{
    lemma_no_issue_from(edge_issues(g), 0);
    assert forall|e: int| 0 <= e < g.edges@.len() implies is_vertex(g, #[trigger] g.edges@[e].to@) by {
        assert(edge_issues(g)[e] is None);
        assert(edge_issue(g, e) is None);
    }
}

/// `x` and `y` reach each other along edges.
pub open spec fn mutual(g: CodeGraph, x: Seq<char>, y: Seq<char>) -> bool {
    connected(g, false, None, x, y) && connected(g, false, None, y, x)
}

/// `ns` lists, ascending, the vertices that reach and are reached by its first one.
pub open spec fn is_scc(g: CodeGraph, ns: Seq<Seq<char>>) -> bool {
    &&& ns.len() >= 1
    &&& sorted_strict(ns)
    &&& is_vertex(g, ns[0])
    &&& forall|y: Seq<char>|
        #![trigger contains_view(ns, y)]
        #![trigger mutual(g, ns[0], y)]
        contains_view(ns, y) <==> (is_vertex(g, y) && mutual(g, ns[0], y))
}

/// A strongly connected set that holds a cycle.
pub open spec fn is_cyclic(g: CodeGraph, ns: Seq<Seq<char>>) -> bool {
    ns.len() > 1 || directed_link(g, ns[0], ns[0])
}

/// `y` lies on a cycle.
pub open spec fn on_cycle(g: CodeGraph, y: Seq<char>) -> bool {
    &&& is_vertex(g, y)
    &&& ((exists|z: Seq<char>| z != y && #[trigger] mutual(g, y, z)) || directed_link(g, y, y))
}

/// `rs` are the regions of the strongly connected sets that hold a cycle,
/// each once, ordered by their least id.
pub open spec fn cycle_regions(g: CodeGraph, rs: Seq<(Seq<Seq<char>>, Seq<Seq<char>>)>) -> bool {
    &&& forall|i: int|
        0 <= i < rs.len() ==> is_scc(g, (#[trigger] rs[i]).0) && is_cyclic(g, rs[i].0) && rs[i] == region_of(
            g,
            rs[i].0,
        )
    &&& forall|i: int, j: int| 0 <= i < j < rs.len() ==> seq_lt((#[trigger] rs[i]).0[0], (#[trigger] rs[j]).0[0])
    &&& forall|y: Seq<char>| #[trigger] on_cycle(g, y) ==> exists|i: int| 0 <= i < rs.len() && contains_view(rs[i].0, y)
}

/// Positions that reach each other.
pub open spec fn mutual_pos(adj: Seq<Seq<(usize, usize)>>, a: int, b: int) -> bool {
    reaches(adj, a, b) && reaches(adj, b, a)
}

/// Position `v` lies on a cycle.
pub open spec fn on_cycle_pos(adj: Seq<Seq<(usize, usize)>>, v: int) -> bool {
    (exists|w: int| 0 <= w < adj.len() && w != v && #[trigger] mutual_pos(adj, v, w)) || adj_step(adj, v, v)
}

proof fn lemma_mutual_pos_trans(adj: Seq<Seq<(usize, usize)>>, a: int, b: int, c: int)
    requires
        mutual_pos(adj, a, b),
        mutual_pos(adj, b, c),
    ensures
        mutual_pos(adj, a, c),
{
    lemma_reaches_trans(adj, a, b, c);
    lemma_reaches_trans(adj, c, b, a);
}

/// Under `targets_are_vertices`, every position holds a vertex.
proof fn lemma_positions_are_vertices(g: CodeGraph, ix: GraphIndex, p: int)
    requires
        ix.describes(g),
        targets_are_vertices(g),
        0 <= p < ix.ids@.len(),
    ensures
        is_vertex(g, views(ix.ids@)[p]),
{
    let ids = views(ix.ids@);
    if !is_node_id(g, ids[p]) {
        assert(crate::code_graph::graph_index::is_endpoint(g, ids[p]));
        let e = choose|e: int| 0 <= e < g.edges@.len() && #[trigger] crate::code_graph::graph_index::edge_touches(g, e, ids[p]);
        if g.edges@[e].to@ == ids[p] {
            assert(is_vertex(g, g.edges@[e].to@));
        }
    }
}

/// A vertex sits at some position.
proof fn lemma_vertex_position(g: CodeGraph, ix: GraphIndex, y: Seq<char>) -> (p: int)
    requires
        ix.describes(g),
        is_vertex(g, y),
    ensures
        0 <= p < ix.ids@.len(),
        views(ix.ids@)[p] == y,
{
    if is_node_id(g, y) {
        let i = choose|i: int| 0 <= i < g.nodes@.len() && #[trigger] g.nodes@[i].id@ == y;
        ix.node_at@[i] as int
    } else {
        let e = choose|e: int| 0 <= e < g.edges@.len() && #[trigger] g.edges@[e].from@ == y;
        ix.ends@[e].0 as int
    }
}

/// Mutual reachability of positions is mutual reachability of their ids.
proof fn lemma_mutual_iff(g: CodeGraph, ix: GraphIndex, adj: Seq<Seq<(usize, usize)>>, a: int, b: int)
    requires
        links_exact(g, ix, false, None, adj),
        0 <= a < adj.len(),
        0 <= b < adj.len(),
    ensures
        mutual_pos(adj, a, b) <==> mutual(g, views(ix.ids@)[a], views(ix.ids@)[b]),
{
    lemma_connected_iff(g, ix, false, None, adj, a, b);
    lemma_connected_iff(g, ix, false, None, adj, b, a);
}

proof fn lemma_cycles_final(
    g: CodeGraph,
    ix: GraphIndex,
    adj: Seq<Seq<(usize, usize)>>,
    starts: Seq<int>,
    comps: Seq<Seq<usize>>,
    rs: Seq<(Seq<Seq<char>>, Seq<Seq<char>>)>,
)
    requires
        targets_are_vertices(g),
        links_exact(g, ix, false, None, adj),
        comps.len() == starts.len(),
        rs.len() == starts.len(),
        forall|i: int| 0 <= i < starts.len() ==> 0 <= #[trigger] starts[i] < adj.len(),
        forall|i: int, j: int| 0 <= i < j < starts.len() ==> #[trigger] starts[i] < #[trigger] starts[j],
        forall|i: int|
            0 <= i < comps.len() ==> {
                &&& ascending_below(#[trigger] comps[i], adj.len() as int)
                &&& comps[i].len() >= 1
                &&& comps[i][0] == starts[i]
                &&& (comps[i].len() > 1 || adj_step(adj, starts[i], starts[i]))
                &&& forall|v: int| 0 <= v < adj.len() ==> (in_list(comps[i], v) <==> mutual_pos(adj, starts[i], v))
            },
        forall|i: int| 0 <= i < rs.len() ==> #[trigger] rs[i] == region_of(g, ids_at(ix, comps[i])),
        forall|v: int|
            0 <= v < adj.len() && #[trigger] on_cycle_pos(adj, v) ==> exists|i: int|
                0 <= i < comps.len() && in_list(comps[i], v),
    ensures
        cycle_regions(g, rs),
{
    let ids = views(ix.ids@);
    assert forall|i: int| 0 <= i < rs.len() implies is_scc(g, (#[trigger] rs[i]).0) && is_cyclic(g, rs[i].0)
        && rs[i] == region_of(g, rs[i].0) by {
        let ns = rs[i].0;
        let st = starts[i];
        assert(ns == ids_at(ix, comps[i]));
        lemma_ids_at_sorted(ix, comps[i]);
        assert(ns[0] == ids[st]);
        lemma_positions_are_vertices(g, ix, st);
        assert forall|y: Seq<char>| contains_view(ns, y) <==> (is_vertex(g, y) && mutual(g, ns[0], y)) by {
            if contains_view(ns, y) {
                let k = choose|k: int| 0 <= k < ns.len() && #[trigger] ns[k] == y;
                let v = comps[i][k] as int;
                assert(in_list(comps[i], v));
                lemma_mutual_iff(g, ix, adj, st, v);
                lemma_positions_are_vertices(g, ix, v);
            }
            if is_vertex(g, y) && mutual(g, ns[0], y) {
                let v = lemma_vertex_position(g, ix, y);
                lemma_mutual_iff(g, ix, adj, st, v);
                lemma_ids_at_contains(ix, comps[i], v);
            }
        }
        if comps[i].len() <= 1 {
            assert(adj_step(adj, st, st));
            assert(link(g, false, None, ids[st], ids[st]));
        }
    }
    assert forall|i: int, j: int| 0 <= i < j < rs.len() implies seq_lt((#[trigger] rs[i]).0[0], (#[trigger] rs[j]).0[0]) by {
        assert(rs[i].0 == ids_at(ix, comps[i]));
        assert(rs[j].0 == ids_at(ix, comps[j]));
        assert(starts[i] < starts[j]);
    }
    assert forall|y: Seq<char>| #[trigger] on_cycle(g, y) implies exists|i: int| 0 <= i < rs.len() && contains_view(rs[i].0, y) by {
        let v = lemma_vertex_position(g, ix, y);
        if exists|z: Seq<char>| z != y && #[trigger] mutual(g, y, z) {
            let z = choose|z: Seq<char>| z != y && #[trigger] mutual(g, y, z);
            assert(connected(g, false, None, y, z));
            let xs = choose|xs: Seq<Seq<char>>| #[trigger] crate::code_graph::connect::is_chain(g, false, None, xs)
                && xs[0] == y && xs.last() == z;
            let w = lemma_chain_position(g, ix, xs);
            lemma_mutual_iff(g, ix, adj, v, w);
            assert(mutual_pos(adj, v, w));
            assert(w != v);
        } else {
            assert(link(g, false, None, ids[v], ids[v]));
            assert(adj_step(adj, v, v));
        }
        assert(on_cycle_pos(adj, v));
        let i = choose|i: int| 0 <= i < comps.len() && in_list(comps[i], v);
        assert(rs[i].0 == ids_at(ix, comps[i]));
        lemma_ids_at_contains(ix, comps[i], v);
    }
}

/// The last id of a chain of directed links sits at some position.
proof fn lemma_chain_position(g: CodeGraph, ix: GraphIndex, xs: Seq<Seq<char>>) -> (p: int)
    requires
        ix.describes(g),
        crate::code_graph::connect::is_chain(g, false, None, xs),
        xs.len() > 1,
    ensures
        0 <= p < ix.ids@.len(),
        views(ix.ids@)[p] == xs.last(),
{
    let k = xs.len() - 2;
    assert(crate::code_graph::connect::chain_step(g, false, None, xs, k));
    let e = choose|e: int| #[trigger] edge_joins(g, e, xs[k], xs[k + 1]);
    ix.ends@[e].1 as int
}

/// The regions of the strongly connected sets that hold a cycle.
fn cycles(g: &CodeGraph, ix: &GraphIndex) -> (r: Vec<Region>)
    requires
        ix.describes(*g),
        targets_are_vertices(*g),
    ensures
        cycle_regions(*g, regions_view(r@)),
{
    let adj = link_lists(g, ix, false, None);
    let ghost am = adj@.map_values(|l: Vec<(usize, usize)>| l@);
    proof {
        assert(removed_id(*ix, None) == None::<Seq<char>>);
    }
    let n = ix.ids.len();
    let mut rows: Vec<Vec<bool>> = Vec::new();
    let mut v: usize = 0;
    while v < n
        invariant
            v <= n,
            n == am.len(),
            am == adj@.map_values(|l: Vec<(usize, usize)>| l@),
            links_exact(*g, *ix, false, None, am),
            rows@.len() == v,
            forall|a: int|
                0 <= a < v ==> (#[trigger] rows@[a])@.len() == n && forall|b: int|
                    0 <= b < n ==> (rows@[a]@[b] <==> reaches(am, a, b)),
        decreases n - v,
    {
        let reach = breadth_first(&adj, v);
        rows.push(reach.visited);
        v = v + 1;
    }
    let mut out: Vec<Region> = Vec::new();
    let ghost mut starts: Seq<int> = Seq::empty();
    let ghost mut comps: Seq<Seq<usize>> = Seq::empty();
    let mut s: usize = 0;
    while s < n
        invariant
            s <= n,
            n == am.len(),
            n == ix.ids@.len(),
            ix.describes(*g),
            targets_are_vertices(*g),
            am == adj@.map_values(|l: Vec<(usize, usize)>| l@),
            links_exact(*g, *ix, false, None, am),
            rows@.len() == n,
            forall|a: int|
                0 <= a < n ==> (#[trigger] rows@[a])@.len() == n && forall|b: int|
                    0 <= b < n ==> (rows@[a]@[b] <==> reaches(am, a, b)),
            comps.len() == starts.len(),
            out@.len() == starts.len(),
            forall|i: int| 0 <= i < starts.len() ==> 0 <= #[trigger] starts[i] < s,
            forall|i: int, j: int| 0 <= i < j < starts.len() ==> #[trigger] starts[i] < #[trigger] starts[j],
            forall|i: int|
                0 <= i < comps.len() ==> {
                    &&& ascending_below(#[trigger] comps[i], n as int)
                    &&& comps[i].len() >= 1
                    &&& comps[i][0] == starts[i]
                    &&& (comps[i].len() > 1 || adj_step(am, starts[i], starts[i]))
                    &&& forall|w: int| 0 <= w < n ==> (in_list(comps[i], w) <==> mutual_pos(am, starts[i], w))
                },
            forall|i: int| 0 <= i < out@.len() ==> region_view(#[trigger] out@[i]) == region_of(*g, ids_at(*ix, comps[i])),
            forall|w: int|
                0 <= w < s && #[trigger] on_cycle_pos(am, w) ==> exists|i: int|
                    0 <= i < comps.len() && in_list(comps[i], w),
        decreases n - s,
    {
        let mut least = true;
        let mut t: usize = 0;
        while t < s
            invariant
                t <= s,
                s < n,
                rows@.len() == n,
                forall|a: int|
                    0 <= a < n ==> (#[trigger] rows@[a])@.len() == n && forall|b: int|
                        0 <= b < n ==> (rows@[a]@[b] <==> reaches(am, a, b)),
                least <==> forall|u: int| 0 <= u < t ==> !#[trigger] mutual_pos(am, s as int, u),
            decreases s - t,
        {
            let ghost was = least;
            proof {
                assert(rows@[s as int]@[t as int] <==> reaches(am, s as int, t as int));
                assert(rows@[t as int]@[s as int] <==> reaches(am, t as int, s as int));
            }
            if rows[s][t] && rows[t][s] {
                least = false;
            }
            proof {
                if least {
                    assert forall|u: int| 0 <= u < t + 1 implies !#[trigger] mutual_pos(am, s as int, u) by {
                        if u < t {
                            assert(was);
                        }
                    }
                } else if was {
                    assert(mutual_pos(am, s as int, t as int));
                }
            }
            t = t + 1;
        }
        if least {
            let mut members: Vec<usize> = Vec::new();
            let mut w: usize = 0;
            while w < n
                invariant
                    w <= n,
                    s < n,
                    rows@.len() == n,
                    forall|a: int|
                        0 <= a < n ==> (#[trigger] rows@[a])@.len() == n && forall|b: int|
                            0 <= b < n ==> (rows@[a]@[b] <==> reaches(am, a, b)),
                    ascending_below(members@, w as int),
                    forall|x: int| 0 <= x < n ==> (in_list(members@, x) <==> (x < w && mutual_pos(am, s as int, x))),
                decreases n - w,
            {
                proof {
                    assert(rows@[s as int]@[w as int] <==> reaches(am, s as int, w as int));
                    assert(rows@[w as int]@[s as int] <==> reaches(am, w as int, s as int));
                }
                if rows[s][w] && rows[w][s] {
                    let ghost old_members = members@;
                    members.push(w);
                    proof {
                        assert forall|x: int| 0 <= x < n implies (in_list(members@, x) <==> (x < w + 1
                            && mutual_pos(am, s as int, x))) by {
                            lemma_in_list_push(old_members, w, x);
                        }
                    }
                }
                w = w + 1;
            }
            let mut found = false;
            let steps = &adj[s];
            proof {
                assert(am[s as int] == steps@);
            }
            let mut j: usize = 0;
            while j < steps.len()
                invariant
                    j <= steps@.len(),
                    s < n,
                    n == am.len(),
                    am[s as int] == steps@,
                    found <==> exists|k: int| 0 <= k < j && #[trigger] steps@[k].0 == s,
                decreases steps@.len() - j,
            {
                if steps[j].0 == s {
                    found = true;
                }
                j = j + 1;
            }
            proof {
                lemma_reaches_self(am, s as int);
                assert(mutual_pos(am, s as int, s as int));
                assert(in_list(members@, s as int));
                let k = choose|k: int| 0 <= k < members@.len() && #[trigger] members@[k] == s as int;
                if k > 0 {
                    assert(members@[0] < members@[k]);
                    assert(in_list(members@, members@[0] as int));
                    assert(mutual_pos(am, s as int, members@[0] as int));
                }
                assert(members@[0] == s);
                assert(found <==> adj_step(am, s as int, s as int));
            }
            if members.len() > 1 || found {
                let r = region(g, ix, &members);
                out.push(r);
                proof {
                    let old_comps = comps;
                    let old_starts = starts;
                    comps = comps.push(members@);
                    starts = starts.push(s as int);
                    assert forall|i: int| 0 <= i < comps.len() implies {
                        &&& ascending_below(#[trigger] comps[i], n as int)
                        &&& comps[i].len() >= 1
                        &&& comps[i][0] == starts[i]
                        &&& (comps[i].len() > 1 || adj_step(am, starts[i], starts[i]))
                        &&& forall|w: int| 0 <= w < n ==> (in_list(comps[i], w) <==> mutual_pos(am, starts[i], w))
                    } by {
                        if i < old_comps.len() {
                            assert(comps[i] == old_comps[i]);
                            assert(starts[i] == old_starts[i]);
                        }
                    }
                    assert forall|i: int| 0 <= i < out@.len() implies region_view(#[trigger] out@[i]) == region_of(
                        *g,
                        ids_at(*ix, comps[i]),
                    ) by {
                        if i < old_comps.len() {
                            assert(comps[i] == old_comps[i]);
                        }
                    }
                    assert forall|x: int|
                        0 <= x < s + 1 && #[trigger] on_cycle_pos(am, x) implies exists|i: int|
                        0 <= i < comps.len() && in_list(comps[i], x) by {
                        if x < s {
                            let i = choose|i: int| 0 <= i < old_comps.len() && in_list(old_comps[i], x);
                            assert(comps[i] == old_comps[i]);
                        } else {
                            assert(comps[old_comps.len() as int] == members@);
                        }
                    }
                }
            } else {
                proof {
                    assert forall|x: int|
                        0 <= x < s + 1 && #[trigger] on_cycle_pos(am, x) implies exists|i: int|
                        0 <= i < comps.len() && in_list(comps[i], x) by {
                        if x == s as int {
                            if exists|y: int| 0 <= y < n && y != x && #[trigger] mutual_pos(am, x, y) {
                                let y = choose|y: int| 0 <= y < n && y != x && #[trigger] mutual_pos(am, x, y);
                                assert(in_list(members@, y));
                                let k1 = choose|k: int| 0 <= k < members@.len() && #[trigger] members@[k] == y;
                                assert(k1 != 0);
                            }
                        }
                    }
                }
            }
        } else {
            proof {
                let u = choose|u: int| 0 <= u < s && #[trigger] mutual_pos(am, s as int, u);
                assert forall|x: int|
                    0 <= x < s + 1 && #[trigger] on_cycle_pos(am, x) implies exists|i: int|
                    0 <= i < comps.len() && in_list(comps[i], x) by {
                    if x == s as int {
                        assert(mutual_pos(am, u, s as int));
                        assert(on_cycle_pos(am, u));
                        let i = choose|i: int| 0 <= i < comps.len() && in_list(comps[i], u);
                        assert(mutual_pos(am, starts[i], u));
                        lemma_mutual_pos_trans(am, starts[i], u, s as int);
                    }
                }
            }
        }
        s = s + 1;
    }
    proof {
        lemma_cycles_final(*g, *ix, am, starts, comps, regions_view(out@));
    }
    out
}

/// An edge joins positions `p` and `b`: from `p` to `b` when `outgoing`,
/// else from `b` to `p`.
pub open spec fn pos_edge(ix: GraphIndex, outgoing: bool, p: int, b: int) -> bool {
    exists|e: int|
        0 <= e < ix.ends@.len() && if outgoing {
            (#[trigger] ix.ends@[e]).0 == p && ix.ends@[e].1 == b
        } else {
            (#[trigger] ix.ends@[e]).0 == b && ix.ends@[e].1 == p
        }
}

/// The other positions one edge away from `p`.
fn neighbour_marks(g: &CodeGraph, ix: &GraphIndex, p: usize, outgoing: bool) -> (r: Vec<bool>)
    requires
        ix.describes(*g),
        p < ix.ids@.len(),
    ensures
        r@.len() == ix.ids@.len(),
        forall|b: int| 0 <= b < ix.ids@.len() ==> (#[trigger] r@[b] <==> (b != p && pos_edge(*ix, outgoing, p as int, b))),
{
    let n = ix.ids.len();
    let mut mark: Vec<bool> = Vec::new();
    let mut q: usize = 0;
    while q < n
        invariant
            q <= n,
            mark@.len() == q,
            forall|w: int| 0 <= w < q ==> !#[trigger] mark@[w],
        decreases n - q,
    {
        mark.push(false);
        q = q + 1;
    }
    let ne = g.edges.len();
    let mut e: usize = 0;
    while e < ne
        invariant
            e <= ne,
            ne == g.edges@.len(),
            n == ix.ids@.len(),
            p < n,
            ix.describes(*g),
            mark@.len() == n,
            forall|b: int| 0 <= b < n ==> (#[trigger] mark@[b] <==> (b != p && exists|f: int|
                0 <= f < e && if outgoing {
                    (#[trigger] ix.ends@[f]).0 == p && ix.ends@[f].1 == b
                } else {
                    (#[trigger] ix.ends@[f]).0 == b && ix.ends@[f].1 == p
                })),
        decreases ne - e,
    {
        let (a, b) = ix.ends[e];
        proof {
            assert(ix.ends@[e as int].0 < n && ix.ends@[e as int].1 < n);
        }
        let ghost before = mark@;
        if outgoing {
            if a == p && b != p {
                mark.set(b, true);
            }
        } else {
            if b == p && a != p {
                mark.set(a, true);
            }
        }
        proof {
            assert forall|w: int| 0 <= w < n implies (#[trigger] mark@[w] <==> (w != p && exists|f: int|
                0 <= f < e + 1 && if outgoing {
                    (#[trigger] ix.ends@[f]).0 == p && ix.ends@[f].1 == w
                } else {
                    (#[trigger] ix.ends@[f]).0 == w && ix.ends@[f].1 == p
                })) by {
                if outgoing {
                    if w != p && a == p && b as int == w {
                        assert(ix.ends@[e as int].0 == p && ix.ends@[e as int].1 == w);
                    }
                } else {
                    if w != p && b == p && a as int == w {
                        assert(ix.ends@[e as int].0 == w && ix.ends@[e as int].1 == p);
                    }
                }
            }
        }
        e = e + 1;
    }
    proof {
        assert forall|b: int| 0 <= b < n implies (#[trigger] mark@[b] <==> (b != p && pos_edge(*ix, outgoing, p as int, b))) by {
            assert(ix.ends@.len() == ne);
        }
    }
    mark
}

/// A position-level edge is a link of the ids.
proof fn lemma_pos_edge(g: CodeGraph, ix: GraphIndex, outgoing: bool, p: int, b: int)
    requires
        ix.describes(g),
        0 <= p < ix.ids@.len(),
        0 <= b < ix.ids@.len(),
    ensures
        (b != p && pos_edge(ix, outgoing, p, b)) <==> (views(ix.ids@)[b] != views(ix.ids@)[p] && if outgoing {
            directed_link(g, views(ix.ids@)[p], views(ix.ids@)[b])
        } else {
            directed_link(g, views(ix.ids@)[b], views(ix.ids@)[p])
        }),
{
    let ids = views(ix.ids@);
    if ids[b] == ids[p] {
        lemma_sorted_positions_unique(ids, b, p);
    }
    if b != p {
        assert(ids[b] != ids[p]) by {
            if ids[b] == ids[p] {
                lemma_sorted_positions_unique(ids, b, p);
            }
        }
    }
    if pos_edge(ix, outgoing, p, b) {
        let e = choose|e: int|
            0 <= e < ix.ends@.len() && if outgoing {
                (#[trigger] ix.ends@[e]).0 == p && ix.ends@[e].1 == b
            } else {
                (#[trigger] ix.ends@[e]).0 == b && ix.ends@[e].1 == p
            };
        if outgoing {
            assert(edge_joins(g, e, ids[p], ids[b]));
        } else {
            assert(edge_joins(g, e, ids[b], ids[p]));
        }
    }
    if outgoing && directed_link(g, ids[p], ids[b]) {
        let e = choose|e: int| #[trigger] edge_joins(g, e, ids[p], ids[b]);
        assert(ix.ends@[e].0 < ids.len() && ix.ends@[e].1 < ids.len());
        lemma_sorted_positions_unique(ids, ix.ends@[e].0 as int, p);
        lemma_sorted_positions_unique(ids, ix.ends@[e].1 as int, b);
    }
    if !outgoing && directed_link(g, ids[b], ids[p]) {
        let e = choose|e: int| #[trigger] edge_joins(g, e, ids[b], ids[p]);
        assert(ix.ends@[e].0 < ids.len() && ix.ends@[e].1 < ids.len());
        lemma_sorted_positions_unique(ids, ix.ends@[e].0 as int, b);
        lemma_sorted_positions_unique(ids, ix.ends@[e].1 as int, p);
    }
}

/// The ids at the marked positions, ascending.
fn marked_ids(ix: &GraphIndex, mark: &Vec<bool>) -> (r: Vec<String>)
    requires
        sorted_strict(views(ix.ids@)),
        mark@.len() == ix.ids@.len(),
    ensures
        sorted_strict(views(r@)),
        forall|y: Seq<char>|
            #[trigger] contains_view(views(r@), y) <==> exists|b: int|
                0 <= b < ix.ids@.len() && mark@[b] && #[trigger] views(ix.ids@)[b] == y,
{
    let n = ix.ids.len();
    let ghost ids = views(ix.ids@);
    let mut out: Vec<String> = Vec::new();
    let ghost mut ps: Seq<usize> = Seq::empty();
    let mut b: usize = 0;
    while b < n
        invariant
            b <= n,
            n == ix.ids@.len(),
            ids == views(ix.ids@),
            sorted_strict(ids),
            mark@.len() == n,
            ascending_below(ps, b as int),
            forall|w: int| 0 <= w < n ==> (in_list(ps, w) <==> (w < b && mark@[w])),
            views(out@) == ids_at(*ix, ps),
        decreases n - b,
    {
        if mark[b] {
            let ghost old_out = out@;
            let name = ix.ids[b].clone();
            out.push(name);
            proof {
                assert(views(out@) =~= views(old_out).push(ids[b as int]));
                assert(ids_at(*ix, ps.push(b)) =~= ids_at(*ix, ps).push(ids[b as int]));
                let old_ps = ps;
                ps = ps.push(b);
                assert forall|w: int| 0 <= w < n implies (in_list(ps, w) <==> (w < b + 1 && mark@[w])) by {
                    lemma_in_list_push(old_ps, b, w);
                }
                assert(views(out@) =~= ids_at(*ix, ps));
            }
        }
        b = b + 1;
    }
    proof {
        lemma_ids_at_sorted(*ix, ps);
        assert forall|y: Seq<char>| #[trigger] contains_view(views(out@), y) <==> exists|w: int|
            0 <= w < n && mark@[w] && #[trigger] ids[w] == y by {
            if contains_view(views(out@), y) {
                let k = choose|k: int| 0 <= k < views(out@).len() && #[trigger] views(out@)[k] == y;
                let w = ps[k] as int;
                assert(in_list(ps, w));
                assert(ids[w] == y);
            }
            if exists|w: int| 0 <= w < n && mark@[w] && #[trigger] ids[w] == y {
                let w = choose|w: int| 0 <= w < n && mark@[w] && #[trigger] ids[w] == y;
                lemma_ids_at_contains(*ix, ps, w);
            }
        }
    }
    out
}

/// How one node is coupled to the rest of the graph.
pub struct Degree {
    pub incoming_neighbours: Vec<String>,
    pub outgoing_neighbours: Vec<String>,
    pub incoming_reach: Vec<DependencyPath>,
    pub outgoing_reach: Vec<DependencyPath>,
    pub evidence_edges: Vec<String>,
}

/// `d` describes the coupling of the node with id `x`: its distinct other
/// neighbours each way, ascending; its reach each way; and the distinct ids of
/// the edges that touch it, ascending.
pub open spec fn degree_of(g: CodeGraph, x: Seq<char>, d: Degree) -> bool {
    &&& sorted_strict(views(d.outgoing_neighbours@))
    &&& forall|y: Seq<char>|
        #[trigger] contains_view(views(d.outgoing_neighbours@), y) <==> (y != x && directed_link(g, x, y))
    &&& sorted_strict(views(d.incoming_neighbours@))
    &&& forall|y: Seq<char>|
        #[trigger] contains_view(views(d.incoming_neighbours@), y) <==> (y != x && directed_link(g, y, x))
    &&& reach_paths(g, x, Direction::Dependants, paths_view(d.incoming_reach@))
    &&& reach_paths(g, x, Direction::Dependencies, paths_view(d.outgoing_reach@))
    &&& sorted_strict(views(d.evidence_edges@))
    &&& forall|y: Seq<char>|
        #[trigger] contains_view(views(d.evidence_edges@), y) <==> exists|e: int|
            0 <= e < g.edges@.len() && edge_touches(g, e, x) && #[trigger] g.edges@[e].id@ == y
}

/// The distinct ids of the edges that touch position `p`, ascending.
fn touching_ids_sorted(g: &CodeGraph, ix: &GraphIndex, p: usize) -> (r: Vec<String>)
    requires
        ix.describes(*g),
        p < ix.ids@.len(),
    ensures
        sorted_strict(views(r@)),
        forall|y: Seq<char>|
            #[trigger] contains_view(views(r@), y) <==> exists|e: int|
                0 <= e < g.edges@.len() && edge_touches(*g, e, views(ix.ids@)[p as int]) && #[trigger] g.edges@[e].id@
                    == y,
{
    let ghost ids = views(ix.ids@);
    let ghost x = ids[p as int];
    let mut evs: Vec<String> = Vec::new();
    let ne = g.edges.len();
    let mut e: usize = 0;
    while e < ne
        invariant
            e <= ne,
            ne == g.edges@.len(),
            p < ix.ids@.len(),
            ix.describes(*g),
            ids == views(ix.ids@),
            x == ids[p as int],
            sorted_strict(views(evs@)),
            forall|y: Seq<char>|
                #[trigger] contains_view(views(evs@), y) <==> exists|f: int|
                    0 <= f < e && edge_touches(*g, f, x) && #[trigger] g.edges@[f].id@ == y,
        decreases ne - e,
    {
        let (a, b) = ix.ends[e];
        proof {
            assert(ix.ends@[e as int].0 < ids.len() && ix.ends@[e as int].1 < ids.len());
            if g.edges@[e as int].from@ == x {
                lemma_sorted_positions_unique(ids, a as int, p as int);
            }
            if g.edges@[e as int].to@ == x {
                lemma_sorted_positions_unique(ids, b as int, p as int);
            }
        }
        let ghost before = evs@;
        if a == p || b == p {
            insert_sorted(&mut evs, g.edges[e].id.as_str());
        }
        proof {
            assert forall|y: Seq<char>| #[trigger] contains_view(views(evs@), y) <==> exists|f: int|
                0 <= f < e + 1 && edge_touches(*g, f, x) && #[trigger] g.edges@[f].id@ == y by {
                if exists|f: int| 0 <= f < e + 1 && edge_touches(*g, f, x) && #[trigger] g.edges@[f].id@ == y {
                    let f = choose|f: int| 0 <= f < e + 1 && edge_touches(*g, f, x) && #[trigger] g.edges@[f].id@ == y;
                    if f < e {
                        assert(contains_view(views(before), y));
                    }
                }
            }
        }
        e = e + 1;
    }
    evs
}

/// The coupling of the node at position `p`.
fn degree_at(g: &CodeGraph, ix: &GraphIndex, query: &GraphQuery, p: usize) -> (d: Degree)
    requires
        ix.describes(*g),
        query.spec_graph() == *g,
        p < ix.ids@.len(),
        ix.is_node@[p as int],
    ensures
        degree_of(*g, views(ix.ids@)[p as int], d),
{
    let ghost ids = views(ix.ids@);
    let ghost x = ids[p as int];
    let out_marks = neighbour_marks(g, ix, p, true);
    let in_marks = neighbour_marks(g, ix, p, false);
    let outgoing_neighbours = marked_ids(ix, &out_marks);
    let incoming_neighbours = marked_ids(ix, &in_marks);
    proof {
        assert forall|y: Seq<char>| #[trigger] contains_view(views(outgoing_neighbours@), y) <==> (y != x
            && directed_link(*g, x, y)) by {
            if contains_view(views(outgoing_neighbours@), y) {
                let b = choose|b: int| 0 <= b < ids.len() && out_marks@[b] && #[trigger] ids[b] == y;
                lemma_pos_edge(*g, *ix, true, p as int, b);
            }
            if y != x && directed_link(*g, x, y) {
                let e = choose|e: int| #[trigger] edge_joins(*g, e, x, y);
                let b = ix.ends@[e].1 as int;
                assert(ix.ends@[e].0 < ids.len() && ix.ends@[e].1 < ids.len());
                assert(ids[b] == y);
                lemma_pos_edge(*g, *ix, true, p as int, b);
                assert(out_marks@[b]);
            }
        }
        assert forall|y: Seq<char>| #[trigger] contains_view(views(incoming_neighbours@), y) <==> (y != x
            && directed_link(*g, y, x)) by {
            if contains_view(views(incoming_neighbours@), y) {
                let b = choose|b: int| 0 <= b < ids.len() && in_marks@[b] && #[trigger] ids[b] == y;
                lemma_pos_edge(*g, *ix, false, p as int, b);
            }
            if y != x && directed_link(*g, y, x) {
                let e = choose|e: int| #[trigger] edge_joins(*g, e, y, x);
                let b = ix.ends@[e].0 as int;
                assert(ix.ends@[e].0 < ids.len() && ix.ends@[e].1 < ids.len());
                assert(ids[b] == y);
                lemma_pos_edge(*g, *ix, false, p as int, b);
                assert(in_marks@[b]);
            }
        }
        assert(is_node_id(*g, x));
    }
    let name = ix.ids[p].as_str();
    let incoming_reach = match query.reachable(name, Direction::Dependants) {
        Some(paths) => paths,
        None => Vec::new(),
    };
    let outgoing_reach = match query.reachable(name, Direction::Dependencies) {
        Some(paths) => paths,
        None => Vec::new(),
    };
    let evidence_edges = touching_ids_sorted(g, ix, p);
    Degree { incoming_neighbours, outgoing_neighbours, incoming_reach, outgoing_reach, evidence_edges }
}

/// The keys of degree entries.
pub open spec fn degree_keys(ds: Seq<(String, Degree)>) -> Seq<Seq<char>> {
    ds.map_values(|d: (String, Degree)| d.0@)
}

/// One entry per node id, ascending by id, each with that node's coupling.
pub open spec fn degrees_of(g: CodeGraph, ds: Seq<(String, Degree)>) -> bool {
    &&& sorted_strict(degree_keys(ds))
    &&& forall|y: Seq<char>| #[trigger] contains_view(degree_keys(ds), y) <==> is_node_id(g, y)
    &&& forall|i: int| 0 <= i < ds.len() ==> degree_of(g, (#[trigger] ds[i]).0@, ds[i].1)
}

/// The coupling of every node, ascending by id.
fn degrees(g: &CodeGraph, ix: &GraphIndex, query: &GraphQuery) -> (r: Vec<(String, Degree)>)
    requires
        ix.describes(*g),
        query.spec_graph() == *g,
    ensures
        degrees_of(*g, r@),
{
    let ghost ids = views(ix.ids@);
    let n = ix.ids.len();
    let mut out: Vec<(String, Degree)> = Vec::new();
    let ghost mut ps: Seq<usize> = Seq::empty();
    let mut p: usize = 0;
    while p < n
        invariant
            p <= n,
            n == ix.ids@.len(),
            ids == views(ix.ids@),
            ix.describes(*g),
            query.spec_graph() == *g,
            ascending_below(ps, p as int),
            forall|w: int| 0 <= w < n ==> (in_list(ps, w) <==> (w < p && ix.is_node@[w])),
            degree_keys(out@) == ids_at(*ix, ps),
            forall|i: int| 0 <= i < out@.len() ==> degree_of(*g, (#[trigger] out@[i]).0@, out@[i].1),
        decreases n - p,
    {
        if ix.is_node[p] {
            let d = degree_at(g, ix, query, p);
            let ghost old_out = out@;
            out.push((ix.ids[p].clone(), d));
            proof {
                let old_ps = ps;
                ps = ps.push(p);
                assert forall|w: int| 0 <= w < n implies (in_list(ps, w) <==> (w < p + 1 && ix.is_node@[w])) by {
                    lemma_in_list_push(old_ps, p, w);
                }
                assert(degree_keys(out@) =~= degree_keys(old_out).push(ids[p as int]));
                assert(ids_at(*ix, ps) =~= ids_at(*ix, old_ps).push(ids[p as int]));
                assert forall|i: int| 0 <= i < out@.len() implies degree_of(*g, (#[trigger] out@[i]).0@, out@[i].1) by {
                    if i < old_out.len() {
                        assert(out@[i] == old_out[i]);
                    }
                }
            }
        }
        p = p + 1;
    }
    proof {
        lemma_ids_at_sorted(*ix, ps);
        assert forall|y: Seq<char>| #[trigger] contains_view(degree_keys(out@), y) <==> is_node_id(*g, y) by {
            if contains_view(degree_keys(out@), y) {
                let k = choose|k: int| 0 <= k < degree_keys(out@).len() && #[trigger] degree_keys(out@)[k] == y;
                assert(ids_at(*ix, ps)[k] == y);
                let w = ps[k] as int;
                assert(in_list(ps, w));
                assert(ix.is_node@[w]);
            }
            if is_node_id(*g, y) {
                let i = choose|i: int| 0 <= i < g.nodes@.len() && #[trigger] g.nodes@[i].id@ == y;
                let w = ix.node_at@[i] as int;
                assert(ids[w] == y);
                assert(ix.is_node@[w]);
                lemma_ids_at_contains(*ix, ps, w);
            }
        }
    }
    out
}

/// A node whose removal splits its weak region.
pub struct BridgePosition {
    pub node: String,
    pub regions_before: usize,
    pub regions_after_removal: usize,
    pub neighbour_partitions: Vec<Vec<String>>,
    pub evidence_edges: Vec<String>,
}

/// An edge joins `x` and `y`, one way or the other.
pub open spec fn adjacent(g: CodeGraph, x: Seq<char>, y: Seq<char>) -> bool {
    directed_link(g, x, y) || directed_link(g, y, x)
}

/// The members of `ns` adjacent to `x`, in order.
pub open spec fn linked_members(g: CodeGraph, x: Seq<char>, ns: Seq<Seq<char>>) -> Seq<Seq<char>>
    decreases ns.len(),
{
    if ns.len() == 0 {
        Seq::empty()
    } else {
        let rest = linked_members(g, x, ns.drop_last());
        if adjacent(g, x, ns.last()) {
            rest.push(ns.last())
        } else {
            rest
        }
    }
}

/// For each region in turn, its members adjacent to `x`, leaving out the
/// regions with none.
pub open spec fn neighbour_partitions(g: CodeGraph, x: Seq<char>, rs: Seq<Seq<Seq<char>>>) -> Seq<Seq<Seq<char>>>
    decreases rs.len(),
{
    if rs.len() == 0 {
        Seq::empty()
    } else {
        let rest = neighbour_partitions(g, x, rs.drop_last());
        let part = linked_members(g, x, rs.last());
        if part.len() > 0 {
            rest.push(part)
        } else {
            rest
        }
    }
}

/// Ids of the first `k` edges that touch `x`, in edge order.
pub open spec fn touching_edge_ids(g: CodeGraph, x: Seq<char>, k: int) -> Seq<Seq<char>>
    decreases k,
{
    if k <= 0 {
        Seq::empty()
    } else {
        let rest = touching_edge_ids(g, x, k - 1);
        if edge_touches(g, k - 1, x) {
            rest.push(g.edges@[k - 1].id@)
        } else {
            rest
        }
    }
}

/// The views of lists of strings.
pub open spec fn partitions_view(ps: Seq<Vec<String>>) -> Seq<Seq<Seq<char>>> {
    ps.map_values(|v: Vec<String>| views(v@))
}

/// Removing `x` splits the weak regions, and `b` records how.
pub open spec fn bridge_at(g: CodeGraph, x: Seq<char>, b: BridgePosition) -> bool {
    exists|before: Seq<Seq<Seq<char>>>, after: Seq<Seq<Seq<char>>>|
        #![trigger components_of(g, None, before), components_of(g, Some(x), after)]
        {
            &&& components_of(g, None, before)
            &&& components_of(g, Some(x), after)
            &&& after.len() > before.len()
            &&& b.node@ == x
            &&& b.regions_before == before.len()
            &&& b.regions_after_removal == after.len()
            &&& partitions_view(b.neighbour_partitions@) == neighbour_partitions(g, x, after)
            &&& views(b.evidence_edges@) == touching_edge_ids(g, x, g.edges@.len() as int)
        }
}

/// Removing `x` does not add weak regions.
pub open spec fn not_bridge(g: CodeGraph, x: Seq<char>) -> bool {
    exists|before: Seq<Seq<Seq<char>>>, after: Seq<Seq<Seq<char>>>|
        #![trigger components_of(g, None, before), components_of(g, Some(x), after)]
        components_of(g, None, before) && components_of(g, Some(x), after) && after.len() <= before.len()
}

/// `bs` records, in node order, every node whose removal splits the weak
/// regions; `idx[k]` is the node behind `bs[k]`.
pub open spec fn bridges_by(g: CodeGraph, bs: Seq<BridgePosition>, idx: Seq<int>) -> bool {
    &&& idx.len() == bs.len()
    &&& forall|k: int|
        0 <= k < idx.len() ==> 0 <= #[trigger] idx[k] < g.nodes@.len() && bridge_at(g, g.nodes@[idx[k]].id@, bs[k])
    &&& forall|k: int, l: int| 0 <= k < l < idx.len() ==> #[trigger] idx[k] < #[trigger] idx[l]
    &&& forall|i: int|
        0 <= i < g.nodes@.len() ==> (exists|k: int| 0 <= k < idx.len() && idx[k] == i) || not_bridge(
            g,
            #[trigger] g.nodes@[i].id@,
        )
}

/// `bs` records every bridge position, in node order.
pub open spec fn bridges_of(g: CodeGraph, bs: Seq<BridgePosition>) -> bool {
    exists|idx: Seq<int>| #[trigger] bridges_by(g, bs, idx)
}

/// For each set in turn, its members adjacent to the node at position `p`,
/// leaving out the sets with none.
fn bridge_parts(g: &CodeGraph, ix: &GraphIndex, p: usize, comps: &Vec<Vec<usize>>) -> (r: Vec<Vec<String>>)
    requires
        ix.describes(*g),
        p < ix.ids@.len(),
        forall|i: int| 0 <= i < comps@.len() ==> ascending_below((#[trigger] comps@[i])@, ix.ids@.len() as int),
        components_of(*g, Some(views(ix.ids@)[p as int]), ids_of_lists(*ix, comps@)),
    ensures
        partitions_view(r@) == neighbour_partitions(*g, views(ix.ids@)[p as int], ids_of_lists(*ix, comps@)),
{
    let ghost ids = views(ix.ids@);
    let ghost x = ids[p as int];
    let ghost cs = ids_of_lists(*ix, comps@);
    let out_marks = neighbour_marks(g, ix, p, true);
    let in_marks = neighbour_marks(g, ix, p, false);
    proof {
        reveal(components_of);
        assert forall|i: int| 0 <= i < comps@.len() implies is_component(*g, Some(x), #[trigger] ids_at(*ix, comps@[i]@)) by {
            assert(cs[i] == ids_at(*ix, comps@[i]@));
        }
    }
    let mut parts: Vec<Vec<String>> = Vec::new();
    let mut j: usize = 0;
    while j < comps.len()
        invariant
            j <= comps@.len(),
            ix.describes(*g),
            p < ix.ids@.len(),
            ids == views(ix.ids@),
            x == ids[p as int],
            cs == ids_of_lists(*ix, comps@),
            forall|i: int| 0 <= i < comps@.len() ==> ascending_below((#[trigger] comps@[i])@, ix.ids@.len() as int),
            forall|i: int| 0 <= i < comps@.len() ==> is_component(*g, Some(x), #[trigger] ids_at(*ix, comps@[i]@)),
            out_marks@.len() == ids.len(),
            in_marks@.len() == ids.len(),
            forall|b: int| 0 <= b < ids.len() ==> (#[trigger] out_marks@[b] <==> (b != p && pos_edge(*ix, true, p as int, b))),
            forall|b: int| 0 <= b < ids.len() ==> (#[trigger] in_marks@[b] <==> (b != p && pos_edge(*ix, false, p as int, b))),
            partitions_view(parts@) == neighbour_partitions(*g, x, cs.take(j as int)),
        decreases comps@.len() - j,
    {
        let c = &comps[j];
        let ghost ns = ids_at(*ix, c@);
        proof {
            assert(cs[j as int] == ns);
            assert(is_component(*g, Some(x), ids_at(*ix, comps@[j as int]@)));
        }
        let mut part: Vec<String> = Vec::new();
        let mut k: usize = 0;
        while k < c.len()
            invariant
                k <= c@.len(),
                ix.describes(*g),
                p < ix.ids@.len(),
                ids == views(ix.ids@),
                x == ids[p as int],
                ns == ids_at(*ix, c@),
                ascending_below(c@, ids.len() as int),
                is_component(*g, Some(x), ns),
                out_marks@.len() == ids.len(),
                in_marks@.len() == ids.len(),
                forall|b: int| 0 <= b < ids.len() ==> (#[trigger] out_marks@[b] <==> (b != p && pos_edge(*ix, true, p as int, b))),
                forall|b: int| 0 <= b < ids.len() ==> (#[trigger] in_marks@[b] <==> (b != p && pos_edge(*ix, false, p as int, b))),
                views(part@) == linked_members(*g, x, ns.take(k as int)),
            decreases c@.len() - k,
        {
            let q = c[k];
            proof {
                assert(ns[k as int] == ids[q as int]);
                assert(contains_view(ns, ids[q as int]));
                assert(kept(*g, Some(x), ids[q as int]));
                lemma_pos_edge(*g, *ix, true, p as int, q as int);
                lemma_pos_edge(*g, *ix, false, p as int, q as int);
                assert(ns.take(k as int + 1).drop_last() =~= ns.take(k as int));
                assert(ns.take(k as int + 1).last() == ids[q as int]);
            }
            let ghost old_part = part@;
            if out_marks[q] || in_marks[q] {
                part.push(ix.ids[q].clone());
                proof {
                    assert(views(part@) =~= views(old_part).push(ids[q as int]));
                }
            }
            k = k + 1;
        }
        proof {
            assert(ns.take(c@.len() as int) =~= ns);
            assert(cs.take(j as int + 1).drop_last() =~= cs.take(j as int));
            assert(cs.take(j as int + 1).last() == ns);
        }
        let ghost old_parts = parts@;
        if part.len() > 0 {
            parts.push(part);
            proof {
                assert(partitions_view(parts@) =~= partitions_view(old_parts).push(linked_members(*g, x, ns)));
            }
        }
        j = j + 1;
    }
    proof {
        assert(cs.take(comps@.len() as int) =~= cs);
    }
    parts
}

/// Ids of the edges touching position `p`, in edge order.
fn touching_ids_in_order(g: &CodeGraph, ix: &GraphIndex, p: usize) -> (r: Vec<String>)
    requires
        ix.describes(*g),
        p < ix.ids@.len(),
    ensures
        views(r@) == touching_edge_ids(*g, views(ix.ids@)[p as int], g.edges@.len() as int),
{
    let ghost ids = views(ix.ids@);
    let ghost x = ids[p as int];
    let mut evs: Vec<String> = Vec::new();
    let ne = g.edges.len();
    let mut e: usize = 0;
    while e < ne
        invariant
            e <= ne,
            ne == g.edges@.len(),
            p < ix.ids@.len(),
            ix.describes(*g),
            ids == views(ix.ids@),
            x == ids[p as int],
            views(evs@) == touching_edge_ids(*g, x, e as int),
        decreases ne - e,
    {
        let (a, b) = ix.ends[e];
        proof {
            assert(ix.ends@[e as int].0 < ids.len() && ix.ends@[e as int].1 < ids.len());
            if g.edges@[e as int].from@ == x {
                lemma_sorted_positions_unique(ids, a as int, p as int);
            }
            if g.edges@[e as int].to@ == x {
                lemma_sorted_positions_unique(ids, b as int, p as int);
            }
        }
        let ghost before = evs@;
        if a == p || b == p {
            evs.push(g.edges[e].id.clone());
            proof {
                assert(views(evs@) =~= views(before).push(g.edges@[e as int].id@));
            }
        }
        e = e + 1;
    }
    evs
}

/// Every node whose removal adds weak regions, in node order.
fn bridges(g: &CodeGraph, ix: &GraphIndex) -> (r: Vec<BridgePosition>)
    requires
        ix.describes(*g),
    ensures
        bridges_of(*g, r@),
{
    let ghost ids = views(ix.ids@);
    let before = components(g, ix, None);
    let ghost before_cs = ids_of_lists(*ix, before@);
    proof {
        assert(removed_id(*ix, None) == None::<Seq<char>>);
    }
    let count = before.len();
    let mut out: Vec<BridgePosition> = Vec::new();
    let ghost mut idx: Seq<int> = Seq::empty();
    let nn = g.nodes.len();
    let mut i: usize = 0;
    while i < nn
        invariant
            i <= nn,
            nn == g.nodes@.len(),
            ix.describes(*g),
            ids == views(ix.ids@),
            count == before_cs.len(),
            components_of(*g, None, before_cs),
            idx.len() == out@.len(),
            forall|k: int|
                0 <= k < idx.len() ==> 0 <= #[trigger] idx[k] < i && bridge_at(*g, g.nodes@[idx[k]].id@, out@[k]),
            forall|k: int, l: int| 0 <= k < l < idx.len() ==> #[trigger] idx[k] < #[trigger] idx[l],
            forall|m: int|
                0 <= m < i ==> (exists|k: int| 0 <= k < idx.len() && idx[k] == m) || not_bridge(
                    *g,
                    #[trigger] g.nodes@[m].id@,
                ),
        decreases nn - i,
    {
        let p = ix.node_at[i];
        let ghost x = g.nodes@[i as int].id@;
        proof {
            assert(p < ids.len() && ids[p as int] == x);
            assert(removed_id(*ix, Some(p)) == Some(x));
        }
        let after = components(g, ix, Some(p));
        let ghost after_cs = ids_of_lists(*ix, after@);
        if after.len() > count {
            let neighbour_partitions = bridge_parts(g, ix, p, &after);
            let evidence_edges = touching_ids_in_order(g, ix, p);
            let b = BridgePosition {
                node: g.nodes[i].id.clone(),
                regions_before: count,
                regions_after_removal: after.len(),
                neighbour_partitions,
                evidence_edges,
            };
            proof {
                assert(components_of(*g, None, before_cs) && components_of(*g, Some(x), after_cs));
                assert(bridge_at(*g, x, b));
            }
            out.push(b);
            proof {
                let old_idx = idx;
                idx = idx.push(i as int);
                assert forall|m: int|
                    0 <= m < i + 1 implies (exists|k: int| 0 <= k < idx.len() && idx[k] == m) || not_bridge(
                    *g,
                    #[trigger] g.nodes@[m].id@,
                ) by {
                    if m < i {
                        if exists|k: int| 0 <= k < old_idx.len() && old_idx[k] == m {
                            let k = choose|k: int| 0 <= k < old_idx.len() && old_idx[k] == m;
                            assert(idx[k] == m);
                        }
                    } else {
                        assert(idx[old_idx.len() as int] == m);
                    }
                }
                assert forall|k: int|
                    0 <= k < idx.len() implies 0 <= #[trigger] idx[k] < i + 1 && bridge_at(
                    *g,
                    g.nodes@[idx[k]].id@,
                    out@[k],
                ) by {
                    if k < old_idx.len() {
                        assert(idx[k] == old_idx[k]);
                    }
                }
            }
        } else {
            proof {
                assert(components_of(*g, None, before_cs) && components_of(*g, Some(x), after_cs));
                assert(not_bridge(*g, x));
            }
        }
        i = i + 1;
    }
    proof {
        assert(bridges_by(*g, out@, idx));
    }
    out
}

/// Coupling views of one graph.
pub struct CouplingReport {
    /// One entry per node id, ascending by id.
    pub degree: Vec<(String, Degree)>,
    pub cycles: Vec<Region>,
    pub weak_regions: Vec<Region>,
    pub bridges: Vec<BridgePosition>,
}

impl CouplingReport {
    /// The coupling of the node with id `node`, if there is one.
    pub fn degree_for(&self, node: &str) -> (r: Option<&Degree>)
        ensures
            r is None <==> !contains_view(degree_keys(self.degree@), node@),
            r matches Some(d) ==> exists|i: int|
                0 <= i < self.degree@.len() && self.degree@[i].0@ == node@ && *d == #[trigger] self.degree@[i].1,
    {
        let n = self.degree.len();
        let mut i: usize = 0;
        while i < n
            invariant
                i <= n,
                n == self.degree@.len(),
                forall|k: int| 0 <= k < i ==> (#[trigger] self.degree@[k]).0@ != node@,
            decreases n - i,
        {
            if str_eq(self.degree[i].0.as_str(), node) {
                proof {
                    assert(degree_keys(self.degree@)[i as int] == node@);
                }
                return Some(&self.degree[i].1);
            }
            i = i + 1;
        }
        proof {
            if contains_view(degree_keys(self.degree@), node@) {
                let k = choose|k: int| 0 <= k < degree_keys(self.degree@).len() && #[trigger] degree_keys(self.degree@)[k] == node@;
                assert(self.degree@[k].0@ == node@);
            }
        }
        None
    }
}

/// Derive every coupling view of a graph from its nodes and edges.
///
/// Every edge must end at a node or at the source of some edge.
pub fn analyze(graph: &CodeGraph) -> (r: CouplingReport)
    requires
        targets_are_vertices(*graph),
    ensures
        degrees_of(*graph, r.degree@),
        cycle_regions(*graph, regions_view(r.cycles@)),
        weak_partition(*graph, None, regions_view(r.weak_regions@)),
        bridges_of(*graph, r.bridges@),
{
    let ix = GraphIndex::new(graph);
    let query = GraphQuery::new(graph);
    let degree = degrees(graph, &ix, &query);
    let cycles = cycles(graph, &ix);
    let weak_regions = weak_regions(graph, &ix, None);
    proof {
        assert(removed_id(ix, None) == None::<Seq<char>>);
    }
    let bridges = bridges(graph, &ix);
    CouplingReport { degree, cycles, weak_regions, bridges }
}

/// Build the region over the given positions.
fn region(g: &CodeGraph, ix: &GraphIndex, members: &Vec<usize>) -> (r: Region)
    requires
        ix.describes(*g),
        ascending_below(members@, ix.ids@.len() as int),
    ensures
        region_view(r) == region_of(*g, ids_at(*ix, members@)),
{
    let ghost ids = views(ix.ids@);
    let ghost ns = ids_at(*ix, members@);
    let n = ix.ids.len();
    let mut mark: Vec<bool> = Vec::new();
    let mut p: usize = 0;
    while p < n
        invariant
            p <= n,
            mark@.len() == p,
            forall|q: int| 0 <= q < p ==> !#[trigger] mark@[q],
        decreases n - p,
    {
        mark.push(false);
        p = p + 1;
    }
    let mut nodes: Vec<String> = Vec::new();
    let mut i: usize = 0;
    while i < members.len()
        invariant
            i <= members@.len(),
            n == ix.ids@.len(),
            ids == views(ix.ids@),
            ns == ids_at(*ix, members@),
            ascending_below(members@, n as int),
            mark@.len() == n,
            nodes@.len() == i,
            forall|k: int| 0 <= k < i ==> (#[trigger] nodes@[k])@ == ns[k],
            forall|q: int| 0 <= q < n ==> (#[trigger] mark@[q] <==> exists|k: int| 0 <= k < i && members@[k] == q),
        decreases members@.len() - i,
    {
        let q = members[i];
        nodes.push(ix.ids[q].clone());
        mark.set(q, true);
        proof {
            assert forall|w: int| 0 <= w < n implies (#[trigger] mark@[w] <==> exists|k: int|
                0 <= k < i + 1 && members@[k] == w) by {
                if w == q as int {
                    assert(members@[i as int] == w);
                } else {
                    if exists|k: int| 0 <= k < i + 1 && members@[k] == w {
                        let k = choose|k: int| 0 <= k < i + 1 && members@[k] == w;
                        assert(k < i);
                    }
                }
            }
        }
        i = i + 1;
    }
    proof {
        assert forall|w: int| 0 <= w < n implies (#[trigger] mark@[w] <==> in_list(members@, w)) by {
            if in_list(members@, w) {
                let k = choose|k: int| 0 <= k < members@.len() && #[trigger] members@[k] == w;
                assert(members@[k] == w);
            }
        }
    }
    let mut evidence: Vec<String> = Vec::new();
    let ne = g.edges.len();
    let mut e: usize = 0;
    while e < ne
        invariant
            e <= ne,
            ne == g.edges@.len(),
            n == ix.ids@.len(),
            ix.describes(*g),
            ids == views(ix.ids@),
            ns == ids_at(*ix, members@),
            ascending_below(members@, n as int),
            mark@.len() == n,
            forall|q: int| 0 <= q < n ==> (#[trigger] mark@[q] <==> in_list(members@, q)),
            views(evidence@) == inner_edge_ids(*g, ns, e as int),
        decreases ne - e,
    {
        let (a, b) = ix.ends[e];
        proof {
            assert(ix.ends@[e as int].0 < n && ix.ends@[e as int].1 < n);
            lemma_ids_at_contains(*ix, members@, a as int);
            lemma_ids_at_contains(*ix, members@, b as int);
        }
        if mark[a] && mark[b] {
            evidence.push(g.edges[e].id.clone());
        }
        proof {
            assert(views(evidence@) =~= inner_edge_ids(*g, ns, e as int + 1));
        }
        e = e + 1;
    }
    let r = Region { nodes, evidence_edges: evidence };
    proof {
        assert(views(r.nodes@) =~= ns);
    }
    r
}

} // verus!
