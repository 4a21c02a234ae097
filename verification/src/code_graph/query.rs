//! Deterministic dependency paths over the language-neutral graph.

use crate::code_graph::graph_index::{is_node_id, GraphIndex};
use crate::code_graph::index::{
    adj_closed, adj_step, breadth_first, has_step, is_walk, lemma_within_start, lemma_within_succ,
    bfs_walks, reach_correct, reaches, within, Reach,
};
use crate::code_graph::model::{
    all_stored_edges_name, counts_outcomes_of, CodeGraph, Edge, EvidencePolicy, UncertaintyCounts,
};
use crate::order::{
    contains_view, find_sorted, lemma_seq_lt_asymmetric, lemma_seq_lt_irreflexive,
    lemma_seq_lt_transitive, seq_lt, sorted_strict, str_lt, views,
};
use crate::code_graph::graph_index::lemma_sorted_positions_unique;
use vstd::prelude::*;

verus! {

/// Which way along edges a query walks.
#[derive(Clone, Copy, Debug, PartialEq, Eq, Structural)]
pub enum Direction {
    /// From a node to what it refers to.
    Dependencies,
    /// From a node to what refers to it.
    Dependants,
}

/// One path of nodes and the edges joining them.
#[derive(Debug, Clone, PartialEq, Eq)]
pub struct DependencyPath {
    pub nodes: Vec<String>,
    pub edges: Vec<String>,
}

/// The answer to one query, with what it stands on.
pub struct QueryReport {
    pub schema_version: u32,
    pub snapshot_id: String,
    pub evidence_policy: EvidencePolicy,
    pub uncertainty: UncertaintyCounts,
    pub start: String,
    pub direction: Direction,
    pub transitive: bool,
    pub paths: Vec<DependencyPath>,
}

/// Order of steps: by the position reached, then by edge id.
pub open spec fn step_lt(g: CodeGraph, a: (usize, usize), b: (usize, usize)) -> bool {
    a.0 < b.0 || (a.0 == b.0 && seq_lt(g.edges@[a.1 as int].id@, g.edges@[b.1 as int].id@))
}

/// No step is out of order.
pub open spec fn steps_sorted(g: CodeGraph, steps: Seq<(usize, usize)>) -> bool {
    forall|i: int, j: int| 0 <= i < j < steps.len() ==> !step_lt(g, #[trigger] steps[j], #[trigger] steps[i])
}

/// Does edge `e` lead from position `u` to position `v` in direction `d`?
pub open spec fn leads(ix: GraphIndex, d: Direction, e: int, u: int, v: int) -> bool {
    match d {
        Direction::Dependencies => ix.ends@[e].0 == u && ix.ends@[e].1 == v,
        Direction::Dependants => ix.ends@[e].1 == u && ix.ends@[e].0 == v,
    }
}

/// Does edge `e` leave position `u` in direction `d`?
pub open spec fn leaves(ix: GraphIndex, d: Direction, e: int, u: int) -> bool {
    match d {
        Direction::Dependencies => ix.ends@[e].0 == u,
        Direction::Dependants => ix.ends@[e].1 == u,
    }
}

/// `steps` lists every edge leaving `u` exactly once, each with the position
/// it leads to, in step order.
pub open spec fn exact_steps(
    g: CodeGraph,
    ix: GraphIndex,
    d: Direction,
    u: int,
    steps: Seq<(usize, usize)>,
) -> bool {
    &&& steps_sorted(g, steps)
    &&& forall|i: int|
        0 <= i < steps.len() ==> (#[trigger] steps[i]).1 < g.edges@.len() && leads(
            ix,
            d,
            steps[i].1 as int,
            u,
            steps[i].0 as int,
        )
    &&& forall|i: int, j: int| 0 <= i < j < steps.len() ==> (#[trigger] steps[i]).1 != (#[trigger] steps[j]).1
    &&& forall|e: int|
        0 <= e < g.edges@.len() && #[trigger] leaves(ix, d, e, u) ==> exists|i: int|
            0 <= i < steps.len() && #[trigger] steps[i].1 == e
}

/// The view of a path: its node ids and its edge ids.
pub open spec fn path_view(p: DependencyPath) -> (Seq<Seq<char>>, Seq<Seq<char>>) {
    (views(p.nodes@), views(p.edges@))
}

/// The views of a list of paths.
pub open spec fn paths_view(ps: Seq<DependencyPath>) -> Seq<(Seq<Seq<char>>, Seq<Seq<char>>)> {
    ps.map_values(|p: DependencyPath| path_view(p))
}

/// The end of edge `e` a step in direction `d` leaves from.
pub open spec fn step_from(e: Edge, d: Direction) -> Seq<char> {
    match d {
        Direction::Dependencies => e.from@,
        Direction::Dependants => e.to@,
    }
}

/// The end of edge `e` a step in direction `d` arrives at.
pub open spec fn step_to(e: Edge, d: Direction) -> Seq<char> {
    match d {
        Direction::Dependencies => e.to@,
        Direction::Dependants => e.from@,
    }
}

/// Steps are ordered by the id they arrive at, then by edge id.
pub open spec fn step_key_lt(a: Edge, b: Edge, d: Direction) -> bool {
    seq_lt(step_to(a, d), step_to(b, d)) || (step_to(a, d) == step_to(b, d) && seq_lt(a.id@, b.id@))
}

/// `paths` holds one single-step path for each edge leaving `node` in
/// direction `d`, ordered by the id reached and then by edge id.
pub open spec fn direct_paths(
    g: CodeGraph,
    node: Seq<char>,
    d: Direction,
    paths: Seq<(Seq<Seq<char>>, Seq<Seq<char>>)>,
) -> bool {
    exists|idx: Seq<int>| #[trigger] direct_paths_by(g, node, d, paths, idx)
}

/// `direct_paths`, with `idx[i]` the edge behind `paths[i]`.
pub open spec fn direct_paths_by(
    g: CodeGraph,
    node: Seq<char>,
    d: Direction,
    paths: Seq<(Seq<Seq<char>>, Seq<Seq<char>>)>,
    idx: Seq<int>,
) -> bool {
    &&& idx.len() == paths.len()
    &&& forall|i: int|
        0 <= i < idx.len() ==> {
            &&& 0 <= #[trigger] idx[i] < g.edges@.len()
            &&& step_from(g.edges@[idx[i]], d) == node
            &&& paths[i] == (seq![node, step_to(g.edges@[idx[i]], d)], seq![g.edges@[idx[i]].id@])
        }
    &&& forall|i: int, j: int| 0 <= i < j < idx.len() ==> #[trigger] idx[i] != #[trigger] idx[j]
    &&& forall|e: int|
        0 <= e < g.edges@.len() && step_from(#[trigger] g.edges@[e], d) == node ==> exists|i: int|
            0 <= i < idx.len() && idx[i] == e
    &&& forall|i: int, j: int|
        0 <= i < j < idx.len() ==> !step_key_lt(
            g.edges@[#[trigger] idx[j]],
            g.edges@[#[trigger] idx[i]],
            d,
        )
}

/// Following dependencies and following dependants are opposite directions:
/// a single-step path from `x` to `y` along edge `edge_id` is among the
/// dependencies of `x` exactly when the path from `y` back to `x` along the
/// same edge is among the dependants of `y`.
pub proof fn law_directions_are_opposites(
    g: CodeGraph,
    x: Seq<char>,
    y: Seq<char>,
    edge_id: Seq<char>,
    dependencies: Seq<(Seq<Seq<char>>, Seq<Seq<char>>)>,
    dependants: Seq<(Seq<Seq<char>>, Seq<Seq<char>>)>,
)
    requires
        direct_paths(g, x, Direction::Dependencies, dependencies),
        direct_paths(g, y, Direction::Dependants, dependants),
    ensures
        (exists|i: int| 0 <= i < dependencies.len() && #[trigger] dependencies[i] == (seq![x, y], seq![edge_id]))
            <==> (exists|j: int| 0 <= j < dependants.len() && #[trigger] dependants[j] == (seq![y, x], seq![edge_id])),
{
    let ia = choose|idx: Seq<int>| #[trigger] direct_paths_by(g, x, Direction::Dependencies, dependencies, idx);
    let ib = choose|idx: Seq<int>| #[trigger] direct_paths_by(g, y, Direction::Dependants, dependants, idx);
    if exists|i: int| 0 <= i < dependencies.len() && #[trigger] dependencies[i] == (seq![x, y], seq![edge_id]) {
        let i = choose|i: int| 0 <= i < dependencies.len() && #[trigger] dependencies[i] == (seq![x, y], seq![edge_id]);
        let e = ia[i];
        assert(dependencies[i] == (seq![x, step_to(g.edges@[e], Direction::Dependencies)], seq![g.edges@[e].id@]));
        assert(seq![x, y][1] == y);
        assert(seq![x, step_to(g.edges@[e], Direction::Dependencies)][1] == g.edges@[e].to@);
        assert(seq![edge_id][0] == edge_id);
        assert(seq![g.edges@[e].id@][0] == g.edges@[e].id@);
        assert(g.edges@[e].to@ == y);
        assert(g.edges@[e].id@ == edge_id);
        assert(step_from(g.edges@[e], Direction::Dependants) == y);
        let j = choose|j: int| 0 <= j < ib.len() && ib[j] == e;
        assert(dependants[j] == (seq![y, x], seq![edge_id]));
    }
    if exists|j: int| 0 <= j < dependants.len() && #[trigger] dependants[j] == (seq![y, x], seq![edge_id]) {
        let j = choose|j: int| 0 <= j < dependants.len() && #[trigger] dependants[j] == (seq![y, x], seq![edge_id]);
        let e = ib[j];
        assert(dependants[j] == (seq![y, step_to(g.edges@[e], Direction::Dependants)], seq![g.edges@[e].id@]));
        assert(seq![y, x][1] == x);
        assert(seq![y, step_to(g.edges@[e], Direction::Dependants)][1] == g.edges@[e].from@);
        assert(seq![edge_id][0] == edge_id);
        assert(seq![g.edges@[e].id@][0] == g.edges@[e].id@);
        assert(g.edges@[e].from@ == x);
        assert(g.edges@[e].id@ == edge_id);
        assert(step_from(g.edges@[e], Direction::Dependencies) == x);
        let i = choose|i: int| 0 <= i < ia.len() && ia[i] == e;
        assert(dependencies[i] == (seq![x, y], seq![edge_id]));
    }
}

/// Edge `e` is one step from id `x` to id `y` in direction `d`.
pub open spec fn id_step(g: CodeGraph, d: Direction, e: int, x: Seq<char>, y: Seq<char>) -> bool {
    &&& 0 <= e < g.edges@.len()
    &&& step_from(g.edges@[e], d) == x
    &&& step_to(g.edges@[e], d) == y
}

/// A walk over ids: consecutive node ids are joined by an edge in direction
/// `d` whose id is the matching edge id of the walk.
pub open spec fn is_id_walk(g: CodeGraph, d: Direction, ns: Seq<Seq<char>>, es: Seq<Seq<char>>) -> bool {
    exists|idx: Seq<int>| #[trigger] walk_edges(g, d, ns, es, idx)
}

/// `is_id_walk`, with `idx[i]` the edge taken at step `i`.
pub open spec fn walk_edges(
    g: CodeGraph,
    d: Direction,
    ns: Seq<Seq<char>>,
    es: Seq<Seq<char>>,
    idx: Seq<int>,
) -> bool {
    &&& ns.len() == es.len() + 1
    &&& idx.len() == es.len()
    &&& forall|i: int|
        0 <= i < es.len() ==> id_step(g, d, #[trigger] idx[i], ns[i], ns[i + 1]) && g.edges@[idx[i]].id@
            == es[i]
}

/// A walk from `s` to `x`.
pub open spec fn walk_between(
    g: CodeGraph,
    d: Direction,
    ns: Seq<Seq<char>>,
    es: Seq<Seq<char>>,
    s: Seq<char>,
    x: Seq<char>,
) -> bool {
    is_id_walk(g, d, ns, es) && ns[0] == s && ns.last() == x
}

/// `x` can be reached from `s` along edges in direction `d`.
pub open spec fn id_reaches(g: CodeGraph, d: Direction, s: Seq<char>, x: Seq<char>) -> bool {
    exists|ns: Seq<Seq<char>>, es: Seq<Seq<char>>| #[trigger] walk_between(g, d, ns, es, s, x)
}

/// `paths` holds, for every id other than `s` reachable from `s`, one walk
/// from `s` to it with as few edges as any such walk, ordered by the id
/// reached.
pub open spec fn reach_paths(
    g: CodeGraph,
    s: Seq<char>,
    d: Direction,
    paths: Seq<(Seq<Seq<char>>, Seq<Seq<char>>)>,
) -> bool {
    &&& forall|i: int|
        0 <= i < paths.len() ==> walk_between(g, d, (#[trigger] paths[i]).0, paths[i].1, s, paths[i].0.last())
            && paths[i].0.last() != s
    &&& forall|i: int, ns: Seq<Seq<char>>, es: Seq<Seq<char>>|
        0 <= i < paths.len() && #[trigger] walk_between(g, d, ns, es, s, (#[trigger] paths[i]).0.last())
            ==> paths[i].1.len() <= es.len()
    &&& forall|i: int, j: int|
        0 <= i < j < paths.len() ==> seq_lt((#[trigger] paths[i]).0.last(), (#[trigger] paths[j]).0.last())
    &&& forall|x: Seq<char>|
        x != s && #[trigger] id_reaches(g, d, s, x) ==> exists|i: int|
            0 <= i < paths.len() && (#[trigger] paths[i]).0.last() == x
}

/// Every path is the walk that breadth-first search from `s` over the
/// adjacency `adj` records for the id it reaches: levels expanded in turn,
/// each level's nodes in the order they were reached, each node's steps in
/// the adjacency's order (by neighbour, then by edge id), so that a node is
/// reached through the first node of the previous level with a step to it,
/// by the first such step.
pub open spec fn bfs_paths(
    g: CodeGraph,
    ix: GraphIndex,
    adj: Seq<Seq<(usize, usize)>>,
    s: Seq<char>,
    paths: Seq<(Seq<Seq<char>>, Seq<Seq<char>>)>,
) -> bool {
    forall|i: int|
        0 <= i < paths.len() ==> exists|p: int, t: int|
            0 <= p < adj.len() && 0 <= t < adj.len() && views(ix.ids@)[p] == s && views(ix.ids@)[t] == (
            #[trigger] paths[i]).0.last() && paths[i] == render_walk(
                g,
                views(ix.ids@),
                bfs_walks(adj, p as usize)[t].0,
                bfs_walks(adj, p as usize)[t].1,
            )
}

/// The ids and edge ids of a walk over node positions.
pub open spec fn render_walk(
    g: CodeGraph,
    ids: Seq<Seq<char>>,
    nodes: Seq<usize>,
    labels: Seq<usize>,
) -> (Seq<Seq<char>>, Seq<Seq<char>>) {
    (nodes.map_values(|u: usize| ids[u as int]), labels.map_values(|l: usize| g.edges@[l as int].id@))
}

/// Answers dependency questions about one graph.
pub struct GraphQuery<'a> {
    graph: &'a CodeGraph,
    index: GraphIndex,
    outgoing: Vec<Vec<(usize, usize)>>,
    incoming: Vec<Vec<(usize, usize)>>,
}

impl<'a> GraphQuery<'a> {
    pub closed spec fn spec_graph(&self) -> CodeGraph {
        *self.graph
    }

    pub closed spec fn spec_index(&self) -> GraphIndex {
        self.index
    }

    /// The steps out of each position in direction `d`.
    pub closed spec fn adjacency(&self, d: Direction) -> Seq<Seq<(usize, usize)>> {
        match d {
            Direction::Dependencies => self.outgoing@.map_values(|l: Vec<(usize, usize)>| l@),
            Direction::Dependants => self.incoming@.map_values(|l: Vec<(usize, usize)>| l@),
        }
    }

    /// The query's tables describe its graph.
    #[verifier::type_invariant]
    pub closed spec fn wf(&self) -> bool {
        let g = self.spec_graph();
        let ix = self.spec_index();
        &&& ix.describes(g)
        &&& forall|d: Direction| #[trigger] self.adjacency(d).len() == ix.ids@.len()
        &&& forall|d: Direction| adj_closed(#[trigger] self.adjacency(d))
        &&& forall|d: Direction, u: int|
            0 <= u < ix.ids@.len() ==> exact_steps(g, ix, d, u, #[trigger] self.adjacency(d)[u])
    }

    /// Index a graph for queries.
    pub fn new(graph: &'a CodeGraph) -> (r: Self)
        ensures
            r.spec_graph() == *graph,
    {
        let index = GraphIndex::new(graph);
        let n = index.ids.len();
        let mut outgoing: Vec<Vec<(usize, usize)>> = Vec::new();
        let mut incoming: Vec<Vec<(usize, usize)>> = Vec::new();
        let mut p: usize = 0;
        while p < n
            invariant
                p <= n,
                outgoing@.len() == p,
                incoming@.len() == p,
                forall|q: int| 0 <= q < p ==> (#[trigger] outgoing@[q])@.len() == 0,
                forall|q: int| 0 <= q < p ==> (#[trigger] incoming@[q])@.len() == 0,
            decreases n - p,
        {
            outgoing.push(Vec::new());
            incoming.push(Vec::new());
            p = p + 1;
        }
        let ne = graph.edges.len();
        let mut e: usize = 0;
        while e < ne
            invariant
                e <= ne,
                ne == graph.edges@.len(),
                n == index.ids@.len(),
                index.describes(*graph),
                outgoing@.len() == n,
                incoming@.len() == n,
                forall|u: int|
                    0 <= u < n ==> steps_built(*graph, index, Direction::Dependencies, u, (#[trigger] outgoing@[u])@, e as int),
                forall|u: int|
                    0 <= u < n ==> steps_built(*graph, index, Direction::Dependants, u, (#[trigger] incoming@[u])@, e as int),
            decreases ne - e,
        {
            let (a, b) = index.ends[e];
            let ghost out0 = outgoing@;
            let ghost in0 = incoming@;
            let mut list: Vec<(usize, usize)> = Vec::new();
            std::mem::swap(&mut list, &mut outgoing[a]);
            proof {
                assert(list@ == out0[a as int]@);
            }
            insert_step(graph, &mut list, b, e);
            proof {
                lemma_built_insert(*graph, index, Direction::Dependencies, a as int, out0[a as int]@, list@, b, e);
            }
            outgoing.set(a, list);
            let mut list: Vec<(usize, usize)> = Vec::new();
            std::mem::swap(&mut list, &mut incoming[b]);
            proof {
                assert(list@ == in0[b as int]@);
            }
            insert_step(graph, &mut list, a, e);
            proof {
                lemma_built_insert(*graph, index, Direction::Dependants, b as int, in0[b as int]@, list@, a, e);
            }
            incoming.set(b, list);
            proof {
                assert forall|u: int| 0 <= u < n implies steps_built(
                    *graph,
                    index,
                    Direction::Dependencies,
                    u,
                    (#[trigger] outgoing@[u])@,
                    e + 1,
                ) by {
                    if u != a {
                        assert(outgoing@[u] == out0[u]);
                        lemma_built_skip(*graph, index, Direction::Dependencies, u, out0[u]@, e as int);
                    }
                }
                assert forall|u: int| 0 <= u < n implies steps_built(
                    *graph,
                    index,
                    Direction::Dependants,
                    u,
                    (#[trigger] incoming@[u])@,
                    e + 1,
                ) by {
                    if u != b {
                        assert(incoming@[u] == in0[u]);
                        lemma_built_skip(*graph, index, Direction::Dependants, u, in0[u]@, e as int);
                    }
                }
            }
            e = e + 1;
        }
        GraphQuery { graph, index, outgoing, incoming }
    }

    /// The steps out of every position in direction `d`.
    fn steps_of(&self, d: Direction) -> (r: &Vec<Vec<(usize, usize)>>)
        ensures
            r@.map_values(|l: Vec<(usize, usize)>| l@) == self.adjacency(d),
    {
        match d {
            Direction::Dependencies => &self.outgoing,
            Direction::Dependants => &self.incoming,
        }
    }

    /// The position of a node's id; `None` when no node has that id.
    fn node_position(&self, node: &str) -> (r: Option<usize>)
        ensures
            r is None <==> !is_node_id(self.spec_graph(), node@),
            r matches Some(p) ==> p < self.spec_index().ids@.len() && views(self.spec_index().ids@)[p as int]
                == node@,
    {
        proof {
            use_type_invariant(self);
        }
        let ghost g = self.spec_graph();
        let ghost ids = views(self.index.ids@);
        match find_sorted(&self.index.ids, node) {
            None => {
                proof {
                    if is_node_id(g, node@) {
                        let i = choose|i: int| 0 <= i < g.nodes@.len() && #[trigger] g.nodes@[i].id@ == node@;
                        assert(ids[self.index.node_at@[i] as int] == node@);
                    }
                }
                None
            },
            Some(p) => {
                if self.index.is_node[p] {
                    Some(p)
                } else {
                    None
                }
            },
        }
    }

    /// The ids and edge ids of a walk over positions.
    fn render(&self, nodes: &Vec<usize>, labels: &Vec<usize>) -> (r: DependencyPath)
        requires
            forall|i: int| 0 <= i < nodes@.len() ==> #[trigger] nodes@[i] < self.spec_index().ids@.len(),
            forall|i: int| 0 <= i < labels@.len() ==> #[trigger] labels@[i] < self.spec_graph().edges@.len(),
        ensures
            path_view(r) == render_walk(self.spec_graph(), views(self.spec_index().ids@), nodes@, labels@),
    {
        let ghost want = render_walk(self.spec_graph(), views(self.spec_index().ids@), nodes@, labels@);
        let mut ns: Vec<String> = Vec::new();
        let mut i: usize = 0;
        while i < nodes.len()
            invariant
                i <= nodes@.len(),
                ns@.len() == i,
                want == render_walk(self.spec_graph(), views(self.spec_index().ids@), nodes@, labels@),
                forall|k: int| 0 <= k < nodes@.len() ==> #[trigger] nodes@[k] < self.spec_index().ids@.len(),
                forall|k: int| 0 <= k < i ==> (#[trigger] ns@[k])@ == want.0[k],
            decreases nodes@.len() - i,
        {
            ns.push(self.index.ids[nodes[i]].clone());
            i = i + 1;
        }
        let mut es: Vec<String> = Vec::new();
        let mut j: usize = 0;
        while j < labels.len()
            invariant
                j <= labels@.len(),
                es@.len() == j,
                want == render_walk(self.spec_graph(), views(self.spec_index().ids@), nodes@, labels@),
                forall|k: int| 0 <= k < labels@.len() ==> #[trigger] labels@[k] < self.spec_graph().edges@.len(),
                forall|k: int| 0 <= k < j ==> (#[trigger] es@[k])@ == want.1[k],
            decreases labels@.len() - j,
        {
            es.push(self.graph.edges[labels[j]].id.clone());
            j = j + 1;
        }
        let r = DependencyPath { nodes: ns, edges: es };
        proof {
            assert(views(r.nodes@) =~= want.0);
            assert(views(r.edges@) =~= want.1);
        }
        r
    }

    /// One shortest path to every id reachable from `start`, ordered by the
    /// id reached; `None` when no node has that id.
    pub fn reachable(&self, start: &str, direction: Direction) -> (r: Option<Vec<DependencyPath>>)
        ensures
            r is None <==> !is_node_id(self.spec_graph(), start@),
            r matches Some(ps) ==> reach_paths(self.spec_graph(), start@, direction, paths_view(ps@)),
            r matches Some(ps) ==> bfs_paths(
                self.spec_graph(),
                self.spec_index(),
                self.adjacency(direction),
                start@,
                paths_view(ps@),
            ),
    {
        proof {
            use_type_invariant(self);
        }
        let ghost g = self.spec_graph();
        let ghost ids = views(self.index.ids@);
        let p = match self.node_position(start) {
            None => return None,
            Some(p) => p,
        };
        let adj = self.steps_of(direction);
        let ghost am = adj@.map_values(|l: Vec<(usize, usize)>| l@);
        proof {
            assert(self.adjacency(direction).len() == self.index.ids@.len());
            assert(adj_closed(self.adjacency(direction)));
            assert forall|u: int| 0 <= u < am.len() implies exact_steps(g, self.index, direction, u, #[trigger] am[u]) by {
                assert(exact_steps(g, self.index, direction, u, self.adjacency(direction)[u]));
            }
            assert(adjacency_exact(g, self.index, direction, am));
        }
        let reach = breadth_first(adj, p);
        let n = self.index.ids.len();
        let mut out: Vec<DependencyPath> = Vec::new();
        let ghost mut targets: Seq<int> = Seq::empty();
        let mut v: usize = 0;
        while v < n
            invariant
                v <= n,
                n == am.len(),
                p < n,
                g == self.spec_graph(),
                ids == views(self.spec_index().ids@),
                adjacency_exact(g, self.index, direction, am),
                reach_correct(am, p as int, reach),
                out@.len() == targets.len(),
                forall|i: int, j: int| 0 <= i < j < targets.len() ==> #[trigger] targets[i] < #[trigger] targets[j],
                forall|i: int|
                    0 <= i < targets.len() ==> 0 <= #[trigger] targets[i] < v && reach.visited@[targets[i]]
                        && targets[i] != p,
                forall|w: int|
                    0 <= w < v && #[trigger] reach.visited@[w] && w != p ==> exists|i: int|
                        0 <= i < targets.len() && targets[i] == w,
                forall|i: int|
                    0 <= i < out@.len() ==> path_view(#[trigger] out@[i]) == render_walk(
                        g,
                        ids,
                        reach.nodes@[targets[i]]@,
                        reach.labels@[targets[i]]@,
                    ),
            decreases n - v,
        {
            if reach.visited[v] && v != p {
                proof {
                    lemma_walk_renders(g, self.index, direction, am, reach.nodes@[v as int]@, reach.labels@[v as int]@, p as int, v as int);
                }
                let path = self.render(&reach.nodes[v], &reach.labels[v]);
                out.push(path);
                proof {
                    let old_targets = targets;
                    targets = targets.push(v as int);
                    assert forall|w: int|
                        0 <= w < v + 1 && #[trigger] reach.visited@[w] && w != p implies exists|i: int|
                        0 <= i < targets.len() && targets[i] == w by {
                        if w < v {
                            let i = choose|i: int| 0 <= i < old_targets.len() && old_targets[i] == w;
                            assert(targets[i] == w);
                        } else {
                            assert(targets[targets.len() - 1] == w);
                        }
                    }
                }
            }
            v = v + 1;
        }
        proof {
            assert(paths_view(out@).len() == targets.len());
            lemma_reach_paths(g, self.index, direction, am, p as int, reach, targets, paths_view(out@));
            assert forall|i: int| 0 <= i < paths_view(out@).len() implies exists|q: int, t: int|
                0 <= q < am.len() && 0 <= t < am.len() && ids[q] == start@ && ids[t] == (
                #[trigger] paths_view(out@)[i]).0.last() && paths_view(out@)[i] == render_walk(
                    g,
                    ids,
                    bfs_walks(am, q as usize)[t].0,
                    bfs_walks(am, q as usize)[t].1,
                ) by {
                let t = targets[i];
                assert(path_view(out@[i]) == render_walk(g, ids, reach.nodes@[t]@, reach.labels@[t]@));
                assert((reach.nodes@[t]@, reach.labels@[t]@) == bfs_walks(am, p)[t]);
                assert(is_walk(am, reach.nodes@[t]@, reach.labels@[t]@, p as int, t));
                let ns = reach.nodes@[t]@;
                assert(render_walk(g, ids, ns, reach.labels@[t]@).0.last() == ids[ns.last() as int]);
            }
        }
        Some(out)
    }

    /// The paths out of `start` (direct or transitive) with the snapshot,
    /// policy and uncertainty they stand on; `None` when no node has that id.
    pub fn report(&self, start: &str, direction: Direction, transitive: bool) -> (r: Option<QueryReport>)
        ensures
            r is None <==> !is_node_id(self.spec_graph(), start@),
            r matches Some(rep) ==> {
                &&& rep.schema_version == self.spec_graph().schema_version
                &&& rep.snapshot_id@ == self.spec_graph().build.id@
                &&& rep.evidence_policy.name@ == all_stored_edges_name()
                &&& counts_outcomes_of(rep.uncertainty, self.spec_graph().references@)
                &&& rep.start@ == start@
                &&& rep.direction == direction
                &&& rep.transitive == transitive
                &&& if transitive {
                    &&& reach_paths(self.spec_graph(), start@, direction, paths_view(rep.paths@))
                    &&& bfs_paths(
                        self.spec_graph(),
                        self.spec_index(),
                        self.adjacency(direction),
                        start@,
                        paths_view(rep.paths@),
                    )
                } else {
                    direct_paths(self.spec_graph(), start@, direction, paths_view(rep.paths@))
                }
            },
    {
        let found = if transitive {
            self.reachable(start, direction)
        } else {
            self.direct(start, direction)
        };
        let paths = match found {
            None => return None,
            Some(paths) => paths,
        };
        Some(QueryReport {
            schema_version: self.graph.schema_version,
            snapshot_id: self.graph.build.id.clone(),
            evidence_policy: EvidencePolicy::all_stored(self.graph),
            uncertainty: UncertaintyCounts::of(self.graph),
            start: start.to_owned(),
            direction,
            transitive,
            paths,
        })
    }

    /// The graph this query answers about.
    pub fn graph(&self) -> (r: &'a CodeGraph)
        ensures
            *r == self.spec_graph(),
    {
        self.graph
    }

    /// The single-step paths out of `node`; `None` when no node has that id.
    pub fn direct(&self, node: &str, direction: Direction) -> (r: Option<Vec<DependencyPath>>)
        ensures
            r is None <==> !is_node_id(self.spec_graph(), node@),
            r matches Some(ps) ==> direct_paths(self.spec_graph(), node@, direction, paths_view(ps@)),
    {
        proof {
            use_type_invariant(self);
        }
        let ghost g = self.spec_graph();
        let ghost ids = views(self.index.ids@);
        let p = match self.node_position(node) {
            None => return None,
            Some(p) => p,
        };
        let adj = self.steps_of(direction);
        proof {
            assert(self.adjacency(direction).len() == self.index.ids@.len());
            assert(adj@.map_values(|l: Vec<(usize, usize)>| l@).len() == adj@.len());
        }
        let steps = &adj[p];
        proof {
            assert(adj@.map_values(|l: Vec<(usize, usize)>| l@)[p as int] == adj@[p as int]@);
            assert(steps@ == self.adjacency(direction)[p as int]);
            assert(exact_steps(g, self.index, direction, p as int, steps@));
        }
        let mut out: Vec<DependencyPath> = Vec::new();
        let m = steps.len();
        let mut i: usize = 0;
        while i < m
            invariant
                i <= m,
                m == steps@.len(),
                out@.len() == i,
                ids == views(self.index.ids@),
                g == self.spec_graph(),
                self.index.describes(g),
                exact_steps(g, self.index, direction, p as int, steps@),
                forall|k: int|
                    0 <= k < i ==> path_view(#[trigger] out@[k]) == (
                        seq![node@, ids[steps@[k].0 as int]],
                        seq![g.edges@[steps@[k].1 as int].id@],
                    ),
            decreases m - i,
        {
            let (v, e) = steps[i];
            proof {
                assert(steps@[i as int] == (v, e));
                assert(e < g.edges@.len());
                assert(self.index.ends@[e as int].0 < ids.len());
                assert(self.index.ends@[e as int].1 < ids.len());
            }
            let mut nodes: Vec<String> = Vec::new();
            nodes.push(node.to_owned());
            nodes.push(self.index.ids[v].clone());
            let mut edges: Vec<String> = Vec::new();
            edges.push(self.graph.edges[e].id.clone());
            let path = DependencyPath { nodes, edges };
            proof {
                assert(views(path.nodes@) =~= seq![node@, ids[v as int]]);
                assert(views(path.edges@) =~= seq![g.edges@[e as int].id@]);
            }
            out.push(path);
            i = i + 1;
        }
        proof {
            assert(ids[p as int] == node@);
            lemma_direct(g, self.index, direction, p as int, steps@, paths_view(out@), node@);
        }
        Some(out)
    }
}

/// `steps` lists exactly the first `upto` edges that leave `u`.
pub open spec fn steps_built(
    g: CodeGraph,
    ix: GraphIndex,
    d: Direction,
    u: int,
    steps: Seq<(usize, usize)>,
    upto: int,
) -> bool {
    &&& steps_sorted(g, steps)
    &&& forall|i: int|
        0 <= i < steps.len() ==> (#[trigger] steps[i]).1 < upto && steps[i].0 < ix.ids@.len() && leads(
            ix,
            d,
            steps[i].1 as int,
            u,
            steps[i].0 as int,
        )
    &&& forall|i: int, j: int| 0 <= i < j < steps.len() ==> (#[trigger] steps[i]).1 != (#[trigger] steps[j]).1
    &&& forall|e: int|
        0 <= e < upto && #[trigger] leaves(ix, d, e, u) ==> exists|i: int|
            0 <= i < steps.len() && #[trigger] steps[i].1 == e
}

/// The single-step paths built from the exact step list of `node`'s position.
proof fn lemma_direct(
    g: CodeGraph,
    ix: GraphIndex,
    d: Direction,
    p: int,
    steps: Seq<(usize, usize)>,
    paths: Seq<(Seq<Seq<char>>, Seq<Seq<char>>)>,
    node: Seq<char>,
)
    requires
        ix.describes(g),
        0 <= p < ix.ids@.len(),
        views(ix.ids@)[p] == node,
        exact_steps(g, ix, d, p, steps),
        paths.len() == steps.len(),
        forall|k: int|
            0 <= k < steps.len() ==> #[trigger] paths[k] == (
                seq![node, views(ix.ids@)[steps[k].0 as int]],
                seq![g.edges@[steps[k].1 as int].id@],
            ),
    ensures
        direct_paths(g, node, d, paths),
{
    let ids = views(ix.ids@);
    let idx = Seq::new(steps.len(), |k: int| steps[k].1 as int);
    assert forall|i: int| 0 <= i < idx.len() implies {
        &&& 0 <= #[trigger] idx[i] < g.edges@.len()
        &&& step_from(g.edges@[idx[i]], d) == node
        &&& paths[i] == (seq![node, step_to(g.edges@[idx[i]], d)], seq![g.edges@[idx[i]].id@])
    } by {
        assert(steps[i].1 < g.edges@.len());
        assert(paths[i] == (seq![node, ids[steps[i].0 as int]], seq![g.edges@[steps[i].1 as int].id@]));
    }
    assert forall|i: int, j: int| 0 <= i < j < idx.len() implies #[trigger] idx[i] != #[trigger] idx[j] by {
        assert(steps[i].1 != steps[j].1);
    }
    assert forall|e: int|
        0 <= e < g.edges@.len() && step_from(#[trigger] g.edges@[e], d) == node implies exists|i: int|
        0 <= i < idx.len() && idx[i] == e by {
        assert(ix.ends@[e].0 < ids.len() && ix.ends@[e].1 < ids.len());
        match d {
            Direction::Dependencies => lemma_sorted_positions_unique(ids, ix.ends@[e].0 as int, p),
            Direction::Dependants => lemma_sorted_positions_unique(ids, ix.ends@[e].1 as int, p),
        }
        assert(leaves(ix, d, e, p));
        let i = choose|i: int| 0 <= i < steps.len() && #[trigger] steps[i].1 == e;
        assert(idx[i] == e);
    }
    assert forall|i: int, j: int| 0 <= i < j < idx.len() implies !step_key_lt(
        g.edges@[#[trigger] idx[j]],
        g.edges@[#[trigger] idx[i]],
        d,
    ) by {
        let (vi, ei) = steps[i];
        let (vj, ej) = steps[j];
        assert(!step_lt(g, steps[j], steps[i]));
        assert(step_to(g.edges@[ej as int], d) == ids[vj as int]);
        assert(step_to(g.edges@[ei as int], d) == ids[vi as int]);
        if step_key_lt(g.edges@[idx[j]], g.edges@[idx[i]], d) {
            if seq_lt(ids[vj as int], ids[vi as int]) {
                if vj == vi {
                    lemma_seq_lt_irreflexive(ids[vi as int]);
                } else if vi < vj {
                    lemma_seq_lt_asymmetric(ids[vi as int], ids[vj as int]);
                }
            } else {
                lemma_sorted_positions_unique(ids, vi as int, vj as int);
            }
        }
    }
    assert(direct_paths_by(g, node, d, paths, idx));
}

/// The conditions under which the step lists of one direction describe `g`.
pub open spec fn adjacency_exact(g: CodeGraph, ix: GraphIndex, d: Direction, adj: Seq<Seq<(usize, usize)>>) -> bool {
    &&& ix.describes(g)
    &&& adj.len() == ix.ids@.len()
    &&& adj_closed(adj)
    &&& forall|u: int| 0 <= u < adj.len() ==> exact_steps(g, ix, d, u, #[trigger] adj[u])
}

/// One step of a walk over positions, seen as ids.
proof fn lemma_walk_step(
    g: CodeGraph,
    ix: GraphIndex,
    d: Direction,
    adj: Seq<Seq<(usize, usize)>>,
    nodes: Seq<usize>,
    labels: Seq<usize>,
    s: int,
    v: int,
    i: int,
)
    requires
        adjacency_exact(g, ix, d, adj),
        is_walk(adj, nodes, labels, s, v),
        0 <= i < labels.len(),
    ensures
        nodes[i] < adj.len(),
        nodes[i + 1] < adj.len(),
        labels[i] < g.edges@.len(),
        id_step(g, d, labels[i] as int, views(ix.ids@)[nodes[i] as int], views(ix.ids@)[nodes[i + 1] as int]),
{
    let ids = views(ix.ids@);
    assert(has_step(adj, nodes[i] as int, nodes[i + 1], labels[i]));
    let u = nodes[i] as int;
    let j = choose|j: int| 0 <= j < adj[u].len() && #[trigger] adj[u][j] == (nodes[i + 1], labels[i]);
    assert(exact_steps(g, ix, d, u, adj[u]));
    assert(adj[u][j].1 < g.edges@.len());
    assert(adj[u][j].0 < adj.len());
    let l = labels[i] as int;
    assert(ix.ends@[l].0 < ids.len() && ix.ends@[l].1 < ids.len());
}

/// The edge behind one step of a walk over ids.
proof fn lemma_id_walk_step(g: CodeGraph, d: Direction, ns: Seq<Seq<char>>, es: Seq<Seq<char>>, i: int) -> (e: int)
    requires
        is_id_walk(g, d, ns, es),
        0 <= i < es.len(),
    ensures
        id_step(g, d, e, ns[i], ns[i + 1]),
        g.edges@[e].id@ == es[i],
{
    let idx = choose|idx: Seq<int>| #[trigger] walk_edges(g, d, ns, es, idx);
    idx[i]
}

/// A walk over positions is a walk over the ids at those positions.
proof fn lemma_walk_renders(
    g: CodeGraph,
    ix: GraphIndex,
    d: Direction,
    adj: Seq<Seq<(usize, usize)>>,
    nodes: Seq<usize>,
    labels: Seq<usize>,
    s: int,
    v: int,
)
    requires
        adjacency_exact(g, ix, d, adj),
        0 <= s < adj.len(),
        is_walk(adj, nodes, labels, s, v),
    ensures
        forall|i: int| 0 <= i < nodes.len() ==> #[trigger] nodes[i] < adj.len(),
        forall|i: int| 0 <= i < labels.len() ==> #[trigger] labels[i] < g.edges@.len(),
        walk_between(
            g,
            d,
            render_walk(g, views(ix.ids@), nodes, labels).0,
            render_walk(g, views(ix.ids@), nodes, labels).1,
            views(ix.ids@)[s],
            views(ix.ids@)[v],
        ),
{
    let ids = views(ix.ids@);
    let ns = render_walk(g, ids, nodes, labels).0;
    let es = render_walk(g, ids, nodes, labels).1;
    assert forall|i: int| 0 <= i < nodes.len() implies #[trigger] nodes[i] < adj.len() by {
        if i > 0 {
            lemma_walk_step(g, ix, d, adj, nodes, labels, s, v, i - 1);
        }
    }
    assert forall|i: int| 0 <= i < labels.len() implies #[trigger] labels[i] < g.edges@.len() by {
        lemma_walk_step(g, ix, d, adj, nodes, labels, s, v, i);
    }
    let idx = labels.map_values(|l: usize| l as int);
    assert forall|i: int| 0 <= i < es.len() implies id_step(g, d, #[trigger] idx[i], ns[i], ns[i + 1])
        && g.edges@[idx[i]].id@ == es[i] by {
        lemma_walk_step(g, ix, d, adj, nodes, labels, s, v, i);
    }
    assert(ns.len() == nodes.len() && es.len() == labels.len());
    assert(walk_edges(g, d, ns, es, idx));
    assert(ns[0] == ids[nodes[0] as int]);
    assert(ns.last() == ids[nodes[nodes.len() - 1] as int]);
    assert(is_id_walk(g, d, ns, es));
}

/// A walk over ids from the id at position `s` ends at a position reached
/// from `s` within as many steps.
proof fn lemma_ids_within(
    g: CodeGraph,
    ix: GraphIndex,
    d: Direction,
    adj: Seq<Seq<(usize, usize)>>,
    ns: Seq<Seq<char>>,
    es: Seq<Seq<char>>,
    s: int,
) -> (px: int)
    requires
        adjacency_exact(g, ix, d, adj),
        0 <= s < adj.len(),
        is_id_walk(g, d, ns, es),
        ns[0] == views(ix.ids@)[s],
    ensures
        0 <= px < adj.len(),
        views(ix.ids@)[px] == ns.last(),
        within(adj, s, px, es.len()),
    decreases es.len(),
{
    let ids = views(ix.ids@);
    let k = es.len();
    if k == 0 {
        lemma_within_start(adj, s, 0);
        s
    } else {
        let ns2 = ns.take(k as int);
        let es2 = es.take(k - 1);
        let idx = choose|idx: Seq<int>| #[trigger] walk_edges(g, d, ns, es, idx);
        let idx2 = idx.take(k - 1);
        assert forall|i: int| 0 <= i < es2.len() implies id_step(g, d, #[trigger] idx2[i], ns2[i], ns2[i + 1])
            && g.edges@[idx2[i]].id@ == es2[i] by {
            assert(idx2[i] == idx[i]);
        }
        assert(walk_edges(g, d, ns2, es2, idx2));
        let pu = lemma_ids_within(g, ix, d, adj, ns2, es2, s);
        let e = lemma_id_walk_step(g, d, ns, es, k - 1);
        assert(ix.ends@[e].0 < ids.len() && ix.ends@[e].1 < ids.len());
        let px = match d {
            Direction::Dependencies => {
                lemma_sorted_positions_unique(ids, ix.ends@[e].0 as int, pu);
                ix.ends@[e].1 as int
            },
            Direction::Dependants => {
                lemma_sorted_positions_unique(ids, ix.ends@[e].1 as int, pu);
                ix.ends@[e].0 as int
            },
        };
        assert(leaves(ix, d, e, pu));
        assert(exact_steps(g, ix, d, pu, adj[pu]));
        let j = choose|j: int| 0 <= j < adj[pu].len() && #[trigger] adj[pu][j].1 == e;
        assert(leads(ix, d, e, pu, adj[pu][j].0 as int));
        assert(adj[pu][j].0 == px);
        assert(adj_step(adj, pu, px));
        lemma_within_succ(adj, s, pu, px, (k - 1) as nat);
        px
    }
}

/// The walks a breadth-first search recorded, rendered as ids for every
/// reached position but the start, answer the reachability question.
proof fn lemma_reach_paths(
    g: CodeGraph,
    ix: GraphIndex,
    d: Direction,
    adj: Seq<Seq<(usize, usize)>>,
    p: int,
    r: Reach,
    targets: Seq<int>,
    paths: Seq<(Seq<Seq<char>>, Seq<Seq<char>>)>,
)
    requires
        adjacency_exact(g, ix, d, adj),
        0 <= p < adj.len(),
        reach_correct(adj, p, r),
        forall|i: int, j: int| 0 <= i < j < targets.len() ==> #[trigger] targets[i] < #[trigger] targets[j],
        forall|i: int|
            0 <= i < targets.len() ==> 0 <= #[trigger] targets[i] < adj.len() && r.visited@[targets[i]]
                && targets[i] != p,
        forall|v: int|
            0 <= v < adj.len() && #[trigger] r.visited@[v] && v != p ==> exists|i: int|
                0 <= i < targets.len() && targets[i] == v,
        paths.len() == targets.len(),
        forall|i: int|
            0 <= i < paths.len() ==> #[trigger] paths[i] == render_walk(
                g,
                views(ix.ids@),
                r.nodes@[targets[i]]@,
                r.labels@[targets[i]]@,
            ),
    ensures
        reach_paths(g, views(ix.ids@)[p], d, paths),
{
    let ids = views(ix.ids@);
    let s = ids[p];
    assert forall|i: int| 0 <= i < paths.len() implies walk_between(
        g,
        d,
        (#[trigger] paths[i]).0,
        paths[i].1,
        s,
        paths[i].0.last(),
    ) && paths[i].0.last() != s && paths[i].0.last() == ids[targets[i]] && paths[i].1.len()
        == r.labels@[targets[i]]@.len() by {
        let t = targets[i];
        assert(r.visited@[t]);
        lemma_walk_renders(g, ix, d, adj, r.nodes@[t]@, r.labels@[t]@, p, t);
        if ids[t] == s {
            lemma_sorted_positions_unique(ids, t, p);
        }
    }
    assert forall|i: int, ns: Seq<Seq<char>>, es: Seq<Seq<char>>|
        0 <= i < paths.len() && #[trigger] walk_between(g, d, ns, es, s, (#[trigger] paths[i]).0.last())
        implies paths[i].1.len() <= es.len() by {
        let t = targets[i];
        let px = lemma_ids_within(g, ix, d, adj, ns, es, p);
        lemma_sorted_positions_unique(ids, px, t);
        assert(r.visited@[t]);
        if es.len() < r.labels@[t]@.len() {
            assert(!within(adj, p, t, es.len()));
        }
    }
    assert forall|i: int, j: int| 0 <= i < j < paths.len() implies seq_lt(
        (#[trigger] paths[i]).0.last(),
        (#[trigger] paths[j]).0.last(),
    ) by {
        assert(targets[i] < targets[j]);
    }
    assert forall|x: Seq<char>| x != s && #[trigger] id_reaches(g, d, s, x) implies exists|i: int|
        0 <= i < paths.len() && (#[trigger] paths[i]).0.last() == x by {
        let (ns, es) = choose|ns: Seq<Seq<char>>, es: Seq<Seq<char>>| #[trigger] walk_between(g, d, ns, es, s, x);
        let px = lemma_ids_within(g, ix, d, adj, ns, es, p);
        assert(reaches(adj, p, px));
        assert(r.visited@[px]);
        let i = choose|i: int| 0 <= i < targets.len() && targets[i] == px;
        assert(paths[i].0.last() == ids[targets[i]]);
    }
}

/// Inserting the step of edge `e` into the steps built from the edges before it.
proof fn lemma_built_insert(
    g: CodeGraph,
    ix: GraphIndex,
    d: Direction,
    u: int,
    before: Seq<(usize, usize)>,
    after: Seq<(usize, usize)>,
    v: usize,
    e: usize,
)
    requires
        ix.describes(g),
        e < g.edges@.len(),
        steps_built(g, ix, d, u, before, e as int),
        steps_sorted(g, after),
        leads(ix, d, e as int, u, v as int),
        exists|i: int|
            0 <= i <= before.len() && after == before.take(i).push((v, e)).add(before.skip(i)),
    ensures
        steps_built(g, ix, d, u, after, e + 1),
{
    let i = choose|i: int|
        0 <= i <= before.len() && after == before.take(i).push((v, e)).add(before.skip(i));
    assert(after.len() == before.len() + 1);
    assert forall|k: int| 0 <= k < after.len() implies (if k < i {
        after[k] == before[k]
    } else if k == i {
        after[k] == (v, e)
    } else {
        after[k] == before[k - 1]
    }) by {}
    assert(v < ix.ids@.len()) by {
        assert(ix.ends@[e as int].0 < ix.ids@.len());
        assert(ix.ends@[e as int].1 < ix.ids@.len());
    }
    assert forall|k: int| 0 <= k < after.len() implies (#[trigger] after[k]).1 < e + 1 && after[k].0
        < ix.ids@.len() && leads(ix, d, after[k].1 as int, u, after[k].0 as int) by {
        if k < i {
            assert(after[k] == before[k]);
        } else if k > i {
            assert(after[k] == before[k - 1]);
        }
    }
    assert forall|k: int, m: int| 0 <= k < m < after.len() implies (#[trigger] after[k]).1 != (
    #[trigger] after[m]).1 by {
        if k < i && m < i {
            assert(after[k] == before[k] && after[m] == before[m]);
        } else if k < i && m == i {
            assert(after[k] == before[k]);
        } else if k < i {
            assert(after[k] == before[k] && after[m] == before[m - 1]);
        } else if k == i {
            assert(after[m] == before[m - 1]);
        } else {
            assert(after[k] == before[k - 1] && after[m] == before[m - 1]);
        }
    }
    assert forall|f: int| 0 <= f < e + 1 && #[trigger] leaves(ix, d, f, u) implies exists|k: int|
        0 <= k < after.len() && #[trigger] after[k].1 == f by {
        if f == e {
            assert(after[i].1 == f);
        } else {
            let k = choose|k: int| 0 <= k < before.len() && #[trigger] before[k].1 == f;
            if k < i {
                assert(after[k] == before[k]);
            } else {
                assert(after[k + 1] == before[k]);
            }
        }
    }
}

/// An edge that does not leave `u` adds nothing to its steps.
proof fn lemma_built_skip(g: CodeGraph, ix: GraphIndex, d: Direction, u: int, s: Seq<(usize, usize)>, e: int)
    requires
        steps_built(g, ix, d, u, s, e),
        !leaves(ix, d, e, u),
    ensures
        steps_built(g, ix, d, u, s, e + 1),
{
    assert forall|f: int| 0 <= f < e + 1 && #[trigger] leaves(ix, d, f, u) implies exists|k: int|
        0 <= k < s.len() && #[trigger] s[k].1 == f by {
        assert(f < e);
    }
}

proof fn lemma_step_lt_transitive(g: CodeGraph, a: (usize, usize), b: (usize, usize), c: (usize, usize))
    requires
        step_lt(g, a, b),
        step_lt(g, b, c),
    ensures
        step_lt(g, a, c),
{
    if a.0 == b.0 && b.0 == c.0 {
        lemma_seq_lt_transitive(
            g.edges@[a.1 as int].id@,
            g.edges@[b.1 as int].id@,
            g.edges@[c.1 as int].id@,
        );
    }
}

proof fn lemma_step_lt_irreflexive(g: CodeGraph, a: (usize, usize))
    ensures
        !step_lt(g, a, a),
{
    lemma_seq_lt_irreflexive(g.edges@[a.1 as int].id@);
}

/// Is step `a` before step `b`?
fn step_before(g: &CodeGraph, a: (usize, usize), b: (usize, usize)) -> (r: bool)
    requires
        a.1 < g.edges@.len(),
        b.1 < g.edges@.len(),
    ensures
        r == step_lt(*g, a, b),
{
    if a.0 != b.0 {
        a.0 < b.0
    } else {
        str_lt(g.edges[a.1].id.as_str(), g.edges[b.1].id.as_str())
    }
}

/// Insert a step after every step not after it, keeping the list sorted.
fn insert_step(g: &CodeGraph, steps: &mut Vec<(usize, usize)>, v: usize, e: usize)
    requires
        e < g.edges@.len(),
        steps_sorted(*g, old(steps)@),
        forall|i: int| 0 <= i < old(steps)@.len() ==> (#[trigger] old(steps)@[i]).1 < e,
    ensures
        steps_sorted(*g, final(steps)@),
        exists|i: int|
            0 <= i <= old(steps)@.len() && final(steps)@ == old(steps)@.take(i).push((v, e)).add(
                old(steps)@.skip(i),
            ),
{
    let n = steps.len();
    let mut i: usize = 0;
    while i < n
        invariant
            i <= n,
            n == steps@.len(),
            steps@ == old(steps)@,
            e < g.edges@.len(),
            forall|k: int| 0 <= k < n ==> (#[trigger] steps@[k]).1 < e,
            forall|k: int| 0 <= k < i ==> !step_lt(*g, (v, e), #[trigger] steps@[k]),
        ensures
            i <= n,
            steps@ == old(steps)@,
            forall|k: int| 0 <= k < i ==> !step_lt(*g, (v, e), #[trigger] steps@[k]),
            i < n ==> step_lt(*g, (v, e), steps@[i as int]),
        decreases n - i,
    {
        if step_before(g, (v, e), steps[i]) {
            break;
        }
        i = i + 1;
    }
    let ghost before = steps@;
    steps.insert(i, (v, e));
    proof {
        let after = steps@;
        assert(after =~= before.take(i as int).push((v, e)).add(before.skip(i as int)));
        assert forall|a: int, b: int| 0 <= a < b < after.len() implies !step_lt(
            *g,
            #[trigger] after[b],
            #[trigger] after[a],
        ) by {
            if b < i {
                assert(after[a] == before[a] && after[b] == before[b]);
            } else if b == i {
                assert(after[a] == before[a]);
            } else if a < i {
                assert(after[a] == before[a] && after[b] == before[b - 1]);
            } else if a == i {
                assert(after[b] == before[b - 1]);
                if step_lt(*g, before[b - 1], (v, e)) {
                    assert(step_lt(*g, (v, e), before[i as int]));
                    lemma_step_lt_transitive(*g, before[b - 1], (v, e), before[i as int]);
                    if b - 1 == i {
                        lemma_step_lt_irreflexive(*g, before[i as int]);
                    }
                }
            } else {
                assert(after[a] == before[a - 1] && after[b] == before[b - 1]);
            }
        }
    }
}

/// The ends of a list of paths.
pub open spec fn path_ends(paths: Seq<(Seq<Seq<char>>, Seq<Seq<char>>)>) -> Seq<Seq<char>> {
    paths.map_values(|p: (Seq<Seq<char>>, Seq<Seq<char>>)| p.0.last())
}

/// Transitive paths are determined: two lists that each hold one shortest
/// walk per id reachable from `s`, ordered by the id reached, each the walk
/// breadth-first search records, are the same list. A transitive report's
/// paths are therefore those the transitive query returns.
pub proof fn law_transitive_paths_determined(
    g: CodeGraph,
    ix: GraphIndex,
    adj: Seq<Seq<(usize, usize)>>,
    s: Seq<char>,
    d: Direction,
    a: Seq<(Seq<Seq<char>>, Seq<Seq<char>>)>,
    b: Seq<(Seq<Seq<char>>, Seq<Seq<char>>)>,
)
    requires
        ix.describes(g),
        adj.len() == ix.ids@.len(),
        reach_paths(g, s, d, a),
        bfs_paths(g, ix, adj, s, a),
        reach_paths(g, s, d, b),
        bfs_paths(g, ix, adj, s, b),
    ensures
        a == b,
{
    let ea = path_ends(a);
    let eb = path_ends(b);
    assert forall|y: Seq<char>| #[trigger] contains_view(ea, y) <==> (y != s && id_reaches(g, d, s, y)) by {
        if contains_view(ea, y) {
            let i = choose|i: int| 0 <= i < ea.len() && ea[i] == y;
            assert(walk_between(g, d, a[i].0, a[i].1, s, a[i].0.last()));
        }
        if y != s && id_reaches(g, d, s, y) {
            let i = choose|i: int| 0 <= i < a.len() && (#[trigger] a[i]).0.last() == y;
            assert(ea[i] == y);
        }
    }
    assert forall|y: Seq<char>| #[trigger] contains_view(eb, y) <==> (y != s && id_reaches(g, d, s, y)) by {
        if contains_view(eb, y) {
            let i = choose|i: int| 0 <= i < eb.len() && eb[i] == y;
            assert(walk_between(g, d, b[i].0, b[i].1, s, b[i].0.last()));
        }
        if y != s && id_reaches(g, d, s, y) {
            let i = choose|i: int| 0 <= i < b.len() && (#[trigger] b[i]).0.last() == y;
            assert(eb[i] == y);
        }
    }
    assert(sorted_strict(ea)) by {
        assert forall|i: int, j: int| 0 <= i < j < ea.len() implies seq_lt(#[trigger] ea[i], #[trigger] ea[j]) by {
            assert(seq_lt(a[i].0.last(), a[j].0.last()));
        }
    }
    assert(sorted_strict(eb)) by {
        assert forall|i: int, j: int| 0 <= i < j < eb.len() implies seq_lt(#[trigger] eb[i], #[trigger] eb[j]) by {
            assert(seq_lt(b[i].0.last(), b[j].0.last()));
        }
    }
    crate::order::lemma_sorted_same_members(ea, eb);
    let ids = views(ix.ids@);
    assert forall|i: int| 0 <= i < a.len() implies a[i] == b[i] by {
        assert(ea[i] == eb[i]);
        let (p, t) = choose|p: int, t: int|
            0 <= p < adj.len() && 0 <= t < adj.len() && ids[p] == s && ids[t] == (#[trigger] a[i]).0.last()
                && a[i] == render_walk(g, ids, bfs_walks(adj, p as usize)[t].0, bfs_walks(adj, p as usize)[t].1);
        let (q, u) = choose|q: int, u: int|
            0 <= q < adj.len() && 0 <= u < adj.len() && ids[q] == s && ids[u] == (#[trigger] b[i]).0.last()
                && b[i] == render_walk(g, ids, bfs_walks(adj, q as usize)[u].0, bfs_walks(adj, q as usize)[u].1);
        lemma_sorted_positions_unique(ids, p, q);
        lemma_sorted_positions_unique(ids, t, u);
    }
    assert(a =~= b);
}

} // verus!
