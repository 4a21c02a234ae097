//! Positions for the string ids of a code graph.
//!
//! Every node id and every edge endpoint gets one position, in ascending
//! string order, so comparing positions compares ids.

use crate::code_graph::model::CodeGraph;
use crate::order::{
    contains_view, find_sorted, insert_sorted, lemma_seq_lt_irreflexive, seq_lt, sorted_strict,
    views,
};
use vstd::prelude::*;

verus! {

/// Is `x` the id of some node of the graph?
pub open spec fn is_node_id(g: CodeGraph, x: Seq<char>) -> bool {
    exists|i: int| 0 <= i < g.nodes@.len() && #[trigger] g.nodes@[i].id@ == x
}

/// Is `x` an endpoint of one of the first `upto` edges of the graph?
pub open spec fn endpoint_in(g: CodeGraph, x: Seq<char>, upto: int) -> bool {
    exists|e: int| 0 <= e < upto && #[trigger] edge_touches(g, e, x)
}

/// Does edge `e` start or end at `x`?
pub open spec fn edge_touches(g: CodeGraph, e: int, x: Seq<char>) -> bool {
    g.edges@[e].from@ == x || g.edges@[e].to@ == x
}

/// Is `x` an endpoint of some edge of the graph?
pub open spec fn is_endpoint(g: CodeGraph, x: Seq<char>) -> bool {
    endpoint_in(g, x, g.edges@.len() as int)
}

/// Positions of a graph's ids.
pub struct GraphIndex {
    /// Every node id and edge endpoint, strictly ascending.
    pub ids: Vec<String>,
    /// For each edge, the positions of its `from` and `to`.
    pub ends: Vec<(usize, usize)>,
    /// For each node, the position of its id.
    pub node_at: Vec<usize>,
    /// For each position, whether a node carries that id.
    pub is_node: Vec<bool>,
}

impl GraphIndex {
    /// The index describes this graph.
    pub open spec fn describes(&self, g: CodeGraph) -> bool {
        let ids = views(self.ids@);
        &&& sorted_strict(ids)
        &&& self.ends@.len() == g.edges@.len()
        &&& forall|e: int|
            0 <= e < g.edges@.len() ==> {
                &&& (#[trigger] self.ends@[e]).0 < ids.len()
                &&& self.ends@[e].1 < ids.len()
                &&& ids[self.ends@[e].0 as int] == g.edges@[e].from@
                &&& ids[self.ends@[e].1 as int] == g.edges@[e].to@
            }
        &&& self.node_at@.len() == g.nodes@.len()
        &&& forall|i: int|
            0 <= i < g.nodes@.len() ==> (#[trigger] self.node_at@[i]) < ids.len()
                && ids[self.node_at@[i] as int] == g.nodes@[i].id@
        &&& self.is_node@.len() == ids.len()
        &&& forall|p: int| 0 <= p < ids.len() ==> (#[trigger] self.is_node@[p] <==> is_node_id(g, ids[p]))
        &&& forall|p: int| 0 <= p < ids.len() ==> (is_node_id(g, #[trigger] ids[p]) || is_endpoint(g, ids[p]))
    }

    /// Index the ids of a graph.
    pub fn new(g: &CodeGraph) -> (r: GraphIndex)
        ensures
            r.describes(*g),
    {
        let mut ids: Vec<String> = Vec::new();
        let nn = g.nodes.len();
        let ne = g.edges.len();
        let mut i: usize = 0;
        while i < nn
            invariant
                i <= nn,
                nn == g.nodes@.len(),
                sorted_strict(views(ids@)),
                forall|y: Seq<char>|
                    contains_view(views(ids@), y) <==> exists|k: int|
                        0 <= k < i && #[trigger] g.nodes@[k].id@ == y,
            decreases nn - i,
        {
            insert_sorted(&mut ids, g.nodes[i].id.as_str());
            proof {
                assert forall|y: Seq<char>| contains_view(views(ids@), y) <==> exists|k: int|
                    0 <= k < i + 1 && #[trigger] g.nodes@[k].id@ == y by {
                    if y == g.nodes@[i as int].id@ {
                        assert(g.nodes@[i as int].id@ == y);
                    }
                }
            }
            i = i + 1;
        }
        let mut e: usize = 0;
        while e < ne
            invariant
                e <= ne,
                nn == g.nodes@.len(),
                ne == g.edges@.len(),
                sorted_strict(views(ids@)),
                forall|y: Seq<char>|
                    contains_view(views(ids@), y) <==> (is_node_id(*g, y) || endpoint_in(*g, y, e as int)),
            decreases ne - e,
        {
            let ghost before = views(ids@);
            assert(forall|y: Seq<char>|
                contains_view(before, y) <==> (is_node_id(*g, y) || endpoint_in(*g, y, e as int)));
            let from_str = g.edges[e].from.as_str();
            insert_sorted(&mut ids, from_str);
            let ghost mid = views(ids@);
            let to_str = g.edges[e].to.as_str();
            insert_sorted(&mut ids, to_str);
            proof {
                let from = g.edges@[e as int].from@;
                let to = g.edges@[e as int].to@;
                assert(from_str@ == from && to_str@ == to);
                assert forall|y: Seq<char>| contains_view(views(ids@), y) <==> (is_node_id(*g, y)
                    || endpoint_in(*g, y, e + 1)) by {
                    assert(contains_view(views(ids@), y) <==> (contains_view(mid, y) || y == to));
                    assert(contains_view(mid, y) <==> (contains_view(before, y) || y == from));
                    assert(contains_view(before, y) <==> (is_node_id(*g, y) || endpoint_in(*g, y, e as int)));
                    assert(edge_touches(*g, e as int, y) <==> (y == from || y == to));
                    if endpoint_in(*g, y, e + 1) {
                        let k = choose|k: int| 0 <= k < e + 1 && #[trigger] edge_touches(*g, k, y);
                        if k < e {
                            assert(endpoint_in(*g, y, e as int));
                        }
                    }
                    if endpoint_in(*g, y, e as int) {
                        let k = choose|k: int| 0 <= k < e && #[trigger] edge_touches(*g, k, y);
                        assert(edge_touches(*g, k, y));
                    }
                    if edge_touches(*g, e as int, y) {
                        assert(endpoint_in(*g, y, e + 1));
                    }
                }
            }
            e = e + 1;
        }
        let ghost all = views(ids@);
        let mut ends: Vec<(usize, usize)> = Vec::new();
        e = 0;
        while e < ne
            invariant
                e <= ne,
                ne == g.edges@.len(),
                all == views(ids@),
                sorted_strict(all),
                forall|y: Seq<char>| contains_view(all, y) <==> (is_node_id(*g, y) || is_endpoint(*g, y)),
                ends@.len() == e,
                forall|k: int|
                    0 <= k < e ==> {
                        &&& (#[trigger] ends@[k]).0 < all.len()
                        &&& ends@[k].1 < all.len()
                        &&& all[ends@[k].0 as int] == g.edges@[k].from@
                        &&& all[ends@[k].1 as int] == g.edges@[k].to@
                    },
            decreases ne - e,
        {
            proof {
                assert(edge_touches(*g, e as int, g.edges@[e as int].from@));
                assert(edge_touches(*g, e as int, g.edges@[e as int].to@));
                assert(is_endpoint(*g, g.edges@[e as int].from@));
                assert(is_endpoint(*g, g.edges@[e as int].to@));
            }
            let from = find_sorted(&ids, g.edges[e].from.as_str());
            let to = find_sorted(&ids, g.edges[e].to.as_str());
            match (from, to) {
                (Some(a), Some(b)) => {
                    ends.push((a, b));
                },
                _ => {
                    proof {
                        assert(false);
                    }
                },
            }
            e = e + 1;
        }
        let mut node_at: Vec<usize> = Vec::new();
        let mut is_node: Vec<bool> = Vec::new();
        let np = ids.len();
        let mut p: usize = 0;
        while p < np
            invariant
                p <= np,
                np == all.len(),
                is_node@.len() == p,
                forall|q: int| 0 <= q < p ==> !#[trigger] is_node@[q],
            decreases np - p,
        {
            is_node.push(false);
            p = p + 1;
        }
        i = 0;
        while i < nn
            invariant
                i <= nn,
                nn == g.nodes@.len(),
                np == all.len(),
                all == views(ids@),
                sorted_strict(all),
                forall|y: Seq<char>| contains_view(all, y) <==> (is_node_id(*g, y) || is_endpoint(*g, y)),
                node_at@.len() == i,
                forall|k: int|
                    0 <= k < i ==> (#[trigger] node_at@[k]) < all.len() && all[node_at@[k] as int]
                        == g.nodes@[k].id@,
                is_node@.len() == np,
                forall|q: int|
                    0 <= q < np ==> (#[trigger] is_node@[q] <==> exists|k: int|
                        0 <= k < i && #[trigger] g.nodes@[k].id@ == all[q]),
            decreases nn - i,
        {
            proof {
                assert(is_node_id(*g, g.nodes@[i as int].id@));
            }
            let at = find_sorted(&ids, g.nodes[i].id.as_str());
            match at {
                Some(q) => {
                    let ghost before = is_node@;
                    node_at.push(q);
                    is_node.set(q, true);
                    proof {
                        assert forall|r: int|
                            0 <= r < np implies (#[trigger] is_node@[r] <==> exists|k: int|
                                0 <= k < i + 1 && #[trigger] g.nodes@[k].id@ == all[r]) by {
                            if r == q as int {
                                assert(g.nodes@[i as int].id@ == all[r]);
                            } else {
                                assert(is_node@[r] == before[r]);
                                if g.nodes@[i as int].id@ == all[r] {
                                    lemma_sorted_positions_unique(all, r, q as int);
                                }
                            }
                        }
                    }
                },
                None => {
                    proof {
                        assert(false);
                    }
                },
            }
            i = i + 1;
        }
        proof {
            assert forall|q: int| 0 <= q < np implies (#[trigger] is_node@[q] <==> is_node_id(*g, all[q])) by {
                if is_node_id(*g, all[q]) {
                    let k = choose|k: int| 0 <= k < g.nodes@.len() && #[trigger] g.nodes@[k].id@ == all[q];
                    assert(g.nodes@[k].id@ == all[q]);
                }
            }
            assert forall|q: int| 0 <= q < np implies (is_node_id(*g, #[trigger] all[q]) || is_endpoint(
                *g,
                all[q],
            )) by {
                assert(contains_view(all, all[q]));
            }
        }
        GraphIndex { ids, ends, node_at, is_node }
    }
}

/// Equal entries of a strictly sorted sequence sit at the same position.
pub proof fn lemma_sorted_positions_unique(s: Seq<Seq<char>>, a: int, b: int)
    requires
        sorted_strict(s),
        0 <= a < s.len(),
        0 <= b < s.len(),
        s[a] == s[b],
    ensures
        a == b,
{
    if a < b || b < a {
        lemma_seq_lt_irreflexive(s[a]);
    }
}

} // verus!
