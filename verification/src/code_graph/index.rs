//! Breadth-first reachability over adjacency lists.
//!
//! Vertices are positions `0..n`. `adj[u]` lists the steps out of `u`, each a
//! pair of the vertex reached and a label naming the edge taken. Queries and
//! coupling views reduce their string-keyed graphs to this form.

use vstd::prelude::*;

verus! {

/// One step from `u` to `v` is listed in the adjacency.
pub open spec fn adj_step(adj: Seq<Seq<(usize, usize)>>, u: int, v: int) -> bool {
    0 <= u < adj.len() && exists|j: int| 0 <= j < adj[u].len() && #[trigger] adj[u][j].0 == v
}

/// The vertices reachable from `s` in at most `k` steps.
pub open spec fn within_set(adj: Seq<Seq<(usize, usize)>>, s: int, k: nat) -> Set<int>
    decreases k,
{
    if k == 0 {
        set![s]
    } else {
        let prev = within_set(adj, s, (k - 1) as nat);
        prev.union(Set::new(|v: int| exists|u: int| prev.contains(u) && #[trigger] adj_step(adj, u, v)))
    }
}

/// `v` is reachable from `s` in at most `k` steps.
pub open spec fn within(adj: Seq<Seq<(usize, usize)>>, s: int, v: int, k: nat) -> bool {
    within_set(adj, s, k).contains(v)
}

/// Unfolding of `within` by one step.
pub proof fn lemma_within_unfold(adj: Seq<Seq<(usize, usize)>>, s: int, v: int, k: nat)
    ensures
        within(adj, s, v, k) <==> (v == s || (k > 0 && exists|u: int|
            #![trigger within(adj, s, u, (k - 1) as nat), adj_step(adj, u, v)]
            within(adj, s, u, (k - 1) as nat) && adj_step(adj, u, v))),
    decreases k,
{
    if k > 0 {
        let prev = within_set(adj, s, (k - 1) as nat);
        let fresh = Set::new(
            |w: int| exists|u: int| prev.contains(u) && #[trigger] adj_step(adj, u, w),
        );
        assert(within_set(adj, s, k) == prev.union(fresh));
        let k1 = (k - 1) as nat;
        if v == s {
            assert(within(adj, s, s, 0));
            lemma_within_monotone(adj, s, s, 0, k);
        }
        if within(adj, s, v, k1) && v != s {
            assert(k >= 2);
            lemma_within_unfold(adj, s, v, k1);
            let k2 = (k1 - 1) as nat;
            let u = choose|u: int|
                #![trigger within(adj, s, u, k2), adj_step(adj, u, v)]
                within(adj, s, u, k2) && adj_step(adj, u, v);
            lemma_within_monotone(adj, s, u, k2, k1);
        }
        if fresh.contains(v) {
            let u = choose|u: int| prev.contains(u) && #[trigger] adj_step(adj, u, v);
            assert(within(adj, s, u, (k - 1) as nat));
        }
    }
}

/// `v` is reachable from `s`.
pub open spec fn reaches(adj: Seq<Seq<(usize, usize)>>, s: int, v: int) -> bool {
    exists|k: nat| within(adj, s, v, k)
}

/// Every listed step stays among the vertices `0..adj.len()`.
pub open spec fn adj_closed(adj: Seq<Seq<(usize, usize)>>) -> bool {
    forall|u: int, j: int|
        0 <= u < adj.len() && 0 <= j < adj[u].len() ==> (#[trigger] adj[u][j]).0 < adj.len()
}

/// A walk: `nodes` starts at `s`, ends at `v`, and each consecutive pair is
/// joined by a listed step whose label is in `labels`.
pub open spec fn is_walk(
    adj: Seq<Seq<(usize, usize)>>,
    nodes: Seq<usize>,
    labels: Seq<usize>,
    s: int,
    v: int,
) -> bool {
    &&& nodes.len() == labels.len() + 1
    &&& nodes[0] == s
    &&& nodes.last() == v
    &&& forall|i: int|
        0 <= i < labels.len() ==> #[trigger] has_step(adj, nodes[i] as int, nodes[i + 1], labels[i])
}

/// The adjacency of `u` lists a step to `v` labelled `l`.
pub open spec fn has_step(adj: Seq<Seq<(usize, usize)>>, u: int, v: usize, l: usize) -> bool {
    0 <= u < adj.len() && exists|j: int| 0 <= j < adj[u].len() && #[trigger] adj[u][j] == (v, l)
}

/// Extending a reach of `k` steps by one step.
pub proof fn lemma_within_succ(adj: Seq<Seq<(usize, usize)>>, s: int, u: int, v: int, k: nat)
    requires
        within(adj, s, u, k),
        adj_step(adj, u, v),
    ensures
        within(adj, s, v, k + 1),
{
    lemma_within_unfold(adj, s, v, k + 1);
    assert(((k + 1) - 1) as nat == k);
}

/// A vertex other than `s` reached within `k + 1` steps is one step past a
/// vertex reached within `k`.
pub proof fn lemma_within_pred(adj: Seq<Seq<(usize, usize)>>, s: int, v: int, k: nat) -> (u: int)
    requires
        within(adj, s, v, k + 1),
        v != s,
    ensures
        within(adj, s, u, k),
        adj_step(adj, u, v),
{
    lemma_within_unfold(adj, s, v, k + 1);
    assert(((k + 1) - 1) as nat == k);
    choose|u: int| within(adj, s, u, k) && adj_step(adj, u, v)
}

/// `s` itself is reached within any bound.
pub proof fn lemma_within_start(adj: Seq<Seq<(usize, usize)>>, s: int, k: nat)
    ensures
        within(adj, s, s, k),
{
    assert(within(adj, s, s, 0));
    lemma_within_monotone(adj, s, s, 0, k);
}

pub proof fn lemma_within_monotone(adj: Seq<Seq<(usize, usize)>>, s: int, v: int, k: nat, m: nat)
    requires
        within(adj, s, v, k),
        k <= m,
    ensures
        within(adj, s, v, m),
    decreases m,
{
    if k < m {
        lemma_within_monotone(adj, s, v, k, (m - 1) as nat);
        assert(within_set(adj, s, m) == within_set(adj, s, (m - 1) as nat).union(Set::new(
            |w: int| exists|u: int| within_set(adj, s, (m - 1) as nat).contains(u) && #[trigger] adj_step(adj, u, w),
        )));
    }
}

/// A walk of `len` steps shows reachability within `len` steps.
pub proof fn lemma_walk_within(
    adj: Seq<Seq<(usize, usize)>>,
    nodes: Seq<usize>,
    labels: Seq<usize>,
    s: int,
    v: int,
)
    requires
        is_walk(adj, nodes, labels, s, v),
    ensures
        within(adj, s, v, labels.len()),
    decreases labels.len(),
{
    if labels.len() > 0 {
        let n2 = nodes.drop_last();
        let l2 = labels.drop_last();
        let u = n2.last() as int;
        assert(is_walk(adj, n2, l2, s, u)) by {
            assert forall|i: int| 0 <= i < l2.len() implies #[trigger] has_step(
                adj,
                n2[i] as int,
                n2[i + 1],
                l2[i],
            ) by {
                assert(n2[i] == nodes[i] && n2[i + 1] == nodes[i + 1] && l2[i] == labels[i]);
                assert(has_step(adj, nodes[i] as int, nodes[i + 1], labels[i]));
            }
        }
        lemma_walk_within(adj, n2, l2, s, u);
        let i = labels.len() - 1;
        assert(has_step(adj, nodes[i] as int, nodes[i + 1], labels[i]));
        let j = choose|j: int|
            0 <= j < adj[nodes[i] as int].len() && #[trigger] adj[nodes[i] as int][j] == (
                nodes[i + 1],
                labels[i],
            );
        assert(adj[u][j].0 == v);
        assert(adj_step(adj, u, v));
        lemma_within_succ(adj, s, u, v, l2.len());
    }
}

/// Once a bound adds nothing, no larger bound adds anything.
pub proof fn lemma_within_stable(adj: Seq<Seq<(usize, usize)>>, s: int, k: nat, j: nat, v: int)
    requires
        forall|w: int| #[trigger] within(adj, s, w, k + 1) ==> within(adj, s, w, k),
        within(adj, s, v, j),
    ensures
        within(adj, s, v, k),
    decreases j,
{
    if j <= k {
        lemma_within_monotone(adj, s, v, j, k);
    } else if v != s {
        let j1 = (j - 1) as nat;
        assert(j == j1 + 1);
        let u = lemma_within_pred(adj, s, v, j1);
        lemma_within_stable(adj, s, k, j1, u);
        lemma_within_succ(adj, s, u, v, k);
    } else {
        lemma_within_start(adj, s, k);
    }
}

/// Number of `true` entries among the first `k`.
pub open spec fn count_true(flags: Seq<bool>, k: int) -> nat
    decreases k,
{
    if k <= 0 {
        0
    } else {
        count_true(flags, k - 1) + if flags[k - 1] {
            1nat
        } else {
            0nat
        }
    }
}

proof fn lemma_count_true_bound(flags: Seq<bool>, k: int)
    requires
        0 <= k,
    ensures
        count_true(flags, k) <= k,
    decreases k,
{
    if k > 0 {
        lemma_count_true_bound(flags, k - 1);
    }
}

proof fn lemma_count_true_set(flags: Seq<bool>, i: int, k: int)
    requires
        0 <= i < flags.len(),
        !flags[i],
        0 <= k <= flags.len(),
    ensures
        count_true(flags.update(i, true), k) == count_true(flags, k) + if i < k {
            1nat
        } else {
            0nat
        },
    decreases k,
{
    if k > 0 {
        lemma_count_true_set(flags, i, k - 1);
    }
}

/// A copy of a vector of positions.
pub fn copy_positions(v: &Vec<usize>) -> (r: Vec<usize>)
    ensures
        r@ == v@,
{
    let mut r: Vec<usize> = Vec::new();
    let n = v.len();
    let mut i: usize = 0;
    while i < n
        invariant
            i <= n,
            n == v@.len(),
            r@ == v@.take(i as int),
        decreases n - i,
    {
        r.push(v[i]);
        assert(v@.take(i + 1) =~= v@.take(i as int).push(v@[i as int]));
        i = i + 1;
    }
    assert(v@.take(n as int) =~= v@);
    r
}

/// The result of a breadth-first search from one vertex.
pub struct Reach {
    /// Whether each vertex was reached.
    pub visited: Vec<bool>,
    /// For each reached vertex, the vertices of the walk that reached it.
    pub nodes: Vec<Vec<usize>>,
    /// For each reached vertex, the labels of the steps of that walk.
    pub labels: Vec<Vec<usize>>,
}

/// The search result describes exactly the vertices reachable from `s`,
/// each with a walk of least length.
pub open spec fn reach_correct(adj: Seq<Seq<(usize, usize)>>, s: int, r: Reach) -> bool {
    &&& r.visited@.len() == adj.len()
    &&& r.nodes@.len() == adj.len()
    &&& r.labels@.len() == adj.len()
    &&& forall|v: int| 0 <= v < adj.len() ==> (#[trigger] r.visited@[v] <==> reaches(adj, s, v))
    &&& forall|v: int|
        0 <= v < adj.len() && #[trigger] r.visited@[v] ==> {
            &&& is_walk(adj, r.nodes@[v]@, r.labels@[v]@, s, v)
            &&& forall|k: nat| k < r.labels@[v]@.len() ==> !#[trigger] within(adj, s, v, k)
        }
}

/// Vertices first reached at exactly `k` steps.
pub open spec fn at_level(adj: Seq<Seq<(usize, usize)>>, s: int, v: int, k: nat) -> bool {
    within(adj, s, v, k) && forall|j: nat| j < k ==> !#[trigger] within(adj, s, v, j)
}

proof fn lemma_at_level_next(adj: Seq<Seq<(usize, usize)>>, s: int, v: int, k: nat)
    requires
        within(adj, s, v, k + 1),
        !within(adj, s, v, k),
    ensures
        at_level(adj, s, v, k + 1),
{
    assert forall|j: nat| j < k + 1 implies !#[trigger] within(adj, s, v, j) by {
        if within(adj, s, v, j) {
            lemma_within_monotone(adj, s, v, j, k);
        }
    }
}

proof fn lemma_level_unique(adj: Seq<Seq<(usize, usize)>>, s: int, v: int, a: nat, b: nat)
    requires
        at_level(adj, s, v, a),
        at_level(adj, s, v, b),
    ensures
        a == b,
{
    if a < b {
        assert(!within(adj, s, v, a));
    } else if b < a {
        assert(!within(adj, s, v, b));
    }
}

/// A vertex first reached at `k + 1` steps is one step past a vertex first
/// reached at `k`.
proof fn lemma_level_pred(adj: Seq<Seq<(usize, usize)>>, s: int, v: int, k: nat) -> (u: int)
    requires
        at_level(adj, s, v, k + 1),
    ensures
        at_level(adj, s, u, k),
        adj_step(adj, u, v),
{
    assert(!within(adj, s, v, k));
    if v == s {
        lemma_within_start(adj, s, k);
    }
    let u = lemma_within_pred(adj, s, v, k);
    assert forall|j: nat| j < k implies !#[trigger] within(adj, s, u, j) by {
        if within(adj, s, u, j) {
            lemma_within_succ(adj, s, u, v, j);
            lemma_within_monotone(adj, s, v, j + 1, k);
        }
    }
    u
}

/// The state of a breadth-first search: the level being gathered, whether
/// each vertex is reached, and the walk (vertices, then step labels) that
/// reached each vertex.
pub type BfsState = (Seq<usize>, Seq<bool>, Seq<(Seq<usize>, Seq<usize>)>);

/// The state after the first `j` steps of `u` are taken, in the order
/// listed: a step to a vertex not yet reached reaches it, by `u`'s walk and
/// that step, and adds it to the level being gathered.
pub open spec fn bfs_scan(adj: Seq<Seq<(usize, usize)>>, u: usize, j: int, st: BfsState) -> BfsState
    decreases j,
{
    if j <= 0 {
        st
    } else {
        let st1 = bfs_scan(adj, u, j - 1, st);
        let step = adj[u as int][j - 1];
        if st1.1[step.0 as int] {
            st1
        } else {
            (
                st1.0.push(step.0),
                st1.1.update(step.0 as int, true),
                st1.2.update(step.0 as int, (st1.2[u as int].0.push(step.0), st1.2[u as int].1.push(step.1))),
            )
        }
    }
}

/// The state after the first `f` vertices of a level are expanded, in order.
pub open spec fn bfs_sweep(adj: Seq<Seq<(usize, usize)>>, level: Seq<usize>, f: int, st: BfsState) -> BfsState
    decreases f,
{
    if f <= 0 {
        st
    } else {
        let st1 = bfs_sweep(adj, level, f - 1, st);
        bfs_scan(adj, level[f - 1], adj[level[f - 1] as int].len() as int, st1)
    }
}

/// The state once `k` levels from `s` are expanded; its first part is
/// level `k`.
pub open spec fn bfs_level(adj: Seq<Seq<(usize, usize)>>, s: usize, k: nat) -> BfsState
    decreases k,
{
    if k == 0 {
        (
            seq![s],
            Seq::new(adj.len(), |v: int| v == s),
            Seq::new(
                adj.len(),
                |v: int|
                    if v == s {
                        (seq![s], Seq::<usize>::empty())
                    } else {
                        (Seq::<usize>::empty(), Seq::<usize>::empty())
                    },
            ),
        )
    } else {
        let prev = bfs_level(adj, s, (k - 1) as nat);
        bfs_sweep(adj, prev.0, prev.0.len() as int, (Seq::empty(), prev.1, prev.2))
    }
}

/// The walk breadth-first search from `s` records for each vertex: levels
/// expanded in turn, each level's vertices in the order they were reached,
/// each vertex's steps in the order listed, so that a vertex is reached
/// through the first vertex of the previous level that has a step to it,
/// by the first such step.
pub open spec fn bfs_walks(adj: Seq<Seq<(usize, usize)>>, s: usize) -> Seq<(Seq<usize>, Seq<usize>)> {
    bfs_level(adj, s, adj.len()).2
}

/// The search's tables hold the state `st`.
pub open spec fn bfs_agrees(
    st: BfsState,
    gathered: Seq<usize>,
    visited: Seq<bool>,
    nodes: Seq<Vec<usize>>,
    labels: Seq<Vec<usize>>,
) -> bool {
    &&& st.0 == gathered
    &&& st.1 == visited
    &&& st.2.len() == nodes.len()
    &&& nodes.len() == labels.len()
    &&& forall|v: int| 0 <= v < nodes.len() ==> st.2[v] == (#[trigger] nodes[v]@, labels[v]@)
}

/// Once a level is empty, the search changes nothing more.
proof fn lemma_bfs_stable(adj: Seq<Seq<(usize, usize)>>, s: usize, k: nat, k2: nat)
    requires
        bfs_level(adj, s, k).0.len() == 0,
        k <= k2,
    ensures
        bfs_level(adj, s, k2).0.len() == 0,
        bfs_level(adj, s, k2).1 == bfs_level(adj, s, k).1,
        bfs_level(adj, s, k2).2 == bfs_level(adj, s, k).2,
    decreases k2 - k,
{
    if k < k2 {
        lemma_bfs_stable(adj, s, k, (k2 - 1) as nat);
        let prev = bfs_level(adj, s, (k2 - 1) as nat);
        assert(bfs_level(adj, s, k2) == bfs_sweep(adj, prev.0, 0, (Seq::<usize>::empty(), prev.1, prev.2)));
    }
}

/// Level-by-level breadth-first search from `s`.
///
/// Each level is expanded in order, and each vertex's steps in the order they
/// are listed, so the walk recorded for a vertex is the one through the first
/// vertex of the previous level that reaches it.
pub fn breadth_first(adj: &Vec<Vec<(usize, usize)>>, s: usize) -> (r: Reach)
    requires
        s < adj@.len(),
        adj_closed(adj@.map_values(|l: Vec<(usize, usize)>| l@)),
    ensures
        reach_correct(adj@.map_values(|l: Vec<(usize, usize)>| l@), s as int, r),
        forall|v: int|
            0 <= v < adj@.len() ==> (#[trigger] r.nodes@[v]@, r.labels@[v]@) == bfs_walks(
                adj@.map_values(|l: Vec<(usize, usize)>| l@),
                s,
            )[v],
{
    let ghost g = adj@.map_values(|l: Vec<(usize, usize)>| l@);
    let n = adj.len();
    let mut visited: Vec<bool> = Vec::new();
    let mut nodes: Vec<Vec<usize>> = Vec::new();
    let mut labels: Vec<Vec<usize>> = Vec::new();
    let mut i: usize = 0;
    while i < n
        invariant
            i <= n,
            visited@.len() == i,
            nodes@.len() == i,
            labels@.len() == i,
            forall|v: int| 0 <= v < i ==> !#[trigger] visited@[v],
            forall|v: int| 0 <= v < i ==> (#[trigger] labels@[v])@.len() == 0,
            forall|v: int| 0 <= v < i ==> (#[trigger] nodes@[v])@.len() == 0,
        decreases n - i,
    {
        visited.push(false);
        nodes.push(Vec::new());
        labels.push(Vec::new());
        i = i + 1;
    }
    let ghost unvisited = visited@;
    proof {
        lemma_count_zero(unvisited, n as int);
        lemma_count_true_set(unvisited, s as int, n as int);
    }
    visited.set(s, true);
    let mut start: Vec<usize> = Vec::new();
    start.push(s);
    nodes.set(s, start);
    let mut count: usize = 1;
    let mut frontier: Vec<usize> = Vec::new();
    frontier.push(s);
    let ghost mut level: nat = 0;
    proof {
        assert(visited@ == unvisited.update(s as int, true));
        assert forall|v: int| 0 <= v < n implies (#[trigger] visited@[v] <==> within(
            g,
            s as int,
            v,
            level,
        )) by {}
        assert forall|v: int|
            #![trigger frontier@.contains(v as usize)]
            #![trigger at_level(g, s as int, v, level)]
            0 <= v < n implies (frontier@.contains(v as usize) <==> at_level(g, s as int, v, level)) by {
            if v == s as int {
                assert(frontier@[0] == s);
            }
        }
        assert(nodes@[s as int]@ =~= seq![s]);
        assert(labels@[s as int]@.len() == 0);
        assert(is_walk(g, nodes@[s as int]@, labels@[s as int]@, s as int, s as int));
        lemma_count_true_bound(visited@, n as int);
        let b = bfs_level(g, s, 0);
        assert(b.1 =~= visited@);
        assert(b.0 =~= frontier@);
        assert forall|v: int| 0 <= v < n implies b.2[v] == (#[trigger] nodes@[v]@, labels@[v]@) by {
            if v == s as int {
                assert(nodes@[v]@ =~= seq![s]);
                assert(labels@[v]@ =~= Seq::<usize>::empty());
            } else {
                assert(nodes@[v]@ =~= Seq::<usize>::empty());
                assert(labels@[v]@ =~= Seq::<usize>::empty());
            }
        }
        assert(bfs_agrees(b, frontier@, visited@, nodes@, labels@));
    }
    while frontier.len() > 0
        invariant
            n == adj@.len(),
            n == g.len(),
            g == adj@.map_values(|l: Vec<(usize, usize)>| l@),
            adj_closed(g),
            s < n,
            visited@.len() == n,
            nodes@.len() == n,
            labels@.len() == n,
            count as nat == count_true(visited@, n as int),
            count <= n,
            forall|v: int| 0 <= v < n ==> (#[trigger] visited@[v] <==> within(g, s as int, v, level)),
            forall|f: int| 0 <= f < frontier@.len() ==> #[trigger] frontier@[f] < n,
            forall|v: int|
                #![trigger frontier@.contains(v as usize)]
                #![trigger at_level(g, s as int, v, level)]
                0 <= v < n ==> (frontier@.contains(v as usize) <==> at_level(g, s as int, v, level)),
            forall|v: int|
                0 <= v < n && #[trigger] visited@[v] ==> {
                    &&& is_walk(g, nodes@[v]@, labels@[v]@, s as int, v)
                    &&& at_level(g, s as int, v, labels@[v]@.len())
                },
            bfs_agrees(bfs_level(g, s, level), frontier@, visited@, nodes@, labels@),
            level <= count,
            frontier@.len() > 0 ==> level < count,
        decreases 2 * (n - count) + if frontier@.len() > 0 {
            1int
        } else {
            0int
        },
    {
        let ghost count_before = count;
        let ghost lv = bfs_level(g, s, level);
        let ghost start = (Seq::<usize>::empty(), lv.1, lv.2);
        let mut next: Vec<usize> = Vec::new();
        proof {
            assert(next@ =~= start.0);
        }
        let mut fi: usize = 0;
        let flen = frontier.len();
        while fi < flen
            invariant
                n == adj@.len(),
                n == g.len(),
                g == adj@.map_values(|l: Vec<(usize, usize)>| l@),
                adj_closed(g),
                s < n,
                fi <= flen,
                flen == frontier@.len(),
                visited@.len() == n,
                nodes@.len() == n,
                labels@.len() == n,
                count as nat == count_true(visited@, n as int),
                count <= n,
                count == count_before + next@.len(),
                forall|f: int| 0 <= f < frontier@.len() ==> #[trigger] frontier@[f] < n,
                forall|v: int|
                    #![trigger frontier@.contains(v as usize)]
                    #![trigger at_level(g, s as int, v, level)]
                    0 <= v < n ==> (frontier@.contains(v as usize) <==> at_level(g, s as int, v, level)),
                forall|f: int| 0 <= f < next@.len() ==> #[trigger] next@[f] < n,
                forall|v: int|
                    0 <= v < n ==> (#[trigger] visited@[v] <==> (within(g, s as int, v, level)
                        || next@.contains(v as usize))),
                forall|v: int|
                    #![trigger next@.contains(v as usize)]
                    0 <= v < n ==> (next@.contains(v as usize) ==> at_level(g, s as int, v, level + 1)),
                forall|f: int, jj: int|
                    0 <= f < fi && 0 <= jj < g[frontier@[f] as int].len() ==> #[trigger] visited@[(
                    #[trigger] g[frontier@[f] as int][jj]).0 as int],
                forall|v: int|
                    0 <= v < n && #[trigger] visited@[v] ==> {
                        &&& is_walk(g, nodes@[v]@, labels@[v]@, s as int, v)
                        &&& at_level(g, s as int, v, labels@[v]@.len())
                    },
                lv == bfs_level(g, s, level),
                start == (Seq::<usize>::empty(), lv.1, lv.2),
                lv.0 == frontier@,
                bfs_agrees(bfs_sweep(g, frontier@, fi as int, start), next@, visited@, nodes@, labels@),
            decreases flen - fi,
        {
            let u = frontier[fi];
            let steps = &adj[u];
            let slen = steps.len();
            let mut j: usize = 0;
            proof {
                assert(frontier@.contains(u));
                assert(at_level(g, s as int, u as int, level));
                assert(g[u as int] == steps@);
                // `u` is visited, so its recorded walk has exactly `level` steps.
                assert(visited@[u as int]);
                lemma_level_unique(g, s as int, u as int, labels@[u as int]@.len(), level);
            }
            while j < slen
                invariant
                    n == adj@.len(),
                    n == g.len(),
                    g == adj@.map_values(|l: Vec<(usize, usize)>| l@),
                    adj_closed(g),
                    s < n,
                    fi < flen,
                    flen == frontier@.len(),
                    u == frontier@[fi as int],
                    u < n,
                    steps@ == g[u as int],
                    slen == steps@.len(),
                    j <= slen,
                    at_level(g, s as int, u as int, level),
                    visited@[u as int],
                    labels@[u as int]@.len() == level,
                    visited@.len() == n,
                    nodes@.len() == n,
                    labels@.len() == n,
                    count as nat == count_true(visited@, n as int),
                    count <= n,
                    count == count_before + next@.len(),
                    forall|f: int| 0 <= f < frontier@.len() ==> #[trigger] frontier@[f] < n,
                    forall|v: int|
                        #![trigger frontier@.contains(v as usize)]
                        #![trigger at_level(g, s as int, v, level)]
                        0 <= v < n ==> (frontier@.contains(v as usize) <==> at_level(g, s as int, v, level)),
                    forall|f: int| 0 <= f < next@.len() ==> #[trigger] next@[f] < n,
                    forall|v: int|
                        0 <= v < n ==> (#[trigger] visited@[v] <==> (within(g, s as int, v, level)
                            || next@.contains(v as usize))),
                    forall|v: int|
                        #![trigger next@.contains(v as usize)]
                        0 <= v < n ==> (next@.contains(v as usize) ==> at_level(g, s as int, v, level + 1)),
                    forall|f: int, jj: int|
                        0 <= f < fi && 0 <= jj < g[frontier@[f] as int].len() ==> #[trigger] visited@[(
                        #[trigger] g[frontier@[f] as int][jj]).0 as int],
                    forall|jj: int| 0 <= jj < j ==> #[trigger] visited@[steps@[jj].0 as int],
                    forall|v: int|
                        0 <= v < n && #[trigger] visited@[v] ==> {
                            &&& is_walk(g, nodes@[v]@, labels@[v]@, s as int, v)
                            &&& at_level(g, s as int, v, labels@[v]@.len())
                        },
                    lv.0 == frontier@,
                    bfs_agrees(
                        bfs_scan(g, u, j as int, bfs_sweep(g, frontier@, fi as int, start)),
                        next@,
                        visited@,
                        nodes@,
                        labels@,
                    ),
                decreases slen - j,
            {
                let (v, label) = steps[j];
                proof {
                    assert(g[u as int][j as int] == (v, label));
                    assert(v < n);
                }
                let ghost base = bfs_sweep(g, frontier@, fi as int, start);
                let ghost st1 = bfs_scan(g, u, j as int, base);
                let ghost old_nodes = nodes@;
                let ghost old_labels = labels@;
                if !visited[v] {
                    let ghost old_visited = visited@;
                    let ghost old_next = next@;
                    let mut walk_nodes = copy_positions(&nodes[u]);
                    let mut walk_labels = copy_positions(&labels[u]);
                    let ghost un = walk_nodes@;
                    let ghost ul = walk_labels@;
                    walk_nodes.push(v);
                    walk_labels.push(label);
                    proof {
                        assert(is_walk(g, un, ul, s as int, u as int));
                        assert(ul.len() == level);
                        assert(adj_step(g, u as int, v as int));
                        lemma_within_succ(g, s as int, u as int, v as int, level);
                        assert(!within(g, s as int, v as int, level));
                        lemma_at_level_next(g, s as int, v as int, level);
                        assert(walk_labels@.len() == level + 1);
                        assert forall|i: int| 0 <= i < walk_labels@.len() implies #[trigger] has_step(
                            g,
                            walk_nodes@[i] as int,
                            walk_nodes@[i + 1],
                            walk_labels@[i],
                        ) by {
                            if i < ul.len() {
                                assert(walk_nodes@[i] == un[i] && walk_nodes@[i + 1] == un[i + 1]);
                                assert(walk_labels@[i] == ul[i]);
                                assert(has_step(g, un[i] as int, un[i + 1], ul[i]));
                            } else {
                                assert(walk_nodes@[i] == u && walk_nodes@[i + 1] == v);
                                assert(walk_labels@[i] == label);
                                assert(g[u as int][j as int] == (v, label));
                            }
                        }
                        assert(is_walk(g, walk_nodes@, walk_labels@, s as int, v as int));
                        lemma_count_true_set(visited@, v as int, n as int);
                        lemma_count_true_bound(visited@.update(v as int, true), n as int);
                    }
                    visited.set(v, true);
                    nodes.set(v, walk_nodes);
                    labels.set(v, walk_labels);
                    next.push(v);
                    count = count + 1;
                    proof {
                        let st2 = bfs_scan(g, u, j + 1, base);
                        assert(g[u as int][j as int] == (v, label));
                        assert(!st1.1[v as int]);
                        assert(st2 == (
                            st1.0.push(v),
                            st1.1.update(v as int, true),
                            st1.2.update(v as int, (st1.2[u as int].0.push(v), st1.2[u as int].1.push(label))),
                        ));
                        assert(st1.2[u as int] == (old_nodes[u as int]@, old_labels[u as int]@));
                        assert(st2.0 =~= next@);
                        assert(st2.1 =~= visited@);
                        assert forall|w: int| 0 <= w < nodes@.len() implies st2.2[w] == (
                            #[trigger] nodes@[w]@,
                            labels@[w]@,
                        ) by {
                            if w != v as int {
                                assert(nodes@[w] == old_nodes[w]);
                                assert(labels@[w] == old_labels[w]);
                            }
                        }
                        assert(bfs_agrees(st2, next@, visited@, nodes@, labels@));
                    }
                    proof {
                        assert forall|w: int|
                            0 <= w < n implies (#[trigger] visited@[w] <==> (within(g, s as int, w, level)
                                || next@.contains(w as usize))) by {
                            if w == v as int {
                                assert(next@[next@.len() - 1] == v);
                            } else {
                                assert(visited@[w] == old_visited[w]);
                                assert(next@ == old_next.push(v));
                                if next@.contains(w as usize) {
                                    let k = choose|k: int| 0 <= k < next@.len() && next@[k] == w as usize;
                                    assert(old_next[k] == w as usize);
                                }
                                if old_next.contains(w as usize) {
                                    let k = choose|k: int| 0 <= k < old_next.len() && old_next[k] == w as usize;
                                    assert(next@[k] == w as usize);
                                }
                            }
                        }
                        assert forall|w: int|
                            #![trigger next@.contains(w as usize)]
                            0 <= w < n implies (next@.contains(w as usize) ==> at_level(g, s as int, w, level + 1)) by {
                            if next@.contains(w as usize) && w != v as int {
                                let k = choose|k: int| 0 <= k < next@.len() && next@[k] == w as usize;
                                assert(old_next[k] == w as usize);
                                assert(old_next.contains(w as usize));
                            }
                        }
                        assert forall|f: int| 0 <= f < next@.len() implies #[trigger] next@[f] < n by {
                            if f < old_next.len() {
                                assert(next@[f] == old_next[f]);
                            }
                        }
                        assert forall|w: int|
                            0 <= w < n && #[trigger] visited@[w] implies {
                                &&& is_walk(g, nodes@[w]@, labels@[w]@, s as int, w)
                                &&& at_level(g, s as int, w, labels@[w]@.len())
                            } by {
                            if w != v as int {
                                assert(old_visited[w]);
                            }
                        }
                    }
                } else {
                    proof {
                        assert(g[u as int][j as int] == (v, label));
                        assert(bfs_scan(g, u, j + 1, base) == st1);
                    }
                }
                j = j + 1;
            }
            proof {
                assert(bfs_sweep(g, frontier@, fi + 1, start) == bfs_scan(
                    g,
                    frontier@[fi as int],
                    g[frontier@[fi as int] as int].len() as int,
                    bfs_sweep(g, frontier@, fi as int, start),
                ));
            }
            fi = fi + 1;
        }
        proof {
            assert(bfs_level(g, s, level + 1) == bfs_sweep(g, lv.0, lv.0.len() as int, start));
        }
        proof {
            // `next` is exactly the next level.
            assert forall|v: int|
                #![trigger next@.contains(v as usize)]
                #![trigger at_level(g, s as int, v, level + 1)]
                0 <= v < n implies (next@.contains(v as usize) <==> at_level(
                g,
                s as int,
                v,
                level + 1,
            )) by {
                if at_level(g, s as int, v, level + 1) {
                    let u = lemma_level_pred(g, s as int, v, level);
                    assert(0 <= u < n);
                    assert(frontier@.contains(u as usize));
                    let f = choose|f: int| 0 <= f < frontier@.len() && frontier@[f] == u as usize;
                    let jj = choose|jj: int| 0 <= jj < g[u].len() && #[trigger] g[u][jj].0 == v;
                    assert(visited@[g[frontier@[f] as int][jj].0 as int]);
                    assert(!within(g, s as int, v, level));
                }
            }
            assert forall|v: int| 0 <= v < n implies (#[trigger] visited@[v] <==> within(
                g,
                s as int,
                v,
                level + 1,
            )) by {
                if within(g, s as int, v, level) {
                    lemma_within_monotone(g, s as int, v, level, level + 1);
                }
                if within(g, s as int, v, level + 1) && !within(g, s as int, v, level) {
                    lemma_at_level_next(g, s as int, v, level);
                }
            }
        }
        frontier = next;
        proof {
            level = level + 1;
        }
    }
    proof {
        lemma_bfs_stable(g, s, level, n as nat);
        assert forall|v: int| 0 <= v < n implies (#[trigger] nodes@[v]@, labels@[v]@) == bfs_walks(g, s)[v] by {
            assert(bfs_level(g, s, level).2[v] == (nodes@[v]@, labels@[v]@));
        }
    }
    proof {
        // Nothing is first reached at `level`, so nothing more is reachable.
        assert forall|w: int| #[trigger] within(g, s as int, w, level + 1) implies within(
            g,
            s as int,
            w,
            level,
        ) by {
            if w != s as int {
                let u = lemma_within_pred(g, s as int, w, level);
                assert(0 <= u < n);
                let jj = choose|jj: int| 0 <= jj < g[u].len() && #[trigger] g[u][jj].0 == w;
                assert(g[u][jj].0 < n);
                if !within(g, s as int, w, level) {
                    lemma_at_level_next(g, s as int, w, level);
                    // `w` would be in the next frontier, which is empty.
                    let u2 = lemma_level_pred(g, s as int, w, level);
                    assert(false) by {
                        assert(level > 0 || true);
                    }
                }
            } else {
                lemma_within_start(g, s as int, level);
            }
        }
        assert forall|v: int| 0 <= v < n implies (#[trigger] visited@[v] <==> reaches(g, s as int, v)) by {
            if reaches(g, s as int, v) {
                let k = choose|k: nat| within(g, s as int, v, k);
                lemma_within_stable(g, s as int, level, k, v);
            }
        }
        assert forall|v: int| 0 <= v < n && #[trigger] visited@[v] implies forall|k: nat|
            k < labels@[v]@.len() ==> !#[trigger] within(g, s as int, v, k) by {
            assert(at_level(g, s as int, v, labels@[v]@.len()));
        }
    }
    Reach { visited, nodes, labels }
}

proof fn lemma_count_zero(flags: Seq<bool>, k: int)
    requires
        0 <= k <= flags.len(),
        forall|v: int| 0 <= v < flags.len() ==> !#[trigger] flags[v],
    ensures
        count_true(flags, k) == 0,
    decreases k,
{
    if k > 0 {
        lemma_count_zero(flags, k - 1);
    }
}

} // verus!
