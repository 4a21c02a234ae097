//! Internal consistency of a graph snapshot.
//!
//! Checks run in a fixed order and the first failure is reported: the schema
//! version, duplicate node ids, the build identity, enclosing nodes, duplicate
//! reference ids, each reference fact in turn, then each edge in turn.

use crate::code_graph::graph_index::is_node_id;
use crate::code_graph::model::{CodeGraph, IntegrityError, NodeScope, ReferenceFact, Resolution, SCHEMA_VERSION};
use crate::order::{contains_view, find_sorted, insert_sorted, sorted_strict, str_eq, views};
use vstd::prelude::*;

verus! {

/// What an integrity error reports, with its names as character sequences.
pub enum IntegrityIssue {
    UnsupportedSchema(u32),
    BuildIdentityMismatch,
    DuplicateNode,
    DuplicateEdge,
    DuplicateReference(Seq<char>),
    DanglingNode(Seq<char>),
    DanglingEvidence(Seq<char>),
    MissingEvidence(Seq<char>),
    EmptyCandidateSet(Seq<char>),
    ResolutionScopeMismatch(Seq<char>),
}

impl View for IntegrityError {
    type V = IntegrityIssue;

    open spec fn view(&self) -> IntegrityIssue {
        match self {
            IntegrityError::UnsupportedSchema(v) => IntegrityIssue::UnsupportedSchema(*v),
            IntegrityError::BuildIdentityMismatch => IntegrityIssue::BuildIdentityMismatch,
            IntegrityError::DuplicateNode => IntegrityIssue::DuplicateNode,
            IntegrityError::DuplicateEdge => IntegrityIssue::DuplicateEdge,
            IntegrityError::DuplicateReference(s) => IntegrityIssue::DuplicateReference(s@),
            IntegrityError::DanglingNode(s) => IntegrityIssue::DanglingNode(s@),
            IntegrityError::DanglingEvidence(s) => IntegrityIssue::DanglingEvidence(s@),
            IntegrityError::MissingEvidence(s) => IntegrityIssue::MissingEvidence(s@),
            IntegrityError::EmptyCandidateSet(s) => IntegrityIssue::EmptyCandidateSet(s@),
            IntegrityError::ResolutionScopeMismatch(s) => IntegrityIssue::ResolutionScopeMismatch(s@),
        }
    }
}

/// The first issue in `issues` from position `i` on.
pub open spec fn first_from(issues: Seq<Option<IntegrityIssue>>, i: int) -> Option<IntegrityIssue>
    decreases issues.len() - i,
{
    if i < 0 || i >= issues.len() {
        None
    } else if issues[i] is Some {
        issues[i]
    } else {
        first_from(issues, i + 1)
    }
}

/// Skipping positions without issues does not change the first issue.
pub proof fn lemma_first_from_skip(issues: Seq<Option<IntegrityIssue>>, start: int, i: int)
    requires
        0 <= start <= i <= issues.len(),
        forall|k: int| start <= k < i ==> #[trigger] issues[k] is None,
    ensures
        first_from(issues, start) == first_from(issues, i),
    decreases i - start,
{
    if start < i {
        lemma_first_from_skip(issues, start + 1, i);
    }
}

/// Is `x` the id of some reference fact?
pub open spec fn is_reference_id(g: CodeGraph, x: Seq<char>) -> bool {
    exists|k: int| 0 <= k < g.references@.len() && #[trigger] g.references@[k].id@ == x
}

/// The scope of the node with id `x`, if some node has it.
pub open spec fn node_scope(g: CodeGraph, x: Seq<char>) -> Option<NodeScope> {
    if is_node_id(g, x) {
        Some(g.nodes@[node_index(g, x)].scope)
    } else {
        None
    }
}

/// Some position of a node with id `x`.
pub open spec fn node_index(g: CodeGraph, x: Seq<char>) -> int {
    choose|i: int| 0 <= i < g.nodes@.len() && #[trigger] g.nodes@[i].id@ == x
}

/// Node `i` repeats the id of an earlier node.
pub open spec fn repeats_node(g: CodeGraph, i: int) -> bool {
    exists|j: int| 0 <= j < i && #[trigger] g.nodes@[j].id@ == g.nodes@[i].id@
}

/// Two nodes share an id.
pub open spec fn has_duplicate_node(g: CodeGraph) -> bool {
    exists|i: int| 0 <= i < g.nodes@.len() && #[trigger] repeats_node(g, i)
}

/// The issue with node `i`'s enclosing node.
pub open spec fn enclosing_issue(g: CodeGraph, i: int) -> Option<IntegrityIssue> {
    match g.nodes@[i].enclosing {
        Some(x) => if is_node_id(g, x@) {
            None
        } else {
            Some(IntegrityIssue::DanglingNode(x@))
        },
        None => None,
    }
}

/// Reference fact `i` repeats the id of an earlier one.
pub open spec fn repeats_reference(g: CodeGraph, i: int) -> bool {
    exists|j: int| 0 <= j < i && #[trigger] g.references@[j].id@ == g.references@[i].id@
}

/// The issue with reference fact `i`'s id.
pub open spec fn duplicate_reference_issue(g: CodeGraph, i: int) -> Option<IntegrityIssue> {
    if repeats_reference(g, i) {
        Some(IntegrityIssue::DuplicateReference(g.references@[i].id@))
    } else {
        None
    }
}

/// The first of `xs` that is not a node id, as an issue.
pub open spec fn missing_node(g: CodeGraph, xs: Seq<Seq<char>>) -> Option<IntegrityIssue> {
    first_from(Seq::new(xs.len(), |k: int| if is_node_id(g, xs[k]) {
        None
    } else {
        Some(IntegrityIssue::DanglingNode(xs[k]))
    }), 0)
}

/// The issue with one reference fact: its source, then its outcome.
pub open spec fn fact_issue(g: CodeGraph, f: ReferenceFact) -> Option<IntegrityIssue> {
    if f.source is Some && !is_node_id(g, f.source->0@) {
        Some(IntegrityIssue::DanglingNode(f.source->0@))
    } else {
        match f.outcome {
            Resolution::Resolved { node } => if node_scope(g, node@) == Some(NodeScope::External) {
                Some(IntegrityIssue::ResolutionScopeMismatch(f.id@))
            } else {
                missing_node(g, seq![node@])
            },
            Resolution::External { node } => if node_scope(g, node@) != Some(NodeScope::External) {
                Some(IntegrityIssue::ResolutionScopeMismatch(f.id@))
            } else {
                missing_node(g, seq![node@])
            },
            Resolution::Ambiguous { candidates } => if candidates@.len() == 0 {
                Some(IntegrityIssue::EmptyCandidateSet(f.id@))
            } else {
                missing_node(g, views(candidates@))
            },
            Resolution::Unknown { .. } => None,
        }
    }
}

/// Edge `i` repeats the id of an earlier edge.
pub open spec fn repeats_edge(g: CodeGraph, i: int) -> bool {
    exists|j: int| 0 <= j < i && #[trigger] g.edges@[j].id@ == g.edges@[i].id@
}

/// The first evidence id that names no reference fact, as an issue.
pub open spec fn missing_evidence(g: CodeGraph, xs: Seq<Seq<char>>) -> Option<IntegrityIssue> {
    first_from(Seq::new(xs.len(), |k: int| if is_reference_id(g, xs[k]) {
        None
    } else {
        Some(IntegrityIssue::DanglingEvidence(xs[k]))
    }), 0)
}

/// The issue with edge `i`: its id, its ends, then its evidence.
pub open spec fn edge_issue(g: CodeGraph, i: int) -> Option<IntegrityIssue> {
    let e = g.edges@[i];
    if repeats_edge(g, i) {
        Some(IntegrityIssue::DuplicateEdge)
    } else if !is_node_id(g, e.from@) {
        Some(IntegrityIssue::DanglingNode(e.from@))
    } else if !is_node_id(g, e.to@) {
        Some(IntegrityIssue::DanglingNode(e.to@))
    } else if e.evidence@.len() == 0 {
        Some(IntegrityIssue::MissingEvidence(e.id@))
    } else {
        missing_evidence(g, views(e.evidence@))
    }
}

pub open spec fn enclosing_issues(g: CodeGraph) -> Seq<Option<IntegrityIssue>> {
    Seq::new(g.nodes@.len(), |i: int| enclosing_issue(g, i))
}

pub open spec fn reference_id_issues(g: CodeGraph) -> Seq<Option<IntegrityIssue>> {
    Seq::new(g.references@.len(), |i: int| duplicate_reference_issue(g, i))
}

pub open spec fn fact_issues(g: CodeGraph) -> Seq<Option<IntegrityIssue>> {
    Seq::new(g.references@.len(), |i: int| fact_issue(g, g.references@[i]))
}

pub open spec fn edge_issues(g: CodeGraph) -> Seq<Option<IntegrityIssue>> {
    Seq::new(g.edges@.len(), |i: int| edge_issue(g, i))
}

/// The first integrity issue of `g`, whose build id should be `expected_id`.
pub open spec fn first_issue(g: CodeGraph, expected_id: Seq<char>) -> Option<IntegrityIssue> {
    if g.schema_version != SCHEMA_VERSION {
        Some(IntegrityIssue::UnsupportedSchema(g.schema_version))
    } else if has_duplicate_node(g) {
        Some(IntegrityIssue::DuplicateNode)
    } else if g.build.id@ != expected_id {
        Some(IntegrityIssue::BuildIdentityMismatch)
    } else if first_from(enclosing_issues(g), 0) is Some {
        first_from(enclosing_issues(g), 0)
    } else if first_from(reference_id_issues(g), 0) is Some {
        first_from(reference_id_issues(g), 0)
    } else if first_from(fact_issues(g), 0) is Some {
        first_from(fact_issues(g), 0)
    } else {
        first_from(edge_issues(g), 0)
    }
}

/// The strictly ascending ids of the first `i` entries are the ids of `xs`
/// up to `i`.
pub open spec fn id_set_upto(set: Seq<Seq<char>>, ids: Seq<Seq<char>>, i: int) -> bool {
    &&& sorted_strict(set)
    &&& forall|y: Seq<char>|
        #[trigger] contains_view(set, y) <==> exists|j: int| 0 <= j < i && #[trigger] ids[j] == y
}

/// The ids of the nodes.
pub open spec fn node_ids(g: CodeGraph) -> Seq<Seq<char>> {
    g.nodes@.map_values(|n: crate::code_graph::model::GraphNode| n.id@)
}

/// The ids of the reference facts.
pub open spec fn reference_ids(g: CodeGraph) -> Seq<Seq<char>> {
    g.references@.map_values(|f: ReferenceFact| f.id@)
}

/// The ids of the edges.
pub open spec fn edge_ids(g: CodeGraph) -> Seq<Seq<char>> {
    g.edges@.map_values(|e: crate::code_graph::model::Edge| e.id@)
}

/// The node ids, strictly ascending; `None` when two nodes share an id.
fn node_id_set(g: &CodeGraph) -> (r: Option<Vec<String>>)
    ensures
        r is None <==> has_duplicate_node(*g),
        r matches Some(v) ==> sorted_strict(views(v@)) && forall|y: Seq<char>|
            #[trigger] contains_view(views(v@), y) <==> is_node_id(*g, y),
{
    let ghost ids = node_ids(*g);
    let mut set: Vec<String> = Vec::new();
    let n = g.nodes.len();
    let mut i: usize = 0;
    while i < n
        invariant
            i <= n,
            n == g.nodes@.len(),
            ids == node_ids(*g),
            id_set_upto(views(set@), ids, i as int),
            forall|k: int| 0 <= k < i ==> !#[trigger] repeats_node(*g, k),
        decreases n - i,
    {
        let id = g.nodes[i].id.as_str();
        proof {
            assert(ids[i as int] == id@);
        }
        if let Some(p) = find_sorted(&set, id) {
            proof {
                assert(views(set@)[p as int] == id@);
                assert(contains_view(views(set@), id@));
                let j = choose|j: int| 0 <= j < i && #[trigger] ids[j] == id@;
                assert(g.nodes@[j].id@ == g.nodes@[i as int].id@);
                assert(repeats_node(*g, i as int));
            }
            return None;
        }
        let ghost before = set@;
        insert_sorted(&mut set, id);
        proof {
            assert forall|y: Seq<char>| #[trigger] contains_view(views(set@), y) <==> exists|j: int|
                0 <= j < i + 1 && #[trigger] ids[j] == y by {
                if y == id@ {
                    assert(ids[i as int] == y);
                }
            }
            if repeats_node(*g, i as int) {
                let j = choose|j: int| 0 <= j < i && #[trigger] g.nodes@[j].id@ == g.nodes@[i as int].id@;
                assert(ids[j] == id@);
            }
        }
        i = i + 1;
    }
    proof {
        assert forall|y: Seq<char>| #[trigger] contains_view(views(set@), y) <==> is_node_id(*g, y) by {
            if is_node_id(*g, y) {
                let j = choose|j: int| 0 <= j < g.nodes@.len() && #[trigger] g.nodes@[j].id@ == y;
                assert(ids[j] == y);
            }
        }
    }
    Some(set)
}

/// The scope of the node with id `x`.
fn scope_of(g: &CodeGraph, x: &str) -> (r: Option<NodeScope>)
    requires
        !has_duplicate_node(*g),
    ensures
        r == node_scope(*g, x@),
{
    let n = g.nodes.len();
    let mut i: usize = 0;
    while i < n
        invariant
            i <= n,
            n == g.nodes@.len(),
            !has_duplicate_node(*g),
            forall|k: int| 0 <= k < i ==> (#[trigger] g.nodes@[k]).id@ != x@,
        decreases n - i,
    {
        if str_eq(g.nodes[i].id.as_str(), x) {
            proof {
                assert(g.nodes@[i as int].id@ == x@);
                assert(is_node_id(*g, x@));
                let j = node_index(*g, x@);
                assert(0 <= j < g.nodes@.len() && g.nodes@[j].id@ == x@);
                if j < i {
                    assert(g.nodes@[j].id@ == g.nodes@[i as int].id@);
                    assert(repeats_node(*g, i as int));
                    assert(false);
                } else if j > i {
                    assert(g.nodes@[i as int].id@ == g.nodes@[j].id@);
                    assert(repeats_node(*g, j));
                    assert(false);
                }
                assert(node_scope(*g, x@) == Some(g.nodes@[i as int].scope));
            }
            return Some(g.nodes[i].scope);
        }
        i = i + 1;
    }
    None
}

/// Position of the first of `xs` absent from `set`.
fn first_absent(set: &Vec<String>, xs: &Vec<String>) -> (r: Option<usize>)
    requires
        sorted_strict(views(set@)),
    ensures
        r is None ==> forall|k: int| 0 <= k < xs@.len() ==> contains_view(views(set@), #[trigger] xs@[k]@),
        r matches Some(k) ==> k < xs@.len() && !contains_view(views(set@), xs@[k as int]@) && forall|j: int|
            0 <= j < k ==> contains_view(views(set@), #[trigger] xs@[j]@),
{
    let n = xs.len();
    let mut i: usize = 0;
    while i < n
        invariant
            i <= n,
            n == xs@.len(),
            sorted_strict(views(set@)),
            forall|j: int| 0 <= j < i ==> contains_view(views(set@), #[trigger] xs@[j]@),
        decreases n - i,
    {
        match find_sorted(set, xs[i].as_str()) {
            None => return Some(i),
            Some(p) => {
                proof {
                    assert(views(set@)[p as int] == xs@[i as int]@);
                }
            },
        }
        i = i + 1;
    }
    None
}

/// The first of `xs` that is not in `set`, reported by `issue`.
proof fn lemma_first_absent(
    set: Seq<Seq<char>>,
    xs: Seq<Seq<char>>,
    issues: Seq<Option<IntegrityIssue>>,
    r: Option<usize>,
)
    requires
        issues.len() == xs.len(),
        forall|k: int| 0 <= k < xs.len() ==> (#[trigger] issues[k] is None <==> contains_view(set, xs[k])),
        r is None ==> forall|k: int| 0 <= k < xs.len() ==> contains_view(set, #[trigger] xs[k]),
        r matches Some(k) ==> k < xs.len() && !contains_view(set, xs[k as int]) && forall|j: int|
            0 <= j < k ==> contains_view(set, #[trigger] xs[j]),
    ensures
        r is None ==> first_from(issues, 0) is None,
        r matches Some(k) ==> first_from(issues, 0) == issues[k as int],
{
    match r {
        None => {
            assert forall|k: int| 0 <= k < xs.len() implies #[trigger] issues[k] is None by {
                assert(contains_view(set, xs[k]));
            }
            lemma_first_from_skip(issues, 0, xs.len() as int);
        },
        Some(k) => {
            assert forall|j: int| 0 <= j < k implies #[trigger] issues[j] is None by {
                assert(contains_view(set, xs[j]));
            }
            lemma_first_from_skip(issues, 0, k as int);
        },
    }
}

/// A single id that must be a node id.
proof fn lemma_missing_one(g: CodeGraph, x: Seq<char>)
    ensures
        missing_node(g, seq![x]) == if is_node_id(g, x) {
            None
        } else {
            Some(IntegrityIssue::DanglingNode(x))
        },
{
    let xs = seq![x];
    let issues = Seq::new(xs.len(), |k: int| if is_node_id(g, xs[k]) {
        None
    } else {
        Some(IntegrityIssue::DanglingNode(xs[k]))
    });
    assert(first_from(issues, 1) is None);
}

/// Is `x` in the strictly ascending `set`?
fn in_set(set: &Vec<String>, x: &str) -> (r: bool)
    requires
        sorted_strict(views(set@)),
    ensures
        r == contains_view(views(set@), x@),
{
    match find_sorted(set, x) {
        Some(p) => {
            proof {
                assert(views(set@)[p as int] == x@);
            }
            true
        },
        None => false,
    }
}

/// Check one reference fact's source and outcome.
fn check_fact(g: &CodeGraph, nodes: &Vec<String>, f: &ReferenceFact) -> (r: Result<(), IntegrityError>)
    requires
        !has_duplicate_node(*g),
        sorted_strict(views(nodes@)),
        forall|y: Seq<char>| #[trigger] contains_view(views(nodes@), y) <==> is_node_id(*g, y),
    ensures
        match r {
            Ok(_) => fact_issue(*g, *f) is None,
            Err(e) => fact_issue(*g, *f) == Some(e@),
        },
{
    if let Some(source) = &f.source {
        if !in_set(nodes, source.as_str()) {
            return Err(IntegrityError::DanglingNode(source.clone()));
        }
    }
    match &f.outcome {
        Resolution::Resolved { node } => {
            let scope = scope_of(g, node.as_str());
            if matches!(scope, Some(NodeScope::External)) {
                return Err(IntegrityError::ResolutionScopeMismatch(f.id.clone()));
            }
            proof {
                lemma_missing_one(*g, node@);
            }
            if !in_set(nodes, node.as_str()) {
                return Err(IntegrityError::DanglingNode(node.clone()));
            }
            Ok(())
        },
        Resolution::External { node } => {
            let scope = scope_of(g, node.as_str());
            if !matches!(scope, Some(NodeScope::External)) {
                return Err(IntegrityError::ResolutionScopeMismatch(f.id.clone()));
            }
            proof {
                lemma_missing_one(*g, node@);
            }
            if !in_set(nodes, node.as_str()) {
                return Err(IntegrityError::DanglingNode(node.clone()));
            }
            Ok(())
        },
        Resolution::Ambiguous { candidates } => {
            if candidates.len() == 0 {
                return Err(IntegrityError::EmptyCandidateSet(f.id.clone()));
            }
            let ghost xs = views(candidates@);
            let ghost issues = Seq::new(xs.len(), |k: int| if is_node_id(*g, xs[k]) {
                None
            } else {
                Some(IntegrityIssue::DanglingNode(xs[k]))
            });
            let found = first_absent(nodes, candidates);
            proof {
                lemma_first_absent(views(nodes@), xs, issues, found);
            }
            match found {
                Some(k) => Err(IntegrityError::DanglingNode(candidates[k].clone())),
                None => Ok(()),
            }
        },
        Resolution::Unknown { .. } => Ok(()),
    }
}

/// Check edge `i`, given the ids of the edges before it.
fn check_edge(
    g: &CodeGraph,
    nodes: &Vec<String>,
    refs: &Vec<String>,
    seen: &Vec<String>,
    i: usize,
) -> (r: Result<(), IntegrityError>)
    requires
        i < g.edges@.len(),
        sorted_strict(views(nodes@)),
        forall|y: Seq<char>| #[trigger] contains_view(views(nodes@), y) <==> is_node_id(*g, y),
        sorted_strict(views(refs@)),
        forall|y: Seq<char>| #[trigger] contains_view(views(refs@), y) <==> is_reference_id(*g, y),
        id_set_upto(views(seen@), edge_ids(*g), i as int),
    ensures
        match r {
            Ok(_) => edge_issue(*g, i as int) is None,
            Err(e) => edge_issue(*g, i as int) == Some(e@),
        },
{
    let edge = &g.edges[i];
    let ghost ids = edge_ids(*g);
    if in_set(seen, edge.id.as_str()) {
        proof {
            let j = choose|j: int| 0 <= j < i && #[trigger] ids[j] == edge.id@;
            assert(g.edges@[j].id@ == g.edges@[i as int].id@);
        }
        return Err(IntegrityError::DuplicateEdge);
    }
    proof {
        if repeats_edge(*g, i as int) {
            let j = choose|j: int| 0 <= j < i && #[trigger] g.edges@[j].id@ == g.edges@[i as int].id@;
            assert(ids[j] == edge.id@);
        }
    }
    if !in_set(nodes, edge.from.as_str()) {
        return Err(IntegrityError::DanglingNode(edge.from.clone()));
    }
    if !in_set(nodes, edge.to.as_str()) {
        return Err(IntegrityError::DanglingNode(edge.to.clone()));
    }
    if edge.evidence.len() == 0 {
        return Err(IntegrityError::MissingEvidence(edge.id.clone()));
    }
    let ghost xs = views(edge.evidence@);
    let ghost issues = Seq::new(xs.len(), |k: int| if is_reference_id(*g, xs[k]) {
        None
    } else {
        Some(IntegrityIssue::DanglingEvidence(xs[k]))
    });
    let found = first_absent(refs, &edge.evidence);
    proof {
        lemma_first_absent(views(refs@), xs, issues, found);
    }
    match found {
        Some(k) => Err(IntegrityError::DanglingEvidence(edge.evidence[k].clone())),
        None => Ok(()),
    }
}

impl CodeGraph {
    /// Check that the snapshot is internally consistent and that its build id
    /// is `expected_id`, the identity computed from its capsule; report the
    /// first inconsistency found.
    pub fn validate(&self, expected_id: &str) -> (r: Result<(), IntegrityError>)
        ensures
            match r {
                Ok(_) => first_issue(*self, expected_id@) is None,
                Err(e) => first_issue(*self, expected_id@) == Some(e@),
            },
    {
        let ghost g = *self;
        if self.schema_version != SCHEMA_VERSION {
            return Err(IntegrityError::UnsupportedSchema(self.schema_version));
        }
        let nodes = match node_id_set(self) {
            None => return Err(IntegrityError::DuplicateNode),
            Some(nodes) => nodes,
        };
        if !str_eq(self.build.id.as_str(), expected_id) {
            return Err(IntegrityError::BuildIdentityMismatch);
        }
        let ghost enclosing = enclosing_issues(g);
        let nn = self.nodes.len();
        let mut i: usize = 0;
        while i < nn
            invariant
                i <= nn,
                nn == g.nodes@.len(),
                g == *self,
                g.schema_version == SCHEMA_VERSION,
                !has_duplicate_node(g),
                g.build.id@ == expected_id@,
                enclosing == enclosing_issues(g),
                sorted_strict(views(nodes@)),
                forall|y: Seq<char>| #[trigger] contains_view(views(nodes@), y) <==> is_node_id(g, y),
                forall|k: int| 0 <= k < i ==> #[trigger] enclosing[k] is None,
            decreases nn - i,
        {
            if let Some(x) = &self.nodes[i].enclosing {
                if !in_set(&nodes, x.as_str()) {
                    proof {
                        lemma_first_from_skip(enclosing, 0, i as int);
                    }
                    return Err(IntegrityError::DanglingNode(x.clone()));
                }
            }
            i = i + 1;
        }
        proof {
            lemma_first_from_skip(enclosing, 0, nn as int);
        }
        let ghost ref_ids = reference_ids(g);
        let ghost dups = reference_id_issues(g);
        let nr = self.references.len();
        let mut refs: Vec<String> = Vec::new();
        let mut i: usize = 0;
        while i < nr
            invariant
                i <= nr,
                nr == g.references@.len(),
                g == *self,
                g.schema_version == SCHEMA_VERSION,
                !has_duplicate_node(g),
                g.build.id@ == expected_id@,
                first_from(enclosing_issues(g), 0) is None,
                ref_ids == reference_ids(g),
                dups == reference_id_issues(g),
                id_set_upto(views(refs@), ref_ids, i as int),
                forall|k: int| 0 <= k < i ==> #[trigger] dups[k] is None,
            decreases nr - i,
        {
            let id = self.references[i].id.as_str();
            proof {
                assert(ref_ids[i as int] == id@);
            }
            if in_set(&refs, id) {
                proof {
                    let j = choose|j: int| 0 <= j < i && #[trigger] ref_ids[j] == id@;
                    assert(g.references@[j].id@ == g.references@[i as int].id@);
                    assert(repeats_reference(g, i as int));
                    lemma_first_from_skip(dups, 0, i as int);
                }
                return Err(IntegrityError::DuplicateReference(self.references[i].id.clone()));
            }
            proof {
                if repeats_reference(g, i as int) {
                    let j = choose|j: int| 0 <= j < i && #[trigger] g.references@[j].id@ == g.references@[i as int].id@;
                    assert(ref_ids[j] == id@);
                }
            }
            insert_sorted(&mut refs, id);
            proof {
                assert forall|y: Seq<char>| #[trigger] contains_view(views(refs@), y) <==> exists|j: int|
                    0 <= j < i + 1 && #[trigger] ref_ids[j] == y by {
                    if y == id@ {
                        assert(ref_ids[i as int] == y);
                    }
                }
            }
            i = i + 1;
        }
        proof {
            lemma_first_from_skip(dups, 0, nr as int);
            assert forall|y: Seq<char>| #[trigger] contains_view(views(refs@), y) <==> is_reference_id(g, y) by {
                if is_reference_id(g, y) {
                    let j = choose|j: int| 0 <= j < g.references@.len() && #[trigger] g.references@[j].id@ == y;
                    assert(ref_ids[j] == y);
                }
            }
        }
        let ghost facts = fact_issues(g);
        let mut i: usize = 0;
        while i < nr
            invariant
                i <= nr,
                nr == g.references@.len(),
                g == *self,
                g.schema_version == SCHEMA_VERSION,
                !has_duplicate_node(g),
                g.build.id@ == expected_id@,
                first_from(enclosing_issues(g), 0) is None,
                first_from(reference_id_issues(g), 0) is None,
                facts == fact_issues(g),
                sorted_strict(views(nodes@)),
                forall|y: Seq<char>| #[trigger] contains_view(views(nodes@), y) <==> is_node_id(g, y),
                forall|k: int| 0 <= k < i ==> #[trigger] facts[k] is None,
            decreases nr - i,
        {
            let checked = check_fact(self, &nodes, &self.references[i]);
            if let Err(e) = checked {
                proof {
                    lemma_first_from_skip(facts, 0, i as int);
                }
                return Err(e);
            }
            i = i + 1;
        }
        proof {
            lemma_first_from_skip(facts, 0, nr as int);
        }
        let ghost eids = edge_ids(g);
        let ghost edge_checks = edge_issues(g);
        let ne = self.edges.len();
        let mut seen: Vec<String> = Vec::new();
        let mut i: usize = 0;
        while i < ne
            invariant
                i <= ne,
                ne == g.edges@.len(),
                g == *self,
                g.schema_version == SCHEMA_VERSION,
                !has_duplicate_node(g),
                g.build.id@ == expected_id@,
                first_from(enclosing_issues(g), 0) is None,
                first_from(reference_id_issues(g), 0) is None,
                first_from(fact_issues(g), 0) is None,
                eids == edge_ids(g),
                edge_checks == edge_issues(g),
                sorted_strict(views(nodes@)),
                forall|y: Seq<char>| #[trigger] contains_view(views(nodes@), y) <==> is_node_id(g, y),
                sorted_strict(views(refs@)),
                forall|y: Seq<char>| #[trigger] contains_view(views(refs@), y) <==> is_reference_id(g, y),
                id_set_upto(views(seen@), eids, i as int),
                forall|k: int| 0 <= k < i ==> #[trigger] edge_checks[k] is None,
            decreases ne - i,
        {
            let checked = check_edge(self, &nodes, &refs, &seen, i);
            if let Err(e) = checked {
                proof {
                    lemma_first_from_skip(edge_checks, 0, i as int);
                }
                return Err(e);
            }
            let id = self.edges[i].id.as_str();
            proof {
                assert(eids[i as int] == id@);
            }
            insert_sorted(&mut seen, id);
            proof {
                assert forall|y: Seq<char>| #[trigger] contains_view(views(seen@), y) <==> exists|j: int|
                    0 <= j < i + 1 && #[trigger] eids[j] == y by {
                    if y == id@ {
                        assert(eids[i as int] == y);
                    }
                }
            }
            i = i + 1;
        }
        proof {
            lemma_first_from_skip(edge_checks, 0, ne as int);
        }
        Ok(())
    }
}

/// No position of `issues` from `i` on holds an issue exactly when there is
/// no first issue from `i`.
proof fn lemma_first_from_none(issues: Seq<Option<IntegrityIssue>>, i: int)
    requires
        0 <= i <= issues.len(),
    ensures
        first_from(issues, i) is None <==> forall|k: int| i <= k < issues.len() ==> #[trigger] issues[k] is None,
    decreases issues.len() - i,
{
    if i < issues.len() {
        lemma_first_from_none(issues, i + 1);
    }
}

/// A reference fact whose source and outcome name nodes as the schema asks:
/// a resolved target is a node outside the external scope, an external
/// target is an external node, and an ambiguous outcome lists at least one
/// candidate, each a node.
pub open spec fn fact_valid(g: CodeGraph, f: ReferenceFact) -> bool {
    &&& (f.source matches Some(s) ==> is_node_id(g, s@))
    &&& match f.outcome {
        Resolution::Resolved { node } => is_node_id(g, node@) && node_scope(g, node@) != Some(
            NodeScope::External,
        ),
        Resolution::External { node } => is_node_id(g, node@) && node_scope(g, node@) == Some(
            NodeScope::External,
        ),
        Resolution::Ambiguous { candidates } => candidates@.len() > 0 && forall|k: int|
            0 <= k < candidates@.len() ==> is_node_id(g, #[trigger] candidates@[k]@),
        Resolution::Unknown { .. } => true,
    }
}

/// An edge between two nodes, backed by at least one evidence id, each the
/// id of a reference fact.
pub open spec fn edge_valid(g: CodeGraph, e: crate::code_graph::model::Edge) -> bool {
    &&& is_node_id(g, e.from@)
    &&& is_node_id(g, e.to@)
    &&& e.evidence@.len() > 0
    &&& forall|k: int| 0 <= k < e.evidence@.len() ==> is_reference_id(g, #[trigger] e.evidence@[k]@)
}

/// A consistent snapshot whose build id is `expected_id`: the current
/// schema; node, reference and edge ids each distinct; every enclosing node
/// a node; every reference fact and every edge valid.
pub open spec fn graph_valid(g: CodeGraph, expected_id: Seq<char>) -> bool {
    &&& g.schema_version == SCHEMA_VERSION
    &&& forall|i: int, j: int|
        0 <= i < j < g.nodes@.len() ==> #[trigger] g.nodes@[i].id@ != #[trigger] g.nodes@[j].id@
    &&& forall|i: int, j: int|
        0 <= i < j < g.references@.len() ==> #[trigger] g.references@[i].id@
            != #[trigger] g.references@[j].id@
    &&& forall|i: int, j: int|
        0 <= i < j < g.edges@.len() ==> #[trigger] g.edges@[i].id@ != #[trigger] g.edges@[j].id@
    &&& g.build.id@ == expected_id
    &&& forall|i: int|
        0 <= i < g.nodes@.len() ==> (#[trigger] g.nodes@[i].enclosing matches Some(x) ==> is_node_id(
            g,
            x@,
        ))
    &&& forall|i: int| 0 <= i < g.references@.len() ==> fact_valid(g, #[trigger] g.references@[i])
    &&& forall|i: int| 0 <= i < g.edges@.len() ==> edge_valid(g, #[trigger] g.edges@[i])
}

/// Every id of `xs` is a node id exactly when none is reported missing.
proof fn lemma_missing_none(g: CodeGraph, xs: Seq<Seq<char>>)
    ensures
        missing_node(g, xs) is None <==> forall|k: int| 0 <= k < xs.len() ==> is_node_id(g, #[trigger] xs[k]),
{
    let issues = Seq::new(xs.len(), |k: int| if is_node_id(g, xs[k]) {
        None
    } else {
        Some(IntegrityIssue::DanglingNode(xs[k]))
    });
    lemma_first_from_none(issues, 0);
    if missing_node(g, xs) is None {
        assert forall|k: int| 0 <= k < xs.len() implies is_node_id(g, #[trigger] xs[k]) by {
            assert(issues[k] is None);
        }
    } else {
        let k = choose|k: int| 0 <= k < issues.len() && !(#[trigger] issues[k] is None);
        assert(!is_node_id(g, xs[k]));
    }
}

/// Every id of `xs` is a reference id exactly when none is reported missing.
proof fn lemma_evidence_none(g: CodeGraph, xs: Seq<Seq<char>>)
    ensures
        missing_evidence(g, xs) is None <==> forall|k: int| 0 <= k < xs.len() ==> is_reference_id(
            g,
            #[trigger] xs[k],
        ),
{
    let issues = Seq::new(xs.len(), |k: int| if is_reference_id(g, xs[k]) {
        None
    } else {
        Some(IntegrityIssue::DanglingEvidence(xs[k]))
    });
    lemma_first_from_none(issues, 0);
    if missing_evidence(g, xs) is None {
        assert forall|k: int| 0 <= k < xs.len() implies is_reference_id(g, #[trigger] xs[k]) by {
            assert(issues[k] is None);
        }
    } else {
        let k = choose|k: int| 0 <= k < issues.len() && !(#[trigger] issues[k] is None);
        assert(!is_reference_id(g, xs[k]));
    }
}

proof fn lemma_fact_clear(g: CodeGraph, f: ReferenceFact)
    ensures
        fact_issue(g, f) is None <==> fact_valid(g, f),
{
    match f.outcome {
        Resolution::Resolved { node } => {
            lemma_missing_one(g, node@);
        },
        Resolution::External { node } => {
            lemma_missing_one(g, node@);
        },
        Resolution::Ambiguous { candidates } => {
            let xs = views(candidates@);
            lemma_missing_none(g, xs);
            if missing_node(g, xs) is None {
                assert forall|k: int| 0 <= k < candidates@.len() implies is_node_id(
                    g,
                    #[trigger] candidates@[k]@,
                ) by {
                    assert(xs[k] == candidates@[k]@);
                }
            } else {
                let k = choose|k: int| 0 <= k < xs.len() && !is_node_id(g, #[trigger] xs[k]);
                assert(xs[k] == candidates@[k]@);
            }
        },
        Resolution::Unknown { .. } => {},
    }
}

proof fn lemma_edge_clear(g: CodeGraph, i: int)
    requires
        0 <= i < g.edges@.len(),
    ensures
        edge_issue(g, i) is None <==> !repeats_edge(g, i) && edge_valid(g, g.edges@[i]),
{
    let e = g.edges@[i];
    let xs = views(e.evidence@);
    lemma_evidence_none(g, xs);
    if missing_evidence(g, xs) is None {
        assert forall|k: int| 0 <= k < e.evidence@.len() implies is_reference_id(
            g,
            #[trigger] e.evidence@[k]@,
        ) by {
            assert(xs[k] == e.evidence@[k]@);
        }
    } else {
        let k = choose|k: int| 0 <= k < xs.len() && !is_reference_id(g, #[trigger] xs[k]);
        assert(xs[k] == e.evidence@[k]@);
    }
}

/// The nodes' enclosing ids are all node ids exactly when no enclosing
/// issue is reported.
proof fn lemma_enclosing_clear(g: CodeGraph)
    ensures
        first_from(enclosing_issues(g), 0) is None <==> forall|i: int|
            0 <= i < g.nodes@.len() ==> (#[trigger] g.nodes@[i].enclosing matches Some(x) ==> is_node_id(
                g,
                x@,
            )),
{
    let enc = enclosing_issues(g);
    lemma_first_from_none(enc, 0);
    if first_from(enc, 0) is None {
        assert forall|i: int| 0 <= i < g.nodes@.len() implies (#[trigger] g.nodes@[i].enclosing matches Some(
            x,
        ) ==> is_node_id(g, x@)) by {
            assert(enc[i] is None);
        }
    } else {
        let k = choose|k: int| 0 <= k < enc.len() && !(#[trigger] enc[k] is None);
        assert(!(g.nodes@[k].enclosing matches Some(x) ==> is_node_id(g, x@)));
    }
}

/// Reference ids are distinct exactly when no repeated one is reported.
proof fn lemma_reference_ids_clear(g: CodeGraph)
    ensures
        first_from(reference_id_issues(g), 0) is None <==> forall|i: int, j: int|
            0 <= i < j < g.references@.len() ==> #[trigger] g.references@[i].id@
                != #[trigger] g.references@[j].id@,
{
    let rid = reference_id_issues(g);
    lemma_first_from_none(rid, 0);
    if first_from(rid, 0) is None {
        assert forall|i: int, j: int| 0 <= i < j < g.references@.len() implies #[trigger] g.references@[i].id@
            != #[trigger] g.references@[j].id@ by {
            assert(rid[j] is None);
            assert(!repeats_reference(g, j));
        }
    } else {
        let k = choose|k: int| 0 <= k < rid.len() && !(#[trigger] rid[k] is None);
        assert(repeats_reference(g, k));
        let j = choose|j: int| 0 <= j < k && #[trigger] g.references@[j].id@ == g.references@[k].id@;
        assert(g.references@[j].id@ == g.references@[k].id@);
    }
}

/// Each reference fact is valid exactly when no fact issue is reported.
proof fn lemma_facts_clear(g: CodeGraph)
    ensures
        first_from(fact_issues(g), 0) is None <==> forall|i: int|
            0 <= i < g.references@.len() ==> fact_valid(g, #[trigger] g.references@[i]),
{
    let fct = fact_issues(g);
    lemma_first_from_none(fct, 0);
    if first_from(fct, 0) is None {
        assert forall|i: int| 0 <= i < g.references@.len() implies fact_valid(g, #[trigger] g.references@[i]) by {
            assert(fct[i] is None);
            lemma_fact_clear(g, g.references@[i]);
        }
    } else {
        let k = choose|k: int| 0 <= k < fct.len() && !(#[trigger] fct[k] is None);
        lemma_fact_clear(g, g.references@[k]);
    }
}

/// Edge ids are distinct and each edge valid exactly when no edge issue is
/// reported.
proof fn lemma_edges_clear(g: CodeGraph)
    ensures
        first_from(edge_issues(g), 0) is None <==> (forall|i: int, j: int|
            0 <= i < j < g.edges@.len() ==> #[trigger] g.edges@[i].id@ != #[trigger] g.edges@[j].id@) && (
        forall|i: int| 0 <= i < g.edges@.len() ==> edge_valid(g, #[trigger] g.edges@[i])),
{
    let edg = edge_issues(g);
    lemma_first_from_none(edg, 0);
    if first_from(edg, 0) is None {
        assert forall|i: int, j: int| 0 <= i < j < g.edges@.len() implies #[trigger] g.edges@[i].id@
            != #[trigger] g.edges@[j].id@ by {
            assert(edg[j] is None);
            lemma_edge_clear(g, j);
        }
        assert forall|i: int| 0 <= i < g.edges@.len() implies edge_valid(g, #[trigger] g.edges@[i]) by {
            assert(edg[i] is None);
            lemma_edge_clear(g, i);
        }
    } else {
        let k = choose|k: int| 0 <= k < edg.len() && !(#[trigger] edg[k] is None);
        lemma_edge_clear(g, k);
        if repeats_edge(g, k) {
            let j = choose|j: int| 0 <= j < k && #[trigger] g.edges@[j].id@ == g.edges@[k].id@;
            assert(g.edges@[j].id@ == g.edges@[k].id@);
        }
    }
}

/// A graph passes validation against `expected_id` exactly when it is
/// consistent in every respect the checks cover: the current schema, node,
/// reference and edge ids each distinct, the expected build id, enclosing
/// nodes, reference sources and outcomes, and edge ends and evidence.
pub proof fn law_no_issue_iff_valid(g: CodeGraph, expected_id: Seq<char>)
    ensures
        first_issue(g, expected_id) is None <==> graph_valid(g, expected_id),
{
    lemma_enclosing_clear(g);
    lemma_reference_ids_clear(g);
    lemma_facts_clear(g);
    lemma_edges_clear(g);
    if has_duplicate_node(g) {
        let i = choose|i: int| 0 <= i < g.nodes@.len() && #[trigger] repeats_node(g, i);
        let j = choose|j: int| 0 <= j < i && #[trigger] g.nodes@[j].id@ == g.nodes@[i].id@;
        assert(g.nodes@[j].id@ == g.nodes@[i].id@);
    } else {
        assert forall|i: int, j: int| 0 <= i < j < g.nodes@.len() implies #[trigger] g.nodes@[i].id@
            != #[trigger] g.nodes@[j].id@ by {
            assert(!repeats_node(g, j));
        }
    }
}

} // verus!
