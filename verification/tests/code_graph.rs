use beholder::code_graph::coupling::analyze;
use beholder::code_graph::model::{
    AnalyzedScope, BuildIdentity, CodeGraph, Edge, EdgeKind, IntegrityError, Knowledge, GraphNode,
    NodeKind, NodeScope, Producer, Provenance, ReferenceFact, Resolution, UncertaintyCounts,
    SCHEMA_VERSION,
};
use beholder::code_graph::query::{Direction, GraphQuery};

const CAPSULE: &str = "sample-capsule";

fn provenance() -> Provenance {
    Provenance {
        provider: "sample".to_owned(),
        record_kind: "sample".to_owned(),
    }
}

fn graph(pairs: &[(&str, &str)]) -> CodeGraph {
    let mut names: Vec<&str> = pairs.iter().flat_map(|(from, to)| [*from, *to]).collect();
    names.sort();
    names.dedup();
    let nodes = names
        .into_iter()
        .map(|name| GraphNode {
            id: name.to_owned(),
            semantic_key: name.to_owned(),
            language: "sample".to_owned(),
            kind: NodeKind::Callable,
            provider_kind: "Function".to_owned(),
            display_name: name.to_owned(),
            scope: NodeScope::Workspace,
            definitions: Vec::new(),
            enclosing: None,
            provenance: provenance(),
        })
        .collect();
    let mut references = Vec::new();
    let mut edges = Vec::new();
    for (index, (from, to)) in pairs.iter().enumerate() {
        let evidence = format!("reference-{index}");
        references.push(ReferenceFact {
            id: evidence.clone(),
            location: None,
            source: Some((*from).to_owned()),
            raw_target: (*to).to_owned(),
            kind: EdgeKind::Reference,
            outcome: Resolution::Resolved {
                node: (*to).to_owned(),
            },
            provenance: provenance(),
        });
        edges.push(Edge {
            id: format!("edge-{index}"),
            from: (*from).to_owned(),
            to: (*to).to_owned(),
            kind: EdgeKind::Reference,
            evidence: vec![evidence],
            provenance: provenance(),
        });
    }
    CodeGraph {
        schema_version: SCHEMA_VERSION,
        build: BuildIdentity {
            id: CAPSULE.to_owned(),
            repository: Knowledge::unknown(),
            revision: Knowledge::unknown(),
            dirty: Knowledge::unknown(),
            source_digest: Knowledge::unknown(),
            configuration_digest: Knowledge::unknown(),
            provider_input_digest: "input".to_owned(),
            units: Knowledge::unknown(),
        },
        producer: Producer {
            name: "sample".to_owned(),
            version: Knowledge::unknown(),
            invocation: Knowledge::unknown(),
            input_format: "sample".to_owned(),
        },
        scope: AnalyzedScope::empty(),
        nodes,
        edges,
        references,
        diagnostics: Vec::new(),
        validations: Vec::new(),
    }
}

// ---- coupling ----

#[test]
fn distinct_degrees_ignore_parallel_edges_and_self_edges() {
    let mut graph = graph(&[("amber", "birch"), ("amber", "birch"), ("amber", "amber")]);
    for (index, edge) in graph.edges.iter_mut().enumerate() {
        edge.id = format!("edge-{index}");
    }
    let report = analyze(&graph);
    assert_eq!(report.degree_for("amber").unwrap().outgoing_neighbours, ["birch"]);
}

#[test]
fn strongly_connected_cycles_are_reported_with_evidence() {
    let graph = graph(&[("amber", "birch"), ("birch", "cedar"), ("cedar", "amber")]);
    let report = analyze(&graph);
    assert_eq!(report.cycles[0].nodes, ["amber", "birch", "cedar"]);
    assert_eq!(report.cycles[0].evidence_edges.len(), 3);
}

#[test]
fn weak_regions_ignore_edge_direction_and_include_isolates() {
    let graph = graph(&[("birch", "amber"), ("cedar", "cedar")]);
    let report = analyze(&graph);
    assert_eq!(report.weak_regions.len(), 2);
}

#[test]
fn bridge_position_is_proved_by_node_removal() {
    let graph = graph(&[("amber", "birch"), ("birch", "cedar")]);
    let report = analyze(&graph);
    assert_eq!(report.bridges.len(), 1);
    assert_eq!(report.bridges[0].node, "birch");
    assert_eq!(report.bridges[0].regions_before, 1);
    assert_eq!(report.bridges[0].regions_after_removal, 2);
    assert_eq!(
        report.bridges[0].neighbour_partitions,
        [vec!["amber".to_owned()], vec!["cedar".to_owned()]]
    );
}

#[test]
fn coupling_carries_transitive_incoming_and_outgoing_paths() {
    let graph = graph(&[("amber", "birch"), ("birch", "cedar")]);
    let report = analyze(&graph);

    assert_eq!(report.degree_for("amber").unwrap().outgoing_reach.len(), 2);
    assert_eq!(report.degree_for("cedar").unwrap().incoming_reach.len(), 2);
    assert_eq!(
        report.degree_for("amber").unwrap().outgoing_reach[1].nodes,
        ["amber", "birch", "cedar"]
    );
}

#[test]
fn degrees_are_listed_once_per_node_in_ascending_order() {
    let graph = graph(&[("cedar", "amber"), ("birch", "amber")]);
    let report = analyze(&graph);
    let keys: Vec<&str> = report.degree.iter().map(|(k, _)| k.as_str()).collect();
    assert_eq!(keys, ["amber", "birch", "cedar"]);
    let amber = report.degree_for("amber").unwrap();
    assert_eq!(amber.incoming_neighbours, ["birch", "cedar"]);
    assert!(amber.outgoing_neighbours.is_empty());
    assert!(report.degree_for("missing").is_none());
}

#[test]
fn an_acyclic_graph_reports_no_cycles_and_a_self_loop_is_one() {
    let chain = graph(&[("amber", "birch"), ("birch", "cedar")]);
    assert!(analyze(&chain).cycles.is_empty());
    let looped = graph(&[("amber", "amber"), ("amber", "birch")]);
    let report = analyze(&looped);
    assert_eq!(report.cycles.len(), 1);
    assert_eq!(report.cycles[0].nodes, ["amber"]);
    assert_eq!(report.cycles[0].evidence_edges, ["edge-0"]);
}

#[test]
fn a_leaf_is_not_a_bridge() {
    let graph = graph(&[("amber", "birch")]);
    let report = analyze(&graph);
    assert!(report.bridges.is_empty());
    assert_eq!(report.weak_regions.len(), 1);
    assert_eq!(report.weak_regions[0].nodes, ["amber", "birch"]);
}

// ---- query ----

#[test]
fn direct_dependency_and_dependant_directions_are_opposites() {
    let graph = graph(&[("amber", "birch"), ("cedar", "amber")]);
    let query = GraphQuery::new(&graph);

    assert_eq!(
        query.direct("amber", Direction::Dependencies).unwrap()[0].nodes,
        ["amber", "birch"]
    );
    assert_eq!(
        query.direct("amber", Direction::Dependants).unwrap()[0].nodes,
        ["amber", "cedar"]
    );
}

#[test]
fn transitive_reach_uses_a_deterministic_shortest_path() {
    let graph = graph(&[
        ("amber", "cedar"),
        ("amber", "birch"),
        ("birch", "elm"),
        ("cedar", "elm"),
    ]);
    let query = GraphQuery::new(&graph);
    let paths = query.reachable("amber", Direction::Dependencies).unwrap();
    let elm = paths
        .iter()
        .find(|path| path.nodes.last().map(String::as_str) == Some("elm"))
        .unwrap();

    assert_eq!(elm.nodes, ["amber", "birch", "elm"]);
}

#[test]
fn an_unknown_node_is_not_reported_as_an_empty_dependency_set() {
    let graph = graph(&[("amber", "birch")]);
    let query = GraphQuery::new(&graph);

    assert_eq!(query.direct("missing", Direction::Dependencies), None);
    assert_eq!(query.reachable("missing", Direction::Dependencies), None);
    assert_eq!(
        query.direct("birch", Direction::Dependencies),
        Some(Vec::new())
    );
}

#[test]
fn query_report_names_snapshot_policy_and_uncertainty() {
    let graph = graph(&[("amber", "birch")]);
    let report = GraphQuery::new(&graph)
        .report("amber", Direction::Dependencies, false)
        .unwrap();

    assert_eq!(report.snapshot_id, graph.build.id);
    assert_eq!(report.evidence_policy.name, "all_stored_edges");
    assert_eq!(report.uncertainty.resolved, 1);
    assert_eq!(report.paths.len(), 1);
}

#[test]
fn a_direct_path_names_its_edge_and_every_parallel_edge_counts() {
    let graph = graph(&[("amber", "birch"), ("amber", "birch")]);
    let query = GraphQuery::new(&graph);
    let paths = query.direct("amber", Direction::Dependencies).unwrap();
    assert_eq!(paths.len(), 2);
    assert_eq!(paths[0].edges, ["edge-0"]);
    assert_eq!(paths[1].edges, ["edge-1"]);
}

#[test]
fn reach_is_ordered_by_target_and_excludes_the_start() {
    let graph = graph(&[("amber", "cedar"), ("amber", "birch"), ("birch", "amber")]);
    let query = GraphQuery::new(&graph);
    let paths = query.reachable("amber", Direction::Dependencies).unwrap();
    let targets: Vec<&str> = paths.iter().map(|p| p.nodes.last().unwrap().as_str()).collect();
    assert_eq!(targets, ["birch", "cedar"]);
    let dependants = query.reachable("cedar", Direction::Dependants).unwrap();
    let targets: Vec<&str> = dependants.iter().map(|p| p.nodes.last().unwrap().as_str()).collect();
    assert_eq!(targets, ["amber", "birch"]);
    assert_eq!(dependants[1].nodes, ["cedar", "amber", "birch"]);
}

#[test]
fn a_transitive_report_carries_the_reach() {
    let graph = graph(&[("amber", "birch"), ("birch", "cedar")]);
    let query = GraphQuery::new(&graph);
    let report = query.report("amber", Direction::Dependencies, true).unwrap();
    assert!(report.transitive);
    assert_eq!(report.paths.len(), 2);
    assert_eq!(report.start, "amber");
    assert_eq!(report.schema_version, SCHEMA_VERSION);
    assert!(query.report("missing", Direction::Dependencies, true).is_none());
}

#[test]
fn uncertainty_counts_every_outcome() {
    let mut graph = graph(&[("amber", "birch"), ("birch", "amber"), ("amber", "amber")]);
    graph.references[1].outcome = Resolution::Ambiguous {
        candidates: vec!["amber".to_owned()],
    };
    let counts = UncertaintyCounts::of(&graph);
    assert_eq!(counts.resolved, 2);
    assert_eq!(counts.ambiguous, 1);
    assert_eq!(counts.external, 0);
    assert_eq!(counts.unknown, 0);
}

// ---- integrity ----

#[test]
fn a_consistent_graph_validates() {
    let graph = graph(&[("amber", "birch"), ("birch", "cedar")]);
    assert!(graph.validate(CAPSULE).is_ok());
}

#[test]
fn graph_integrity_rejects_a_dangling_node() {
    let mut graph = graph(&[("amber", "birch")]);
    graph.nodes.pop();
    assert!(matches!(
        graph.validate(CAPSULE),
        Err(IntegrityError::DanglingNode(_))
    ));
}

#[test]
fn graph_integrity_rejects_dangling_evidence() {
    let mut graph = graph(&[("amber", "birch")]);
    graph.references.clear();
    assert!(matches!(
        graph.validate(CAPSULE),
        Err(IntegrityError::DanglingEvidence(_))
    ));
}

#[test]
fn graph_integrity_rejects_build_identity_tampering() {
    let mut graph = graph(&[("amber", "birch")]);
    graph.build.id = "not-the-capsule-digest".to_owned();
    assert!(matches!(
        graph.validate(CAPSULE),
        Err(IntegrityError::BuildIdentityMismatch)
    ));
}

#[test]
fn graph_integrity_rejects_a_dangling_resolution() {
    let mut graph = graph(&[("amber", "birch")]);
    graph.references[0].outcome = Resolution::Resolved {
        node: "missing".to_owned(),
    };
    assert!(matches!(
        graph.validate(CAPSULE),
        Err(IntegrityError::DanglingNode(node)) if node == "missing"
    ));
}

#[test]
fn graph_integrity_requires_edge_evidence() {
    let mut graph = graph(&[("amber", "birch")]);
    graph.edges[0].evidence.clear();
    assert!(matches!(
        graph.validate(CAPSULE),
        Err(IntegrityError::MissingEvidence(_))
    ));
}

#[test]
fn graph_integrity_rejects_empty_ambiguity() {
    let mut graph = graph(&[("amber", "birch")]);
    graph.references[0].outcome = Resolution::Ambiguous {
        candidates: Vec::new(),
    };
    assert!(matches!(
        graph.validate(CAPSULE),
        Err(IntegrityError::EmptyCandidateSet(_))
    ));
}

#[test]
fn graph_integrity_checks_external_outcome_against_node_scope() {
    let mut graph = graph(&[("amber", "birch")]);
    graph.references[0].outcome = Resolution::External {
        node: "birch".to_owned(),
    };
    assert!(matches!(
        graph.validate(CAPSULE),
        Err(IntegrityError::ResolutionScopeMismatch(_))
    ));
}

#[test]
fn graph_integrity_rejects_an_unsupported_schema() {
    let mut graph = graph(&[("amber", "birch")]);
    graph.schema_version = SCHEMA_VERSION + 1;
    assert!(matches!(
        graph.validate(CAPSULE),
        Err(IntegrityError::UnsupportedSchema(v)) if v == SCHEMA_VERSION + 1
    ));
}

#[test]
fn graph_integrity_rejects_duplicates() {
    let mut nodes = graph(&[("amber", "birch")]);
    let copy = GraphNode {
        id: "amber".to_owned(),
        semantic_key: "amber".to_owned(),
        language: "sample".to_owned(),
        kind: NodeKind::Callable,
        provider_kind: "Function".to_owned(),
        display_name: "amber".to_owned(),
        scope: NodeScope::Workspace,
        definitions: Vec::new(),
        enclosing: None,
        provenance: provenance(),
    };
    nodes.nodes.push(copy);
    assert!(matches!(nodes.validate(CAPSULE), Err(IntegrityError::DuplicateNode)));

    let mut edges = graph(&[("amber", "birch"), ("birch", "amber")]);
    edges.edges[1].id = "edge-0".to_owned();
    assert!(matches!(edges.validate(CAPSULE), Err(IntegrityError::DuplicateEdge)));

    let mut refs = graph(&[("amber", "birch"), ("birch", "amber")]);
    refs.references[1].id = "reference-0".to_owned();
    assert!(matches!(
        refs.validate(CAPSULE),
        Err(IntegrityError::DuplicateReference(id)) if id == "reference-0"
    ));
}
