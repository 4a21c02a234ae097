use protobuf::Message;
use beholder::code_graph::model::{
    BuildIdentity, CompilationUnit, EdgeKind, Knowledge, KnowledgeState, NodeScope,
    PositionEncoding, Resolution, UnknownReasonKind,
};
use beholder::code_graph::scip_provider::{
    input_digest, ScipDiagnostic, ScipDocument, ScipIndex, ScipOccurrence, ScipProvider,
    ScipProviderError, ScipRelationship, ScipSymbol, ScipToolInfo,
};
use beholder::code_graph::model::DiagnosticSeverity;
use beholder::code_graph::capsule::normalize_capsule;

const DEFINITION: i32 = 1;
const IMPORT: i32 = 2;

fn provider(bytes: &[u8]) -> ScipProvider {
    ScipProvider {
        build: BuildIdentity {
            id: String::new(),
            repository: Knowledge::declared("repository-sample".to_owned()),
            revision: Knowledge::unknown(),
            dirty: Knowledge::unknown(),
            source_digest: Knowledge::unknown(),
            configuration_digest: Knowledge::unknown(),
            provider_input_digest: input_digest(bytes),
            units: Knowledge::declared(vec![CompilationUnit {
                id: "unit-sample".to_owned(),
                language: "rust".to_owned(),
                name: "sample".to_owned(),
                kind: "library".to_owned(),
                source_roots: vec!["src".to_owned()],
                target: Knowledge::unknown(),
                features: Knowledge::unknown(),
            }]),
        },
        requested_roots: vec!["src".to_owned()],
        limitations: vec!["test input".to_owned()],
    }
}

fn index(documents: Vec<ScipDocument>, external_symbols: Vec<ScipSymbol>) -> ScipIndex {
    ScipIndex {
        tool: Some(ScipToolInfo {
            name: "sample-provider".to_owned(),
            version: "1".to_owned(),
            arguments: Vec::new(),
        }),
        documents,
        external_symbols,
    }
}

fn document(path: &str, occurrences: Vec<ScipOccurrence>, symbols: Vec<ScipSymbol>) -> ScipDocument {
    ScipDocument {
        relative_path: path.to_owned(),
        language: "rust".to_owned(),
        position_encoding: PositionEncoding::Unknown,
        symbols,
        occurrences,
    }
}

fn information(symbol: &str, display_name: &str, kind: &str) -> ScipSymbol {
    ScipSymbol {
        symbol: symbol.to_owned(),
        kind: Some(kind.to_owned()),
        display_name: display_name.to_owned(),
        enclosing_symbol: String::new(),
        relationships: Vec::new(),
    }
}

fn definition(symbol: &str, range: [i32; 3], body: [i32; 4]) -> ScipOccurrence {
    ScipOccurrence {
        range: range.to_vec(),
        symbol: symbol.to_owned(),
        symbol_roles: DEFINITION,
        diagnostics: Vec::new(),
        enclosing_range: body.to_vec(),
    }
}

fn reference(symbol: &str, range: [i32; 3], roles: i32) -> ScipOccurrence {
    ScipOccurrence {
        range: range.to_vec(),
        symbol: symbol.to_owned(),
        symbol_roles: roles,
        diagnostics: Vec::new(),
        enclosing_range: Vec::new(),
    }
}

fn relationship(symbol: &str, reference: bool, definition: bool) -> ScipRelationship {
    ScipRelationship {
        symbol: symbol.to_owned(),
        is_reference: reference,
        is_implementation: false,
        is_type_definition: false,
        is_definition: definition,
    }
}

const BUILD: &str = "build-sample";

fn produce(index: &ScipIndex) -> beholder::code_graph::model::CodeGraph {
    let bytes = b"sample input";
    let provider = provider(bytes);
    assert!(provider.check_input(bytes).is_ok());
    match provider.import(index, BUILD) {
        Ok(graph) => graph,
        Err(_) => panic!("the index did not import"),
    }
}

#[test]
fn provider_input_digest_is_load_bearing() {
    let bytes = b"sample input";
    let mut provider = provider(bytes);
    provider.build.provider_input_digest = "previous-output".to_owned();

    assert!(matches!(
        provider.check_input(bytes),
        Err(ScipProviderError::InputDigestMismatch { .. })
    ));
}

#[test]
fn local_symbols_are_document_scoped() {
    let first = document(
        "first.rs",
        vec![definition("local 0", [0, 3, 8], [0, 0, 1, 0])],
        vec![information("local 0", "first", "Variable")],
    );
    let second = document(
        "second.rs",
        vec![definition("local 0", [0, 3, 8], [0, 0, 1, 0])],
        vec![information("local 0", "second", "Variable")],
    );
    let graph = produce(&index(vec![first, second], vec![]));
    let locals = graph
        .nodes
        .iter()
        .filter(|node| node.scope == NodeScope::Local)
        .collect::<Vec<_>>();

    assert_eq!(locals.len(), 2);
    assert_ne!(locals[0].id, locals[1].id);
    assert_ne!(locals[0].semantic_key, locals[1].semantic_key);
}

#[test]
fn node_ids_are_snapshot_local() {
    let index = index(
        vec![document(
            "sample.rs",
            vec![definition("local 0", [0, 3, 8], [0, 0, 1, 0])],
            vec![information("local 0", "sample", "Variable")],
        )],
        vec![],
    );
    let bytes = b"sample input";
    let first = provider(bytes).import(&index, "first-build").ok().unwrap();
    let second = provider(bytes).import(&index, "second-build").ok().unwrap();

    assert_ne!(first.build.id, second.build.id);
    assert_ne!(first.nodes[0].id, second.nodes[0].id);
}

#[test]
fn provider_diagnostics_retain_location_and_provenance() {
    let mut occurrence = definition("local 0", [0, 3, 8], [0, 0, 1, 0]);
    occurrence.diagnostics.push(ScipDiagnostic {
        severity: DiagnosticSeverity::Warning,
        code: "sample-warning".to_owned(),
        message: "sample diagnostic".to_owned(),
    });
    let graph = produce(&index(
        vec![document(
            "sample.rs",
            vec![occurrence],
            vec![information("local 0", "sample", "Variable")],
        )],
        vec![],
    ));
    assert_eq!(graph.diagnostics[0].code, "sample-warning");
    assert_eq!(graph.diagnostics[0].location.as_ref().unwrap().path, "sample.rs");
    assert_eq!(graph.diagnostics[0].provenance.provider, "scip");
}

#[test]
fn import_role_creates_an_import_edge() {
    let occurrences = vec![
        definition("sample pkg 1 amber().", [0, 3, 8], [0, 0, 3, 0]),
        definition("sample pkg 1 birch().", [4, 3, 8], [4, 0, 5, 0]),
        reference("sample pkg 1 birch().", [1, 4, 9], IMPORT),
    ];
    let symbols = vec![
        information("sample pkg 1 amber().", "amber", "Function"),
        information("sample pkg 1 birch().", "birch", "Function"),
    ];
    let graph = produce(&index(vec![document("sample.rs", occurrences, symbols)], vec![]));

    assert_eq!(graph.edges.len(), 1);
    assert!(matches!(graph.edges[0].kind, EdgeKind::Import));
}

#[test]
fn ambiguous_target_emits_no_edge() {
    let occurrences = vec![
        definition("sample pkg 1 amber().", [0, 3, 8], [0, 0, 3, 0]),
        definition("sample pkg 1 birch().", [4, 3, 8], [4, 0, 5, 0]),
        definition("sample pkg 1 cedar().", [6, 3, 8], [6, 0, 7, 0]),
        reference("sample pkg 1 birch().", [1, 4, 9], 0),
        reference("sample pkg 1 cedar().", [1, 4, 9], 0),
    ];
    let symbols = vec![
        information("sample pkg 1 amber().", "amber", "Function"),
        information("sample pkg 1 birch().", "birch", "Function"),
        information("sample pkg 1 cedar().", "cedar", "Function"),
    ];
    let graph = produce(&index(vec![document("sample.rs", occurrences, symbols)], vec![]));

    assert!(graph.edges.is_empty());
    assert!(matches!(graph.references[0].outcome, Resolution::Ambiguous { .. }));
}

#[test]
fn definition_relationships_retarget_aliases_and_emit_typed_edges() {
    let target = "sample pkg 1 birch().";
    let alias = "sample pkg 1 alias().";
    let mut alias_information = information(alias, "alias", "Function");
    alias_information.relationships.push(relationship(target, true, true));
    let occurrences = vec![
        definition("sample pkg 1 amber().", [0, 3, 8], [0, 0, 3, 0]),
        definition(alias, [4, 3, 8], [4, 0, 5, 0]),
        definition(target, [6, 3, 8], [6, 0, 7, 0]),
        reference(alias, [1, 4, 9], 0),
    ];
    let symbols = vec![
        information("sample pkg 1 amber().", "amber", "Function"),
        alias_information,
        information(target, "birch", "Function"),
    ];
    let graph = produce(&index(vec![document("sample.rs", occurrences, symbols)], vec![]));

    assert!(graph.edges.iter().any(|edge| matches!(edge.kind, EdgeKind::DefinitionAlias)));
    assert!(graph.edges.iter().any(|edge| matches!(edge.kind, EdgeKind::Reference)));
    let occurrence = graph
        .references
        .iter()
        .find(|fact| fact.location.is_some())
        .unwrap();
    let node = match &occurrence.outcome {
        Resolution::Resolved { node } => node,
        _ => panic!("alias occurrence was not resolved"),
    };
    assert_eq!(
        graph
            .nodes
            .iter()
            .find(|candidate| &candidate.id == node)
            .unwrap()
            .display_name,
        "birch"
    );
}

#[test]
fn duplicate_occurrences_retain_every_evidence_record() {
    let occurrences = vec![
        definition("sample pkg 1 amber().", [0, 3, 8], [0, 0, 4, 0]),
        definition("sample pkg 1 birch().", [5, 3, 8], [5, 0, 6, 0]),
        reference("sample pkg 1 birch().", [1, 4, 9], 0),
        reference("sample pkg 1 birch().", [2, 4, 9], 0),
    ];
    let symbols = vec![
        information("sample pkg 1 amber().", "amber", "Function"),
        information("sample pkg 1 birch().", "birch", "Function"),
    ];
    let graph = produce(&index(vec![document("sample.rs", occurrences, symbols)], vec![]));

    assert_eq!(graph.edges.len(), 1);
    assert_eq!(graph.edges[0].evidence.len(), 2);
}

#[test]
fn duplicate_symbol_relationships_retain_distinct_evidence_ids() {
    let source = "sample pkg 1 amber().";
    let target = "sample pkg 1 birch().";
    let source_information = || {
        let mut info = information(source, "amber", "Function");
        info.relationships.push(relationship(target, true, false));
        info
    };
    let graph = produce(&index(
        vec![document(
            "sample.rs",
            vec![
                definition(source, [0, 3, 8], [0, 0, 1, 0]),
                definition(target, [2, 3, 8], [2, 0, 3, 0]),
            ],
            vec![
                source_information(),
                source_information(),
                information(target, "birch", "Function"),
            ],
        )],
        vec![],
    ));
    assert_eq!(graph.edges.len(), 1);
    assert_eq!(graph.edges[0].evidence.len(), 2);
    assert_ne!(graph.edges[0].evidence[0], graph.edges[0].evidence[1]);
}

#[test]
fn duplicate_document_records_retain_distinct_evidence_ids() {
    let source = "sample pkg 1 amber().";
    let target = "sample pkg 1 birch().";
    let make = || {
        document(
            "sample.rs",
            vec![
                definition(source, [0, 3, 8], [0, 0, 2, 0]),
                definition(target, [3, 3, 8], [3, 0, 4, 0]),
                reference(target, [1, 3, 8], 0),
            ],
            vec![
                information(source, "amber", "Function"),
                information(target, "birch", "Function"),
            ],
        )
    };
    let graph = produce(&index(vec![make(), make()], vec![]));
    assert_eq!(graph.edges.len(), 1);
    assert_eq!(graph.edges[0].evidence.len(), 2);
    assert_ne!(graph.edges[0].evidence[0], graph.edges[0].evidence[1]);
}

#[test]
fn external_and_unknown_outcomes_are_distinct() {
    let external_symbol = information("sample pkg 1 external().", "external", "Function");
    let occurrences = vec![
        definition("sample pkg 1 amber().", [0, 3, 8], [0, 0, 4, 0]),
        reference("sample pkg 1 external().", [1, 4, 9], 0),
        reference("sample pkg 1 absent().", [2, 4, 9], 0),
    ];
    let symbols = vec![information("sample pkg 1 amber().", "amber", "Function")];
    let graph = produce(&index(
        vec![document("sample.rs", occurrences, symbols)],
        vec![external_symbol],
    ));

    assert!(graph
        .references
        .iter()
        .any(|fact| matches!(fact.outcome, Resolution::External { .. })));
    assert!(graph.references.iter().any(|fact| match &fact.outcome {
        Resolution::Unknown { reason } =>
            reason.kind == UnknownReasonKind::ProviderOmission && reason.details.contains("absent"),
        _ => false,
    }));
    assert_eq!(graph.edges.len(), 1, "external facts remain graph edges");
}

#[test]
fn source_locations_retain_document_position_encoding() {
    let mut source = document(
        "sample.rs",
        vec![
            definition("sample pkg 1 amber().", [0, 3, 8], [0, 0, 2, 0]),
            reference("sample pkg 1 amber().", [1, 4, 9], 0),
        ],
        vec![information("sample pkg 1 amber().", "amber", "Function")],
    );
    source.position_encoding = PositionEncoding::Utf16CodeUnit;
    let graph = produce(&index(vec![source], vec![]));

    assert!(graph.nodes.iter().all(|node| node
        .definitions
        .iter()
        .all(|location| location.encoding == PositionEncoding::Utf16CodeUnit)));
    assert!(graph
        .references
        .iter()
        .filter_map(|fact| fact.location.as_ref())
        .all(|location| location.encoding == PositionEncoding::Utf16CodeUnit));
}

#[test]
fn definition_alias_to_external_symbol_stays_external() {
    let target = "sample pkg 1 external().";
    let alias = "sample pkg 1 alias().";
    let mut alias_information = information(alias, "alias", "Function");
    alias_information.relationships.push(relationship(target, false, true));
    let occurrences = vec![
        definition("sample pkg 1 amber().", [0, 3, 8], [0, 0, 3, 0]),
        definition(alias, [4, 3, 8], [4, 0, 5, 0]),
        reference(alias, [1, 4, 9], 0),
    ];
    let symbols = vec![
        information("sample pkg 1 amber().", "amber", "Function"),
        alias_information,
    ];
    let graph = produce(&index(
        vec![document("sample.rs", occurrences, symbols)],
        vec![information(target, "external", "Function")],
    ));
    assert!(graph.references.iter().any(|fact| {
        fact.location.is_some() && matches!(fact.outcome, Resolution::External { .. })
    }));
}

#[test]
fn document_path_outside_root_is_opaque_external_scope() {
    for unsafe_path in ["../outside.rs", "C:/Users/example/outside.rs"] {
        let graph = produce(&index(
            vec![document(
                unsafe_path,
                vec![definition("local 0", [0, 0, 1], [0, 0, 0, 1])],
                vec![],
            )],
            vec![],
        ));
        assert!(graph.nodes.is_empty());
        assert_eq!(graph.scope.external_documents.len(), 1);
        assert!(graph.scope.external_documents[0].starts_with("external:"));
        assert!(!graph.scope.external_documents[0].contains("outside"));
    }
}

#[test]
fn incomplete_capsule_fields_stay_explicitly_unknown() {
    let graph = produce(&index(vec![], vec![]));
    assert_eq!(graph.build.revision.state, KnowledgeState::Unknown);
    assert_eq!(graph.producer.invocation.state, KnowledgeState::Unknown);
    assert_eq!(
        graph.build.units.value.as_ref().unwrap()[0].features.state,
        KnowledgeState::Unknown
    );
}

#[test]
fn absent_provider_language_is_explicitly_unknown() {
    let mut source = document(
        "sample.py",
        vec![definition("local 0", [0, 0, 1], [0, 0, 0, 1])],
        vec![information("local 0", "sample", "Variable")],
    );
    source.language.clear();
    let graph = produce(&index(vec![source], vec![]));
    assert_eq!(graph.scope.languages, vec!["unknown".to_owned()]);
    assert_eq!(graph.nodes[0].language, "unknown");
}

#[test]
fn malformed_inputs_are_refused_by_name() {
    let bytes = b"sample input";
    let nameless = index(vec![document("", vec![], vec![])], vec![]);
    assert!(matches!(
        provider(bytes).import(&nameless, BUILD),
        Err(ScipProviderError::InvalidPath(p)) if p.is_empty()
    ));
    let bad_range = index(
        vec![document("a.rs", vec![definition("local 0", [0, 5, 1], [0, 0, 0, 1])], vec![])],
        vec![],
    );
    assert!(matches!(
        provider(bytes).import(&bad_range, BUILD),
        Err(ScipProviderError::MalformedRange(p)) if p == "a.rs"
    ));
}

#[test]
fn languages_are_lowercased_and_the_producer_is_named() {
    let mut source = document("a.rs", vec![], vec![]);
    source.language = "Rust".to_owned();
    let graph = produce(&index(vec![source], vec![]));
    assert_eq!(graph.scope.languages, vec!["rust".to_owned()]);
    assert_eq!(graph.scope.included_documents, vec!["a.rs".to_owned()]);
    assert_eq!(graph.producer.name, "sample-provider");
    assert_eq!(graph.producer.version.value.as_deref(), Some("1"));
    assert_eq!(graph.producer.input_format, "scip@0.9.0;beholder-adapter@0.1.0");
    assert_eq!(graph.validations.len(), 2);
    assert_eq!(graph.build.id, BUILD);
}

#[test]
fn capsule_identity_canonicalizes_requested_root_order() {
    let bytes: Vec<u8> = Vec::new();
    let mut first = provider(&bytes);
    first.requested_roots = vec!["src".to_owned(), "tests".to_owned()];
    let mut second = provider(&bytes);
    second.requested_roots = vec!["tests".to_owned(), "src".to_owned(), "src".to_owned()];

    let (_, first_roots) = normalize_capsule(&first.build, &first.requested_roots);
    let (_, second_roots) = normalize_capsule(&second.build, &second.requested_roots);
    assert_eq!(first_roots, second_roots);
    assert_eq!(first_roots, vec!["src".to_owned(), "tests".to_owned()]);
}

fn unit(id: &str, name: &str, roots: &[&str], features: Option<&[&str]>) -> CompilationUnit {
    CompilationUnit {
        id: id.to_owned(),
        language: "rust".to_owned(),
        name: name.to_owned(),
        kind: "library".to_owned(),
        source_roots: roots.iter().map(|root| root.to_string()).collect(),
        target: Knowledge::unknown(),
        features: match features {
            Some(list) => Knowledge::declared(list.iter().map(|f| f.to_string()).collect()),
            None => Knowledge::unknown(),
        },
    }
}

#[test]
fn capsule_form_orders_units_and_their_lists_and_drops_the_id() {
    let mut build = provider(&[]).build;
    build.id = "previous-identity".to_owned();
    build.units = Knowledge::declared(vec![
        unit("unit-b", "second", &["tests", "src", "tests"], Some(&["std", "alloc", "std"])),
        unit("unit-a", "first", &["src"], None),
        unit("unit-b", "alpha", &["src"], Some(&[])),
    ]);
    let (normalized, roots) = normalize_capsule(&build, &vec!["b".to_owned(), "a".to_owned()]);
    assert_eq!(roots, vec!["a".to_owned(), "b".to_owned()]);
    assert_eq!(normalized.id, "");
    assert_eq!(normalized.provider_input_digest, build.provider_input_digest);
    assert_eq!(normalized.units.state, KnowledgeState::Declared);
    let units = normalized.units.value.unwrap();
    let names: Vec<&str> = units.iter().map(|u| u.name.as_str()).collect();
    assert_eq!(names, vec!["first", "alpha", "second"]);
    assert_eq!(units[2].source_roots, vec!["src".to_owned(), "tests".to_owned()]);
    assert_eq!(units[2].features.value, Some(vec!["alloc".to_owned(), "std".to_owned()]));
    assert_eq!(units[0].features.state, KnowledgeState::Unknown);
    assert!(units[0].features.value.is_none());
}

fn encoded_index() -> Vec<u8> {

    let mut index = scip::types::Index::new();
    let mut tool = scip::types::ToolInfo::new();
    tool.name = "sample-provider".to_owned();
    tool.version = "1".to_owned();
    index.metadata.mut_or_insert_default().tool_info = protobuf::MessageField::some(tool);
    let mut document = scip::types::Document::new();
    document.relative_path = "sample.rs".to_owned();
    document.language = "rust".to_owned();
    let mut occurrence = scip::types::Occurrence::new();
    occurrence.range = vec![0, 3, 8];
    occurrence.symbol = "sample pkg 1 amber().".to_owned();
    occurrence.symbol_roles = DEFINITION;
    let mut diagnostic = scip::types::Diagnostic::new();
    diagnostic.code = "sample-warning".to_owned();
    diagnostic.message = "sample diagnostic".to_owned();
    diagnostic.severity = scip::types::Severity::Warning.into();
    occurrence.diagnostics.push(diagnostic);
    document.occurrences.push(occurrence);
    let mut information = scip::types::SymbolInformation::new();
    information.symbol = "sample pkg 1 amber().".to_owned();
    information.display_name = "amber".to_owned();
    information.kind = scip::types::symbol_information::Kind::Function.into();
    let mut relationship = scip::types::Relationship::new();
    relationship.symbol = "sample pkg 1 birch().".to_owned();
    relationship.is_reference = true;
    information.relationships.push(relationship);
    document.symbols.push(information);
    index.documents.push(document);
    let mut external = scip::types::SymbolInformation::new();
    external.symbol = "sample pkg 1 birch().".to_owned();
    index.external_symbols.push(external);
    index.write_to_bytes().unwrap()
}

#[test]
fn decoding_reads_every_part_of_the_index() {
    let decoded = beholder::code_graph::scip_decode::decode(&encoded_index()).ok().unwrap();
    let tool = decoded.tool.unwrap();
    assert_eq!(tool.name, "sample-provider");
    assert_eq!(tool.version, "1");
    assert_eq!(decoded.documents.len(), 1);
    let document = &decoded.documents[0];
    assert_eq!(document.relative_path, "sample.rs");
    assert_eq!(document.language, "rust");
    assert_eq!(document.position_encoding, PositionEncoding::Unknown);
    assert_eq!(document.occurrences.len(), 1);
    assert_eq!(document.occurrences[0].range, vec![0, 3, 8]);
    assert_eq!(document.occurrences[0].symbol_roles, DEFINITION);
    assert_eq!(document.occurrences[0].diagnostics.len(), 1);
    assert_eq!(document.occurrences[0].diagnostics[0].severity, DiagnosticSeverity::Warning);
    assert_eq!(document.occurrences[0].diagnostics[0].code, "sample-warning");
    assert_eq!(document.symbols.len(), 1);
    assert_eq!(document.symbols[0].display_name, "amber");
    assert_eq!(document.symbols[0].kind, Some("Function".to_owned()));
    assert_eq!(document.symbols[0].relationships.len(), 1);
    assert!(document.symbols[0].relationships[0].is_reference);
    assert_eq!(decoded.external_symbols.len(), 1);
    assert_eq!(decoded.external_symbols[0].symbol, "sample pkg 1 birch().");
}

#[test]
fn bytes_that_are_no_index_are_refused() {
    match beholder::code_graph::scip_decode::decode(&[0xff, 0xff, 0xff]) {
        Err(ScipProviderError::Decode(detail)) => assert!(!detail.is_empty()),
        _ => panic!("expected a decode refusal"),
    }
}

#[test]
fn production_checks_the_input_then_decodes_and_imports() {
    let bytes = encoded_index();
    let graph = provider(&bytes).produce(&bytes, "build-sample").ok().unwrap();
    assert_eq!(graph.build.id, "build-sample");
    assert!(graph.nodes.len() >= 2);
    assert!(matches!(
        provider(&[1, 2, 3]).produce(&bytes, "build-sample"),
        Err(ScipProviderError::InputDigestMismatch { .. })
    ));
}

#[test]
fn production_names_both_digests_when_the_input_is_stale() {
    let bytes = encoded_index();
    let stale = provider(b"previous-output");
    match stale.produce(&bytes, "build-sample") {
        Err(ScipProviderError::InputDigestMismatch { expected, actual }) => {
            assert_eq!(expected, input_digest(b"previous-output"));
            assert_eq!(actual, input_digest(&bytes));
        }
        _ => panic!("expected a digest refusal"),
    }
}

#[test]
fn production_refuses_bytes_that_are_no_index() {
    let bytes = [0xffu8, 0xff, 0xff];
    assert!(matches!(
        provider(&bytes).produce(&bytes, "build-sample"),
        Err(ScipProviderError::Decode(_))
    ));
}

#[test]
fn a_location_mixing_import_and_plain_uses_is_a_plain_reference() {
    let occurrences = vec![
        definition("sample pkg 1 amber().", [0, 3, 8], [0, 0, 3, 0]),
        definition("sample pkg 1 birch().", [4, 3, 8], [4, 0, 5, 0]),
        reference("sample pkg 1 birch().", [1, 4, 9], IMPORT),
        reference("sample pkg 1 birch().", [1, 4, 9], 0),
    ];
    let symbols = vec![
        information("sample pkg 1 amber().", "amber", "Function"),
        information("sample pkg 1 birch().", "birch", "Function"),
    ];
    let graph = produce(&index(vec![document("sample.rs", occurrences, symbols)], vec![]));

    assert_eq!(graph.references.len(), 1);
    assert!(matches!(graph.references[0].kind, EdgeKind::Reference));
    assert_eq!(graph.edges.len(), 1);
    assert!(matches!(graph.edges[0].kind, EdgeKind::Reference));
}

#[test]
fn the_innermost_covering_definition_is_the_source() {
    let occurrences = vec![
        definition("sample pkg 1 amber().", [0, 3, 8], [0, 0, 9, 0]),
        definition("sample pkg 1 birch().", [2, 3, 8], [2, 0, 4, 0]),
        definition("sample pkg 1 cedar().", [10, 3, 8], [10, 0, 11, 0]),
        reference("sample pkg 1 cedar().", [3, 4, 9], 0),
        reference("sample pkg 1 cedar().", [7, 4, 9], 0),
        reference("sample pkg 1 amber().", [12, 4, 9], 0),
    ];
    let symbols = vec![
        information("sample pkg 1 amber().", "amber", "Function"),
        information("sample pkg 1 birch().", "birch", "Function"),
        information("sample pkg 1 cedar().", "cedar", "Function"),
    ];
    let graph = produce(&index(vec![document("sample.rs", occurrences, symbols)], vec![]));
    let id_of = |name: &str| graph.nodes.iter().find(|n| n.display_name == name).unwrap().id.clone();
    let source_at = |line: u32| {
        graph.references.iter().find(|f| f.location.as_ref().unwrap().range.start_line == line).unwrap().source.clone()
    };

    assert_eq!(source_at(3), Some(id_of("birch")));
    assert_eq!(source_at(7), Some(id_of("amber")));
    assert_eq!(source_at(12), None);
}
