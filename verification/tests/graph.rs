use beholder::graph::{build, components, count_components, degrees, Degree, Graph};
use beholder::lang::{rust_optional_trailing, ImportSyntax, LanguageDef, ModulePathRules};
use beholder::phase1::FileAnalysis;
use beholder::resolve::{Edge, ResolutionStats};
use beholder::symbol::{symbol_id, Symbol};

fn table() -> Vec<LanguageDef> {
    vec![LanguageDef {
        id: "rust".to_owned(),
        extensions: vec!["rs".to_owned()],
        symbols_query: String::new(),
        scopes_query: String::new(),
        complexity_query: String::new(),
        discriminators_query: String::new(),
        references_query: String::new(),
        imports_query: String::new(),
        import_syntax: ImportSyntax::rust(),
        module_paths: ModulePathRules::rust(),
        path_separator: "::".to_owned(),
        optional_trailing: rust_optional_trailing(),
    }]
}

fn sym(path: &str, kind: &str, qualified: &str) -> Symbol {
    Symbol {
        id: symbol_id("rust", path, kind, qualified, None, None),
        path: path.to_owned(),
        language: "rust".to_owned(),
        kind: kind.to_owned(),
        name: qualified.rsplit("::").next().unwrap().to_owned(),
        qualified_path: qualified.to_owned(),
        discriminator: None,
        start_line: 1,
        start_column: 0,
        end_line: 1,
        end_column: 1,
        declaration: None,
        cognitive_complexity: 0,
        tier: 1,
        content_fingerprint: String::new(),
        body_fingerprint: String::new(),
    }
}

fn file(path: &str, symbols: Vec<Symbol>) -> FileAnalysis {
    FileAnalysis {
        path: path.to_owned(),
        language: Some("rust".to_owned()),
        content_hash: String::new(),
        tier: 1,
        lines: symbols.len(),
        symbols,
        module_segments: Vec::new(),
        occurrences: Vec::new(),
        imports: Vec::new(),
    }
}

fn edge(from: &Symbol, to: &Symbol) -> Edge {
    Edge {
        from: from.id.clone(),
        to: to.id.clone(),
        kind: "call".to_owned(),
    }
}

fn stats() -> ResolutionStats {
    ResolutionStats {
        occurrences: 0,
        resolved: 0,
        unresolved: Vec::new(),
    }
}

fn degree<'a>(graph: &'a Graph, id: &str) -> &'a Degree {
    &graph.degree.iter().find(|(k, _)| k == id).unwrap().1
}

fn per_file(graph: &Graph, path: &str) -> usize {
    graph.components_per_file.iter().find(|(p, _)| p == path).unwrap().1
}

fn component(graph: &Graph, id: &str) -> usize {
    graph.component.iter().find(|(k, _)| k == id).unwrap().1
}

#[test]
fn fan_in_and_fan_out_are_separate_values() {
    let (a, b, shared) = (
        sym("src/lib.rs", "function", "a"),
        sym("src/lib.rs", "function", "b"),
        sym("src/lib.rs", "function", "shared"),
    );
    let edges = vec![edge(&a, &shared), edge(&b, &shared)];
    let files = vec![file("src/lib.rs", vec![a, b, shared])];
    let graph = build(&files, &table(), edges, stats());

    let shared = degree(&graph, "rust:src/lib.rs:function:shared");
    assert_eq!(shared.fan_in, 2);
    assert_eq!(shared.fan_out, 0);

    let caller = degree(&graph, "rust:src/lib.rs:function:a");
    assert_eq!(caller.fan_in, 0);
    assert_eq!(caller.fan_out, 1);
}

#[test]
fn degree_counts_distinct_partners_not_occurrences() {
    let (caller, once) = (
        sym("src/lib.rs", "function", "caller"),
        sym("src/lib.rs", "function", "once"),
    );
    let edges = vec![edge(&caller, &once), edge(&caller, &once), edge(&caller, &once)];
    let d = degrees(&edges);
    assert_eq!(d.len(), 2);
    assert_eq!(d[0].0, "rust:src/lib.rs:function:caller");
    assert_eq!(d[0].1.fan_out, 1);
    assert_eq!(d[1].1.fan_in, 1);
}

#[test]
fn a_cohesive_file_is_one_component() {
    let ledger = sym("src/lib.rs", "type", "Ledger");
    let tally = sym("src/lib.rs", "function", "Ledger::tally");
    let helper = sym("src/lib.rs", "function", "Ledger::helper");
    let edges = vec![edge(&tally, &helper)];
    let files = vec![file("src/lib.rs", vec![ledger, tally, helper])];
    let graph = build(&files, &table(), edges, stats());

    assert_eq!(per_file(&graph, "src/lib.rs"), 1);
}

#[test]
fn a_type_and_its_methods_are_one_component() {
    let symbols = vec![
        sym("src/lib.rs", "type", "Ledger"),
        sym("src/lib.rs", "function", "Ledger::tally"),
        sym("src/lib.rs", "type", "Paint"),
        sym("src/lib.rs", "function", "Paint::draw"),
        sym("src/lib.rs", "function", "<Ledger as Paint>::draw"),
    ];
    let files = vec![file("src/lib.rs", symbols)];
    let graph = build(&files, &table(), Vec::new(), stats());

    assert_eq!(per_file(&graph, "src/lib.rs"), 1);
}

#[test]
fn unrelated_neighbours_are_separate_components() {
    let (a1, a2, b1, b2) = (
        sym("src/lib.rs", "function", "a1"),
        sym("src/lib.rs", "function", "a2"),
        sym("src/lib.rs", "function", "b1"),
        sym("src/lib.rs", "function", "b2"),
    );
    let edges = vec![edge(&a1, &a2), edge(&b1, &b2)];
    let files = vec![file("src/lib.rs", vec![a1, a2, b1, b2])];
    let graph = build(&files, &table(), edges, stats());

    assert_eq!(per_file(&graph, "src/lib.rs"), 2);
    assert_eq!(
        component(&graph, "rust:src/lib.rs:function:a1"),
        component(&graph, "rust:src/lib.rs:function:a2")
    );
    assert_ne!(
        component(&graph, "rust:src/lib.rs:function:a1"),
        component(&graph, "rust:src/lib.rs:function:b1")
    );
}

#[test]
fn cross_file_edges_do_not_join_components() {
    let assist = sym("src/helper.rs", "function", "assist");
    let (a, b) = (sym("src/lib.rs", "function", "a"), sym("src/lib.rs", "function", "b"));
    let edges = vec![edge(&a, &assist), edge(&b, &assist)];
    let files = vec![
        file("src/helper.rs", vec![assist]),
        file("src/lib.rs", vec![a, b]),
    ];
    let graph = build(&files, &table(), edges, stats());

    assert_eq!(per_file(&graph, "src/lib.rs"), 2);
    assert_eq!(per_file(&graph, "src/helper.rs"), 1);
}

#[test]
fn components_are_numbered_in_symbol_order() {
    let symbols = vec![
        sym("a.rs", "function", "x"),
        sym("a.rs", "function", "y"),
        sym("a.rs", "function", "z"),
    ];
    let edges = vec![edge(&symbols[2], &symbols[0])];
    let assignment = components(&symbols, "::", &edges);
    let labels: Vec<usize> = assignment.iter().map(|(_, l)| *l).collect();
    assert_eq!(labels, [0, 1, 0]);
    assert_eq!(count_components(&assignment), 2);
    assert_eq!(count_components(&Vec::new()), 0);
}
