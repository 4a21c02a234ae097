use beholder::code_graph::model::PositionEncoding;
use beholder::code_graph::scip_provider::{ScipDocument, ScipOccurrence};
use beholder::oracle::{
    classify, compare, difference, is_local, pairs_of, project, start_line, SymbolTable,
};
use beholder::phase1::FileAnalysis;
use beholder::resolve::Edge;
use beholder::symbol::{symbol_id, Symbol};

const DEFINITION: i32 = 1;

fn sym(path: &str, qualified: &str, start_line: usize, end_line: usize) -> Symbol {
    Symbol {
        id: symbol_id("rust", path, "function", qualified, None, None),
        path: path.to_owned(),
        language: "rust".to_owned(),
        kind: "function".to_owned(),
        name: qualified.rsplit("::").next().unwrap().to_owned(),
        qualified_path: qualified.to_owned(),
        discriminator: None,
        start_line,
        start_column: 0,
        end_line,
        end_column: 1,
        declaration: None,
        cognitive_complexity: 0,
        tier: 1,
        content_fingerprint: String::new(),
        body_fingerprint: String::new(),
    }
}

fn file(path: &str, symbols: Vec<Symbol>) -> FileAnalysis {
    FileAnalysis {
        path: path.to_owned(),
        language: Some("rust".to_owned()),
        content_hash: String::new(),
        tier: 1,
        lines: 10,
        symbols,
        module_segments: Vec::new(),
        occurrences: Vec::new(),
        imports: Vec::new(),
    }
}

fn occurrence(symbol: &str, line: i32, roles: i32) -> ScipOccurrence {
    ScipOccurrence {
        range: vec![line, 0, 4],
        symbol: symbol.to_owned(),
        symbol_roles: roles,
        diagnostics: Vec::new(),
        enclosing_range: Vec::new(),
    }
}

fn document(path: &str, occurrences: Vec<ScipOccurrence>) -> ScipDocument {
    ScipDocument {
        relative_path: path.to_owned(),
        language: "rust".to_owned(),
        position_encoding: PositionEncoding::Unknown,
        symbols: Vec::new(),
        occurrences,
    }
}

fn pair(from: &str, to: &str) -> (String, String) {
    (from.to_owned(), to.to_owned())
}

/// `outer` spans lines 1-10 with `inner` inside it on 3-5; `Ledger::new`
/// and `other::new` share a simple name; `Paint` is a trait impl method.
fn table() -> SymbolTable {
    SymbolTable::build(&vec![
        file(
            "src/lib.rs",
            vec![sym("src/lib.rs", "outer", 1, 10), sym("src/lib.rs", "inner", 3, 5)],
        ),
        file(
            "src/ledger.rs",
            vec![
                sym("src/ledger.rs", "Ledger::new", 1, 4),
                sym("src/ledger.rs", "other::new", 6, 8),
                sym("src/ledger.rs", "<Canvas as Paint>::draw", 10, 12),
            ],
        ),
    ])
}

fn id(path: &str, qualified: &str) -> String {
    symbol_id("rust", path, "function", qualified, None, None)
}

#[test]
fn a_line_maps_to_the_innermost_symbol_containing_it() {
    let symbols = table();

    assert_eq!(symbols.at("src/lib.rs", 4), Some(&id("src/lib.rs", "inner")));
    assert_eq!(symbols.at("src/lib.rs", 7), Some(&id("src/lib.rs", "outer")));
    assert_eq!(symbols.at("src/lib.rs", 11), None);
    assert_eq!(symbols.at("src/other.rs", 4), None);
}

#[test]
fn symbols_are_classified_by_the_shape_of_their_path() {
    let symbols = table();

    assert_eq!(symbols.class(&id("src/lib.rs", "outer")), "free_item");
    assert_eq!(symbols.class(&id("src/ledger.rs", "Ledger::new")), "associated_item");
    assert_eq!(symbols.class(&id("src/ledger.rs", "<Canvas as Paint>::draw")), "trait_impl_method");
    assert_eq!(symbols.class("rust:nowhere"), "unknown");
}

#[test]
fn a_shared_simple_name_is_ambiguous() {
    let symbols = table();

    assert!(symbols.name_is_ambiguous(&id("src/ledger.rs", "Ledger::new")));
    assert!(!symbols.name_is_ambiguous(&id("src/lib.rs", "outer")));
    assert!(!symbols.name_is_ambiguous("rust:nowhere"));
}

#[test]
fn local_symbols_and_start_lines() {
    assert!(is_local("local 3"));
    assert!(!is_local("rust-analyzer cargo crate 0.1 outer()."));
    assert_eq!(start_line(&vec![4, 0, 2]), 5);
    assert_eq!(start_line(&vec![-2, 0, 2]), 1);
    assert_eq!(start_line(&Vec::new()), 1);
}

#[test]
fn references_become_edges_between_the_symbols_they_land_in() {
    let symbols = table();
    let documents = vec![
        document(
            "src/ledger.rs",
            vec![
                occurrence("scip new", 1, DEFINITION),
                occurrence("scip draw", 10, DEFINITION),
            ],
        ),
        document(
            "src/lib.rs",
            vec![
                occurrence("scip outer", 0, DEFINITION),
                occurrence("scip new", 3, 0),
                occurrence("scip new", 6, 0),
                occurrence("scip outer", 7, 0),
                occurrence("scip missing", 7, 0),
                occurrence("local 1", 7, 0),
                occurrence("scip new", 20, 0),
            ],
        ),
    ];

    let oracle = project(&documents, &symbols);

    assert_eq!(oracle.documents, 2);
    assert_eq!(oracle.occurrences, 5);
    assert_eq!(oracle.outside_model, 2);
    assert_eq!(
        oracle.edges,
        vec![
            pair(&id("src/lib.rs", "inner"), &id("src/ledger.rs", "Ledger::new")),
            pair(&id("src/lib.rs", "outer"), &id("src/ledger.rs", "Ledger::new")),
        ]
    );
}

#[test]
fn the_last_definition_of_a_symbol_wins() {
    let symbols = table();
    let documents = vec![document(
        "src/ledger.rs",
        vec![
            occurrence("scip new", 1, DEFINITION),
            occurrence("scip new", 6, DEFINITION | 4),
            occurrence("scip new", 11, 0),
        ],
    )];

    let oracle = project(&documents, &symbols);

    assert_eq!(
        oracle.edges,
        vec![pair(&id("src/ledger.rs", "<Canvas as Paint>::draw"), &id("src/ledger.rs", "other::new"))]
    );
}

#[test]
fn edge_pairs_drop_kinds_and_repeats() {
    let edge = |from: &str, to: &str, kind: &str| Edge {
        from: from.to_owned(),
        to: to.to_owned(),
        kind: kind.to_owned(),
    };
    let pairs = pairs_of(&vec![edge("b", "c", "call"), edge("a", "c", "call"), edge("b", "c", "type")]);

    assert_eq!(pairs, vec![pair("a", "c"), pair("b", "c")]);
}

#[test]
fn disagreements_are_counted_and_classified() {
    let symbols = table();
    let outer = id("src/lib.rs", "outer");
    let inner = id("src/lib.rs", "inner");
    let new = id("src/ledger.rs", "Ledger::new");
    let draw = id("src/ledger.rs", "<Canvas as Paint>::draw");

    let ours = vec![pair(&outer, &inner), pair(&outer, &new), pair(&inner, &new)];
    let theirs = vec![pair(&outer, &new), pair(&inner, &draw), pair(&new, &draw)];

    let comparison = compare(&ours, &theirs, &symbols);

    assert_eq!(comparison.beholder_edges, 3);
    assert_eq!(comparison.oracle_edges, 3);
    assert_eq!(comparison.agreed, 1);
    assert_eq!(comparison.false_positives, vec![pair(&outer, &inner), pair(&inner, &new)]);
    assert_eq!(comparison.false_negatives, vec![pair(&inner, &draw), pair(&new, &draw)]);
    assert_eq!(
        comparison.false_positives_by_class,
        vec![
            ("associated_item/shared_name".to_owned(), 1),
            ("free_item/unique_name".to_owned(), 1),
        ]
    );
    assert_eq!(
        comparison.false_negatives_by_class,
        vec![("trait_impl_method/unique_name".to_owned(), 2)]
    );
}

#[test]
fn identical_edge_sets_agree_completely() {
    let symbols = table();
    let edges = vec![pair("a", "b"), pair("c", "d")];

    let comparison = compare(&edges, &edges, &symbols);

    assert_eq!(comparison.agreed, 2);
    assert!(comparison.false_positives.is_empty());
    assert!(comparison.false_negatives_by_class.is_empty());
    assert_eq!(difference(&edges, &Vec::new()), edges);
    assert!(classify(&Vec::new(), &symbols).is_empty());
}
