use beholder::lang::{rust_optional_trailing, ImportSyntax, LanguageDef, ModulePathRules};
use beholder::phase1::{FileAnalysis, Import, Occurrence};
use beholder::resolve::{Edge, Heuristic, ResolutionStats, ResolveInput};
use beholder::symbol::{symbol_id, Symbol};

fn table() -> Vec<LanguageDef> {
    vec![LanguageDef {
        id: "rust".to_owned(),
        extensions: vec!["rs".to_owned()],
        symbols_query: String::new(),
        scopes_query: String::new(),
        complexity_query: String::new(),
        discriminators_query: String::new(),
        references_query: String::new(),
        imports_query: String::new(),
        import_syntax: ImportSyntax::rust(),
        module_paths: ModulePathRules::rust(),
        path_separator: "::".to_owned(),
        optional_trailing: rust_optional_trailing(),
    }]
}

fn sym(path: &str, kind: &str, qualified: &str) -> Symbol {
    Symbol {
        id: symbol_id("rust", path, kind, qualified, None, None),
        path: path.to_owned(),
        language: "rust".to_owned(),
        kind: kind.to_owned(),
        name: qualified.rsplit("::").next().unwrap().to_owned(),
        qualified_path: qualified.to_owned(),
        discriminator: None,
        start_line: 1,
        start_column: 0,
        end_line: 1,
        end_column: 1,
        declaration: None,
        cognitive_complexity: 0,
        tier: 1,
        content_fingerprint: String::new(),
        body_fingerprint: String::new(),
    }
}

/// A Rust file as phase 1 would describe it: `symbols` as (kind, qualified
/// path), occurrences as (name, qualifier, referrer index, kind), imports as
/// (local name, path, glob).
fn file(
    path: &str,
    module: &[&str],
    symbols: &[(&str, &str)],
    occurrences: &[(&str, Option<&str>, Option<usize>, &str)],
    imports: &[(&str, &[&str], bool)],
) -> FileAnalysis {
    FileAnalysis {
        path: path.to_owned(),
        language: Some("rust".to_owned()),
        content_hash: String::new(),
        tier: 1,
        lines: 1,
        symbols: symbols.iter().map(|(k, q)| sym(path, k, q)).collect(),
        module_segments: module.iter().map(|s| (*s).to_owned()).collect(),
        occurrences: occurrences
            .iter()
            .map(|(name, qualifier, within, kind)| Occurrence {
                name: (*name).to_owned(),
                qualifier: qualifier.map(|q| q.to_owned()),
                within: *within,
                kind: (*kind).to_owned(),
            })
            .collect(),
        imports: imports
            .iter()
            .map(|(local, path, glob)| Import {
                local_name: (*local).to_owned(),
                path: path.iter().map(|s| (*s).to_owned()).collect(),
                glob: *glob,
            })
            .collect(),
    }
}

fn resolve(files: Vec<FileAnalysis>) -> (Vec<Edge>, ResolutionStats) {
    let languages = table();
    Heuristic.resolve(&ResolveInput { files: &files, languages: &languages })
}

fn targets(edges: &[Edge], from_contains: &str) -> Vec<String> {
    edges
        .iter()
        .filter(|e| e.from.contains(from_contains))
        .map(|e| e.to.clone())
        .collect()
}

fn count(stats: &ResolutionStats, label: &str) -> Option<usize> {
    stats.unresolved.iter().find(|(l, _)| l == label).map(|(_, n)| *n)
}

#[test]
fn a_call_within_one_file_resolves() {
    let (edges, _) = resolve(vec![file(
        "src/lib.rs",
        &[],
        &[("function", "caller"), ("function", "callee")],
        &[("callee", None, Some(0), "call")],
        &[],
    )]);

    assert_eq!(targets(&edges, "caller"), vec!["rust:src/lib.rs:function:callee"]);
}

#[test]
fn an_imported_call_resolves_across_files() {
    let (edges, _) = resolve(vec![
        file(
            "src/caller.rs",
            &["caller"],
            &[("function", "caller")],
            &[("do_work", None, Some(0), "call")],
            &[("do_work", &["worker", "do_work"], false)],
        ),
        file("src/worker.rs", &["worker"], &[("function", "do_work")], &[], &[]),
    ]);

    assert_eq!(targets(&edges, "caller"), vec!["rust:src/worker.rs:function:do_work"]);
}

#[test]
fn a_qualified_call_resolves_through_its_type() {
    let (edges, _) = resolve(vec![file(
        "src/lib.rs",
        &[],
        &[("type", "Ledger"), ("function", "Ledger::tally"), ("function", "run")],
        &[("Ledger", None, Some(2), "type"), ("tally", Some("Ledger"), Some(2), "call")],
        &[],
    )]);

    assert!(targets(&edges, "function:run").contains(&"rust:src/lib.rs:function:Ledger::tally".to_string()));
}

#[test]
fn an_ambiguous_name_resolves_to_nothing() {
    let (edges, stats) = resolve(vec![
        file("src/a.rs", &["a"], &[("type", "A"), ("function", "A::new")], &[], &[]),
        file("src/b.rs", &["b"], &[("type", "B"), ("function", "B::new")], &[], &[]),
        file(
            "src/c.rs",
            &["c"],
            &[("function", "build")],
            &[("A", None, Some(0), "type"), ("new", None, Some(0), "call")],
            &[],
        ),
    ]);

    assert!(!targets(&edges, "function:build").iter().any(|to| to.ends_with("new")), "{edges:#?}");
    assert_eq!(targets(&edges, "function:build"), vec!["rust:src/a.rs:type:A"]);
    assert!(count(&stats, "ambiguous").is_some());
}

#[test]
fn recursion_is_not_an_edge() {
    let (edges, stats) = resolve(vec![file(
        "src/lib.rs",
        &[],
        &[("function", "countdown")],
        &[("countdown", None, Some(0), "call")],
        &[],
    )]);

    assert!(edges.is_empty(), "{edges:#?}");
    assert_eq!(stats.resolved, 1);
}

#[test]
fn a_type_mention_is_an_edge() {
    let (edges, _) = resolve(vec![
        file("src/model.rs", &["model"], &[("type", "Ledger")], &[], &[]),
        file(
            "src/use.rs",
            &["use"],
            &[("function", "tally")],
            &[("Ledger", None, Some(0), "type")],
            &[("Ledger", &["model", "Ledger"], false)],
        ),
    ]);

    assert_eq!(targets(&edges, "function:tally"), vec!["rust:src/model.rs:type:Ledger"]);
}

#[test]
fn a_glob_import_can_resolve_a_name() {
    let (edges, _) = resolve(vec![
        file("src/helpers.rs", &["helpers"], &[("function", "assist")], &[], &[]),
        file(
            "src/caller.rs",
            &["caller"],
            &[("function", "caller")],
            &[("assist", None, Some(0), "call")],
            &[("*", &["helpers"], true)],
        ),
    ]);

    assert_eq!(targets(&edges, "caller"), vec!["rust:src/helpers.rs:function:assist"]);
}

#[test]
fn edges_are_deterministic_and_stably_sorted() {
    let files = || vec![
        file("src/z.rs", &["z"], &[("function", "zeta")], &[], &[]),
        file("src/a.rs", &["a"], &[("function", "alpha")], &[], &[]),
        file(
            "src/caller.rs",
            &["caller"],
            &[("function", "caller")],
            &[("zeta", None, Some(0), "call"), ("alpha", None, Some(0), "call")],
            &[("zeta", &["z", "zeta"], false), ("alpha", &["a", "alpha"], false)],
        ),
    ];

    let (first, _) = resolve(files());
    let (second, _) = resolve(files());

    assert_eq!(first, second);
    let mut sorted = first.clone();
    sorted.sort();
    assert_eq!(first, sorted);
    assert_eq!(first.len(), 2);
}

#[test]
fn a_glob_import_of_two_modules_with_the_name_is_ambiguous_and_a_unique_name_still_wins() {
    let (edges, stats) = resolve(vec![
        file("src/p.rs", &["p"], &[("function", "go")], &[], &[]),
        file("src/q.rs", &["q"], &[("function", "go")], &[], &[]),
        file(
            "src/main.rs",
            &[],
            &[("function", "main")],
            &[("go", None, Some(0), "call")],
            &[("*", &["p"], true), ("*", &["q"], true)],
        ),
    ]);

    assert!(edges.is_empty());
    assert_eq!(count(&stats, "ambiguous"), Some(1));
    assert_eq!(stats.resolved, 0);
}

#[test]
fn an_import_beats_a_same_file_definition() {
    let (edges, _) = resolve(vec![
        file(
            "src/caller.rs",
            &["caller"],
            &[("function", "caller"), ("function", "helper")],
            &[("helper", None, Some(0), "call")],
            &[("helper", &["tools", "helper"], false)],
        ),
        file("src/tools.rs", &["tools"], &[("function", "helper")], &[], &[]),
    ]);

    assert_eq!(targets(&edges, "caller.rs:function:caller"), vec!["rust:src/tools.rs:function:helper"]);
}

#[test]
fn statistics_count_every_occurrence_by_outcome() {
    let (edges, stats) = resolve(vec![file(
        "src/lib.rs",
        &[],
        &[("function", "one"), ("function", "two")],
        &[
            ("two", None, Some(0), "call"),
            ("ghost", None, Some(1), "call"),
            ("one", None, None, "call"),
            ("one", None, Some(7), "call"),
            ("one", None, Some(1), "call"),
        ],
        &[],
    )]);

    assert_eq!(stats.occurrences, 5);
    assert_eq!(stats.resolved, 2);
    assert_eq!(
        stats.unresolved,
        vec![("no_candidate".to_owned(), 1), ("no_referrer".to_owned(), 1)]
    );
    assert_eq!(edges.len(), 2);
    assert_eq!(edges[0].from, "rust:src/lib.rs:function:one");
    assert_eq!(edges[1].from, "rust:src/lib.rs:function:two");
}

#[test]
fn repeated_references_make_one_edge() {
    let (edges, stats) = resolve(vec![file(
        "src/lib.rs",
        &[],
        &[("function", "a"), ("function", "b")],
        &[("b", None, Some(0), "call"), ("b", None, Some(0), "call"), ("b", None, Some(0), "type")],
        &[],
    )]);

    assert_eq!(stats.resolved, 3);
    assert_eq!(edges.len(), 2);
    assert_eq!(edges[0].kind, "call");
    assert_eq!(edges[1].kind, "type");
}

#[test]
fn nothing_to_resolve_reports_nothing() {
    let (edges, stats) = resolve(Vec::new());
    assert!(edges.is_empty());
    assert_eq!(stats.occurrences, 0);
    assert!(stats.unresolved.is_empty());
}
