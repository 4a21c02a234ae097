use beholder::code_graph::model::IntegrityError;
use beholder::code_graph::scip_provider::ScipProviderError;
use beholder::delta::{ChangeKind, Metrics, SymbolChange};
use beholder::gitpr::{only_open_snapshot, snapshot_field};
use beholder::graph::Degree;
use beholder::jsonl::sort_records;
use beholder::markdown::Row;
use beholder::risk::{facts, review, FanInBasis, WeightCaveat};
use beholder::store::Invalid;

fn metrics(qualified: &str, complexity: u32) -> Metrics {
    Metrics {
        id: format!("rust:src/lib.rs:function:{qualified}"),
        path: "src/lib.rs".to_owned(),
        qualified_path: qualified.to_owned(),
        start_line: 3,
        end_line: 9,
        cognitive_complexity: complexity,
    }
}

fn change(kind: ChangeKind, before: Option<Metrics>, after: Option<Metrics>, delta: Option<i64>) -> SymbolChange {
    SymbolChange {
        change: kind,
        language: "rust".to_owned(),
        kind: "function".to_owned(),
        before,
        after,
        complexity_delta: delta,
    }
}

fn degrees() -> Vec<(String, Degree)> {
    vec![
        ("rust:src/lib.rs:function:tally".to_owned(), Degree { fan_in: 4, fan_out: 1 }),
        ("rust:src/lib.rs:function:tally".to_owned(), Degree { fan_in: 9, fan_out: 1 }),
    ]
}

#[test]
fn a_modified_symbol_is_described_by_its_after_side() {
    let c = change(ChangeKind::Modified, Some(metrics("tally", 1)), Some(metrics("tally", 4)), Some(3));
    let f = facts(&c, &degrees());

    assert_eq!(f.id, "rust:src/lib.rs:function:tally");
    assert_eq!(f.language, "rust");
    assert_eq!(f.complexity_delta, 3);
    assert_eq!(f.complexity_before, Some(1));
    assert_eq!(f.complexity_after, Some(4));
    assert_eq!(f.fan_in, 4);
    assert_eq!(f.caveat, None);
}

#[test]
fn added_and_removed_symbols_change_by_their_whole_complexity() {
    let added = facts(&change(ChangeKind::Added, None, Some(metrics("fresh", 5)), None), &degrees());
    let removed = facts(&change(ChangeKind::Removed, Some(metrics("gone", 6)), None, None), &degrees());

    assert_eq!(added.complexity_delta, 5);
    assert_eq!(removed.complexity_delta, -6);
    assert_eq!(removed.qualified_path, "gone");
    assert_eq!(added.fan_in, 0);
}

#[test]
fn a_trait_method_is_not_weighted_by_its_fan_in() {
    let c = change(
        ChangeKind::Modified,
        None,
        Some(metrics("<Canvas as Paint>::draw", 2)),
        Some(2),
    );
    assert_eq!(facts(&c, &degrees()).caveat, Some(WeightCaveat::TraitMethodFanInUnreliable));
}

fn row() -> Row {
    Row {
        qualified_path: "tally".to_owned(),
        path: "src/lib.rs".to_owned(),
        start_line: 3,
        end_line: 9,
        change: ChangeKind::Modified,
        complexity_delta: 3,
        complexity_before: Some(1),
        complexity_after: Some(4),
        fan_in: 4,
        fan_in_high_confidence: 2,
        caveat: None,
    }
}

#[test]
fn a_review_lists_the_surfaced_changes() {
    let text = review(
        "0f1e2d3c4b5a6978",
        "main",
        3,
        &vec![row()],
        "80",
        FanInBasis::Damped,
        "\nfan-in note\n",
    );

    assert_eq!(
        text,
        "0f1e2d3c..main  3 changed symbols, 1 above the 80th percentile  [damped fan-in]\n\n \
         1. tally src/lib.rs:3-9\n    Modified · complexity +3 (1 -> 4) · fan-in 4 (2 stated)\n\nfan-in note\n"
    );
}

#[test]
fn an_unchanged_revision_is_quiet() {
    let text = review("a", "b", 0, &Vec::new(), "80", FanInBasis::Raw, "");
    assert_eq!(text, "a..b  0 changed symbols, 0 above the 80th percentile  [raw fan-in]\n\nNo symbol changed.\n");

    let quiet = review("a", "b", 2, &Vec::new(), "80", FanInBasis::Raw, "ignored");
    assert!(quiet.ends_with("\nNothing crossed the threshold.\n"));
}

#[test]
fn refusals_say_what_went_wrong() {
    assert_eq!(
        Invalid::SchemaVersion { expected: 2, found: 1 }.message(),
        "stored schema version 1, expected 2"
    );
    assert_eq!(
        Invalid::FileSet { missing: vec!["a".to_owned()], extra: Vec::new() }.message(),
        "stored analysis covers a different file set: 1 missing, 0 unexpected"
    );
    assert_eq!(
        Invalid::ContentHash { path: "src/a.rs".to_owned() }.message(),
        "stored result for src/a.rs was computed from other content"
    );
    assert_eq!(
        ScipProviderError::MalformedRange("src/a.rs".to_owned()).message(),
        "malformed SCIP range in src/a.rs"
    );
    assert_eq!(
        ScipProviderError::Integrity(IntegrityError::UnsupportedSchema(7)).message(),
        "unsupported schema 7"
    );
    assert_eq!(IntegrityError::DanglingNode("n1".to_owned()).message(), "edge names missing node n1");
}

#[test]
fn a_snapshot_names_its_revisions_before_the_diffs() {
    let text = "id: 42\r\ntitle: Tidy the ledger\nmerge_base_sha: abc123\nsource_head_sha: def456\nfile_diffs:\n  title: not this one\n";

    assert_eq!(snapshot_field(text, "title"), Some("Tidy the ledger".to_owned()));
    assert_eq!(snapshot_field(text, "id"), Some("42".to_owned()));
    assert_eq!(snapshot_field(text, "merge_base_sha"), Some("abc123".to_owned()));
    assert_eq!(snapshot_field(text, "base_head_sha"), None);
    assert_eq!(snapshot_field("file_diffs:\ntitle: late\n", "title"), None);
}

#[test]
fn only_one_open_snapshot_is_chosen_without_a_name() {
    assert_eq!(only_open_snapshot("ID  TITLE\n  7f3a  Tidy\n"), Ok("7f3a".to_owned()));
    assert_eq!(only_open_snapshot("ID  TITLE\n"), Err(0));
    assert_eq!(only_open_snapshot("ID  TITLE\n7f3a Tidy\n\n9c1d Other\n"), Err(2));
    assert_eq!(only_open_snapshot(""), Err(0));
}

fn symbol(path: &str, line: usize, id: &str) -> beholder::symbol::Symbol {
    beholder::symbol::Symbol {
        id: id.to_owned(),
        path: path.to_owned(),
        language: "rust".to_owned(),
        kind: "function".to_owned(),
        name: id.to_owned(),
        qualified_path: id.to_owned(),
        discriminator: None,
        start_line: line,
        start_column: 0,
        end_line: line + 1,
        end_column: 1,
        declaration: None,
        cognitive_complexity: 0,
        tier: 1,
        content_fingerprint: String::new(),
        body_fingerprint: String::new(),
    }
}

#[test]
fn output_is_deterministic_and_stably_sorted() {
    let input = || {
        vec![
            symbol("src/z.rs", 1, "z"),
            symbol("src/a.rs", 9, "late"),
            symbol("src/a.rs", 2, "b"),
            symbol("src/a.rs", 2, "a"),
        ]
    };
    let first: Vec<String> = sort_records(input()).into_iter().map(|s| s.id).collect();
    let second: Vec<String> = sort_records(input()).into_iter().map(|s| s.id).collect();

    assert_eq!(first, second);
    assert_eq!(first, vec!["a", "b", "late", "z"]);
}
