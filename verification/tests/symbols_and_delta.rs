use beholder::delta::{
    compare, last_hash_of, phantom_reason, unchanged, ChangeKind, IdentityAudit, PhantomReason,
};
use beholder::hash::{content_hash, hex_sha256};
use beholder::symbol::{content_fingerprint, symbol_id, Symbol};

// ---- symbol identity ----

#[test]
fn identity_carries_no_line_number_or_absolute_path() {
    let id = symbol_id(
        "rust",
        "crates/a/src/lib.rs",
        "function",
        "Foo::bar",
        None,
        None,
    );
    assert_eq!(id, "rust:crates/a/src/lib.rs:function:Foo::bar");
    assert!(!id.starts_with('/'));
    assert!(!id.chars().any(|c| c.is_ascii_digit()));
}

#[test]
fn ordinal_only_appears_when_needed() {
    assert!(!symbol_id("rust", "a.rs", "function", "f", None, None).contains('#'));
    assert!(symbol_id("rust", "a.rs", "function", "f", None, Some(2)).ends_with("#2"));
}

#[test]
fn a_discriminator_applies_whether_or_not_a_twin_exists() {
    let guarded = symbol_id("rust", "a.rs", "function", "f", Some("cfg(unix)"), None);
    assert_eq!(guarded, "rust:a.rs:function:f@cfg(unix)");
    assert_ne!(
        guarded,
        symbol_id("rust", "a.rs", "function", "f", None, None)
    );
}

#[test]
fn fingerprint_depends_on_the_token_stream() {
    let a = [("identifier", "g"), ("(", "("), (")", ")")];
    let b = [("identifier", "h"), ("(", "("), (")", ")")];

    assert_eq!(content_fingerprint(&a), content_fingerprint(&a));
    assert_ne!(content_fingerprint(&a), content_fingerprint(&b));
}

#[test]
fn fingerprint_separates_kind_from_text() {
    assert_ne!(
        content_fingerprint(&[("ab", "c")]),
        content_fingerprint(&[("a", "bc")])
    );
}

#[test]
fn ordinal_and_discriminator_both_appear_in_order() {
    assert_eq!(
        symbol_id("rust", "a.rs", "function", "f", Some("cfg(test)"), Some(10)),
        "rust:a.rs:function:f@cfg(test)#10"
    );
}

#[test]
fn the_empty_token_stream_hashes_the_empty_input() {
    assert_eq!(
        content_fingerprint(&[]),
        "e3b0c44298fc1c149afbf4c8996fb92427ae41e4649b934ca495991b7852b855"
    );
    assert_eq!(content_fingerprint(&[("a", "b")]), hex_sha256(b"a\0b\x01"));
}

// ---- hashing ----

#[test]
fn hashes_are_stable() {
    assert_eq!(hex_sha256(b"beholder"), hex_sha256(b"beholder"));
    assert_ne!(hex_sha256(b"beholder"), hex_sha256(b"beholders"));
}

#[test]
fn content_hash_includes_the_length_header() {
    assert_ne!(content_hash(b"beholder"), hex_sha256(b"beholder"));
}

#[test]
fn hex_sha256_matches_the_published_digest() {
    assert_eq!(
        hex_sha256(b"abc"),
        "ba7816bf8f01cfea414140de5dae2223b00361a396177a9cb410ff61f20015ad"
    );
}

#[test]
fn content_hash_is_the_hash_of_the_framed_blob() {
    assert_eq!(content_hash(b"hello"), hex_sha256(b"blob 5\0hello"));
    assert_eq!(content_hash(b""), hex_sha256(b"blob 0\0"));
}

// ---- delta ----

fn sym(path: &str, qualified: &str, complexity: u32, content: &str, body: &str, line: usize) -> Symbol {
    Symbol {
        id: symbol_id("rust", path, "function", qualified, None, None),
        path: path.to_owned(),
        language: "rust".to_owned(),
        kind: "function".to_owned(),
        name: qualified.rsplit("::").next().unwrap().to_owned(),
        qualified_path: qualified.to_owned(),
        discriminator: None,
        start_line: line,
        start_column: 0,
        end_line: line + 2,
        end_column: 1,
        declaration: None,
        cognitive_complexity: complexity,
        tier: 1,
        content_fingerprint: content.to_owned(),
        body_fingerprint: body.to_owned(),
    }
}

#[test]
fn identical_revisions_report_nothing() {
    let files = vec![sym("src/lib.rs", "draw", 1, "c-draw", "b-draw", 1)];
    assert!(compare(&files, &files).changes.is_empty());
}

#[test]
fn a_line_shift_is_not_a_change() {
    let before = vec![sym("src/lib.rs", "draw", 0, "c-draw", "b-draw", 1)];
    let after = vec![sym("src/lib.rs", "draw", 0, "c-draw", "b-draw", 3)];
    assert!(compare(&before, &after).changes.is_empty());
}

#[test]
fn a_complexity_change_is_reported_with_both_sides() {
    let before = vec![sym("src/lib.rs", "draw", 1, "c-one", "b-one", 1)];
    let after = vec![sym("src/lib.rs", "draw", 3, "c-two", "b-two", 1)];

    let changes = compare(&before, &after).changes;
    assert_eq!(changes.len(), 1);
    assert_eq!(changes[0].change, ChangeKind::Modified);
    assert_eq!(changes[0].before.as_ref().unwrap().cognitive_complexity, 1);
    assert_eq!(changes[0].after.as_ref().unwrap().cognitive_complexity, 3);
    assert_eq!(changes[0].complexity_delta, Some(2));
}

#[test]
fn a_move_between_files_is_a_move_not_a_delete_and_an_add() {
    let before = vec![sym("src/old.rs", "draw", 1, "c-draw", "b-draw", 1)];
    let after = vec![sym("src/new.rs", "draw", 1, "c-draw", "b-draw", 1)];

    let changes = compare(&before, &after).changes;
    assert_eq!(changes.len(), 1);
    assert_eq!(changes[0].change, ChangeKind::Moved);
    assert_eq!(changes[0].before.as_ref().unwrap().path, "src/old.rs");
    assert_eq!(changes[0].after.as_ref().unwrap().path, "src/new.rs");
}

#[test]
fn a_rename_is_a_rename_not_a_delete_and_an_add() {
    let before = vec![sym("src/lib.rs", "draw", 1, "c-draw", "b-body", 1)];
    let after = vec![sym("src/lib.rs", "paint", 1, "c-paint", "b-body", 1)];

    let changes = compare(&before, &after).changes;
    assert_eq!(changes.len(), 1);
    assert_eq!(changes[0].change, ChangeKind::Renamed);
    assert_eq!(changes[0].before.as_ref().unwrap().qualified_path, "draw");
    assert_eq!(changes[0].after.as_ref().unwrap().qualified_path, "paint");
}

#[test]
fn genuinely_new_and_gone_symbols_are_added_and_removed() {
    let before = vec![sym("src/lib.rs", "gone", 0, "c-gone", "b-gone", 1)];
    let after = vec![sym("src/lib.rs", "brand_new", 1, "c-new", "b-new", 1)];

    let mut kinds: Vec<_> = compare(&before, &after)
        .changes
        .into_iter()
        .map(|c| format!("{:?}", c.change))
        .collect();
    kinds.sort();

    assert_eq!(kinds, vec!["Added", "Removed"]);
}

#[test]
fn methods_sharing_a_name_do_not_swap_places() {
    let before = vec![
        sym("src/lib.rs", "Canvas::draw", 0, "c-a", "b-a", 3),
        sym("src/lib.rs", "<Canvas as Paint>::draw", 0, "c-b", "b-b", 4),
    ];
    let after = vec![
        sym("src/lib.rs", "Canvas::draw", 0, "c-a", "b-a", 3),
        sym("src/lib.rs", "<Canvas as Paint>::draw", 0, "c-c", "b-c", 4),
    ];

    let changes = compare(&before, &after).changes;
    assert_eq!(changes.len(), 1);
    assert_eq!(changes[0].change, ChangeKind::Modified);
    assert_eq!(
        changes[0].after.as_ref().unwrap().qualified_path,
        "<Canvas as Paint>::draw"
    );
}

#[test]
fn changing_a_closure_is_a_change_to_its_function_only() {
    let before = vec![sym("src/lib.rs", "run", 0, "c-run", "b-run", 1)];
    let after = vec![sym("src/lib.rs", "run", 1, "c-run2", "b-run2", 1)];

    let changes = compare(&before, &after).changes;
    assert_eq!(changes.len(), 1);
    assert_eq!(changes[0].change, ChangeKind::Modified);
    assert_eq!(changes[0].after.as_ref().unwrap().qualified_path, "run");
}

#[test]
fn output_order_is_deterministic() {
    let before = vec![
        sym("z.rs", "z", 0, "c-z", "b-z", 1),
        sym("a.rs", "a", 0, "c-a", "b-a", 1),
    ];
    let after = vec![
        sym("z.rs", "z", 1, "c-z2", "b-z2", 1),
        sym("a.rs", "a", 1, "c-a2", "b-a2", 1),
    ];

    let paths: Vec<_> = compare(&before, &after)
        .changes
        .into_iter()
        .map(|c| c.after.unwrap().path)
        .collect();

    assert_eq!(paths, vec!["a.rs", "z.rs"]);
}

#[test]
fn a_formatting_only_edit_that_keeps_tokens_is_quiet_even_across_many_symbols() {
    let before = vec![
        sym("src/a.rs", "one", 2, "c1", "b1", 1),
        sym("src/a.rs", "two", 0, "c2", "b2", 5),
        sym("src/b.rs", "three", 4, "c3", "b3", 1),
    ];
    let after = vec![
        sym("src/b.rs", "three", 4, "c3", "b3", 9),
        sym("src/a.rs", "two", 0, "c2", "b2", 20),
        sym("src/a.rs", "one", 2, "c1", "b1", 2),
    ];
    assert!(compare(&before, &after).changes.is_empty());
}

#[test]
fn unchanged_files_and_phantoms() {
    let before = vec![
        ("src/a.rs".to_owned(), "h1".to_owned()),
        ("src/b.rs".to_owned(), "h2".to_owned()),
    ];
    let after = vec![
        ("src/b.rs".to_owned(), "h2".to_owned()),
        ("src/a.rs".to_owned(), "h9".to_owned()),
        ("src/c.rs".to_owned(), "h3".to_owned()),
    ];
    let same = unchanged(&before, &after);
    assert_eq!(same, vec!["src/b.rs".to_owned()]);
    assert_eq!(last_hash_of(&before, "src/a.rs"), Some("h1"));
    assert_eq!(last_hash_of(&before, "src/c.rs"), None);

    let moved = compare(
        &vec![sym("src/b.rs", "f", 0, "c", "b", 1)],
        &vec![sym("src/a.rs", "f", 0, "c", "b", 1)],
    );
    assert_eq!(phantom_reason(&moved.changes[0], &same), None);
    let ghost = compare(
        &vec![sym("src/b.rs", "f", 0, "c", "b", 1)],
        &vec![sym("src/b.rs", "f", 1, "c2", "b2", 1)],
    );
    assert_eq!(
        phantom_reason(&ghost.changes[0], &same),
        Some(PhantomReason::UnchangedFile)
    );
}

#[test]
fn the_audit_counts_changes_by_kind_and_keeps_phantoms() {
    let mut audit = IdentityAudit::new();
    assert!(audit.passed());
    audit.record_symbols(3);
    let delta = compare(
        &vec![
            sym("src/a.rs", "f", 0, "c", "b", 1),
            sym("src/a.rs", "g", 0, "cg", "bg", 3),
        ],
        &vec![
            sym("src/a.rs", "f", 1, "c2", "b2", 1),
            sym("src/a.rs", "h", 0, "ch", "bh", 3),
        ],
    );
    let same = vec!["src/z.rs".to_owned()];
    audit.record("r1", "r2", delta, &same);
    assert_eq!(audit.comparisons, 1);
    assert_eq!(audit.symbols_seen, 3);
    assert_eq!(audit.changes, 3);
    assert_eq!(audit.modified, 1);
    assert_eq!(audit.added, 1);
    assert_eq!(audit.removed, 1);
    assert!(audit.passed());

    let phantom = compare(
        &vec![sym("src/z.rs", "f", 0, "c", "b", 1)],
        &vec![sym("src/z.rs", "f", 0, "c3", "b3", 1)],
    );
    audit.record("r2", "r3", phantom, &same);
    assert_eq!(audit.comparisons, 2);
    assert!(!audit.passed());
    assert_eq!(audit.phantoms.len(), 1);
    assert_eq!(audit.phantoms[0].before_revision, "r2");
    assert_eq!(audit.phantoms[0].reason, PhantomReason::UnchangedFile);
}

#[test]
fn shared_identities_appear_only_as_modifications() {
    let before = vec![
        sym("src/lib.rs", "keep", 1, "c-keep", "b-keep", 1),
        sym("src/lib.rs", "edit", 1, "c-edit", "b-edit", 5),
        sym("src/lib.rs", "gone", 2, "c-gone", "b-gone", 9),
    ];
    let after = vec![
        sym("src/lib.rs", "keep", 1, "c-keep", "b-keep", 2),
        sym("src/lib.rs", "edit", 4, "c-edit2", "b-edit2", 6),
        sym("src/lib.rs", "fresh", 0, "c-fresh", "b-fresh", 12),
    ];
    let changes = compare(&before, &after).changes;
    assert_eq!(changes.len(), 3);
    let keep_id = before[0].id.clone();
    assert!(changes.iter().all(|c| c.before.as_ref().map(|m| m.id.clone()) != Some(keep_id.clone())));
    let edits: Vec<_> = changes
        .iter()
        .filter(|c| c.before.as_ref().map(|m| m.id.as_str()) == Some(before[1].id.as_str()))
        .collect();
    assert_eq!(edits.len(), 1);
    assert_eq!(edits[0].change, ChangeKind::Modified);
    assert_eq!(edits[0].complexity_delta, Some(3));
    for c in &changes {
        assert_eq!(c.complexity_delta.is_some(), c.before.is_some() && c.after.is_some());
    }
}
