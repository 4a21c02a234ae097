use beholder::analysis::{percentile_counts, PercentileCount};
use beholder::phase1::FileAnalysis;
use beholder::symbol::{symbol_id, Symbol};

fn sym(language: &str, path: &str, name: &str, complexity: u32) -> Symbol {
    Symbol {
        id: symbol_id(language, path, "function", name, None, None),
        path: path.to_owned(),
        language: language.to_owned(),
        kind: "function".to_owned(),
        name: name.to_owned(),
        qualified_path: name.to_owned(),
        discriminator: None,
        start_line: 1,
        start_column: 0,
        end_line: 2,
        end_column: 1,
        declaration: None,
        cognitive_complexity: complexity,
        tier: 1,
        content_fingerprint: String::new(),
        body_fingerprint: String::new(),
    }
}

fn file(path: &str, symbols: Vec<Symbol>) -> FileAnalysis {
    FileAnalysis {
        path: path.to_owned(),
        language: Some(symbols[0].language.clone()),
        content_hash: String::new(),
        tier: 1,
        lines: 2,
        symbols,
        module_segments: Vec::new(),
        occurrences: Vec::new(),
        imports: Vec::new(),
    }
}

fn percentile(counts: &[PercentileCount], id: &str) -> f32 {
    let c = counts.iter().find(|c| c.id == id).unwrap();
    c.at_or_below as f32 * 100.0 / c.of as f32
}

#[test]
fn phase2_ranks_within_a_language() {
    let files = vec![
        file("a.rs", vec![sym("rust", "a.rs", "simple", 0)]),
        file("b.rs", vec![sym("rust", "b.rs", "hairy", 3)]),
    ];

    let counts = percentile_counts(&files);
    let simple = percentile(&counts, "rust:a.rs:function:simple");
    let hairy = percentile(&counts, "rust:b.rs:function:hairy");

    assert!(simple < hairy, "{simple} should rank below {hairy}");
    assert_eq!(hairy, 100.0);
}

#[test]
fn phase2_depends_on_the_whole_set() {
    let alone = percentile_counts(&vec![
        file("a.rs", vec![sym("rust", "a.rs", "simple", 0)]),
        file("b.rs", vec![sym("rust", "b.rs", "hairy", 3)]),
    ]);
    let crowded = percentile_counts(&vec![
        file("a.rs", vec![sym("rust", "a.rs", "simple", 0)]),
        file("b.rs", vec![sym("rust", "b.rs", "hairy", 3)]),
        file("c.rs", vec![sym("rust", "c.rs", "hairier", 6)]),
    ]);

    let id = "rust:b.rs:function:hairy";
    assert_ne!(percentile(&alone, id), percentile(&crowded, id));
}

#[test]
fn languages_are_ranked_apart_and_ties_count_as_at_or_below() {
    let counts = percentile_counts(&vec![
        file("a.rs", vec![sym("rust", "a.rs", "one", 2), sym("rust", "a.rs", "two", 2)]),
        file("b.py", vec![sym("python", "b.py", "big", 9)]),
        file("c.rs", vec![sym("rust", "c.rs", "three", 1)]),
    ]);

    let ids: Vec<&str> = counts.iter().map(|c| c.id.as_str()).collect();
    assert_eq!(
        ids,
        vec![
            "rust:a.rs:function:one",
            "rust:a.rs:function:two",
            "python:b.py:function:big",
            "rust:c.rs:function:three",
        ]
    );
    let pairs: Vec<(usize, usize)> = counts.iter().map(|c| (c.at_or_below, c.of)).collect();
    assert_eq!(pairs, vec![(3, 3), (3, 3), (1, 1), (1, 3)]);
}

#[test]
fn no_symbols_no_ranks() {
    assert!(percentile_counts(&Vec::new()).is_empty());
}
