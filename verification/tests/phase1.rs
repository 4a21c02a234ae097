use beholder::lang::{rust_optional_trailing, ImportSyntax, LanguageDef, ModulePathRules};
use beholder::phase1::{
    collect_scopes, collect_symbols, complexity, complexity_by_symbol, finish, join_with,
    node_flags, qualify, render, tier1_symbols, tokens, Capture, NodeFlags, PatternProperties,
    QueryMatch, SyntaxNode, SyntaxTree,
};
use beholder::symbol::{content_fingerprint, Symbol};
use beholder::parse::{analyze, compile};

fn rust() -> LanguageDef {
    LanguageDef {
        id: "rust".to_owned(),
        extensions: vec!["rs".to_owned()],
        symbols_query: String::new(),
        scopes_query: String::new(),
        complexity_query: String::new(),
        discriminators_query: String::new(),
        references_query: String::new(),
        imports_query: String::new(),
        import_syntax: ImportSyntax::rust(),
        module_paths: ModulePathRules::rust(),
        path_separator: "::".to_owned(),
        optional_trailing: rust_optional_trailing(),
    }
}

/// A tree from `(kind, text, parent)` triples listed parents first.
fn tree(nodes: &[(&str, Option<&str>, Option<usize>)]) -> SyntaxTree {
    let mut out: Vec<SyntaxNode> = nodes
        .iter()
        .enumerate()
        .map(|(i, (kind, text, parent))| SyntaxNode {
            id: 100 + i,
            kind: (*kind).to_owned(),
            text: text.map(|t| t.to_owned()),
            start_byte: i,
            start_row: i,
            start_column: 0,
            end_row: i + 2,
            end_column: 1,
            parent: *parent,
            children: Vec::new(),
        })
        .collect();
    for i in 0..out.len() {
        if let Some(p) = out[i].parent {
            out[p].children.push(i);
        }
    }
    SyntaxTree { nodes: out }
}

fn capture(name: &str, node: usize, text: &str) -> Capture {
    Capture {
        name: name.to_owned(),
        node,
        text: text.to_owned(),
    }
}

fn one_match(pattern: usize, captures: Vec<Capture>) -> QueryMatch {
    QueryMatch { pattern, captures }
}

fn pending(qualified: &str) -> Symbol {
    Symbol {
        id: String::new(),
        path: "src/lib.rs".to_owned(),
        language: "rust".to_owned(),
        kind: "function".to_owned(),
        name: qualified.to_owned(),
        qualified_path: qualified.to_owned(),
        discriminator: None,
        start_line: 1,
        start_column: 0,
        end_line: 1,
        end_column: 1,
        declaration: None,
        cognitive_complexity: 0,
        tier: 1,
        content_fingerprint: String::new(),
        body_fingerprint: String::new(),
    }
}

#[test]
fn identical_symbols_in_one_file_get_ordinals() {
    let symbols = finish(vec![pending("platform"), pending("platform")]);
    let ids: Vec<_> = symbols.iter().map(|s| s.id.as_str()).collect();
    assert_eq!(
        ids,
        vec![
            "rust:src/lib.rs:function:platform#1",
            "rust:src/lib.rs:function:platform#2"
        ]
    );
}

#[test]
fn a_lone_symbol_and_a_discriminated_twin_get_no_ordinal() {
    let mut guarded = pending("platform");
    guarded.discriminator = Some("cfg(unix)".to_owned());
    let symbols = finish(vec![guarded, pending("platform"), pending("other")]);
    assert_eq!(symbols[0].id, "rust:src/lib.rs:function:platform@cfg(unix)");
    assert_eq!(symbols[1].id, "rust:src/lib.rs:function:platform");
    assert_eq!(symbols[2].id, "rust:src/lib.rs:function:other");
}

#[test]
fn formats_substitute_captures() {
    let vars = vec![
        ("name".to_owned(), "draw".to_owned()),
        ("type".to_owned(), "Canvas".to_owned()),
    ];
    assert_eq!(render("{name}", &vars), "draw");
    assert_eq!(render("<{type} as T>", &vars), "<Canvas as T>");
    assert_eq!(render("{missing}x", &vars), "x");
    assert_eq!(render("plain", &vars), "plain");
    assert_eq!(render("ab{cd", &vars), "abab{cd");
    let later = vec![
        ("name".to_owned(), "first".to_owned()),
        ("name".to_owned(), "second".to_owned()),
    ];
    assert_eq!(render("{name}", &later), "second");
}

#[test]
fn tokens_skip_comments_and_keep_leaf_order() {
    let t = tree(&[
        ("function_item", None, None),
        ("fn", Some("fn"), Some(0)),
        ("identifier", Some("draw"), Some(0)),
        ("line_comment", Some("// note"), Some(0)),
        ("block", None, Some(0)),
        ("{", Some("{"), Some(4)),
        ("}", Some("}"), Some(4)),
    ]);
    let toks = tokens(&t, 0);
    let pairs: Vec<(&str, &str)> = toks.iter().map(|(k, x)| (k.as_str(), x.as_str())).collect();
    assert_eq!(
        pairs,
        [("fn", "fn"), ("identifier", "draw"), ("{", "{"), ("}", "}")]
    );
}

#[test]
fn modules_and_impls_qualify_names() {
    let t = tree(&[
        ("source_file", None, None),
        ("mod_item", None, Some(0)),
        ("impl_item", None, Some(1)),
        ("function_item", None, Some(2)),
    ]);
    let scopes = vec![(1, "render".to_owned()), (2, "Canvas".to_owned())];
    assert_eq!(qualify(&t, &scopes, 3, "draw", "::"), "render::Canvas::draw");
    assert_eq!(qualify(&t, &scopes, 2, "Canvas", "::"), "render::Canvas");
    assert_eq!(join_with(&Vec::new(), "::"), "");
}

fn nested_ifs(nested: bool) -> (SyntaxTree, Vec<QueryMatch>) {
    let t = if nested {
        tree(&[
            ("function_item", None, None),
            ("block", None, Some(0)),
            ("if_expression", None, Some(1)),
            ("block", None, Some(2)),
            ("if_expression", None, Some(3)),
            ("block", None, Some(4)),
        ])
    } else {
        tree(&[
            ("function_item", None, None),
            ("block", None, Some(0)),
            ("if_expression", None, Some(1)),
            ("block", None, Some(2)),
            ("if_expression", None, Some(1)),
            ("block", None, Some(4)),
        ])
    };
    let matches = vec![
        one_match(0, vec![capture("increment", 2, "if"), capture("nesting", 2, "if")]),
        one_match(0, vec![capture("increment", 4, "if"), capture("nesting", 4, "if")]),
    ];
    (t, matches)
}

fn symbol_matches() -> (Vec<QueryMatch>, Vec<PatternProperties>) {
    (
        vec![one_match(
            0,
            vec![capture("symbol", 0, "fn f"), capture("name", 0, "f")],
        )],
        vec![PatternProperties {
            kind: Some("function".to_owned()),
            format: None,
        }],
    )
}

#[test]
fn nesting_is_weighted() {
    let (flat_tree, flat_matches) = nested_ifs(false);
    let (nested_tree, nested_matches) = nested_ifs(true);
    let (sm, sp) = symbol_matches();
    let lang = rust();
    let flat = tier1_symbols(&flat_tree, &Vec::new(), &Vec::new(), &sm, &sp, &flat_matches, &lang, "src/lib.rs");
    let nested = tier1_symbols(&nested_tree, &Vec::new(), &Vec::new(), &sm, &sp, &nested_matches, &lang, "src/lib.rs");

    assert_eq!(flat[0].cognitive_complexity, 2);
    assert_eq!(nested[0].cognitive_complexity, 3);
    assert_eq!(nested[0].id, "rust:src/lib.rs:function:f");
}

#[test]
fn flat_code_scores_zero() {
    let (t, _) = nested_ifs(true);
    let (sm, sp) = symbol_matches();
    let symbols = tier1_symbols(&t, &Vec::new(), &Vec::new(), &sm, &sp, &Vec::new(), &rust(), "src/lib.rs");
    assert_eq!(symbols[0].cognitive_complexity, 0);
}

#[test]
fn else_if_is_a_flat_increment() {
    let t = tree(&[
        ("function_item", None, None),
        ("block", None, Some(0)),
        ("if_expression", None, Some(1)),
        ("else_clause", None, Some(2)),
        ("if_expression", None, Some(3)),
        ("else_clause", None, Some(4)),
    ]);
    let matches = vec![
        one_match(0, vec![capture("increment", 2, "if"), capture("nesting", 2, "if")]),
        one_match(1, vec![capture("increment.flat", 3, "else"), capture("no_nesting", 3, "else")]),
        one_match(2, vec![capture("no_increment", 4, "if"), capture("increment", 4, "if")]),
        one_match(1, vec![capture("increment.flat", 5, "else")]),
    ];
    let flags = node_flags(&matches, t.nodes.len());
    assert!(flags[3].flat && flags[3].no_nesting && !flags[3].increment);
    let (sm, sp) = symbol_matches();
    let symbols = tier1_symbols(&t, &Vec::new(), &Vec::new(), &sm, &sp, &matches, &rust(), "src/lib.rs");
    assert_eq!(symbols[0].cognitive_complexity, 3);
}

#[test]
fn a_symbol_starts_a_fresh_nesting_frame() {
    let t = tree(&[
        ("function_item", None, None),
        ("if_expression", None, Some(0)),
        ("function_item", None, Some(1)),
        ("if_expression", None, Some(2)),
    ]);
    let plain = NodeFlags {
        increment: false,
        flat: false,
        nesting: false,
        no_increment: false,
        no_nesting: false,
    };
    let branch = NodeFlags {
        increment: true,
        nesting: true,
        ..plain
    };
    let flags = vec![plain, branch, plain, branch];
    let owners = vec![Some(0), None, Some(1), None];
    assert_eq!(complexity(&t, &flags, &owners, 2), vec![1, 1]);
}

#[test]
fn line_ranges_are_one_based_and_inclusive() {
    let t = tree(&[
        ("source_file", None, None),
        ("function_item", None, Some(0)),
    ]);
    let matches = vec![one_match(
        0,
        vec![capture("symbol", 1, "fn draw() {}"), capture("name", 1, "draw")],
    )];
    let props = vec![PatternProperties {
        kind: Some("function".to_owned()),
        format: None,
    }];
    let found = collect_symbols(&matches, &props, &t, &Vec::new(), &rust(), "src/lib.rs");
    assert_eq!(found[0].symbol.start_line, 2);
    assert_eq!(found[0].symbol.end_line, 4);
    assert_eq!(found[0].symbol.name, "draw");
    assert_eq!(found[0].symbol.content_fingerprint, content_fingerprint(&[]));
    assert_eq!(complexity_by_symbol(&Vec::new(), &t, &found), vec![0]);
}

#[test]
fn scope_formats_render_from_captures() {
    let matches = vec![
        one_match(0, vec![capture("scope", 1, "mod render {}"), capture("name", 1, "render")]),
        one_match(
            1,
            vec![capture("scope", 2, "impl"), capture("type", 2, "Canvas"), capture("trait", 2, "Paint")],
        ),
        one_match(0, vec![capture("name", 3, "orphan")]),
    ];
    let props = vec![
        PatternProperties { kind: None, format: None },
        PatternProperties {
            kind: None,
            format: Some("<{type} as {trait}>".to_owned()),
        },
    ];
    let scopes = collect_scopes(&matches, &props);
    assert_eq!(
        scopes,
        vec![(1, "render".to_owned()), (2, "<Canvas as Paint>".to_owned())]
    );
}

fn function_match(node: usize, name: &str) -> QueryMatch {
    one_match(0, vec![capture("symbol", node, name), capture("name", node, name)])
}

fn kinds() -> Vec<PatternProperties> {
    vec![
        PatternProperties {
            kind: Some("function".to_owned()),
            format: None,
        },
        PatternProperties {
            kind: Some("type".to_owned()),
            format: None,
        },
    ]
}

fn branch(node: usize) -> QueryMatch {
    one_match(0, vec![capture("increment", node, "if"), capture("nesting", node, "if")])
}

fn flat(node: usize, text: &str) -> QueryMatch {
    one_match(1, vec![capture("increment.flat", node, text)])
}

fn symbols_of(t: &SyntaxTree, symbol_matches: Vec<QueryMatch>, complexity_matches: Vec<QueryMatch>) -> Vec<Symbol> {
    tier1_symbols(
        t,
        &Vec::new(),
        &Vec::new(),
        &symbol_matches,
        &kinds(),
        &complexity_matches,
        &rust(),
        "src/lib.rs",
    )
}

#[test]
fn a_boolean_sequence_counts_once() {
    // fn f(..) { if a && b && c {} } and { if a && b || c {} }
    let t = tree(&[
        ("function_item", None, None),
        ("block", None, Some(0)),
        ("if_expression", None, Some(1)),
        ("binary_expression", None, Some(2)),
        ("binary_expression", None, Some(3)),
    ]);
    let one = symbols_of(&t, vec![function_match(0, "f")], vec![branch(2), flat(3, "&&")]);
    let two = symbols_of(&t, vec![function_match(0, "f")], vec![branch(2), flat(3, "||"), flat(4, "&&")]);

    assert_eq!(one[0].cognitive_complexity, 2);
    assert_eq!(two[0].cognitive_complexity, 3);
}

#[test]
fn closure_bodies_nest_without_incrementing() {
    // fn f(v) { v.iter().for_each(|x| if *x > 0 {}); }
    let t = tree(&[
        ("function_item", None, None),
        ("block", None, Some(0)),
        ("closure_expression", None, Some(1)),
        ("if_expression", None, Some(2)),
    ]);
    let closure = one_match(2, vec![capture("nesting", 2, "|x|")]);
    let symbols = symbols_of(&t, vec![function_match(0, "f")], vec![closure, branch(3)]);

    assert_eq!(symbols[0].cognitive_complexity, 2);
}

#[test]
fn closures_are_not_symbols() {
    // fn run() { let f = |x: u32| if x > 0 { x } else { 0 }; }
    let t = tree(&[
        ("function_item", None, None),
        ("block", None, Some(0)),
        ("closure_expression", None, Some(1)),
        ("if_expression", None, Some(2)),
    ]);
    let symbols = symbols_of(&t, vec![function_match(0, "run")], vec![branch(3)]);

    assert_eq!(symbols.len(), 1);
    assert_eq!(symbols[0].name, "run");
}

#[test]
fn complexity_is_attributed_to_the_innermost_symbol() {
    // fn outer(a) { if a {} fn inner(b) { if b {} } }
    let t = tree(&[
        ("function_item", None, None),
        ("block", None, Some(0)),
        ("if_expression", None, Some(1)),
        ("function_item", None, Some(1)),
        ("block", None, Some(3)),
        ("if_expression", None, Some(4)),
    ]);
    let symbols = tier1_symbols(
        &t,
        &vec![one_match(0, vec![capture("scope", 0, "fn outer"), capture("name", 0, "outer")])],
        &vec![PatternProperties { kind: None, format: None }],
        &vec![function_match(0, "outer"), function_match(3, "inner")],
        &kinds(),
        &vec![branch(2), branch(5)],
        &rust(),
        "src/lib.rs",
    );

    let named = |q: &str| symbols.iter().find(|s| s.qualified_path == q).unwrap().cognitive_complexity;
    assert_eq!(named("outer"), 1);
    assert_eq!(named("outer::inner"), 1);
}

#[test]
fn nested_functions_are_scoped_by_their_parent() {
    let t = tree(&[
        ("function_item", None, None),
        ("block", None, Some(0)),
        ("function_item", None, Some(1)),
    ]);
    let symbols = tier1_symbols(
        &t,
        &vec![one_match(0, vec![capture("scope", 0, "fn outer"), capture("name", 0, "outer")])],
        &vec![PatternProperties { kind: None, format: None }],
        &vec![function_match(0, "outer"), function_match(2, "inner")],
        &kinds(),
        &Vec::new(),
        &rust(),
        "src/lib.rs",
    );

    assert!(symbols.iter().any(|s| s.qualified_path == "outer::inner"));
}

#[test]
fn labelled_jumps_increment() {
    // fn f() { 'outer: loop { loop { break 'outer; } } }
    let t = tree(&[
        ("function_item", None, None),
        ("block", None, Some(0)),
        ("loop_expression", None, Some(1)),
        ("block", None, Some(2)),
        ("loop_expression", None, Some(3)),
        ("block", None, Some(4)),
        ("break_expression", None, Some(5)),
    ]);
    let symbols = symbols_of(
        &t,
        vec![function_match(0, "f")],
        vec![branch(2), branch(4), flat(6, "break 'outer")],
    );

    assert_eq!(symbols[0].cognitive_complexity, 4);
}

#[test]
fn extracts_functions_and_types() {
    // struct Point; enum Shade { Light } fn draw() {}
    let t = tree(&[
        ("source_file", None, None),
        ("struct_item", None, Some(0)),
        ("enum_item", None, Some(0)),
        ("function_item", None, Some(0)),
    ]);
    let type_match = |node: usize, name: &str| {
        one_match(1, vec![capture("symbol", node, name), capture("name", node, name)])
    };
    let symbols = symbols_of(
        &t,
        vec![type_match(1, "Point"), type_match(2, "Shade"), function_match(3, "draw")],
        Vec::new(),
    );

    let kinds: Vec<_> = symbols.iter().map(|s| (s.kind.as_str(), s.name.as_str())).collect();
    assert_eq!(kinds, vec![("type", "Point"), ("type", "Shade"), ("function", "draw")]);
}

#[test]
fn methods_sharing_a_name_across_impls_stay_distinct() {
    // struct Canvas; trait Paint { fn draw(&self); }
    // impl Canvas { fn draw(&self) {} } impl Paint for Canvas { fn draw(&self) {} }
    let t = tree(&[
        ("source_file", None, None),
        ("struct_item", None, Some(0)),
        ("trait_item", None, Some(0)),
        ("function_signature_item", None, Some(2)),
        ("impl_item", None, Some(0)),
        ("function_item", None, Some(4)),
        ("impl_item", None, Some(0)),
        ("function_item", None, Some(6)),
    ]);
    let type_match = |node: usize, name: &str| {
        one_match(1, vec![capture("symbol", node, name), capture("name", node, name)])
    };
    let scope_matches = vec![
        one_match(0, vec![capture("scope", 2, "trait Paint"), capture("name", 2, "Paint")]),
        one_match(0, vec![capture("scope", 4, "impl Canvas"), capture("type", 4, "Canvas")]),
        one_match(
            1,
            vec![capture("scope", 6, "impl Paint for Canvas"), capture("type", 6, "Canvas"), capture("trait", 6, "Paint")],
        ),
    ];
    let scope_properties = vec![
        PatternProperties {
            kind: None,
            format: Some("{name}{type}".to_owned()),
        },
        PatternProperties {
            kind: None,
            format: Some("<{type} as {trait}>".to_owned()),
        },
    ];
    let symbols = tier1_symbols(
        &t,
        &scope_matches,
        &scope_properties,
        &vec![
            type_match(1, "Canvas"),
            type_match(2, "Paint"),
            function_match(3, "draw"),
            function_match(5, "draw"),
            function_match(7, "draw"),
        ],
        &kinds(),
        &Vec::new(),
        &rust(),
        "src/lib.rs",
    );

    let mut ids: Vec<_> = symbols.iter().map(|s| s.id.clone()).collect();
    ids.sort();
    ids.dedup();
    assert_eq!(ids.len(), symbols.len(), "identities collided: {symbols:#?}");
    assert!(symbols.iter().any(|s| s.qualified_path == "<Canvas as Paint>::draw"));
    assert!(symbols.iter().any(|s| s.qualified_path == "Canvas::draw"));
}

#[test]
fn reformatting_changes_no_identity_and_no_score() {
    // fn f(a:bool,b:bool){if a{if b{}}} against the same code spread over lines
    let leaves = [
        ("function_item", None, None),
        ("fn", Some("fn"), Some(0)),
        ("identifier", Some("f"), Some(0)),
        ("block", None, Some(0)),
        ("if_expression", None, Some(3)),
        ("if", Some("if"), Some(4)),
        ("block", None, Some(4)),
        ("if_expression", None, Some(6)),
        ("if", Some("if"), Some(7)),
    ];
    let tight = tree(&leaves);
    let mut loose = tree(&leaves);
    for (i, node) in loose.nodes.iter_mut().enumerate() {
        node.start_row = 3 * i + 1;
        node.start_column = 4;
        node.end_row = 3 * i + 6;
    }
    let a = symbols_of(&tight, vec![function_match(0, "f")], vec![branch(4), branch(7)]);
    let b = symbols_of(&loose, vec![function_match(0, "f")], vec![branch(4), branch(7)]);

    assert_eq!(a[0].id, b[0].id);
    assert_eq!(a[0].cognitive_complexity, b[0].cognitive_complexity);
    assert_eq!(a[0].cognitive_complexity, 3);
    assert_eq!(a[0].content_fingerprint, b[0].content_fingerprint);
    assert_ne!(a[0].start_line, b[0].start_line);
}

fn rust_with_symbols_query() -> LanguageDef {
    let mut language = rust();
    language.symbols_query =
        "((function_item name: (identifier) @name) @symbol (#set! kind \"function\"))".to_owned();
    language
}

fn phase1(language: LanguageDef, path: &str, contents: &str) -> beholder::phase1::FileAnalysis {
    let compiled = vec![compile(&language)];
    analyze(&vec![language], &compiled, path, contents)
}

#[test]
fn files_without_a_grammar_still_reach_tier_zero() {
    let result = phase1(rust(), "config.yml", "root:\n  a: 1\n  b: 2\n  c: 3\n");
    assert_eq!(result.tier, 0);
    assert_eq!(result.language, None);
    assert!(result.lines > 0);
    assert!(result.symbols.is_empty());
}

#[test]
fn density_is_reported_for_rust_files_too() {
    let result = phase1(rust(), "src/lib.rs", "fn a() {\n    let x = 1;\n    let y = 2;\n}\n");
    assert_eq!(result.tier, 1);
    assert_eq!(result.lines, 4);
}

#[test]
fn output_is_identical_across_runs() {
    let source = "mod m {\n    fn a() {}\n}\nfn b(x: bool) {\n    if x {}\n}\n";
    let first = phase1(rust_with_symbols_query(), "src/phase1.rs", source);
    let second = phase1(rust_with_symbols_query(), "src/phase1.rs", source);
    assert_eq!(first.symbols, second.symbols);
    assert_eq!(first.content_hash, second.content_hash);
    assert_eq!(first.tier, second.tier);
    assert_eq!(first.lines, second.lines);
    assert_eq!(first.module_segments, second.module_segments);
}

#[test]
fn real_source_is_parsed_and_its_functions_found() {
    let source = "fn draw() {}\n\nfn erase(a: bool) {\n    if a {}\n}\n";
    let result = phase1(rust_with_symbols_query(), "src/lib.rs", source);
    assert_eq!(result.tier, 1);
    assert_eq!(result.language, Some("rust".to_owned()));
    let names: Vec<&str> = result.symbols.iter().map(|s| s.name.as_str()).collect();
    assert_eq!(names, vec!["draw", "erase"]);
    assert!(result.symbols.iter().all(|s| s.kind == "function" && s.tier == 1));
    assert_eq!(result.symbols[1].start_line, 3);
    assert_eq!(result.content_hash, beholder::hash::content_hash(source.as_bytes()));
}

#[test]
fn a_query_the_grammar_refuses_compiles_to_nothing() {
    let mut language = rust();
    language.symbols_query = "((not_a_node_kind) @x)".to_owned();
    assert!(compile(&language).is_none());
    assert!(compile(&rust_with_symbols_query()).is_some());
}

#[test]
fn a_language_without_a_grammar_compiles_to_nothing() {
    let mut language = rust_with_symbols_query();
    language.id = "python".to_owned();
    assert!(compile(&language).is_none());
}
