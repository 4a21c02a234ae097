use beholder::analysis::{is_repo_relative, Fingerprint, PATH_RULES};
use beholder::config::{sorted_distinct, Config};
use beholder::lang::{
    by_id, for_path, rust_optional_trailing, table_fingerprint, ImportSyntax, LanguageDef,
    ModulePathRules,
};
use beholder::markdown::plural;
use beholder::resolve::{label, last_segment, scope_mentions, separator_for, Unresolved};
use beholder::risk::{language_of, short, FanInBasis};
use beholder::sarif::{level, log, result};
use beholder::store::{validate_payload, Invalid, Meta};
use beholder::tier0::indentation_widths;
use beholder::walk::{
    ignored_by, is_infrastructure, is_regular_mode, manifest_of, selects_by_config, sort_stably,
    strip_directory, IgnoreVerdict, SourceFile,
};

fn rust_def() -> LanguageDef {
    LanguageDef {
        id: "rust".to_owned(),
        extensions: vec!["rs".to_owned()],
        symbols_query: "(function_item) @symbol".to_owned(),
        scopes_query: String::new(),
        complexity_query: String::new(),
        discriminators_query: String::new(),
        references_query: String::new(),
        imports_query: String::new(),
        import_syntax: ImportSyntax::rust(),
        module_paths: ModulePathRules::rust(),
        path_separator: "::".to_owned(),
        optional_trailing: rust_optional_trailing(),
    }
}

fn config(exts: &[&str], paths: &[&str], only: &[&str]) -> Config {
    let own = |xs: &[&str]| xs.iter().map(|x| (*x).to_owned()).collect::<Vec<_>>();
    let mut c = Config {
        ignored_extensions: own(exts),
        ignored_paths: own(paths),
        only_paths: own(only),
    };
    c.normalize();
    c
}

// ---- analysis ----

#[test]
fn path_rules_reject_anything_but_repo_relative_posix() {
    assert!(is_repo_relative("crates/a/src/lib.rs"));
    assert!(!is_repo_relative("/abs/path.rs"));
    assert!(!is_repo_relative("a\\b.rs"));
    assert!(!is_repo_relative("../escape.rs"));
    assert!(!is_repo_relative("./here.rs"));
    assert!(!is_repo_relative(""));
}

#[test]
fn empty_and_trailing_components_are_refused() {
    assert!(!is_repo_relative("a//b.rs"));
    assert!(!is_repo_relative("a/"));
    assert!(!is_repo_relative("a/./b.rs"));
    assert!(is_repo_relative("a/..b/c.rs"));
    assert!(is_repo_relative(".hidden"));
}

#[test]
fn a_fingerprint_records_its_parts() {
    let f = Fingerprint::new("1.2.3", "cfg", "table");
    assert_eq!(f.schema_version, beholder::SCHEMA_VERSION);
    assert_eq!(f.tool_version, "1.2.3");
    assert_eq!(f.config, "cfg");
    assert_eq!(f.language_table, "table");
    assert_eq!(f.path_rules, PATH_RULES);
}

// ---- configuration ----

#[test]
fn ignores_extensions_and_paths() {
    let config = config(&["lock", "svg"], &["vendor/"], &[]);

    assert!(!config.accepts("Cargo.lock"));
    assert!(!config.accepts("assets/logo.svg"));
    assert!(!config.accepts("vendor/thing.rs"));
    assert!(config.accepts("src/main.rs"));
}

#[test]
fn only_paths_restricts_the_walk() {
    let config = config(&[], &[], &["crates/"]);

    assert!(config.accepts("crates/beholder/src/lib.rs"));
    assert!(!config.accepts("xtask/src/main.rs"));
}

#[test]
fn normalizing_ignores_authoring_order() {
    let a = config(&["svg", "lock", "svg"], &[], &[]);
    let b = config(&["lock", "svg"], &[], &[]);
    assert_eq!(a.ignored_extensions, b.ignored_extensions);
    assert_eq!(a.ignored_extensions, vec!["lock".to_owned(), "svg".to_owned()]);
    assert_eq!(
        sorted_distinct(&vec!["b".to_owned(), "a".to_owned(), "b".to_owned()]),
        vec!["a".to_owned(), "b".to_owned()]
    );
}

#[test]
fn the_default_configuration_accepts_everything() {
    let config = Config::default();
    assert!(config.accepts("Cargo.lock"));
    assert!(config.accepts("Makefile"));
    assert!(config.ignored_extensions.is_empty());
}

// ---- languages ----

#[test]
fn fingerprint_is_stable() {
    let table = vec![rust_def()];
    assert_eq!(table_fingerprint(&table), table_fingerprint(&table));
}

#[test]
fn the_table_fingerprint_follows_its_queries() {
    let a = vec![rust_def()];
    let mut changed = rust_def();
    changed.symbols_query.push_str(" ");
    let b = vec![changed];
    assert_ne!(table_fingerprint(&a), table_fingerprint(&b));
    assert_eq!(table_fingerprint(&Vec::new()), hex_of_empty());
}

fn hex_of_empty() -> String {
    beholder::hash::hex_sha256(b"")
}

#[test]
fn paths_map_to_languages_by_extension() {
    let table = vec![rust_def()];
    assert_eq!(for_path(&table, "src/main.rs").map(|l| l.id.as_str()), Some("rust"));
    assert_eq!(for_path(&table, "README.md").map(|l| l.id.as_str()), None);
    assert_eq!(for_path(&table, "Makefile").map(|l| l.id.as_str()), None);
}

#[test]
fn module_paths_come_from_file_paths() {
    let table = vec![rust_def()];
    let rules = &by_id(&table, "rust").unwrap().module_paths;

    assert_eq!(rules.segments("crates/core/src/git.rs"), vec!["git"]);
    assert!(rules.segments("crates/core/src/lib.rs").is_empty());
    assert!(rules.segments("src/main.rs").is_empty());
    assert_eq!(rules.segments("src/a/mod.rs"), vec!["a"]);
    assert_eq!(rules.segments("src/a/b.rs"), vec!["a", "b"]);
    assert_eq!(rules.segments("a/src/b/src/c.rs"), vec!["c"]);
}

#[test]
fn extensions_are_claimed_by_exactly_one_language() {
    let table = vec![rust_def()];
    let mut seen: Vec<&str> = Vec::new();
    for lang in &table {
        for ext in &lang.extensions {
            assert!(!seen.contains(&ext.as_str()), "extension {ext} claimed twice");
            seen.push(ext);
        }
    }
    assert!(by_id(&table, "python").is_none());
}

#[test]
fn rust_import_syntax_and_trailing_lists() {
    let syntax = ImportSyntax::rust();
    assert_eq!(syntax.separator, "::");
    assert_eq!(syntax.crate_roots, ["crate", "self", "super"]);
    let trailing = rust_optional_trailing();
    assert_eq!(trailing.len(), 16);
    assert!(trailing.iter().all(|t| t.token == ","));
    assert!(trailing.iter().all(|t| t.container != "tuple_expression"));
}

// ---- tier 0 ----

#[test]
fn counts_whitespace_correctly() {
    assert_eq!(indentation_widths("    def full_name"), vec![4]);
    assert_eq!(indentation_widths("class Person; end"), vec![0]);
    assert!(indentation_widths("").is_empty());
}

#[test]
fn parses_a_file() {
    assert_eq!(
        indentation_widths("\n\nclass Person;end\n\nclass Dog;end\n\n"),
        vec![0, 0]
    );
}

#[test]
fn tabs_count_and_whitespace_only_lines_are_blank() {
    assert_eq!(indentation_widths("\tx\n  \n \t y\n"), vec![1, 3]);
    assert_eq!(indentation_widths("a\n  b\n    c"), vec![0, 2, 4]);
}

// ---- store validation ----

fn fingerprint() -> Fingerprint {
    Fingerprint::new("0.1.0", "cfg", "table")
}

fn meta(commit: &str, f: Fingerprint) -> Meta {
    Meta {
        fingerprint: f,
        source_commit: commit.to_owned(),
    }
}

#[test]
fn a_matching_header_is_accepted() {
    assert!(meta("abc", fingerprint()).validate("abc", &fingerprint()).is_ok());
}

#[test]
fn every_header_mismatch_is_named() {
    assert!(matches!(
        meta("abc", fingerprint()).validate("def", &fingerprint()),
        Err(Invalid::SourceCommit { expected, found }) if expected == "def" && found == "abc"
    ));
    let mut f = fingerprint();
    f.schema_version += 1;
    assert!(matches!(
        meta("abc", f).validate("abc", &fingerprint()),
        Err(Invalid::SchemaVersion { .. })
    ));
    assert!(matches!(
        meta("abc", Fingerprint::new("0.0.9", "cfg", "table")).validate("abc", &fingerprint()),
        Err(Invalid::ToolVersion { expected, found }) if expected == "0.1.0" && found == "0.0.9"
    ));
    assert!(matches!(
        meta("abc", Fingerprint::new("0.1.0", "other", "table")).validate("abc", &fingerprint()),
        Err(Invalid::Config)
    ));
    assert!(matches!(
        meta("abc", Fingerprint::new("0.1.0", "cfg", "other")).validate("abc", &fingerprint()),
        Err(Invalid::LanguageTable)
    ));
    let mut f = fingerprint();
    f.path_rules = "absolute".to_owned();
    assert!(matches!(
        meta("abc", f).validate_fingerprint(&fingerprint()),
        Err(Invalid::PathRules { found }) if found == "absolute"
    ));
}

fn pairs(xs: &[(&str, &str)]) -> Vec<(String, String)> {
    xs.iter().map(|(a, b)| ((*a).to_owned(), (*b).to_owned())).collect()
}

#[test]
fn payload_validation_names_what_went_wrong() {
    let manifest = pairs(&[("src/a.rs", "h1"), ("src/b.rs", "h2")]);
    assert!(validate_payload(&pairs(&[("src/b.rs", "h2"), ("src/a.rs", "h1")]), &manifest).is_ok());
    assert!(matches!(
        validate_payload(&pairs(&[("/abs.rs", "h1")]), &manifest),
        Err(Invalid::Path { path }) if path == "/abs.rs"
    ));
    assert!(matches!(
        validate_payload(&pairs(&[("src/a.rs", "h1"), ("src/z.rs", "h9")]), &manifest),
        Err(Invalid::FileSet { missing, extra })
            if missing == vec!["src/b.rs".to_owned()] && extra == vec!["src/z.rs".to_owned()]
    ));
    assert!(matches!(
        validate_payload(&pairs(&[("src/a.rs", "h1"), ("src/b.rs", "bad")]), &manifest),
        Err(Invalid::ContentHash { path }) if path == "src/b.rs"
    ));
}

// ---- walk ----

fn source(path: &str, contents: &str) -> SourceFile {
    SourceFile {
        path: path.to_owned(),
        contents: contents.to_owned(),
    }
}

#[test]
fn beholders_own_files_are_infrastructure() {
    assert!(is_infrastructure(".gitignore"));
    assert!(is_infrastructure("nested/.gitignore"));
    assert!(is_infrastructure(".git/config"));
    assert!(is_infrastructure("symbols.jsonl"));
    assert!(is_infrastructure("files.jsonl"));
    assert!(!is_infrastructure("src/symbols.jsonl"));
    assert!(!is_infrastructure("src/lib.rs"));
}

#[test]
fn selection_combines_infrastructure_and_configuration() {
    let config = config(&["lock"], &[], &[]);
    assert!(selects_by_config(&config, "src/lib.rs"));
    assert!(!selects_by_config(&config, "Cargo.lock"));
    assert!(!selects_by_config(&config, ".gitignore"));
}

#[test]
fn only_regular_blobs_are_source() {
    assert!(is_regular_mode(true, 0o100644));
    assert!(is_regular_mode(true, 0o100755));
    assert!(!is_regular_mode(true, 0o120000));
    assert!(!is_regular_mode(false, 0o100644));
}

#[test]
fn paths_are_taken_relative_to_the_directory() {
    assert_eq!(strip_directory("repo/src/a.rs", "repo"), Some("src/a.rs"));
    assert_eq!(strip_directory("src/a.rs", ""), Some("src/a.rs"));
    assert_eq!(strip_directory("repository/a.rs", "repo"), None);
}

#[test]
fn files_sort_stably_and_manifest_keeps_the_last_hash() {
    let files = sort_stably(vec![
        source("b.rs", "one"),
        source("a.rs", "x"),
        source("b.rs", "two"),
    ]);
    let order: Vec<(&str, &str)> = files
        .iter()
        .map(|f| (f.path.as_str(), f.contents.as_str()))
        .collect();
    assert_eq!(order, [("a.rs", "x"), ("b.rs", "one"), ("b.rs", "two")]);
    let manifest = manifest_of(&files);
    assert_eq!(manifest.len(), 2);
    assert_eq!(manifest[0].0, "a.rs");
    assert_eq!(manifest[0].1, beholder::hash::content_hash(b"x"));
    assert_eq!(manifest[1].1, beholder::hash::content_hash(b"two"));
}

#[test]
fn the_deepest_gitignore_decides() {
    assert!(!ignored_by(&vec![]));
    assert!(ignored_by(&vec![IgnoreVerdict::Ignore, IgnoreVerdict::Unmatched]));
    assert!(!ignored_by(&vec![IgnoreVerdict::Ignore, IgnoreVerdict::Whitelist]));
    assert!(ignored_by(&vec![
        IgnoreVerdict::Whitelist,
        IgnoreVerdict::Ignore,
        IgnoreVerdict::Unmatched
    ]));
}

// ---- resolution ----

#[test]
fn reasons_have_stable_labels() {
    assert_eq!(label(Unresolved::NoCandidate), "no_candidate");
    assert_eq!(label(Unresolved::Ambiguous), "ambiguous");
    assert_eq!(label(Unresolved::NoReferrer), "no_referrer");
}

#[test]
fn qualified_paths_split_on_the_language_separator() {
    let def = rust_def();
    assert_eq!(separator_for(Some(&def)), "::");
    assert_eq!(separator_for(None), "::");
    assert_eq!(last_segment("a::b::c", "::"), "c");
    assert_eq!(last_segment("c", "::"), "c");
    assert!(scope_mentions("<Canvas as Paint>::draw", "::", "Canvas"));
    assert!(scope_mentions("<Canvas as Paint>::draw", "::", "Paint"));
    assert!(!scope_mentions("<Canvas as Paint>::draw", "::", "draw"));
    assert!(!scope_mentions("Canvasser::draw", "::", "Canvas"));
}

// ---- risk, sarif, markdown ----

#[test]
fn revisions_and_languages_are_named_briefly() {
    assert_eq!(language_of("rust:a.rs:function:f"), "rust");
    assert_eq!(language_of("plain"), "plain");
    assert_eq!(short("0123456789abcdef0123"), "01234567");
    assert_eq!(short("main"), "main");
    assert_eq!(short("HEAD~1"), "HEAD~1");
    assert_eq!(FanInBasis::Raw.label(), "raw");
    assert_eq!(FanInBasis::Damped.label(), "damped");
}

#[test]
fn a_result_points_at_the_symbol_and_a_log_declares_its_schema() {
    let r = result("rust:a.rs:function:f", "a.rs", 3, 7, level(true), "moved".to_owned());
    assert_eq!(r.level, "warning");
    assert_eq!(r.locations[0].physical_location.region.start_line, 3);
    assert_eq!(r.locations[0].physical_location.region.end_line, 7);
    assert_eq!(r.partial_fingerprints[0].1, "rust:a.rs:function:f");
    assert_eq!(level(false), "note");
    let l = log("0.1.0", vec![r]);
    assert_eq!(l.version, "2.1.0");
    assert_eq!(l.runs.len(), 1);
    assert_eq!(l.runs[0].results.len(), 1);
    assert_eq!(l.runs[0].tool.driver.version, "0.1.0");
}

#[test]
fn plurals_are_for_everything_but_one() {
    assert_eq!(plural(1), "");
    assert_eq!(plural(0), "s");
    assert_eq!(plural(2), "s");
}
