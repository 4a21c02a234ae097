use beholder::delta::ChangeKind;
use beholder::markdown::{body, complexity, describe_change, fan_in, quiet_body, signed, Row, STICKY_MARKER};
use beholder::risk::WeightCaveat;
use beholder::sarif::describe;

fn row(path: &str, qualified: &str, delta: i64, caveat: Option<WeightCaveat>) -> Row {
    Row {
        qualified_path: qualified.to_owned(),
        path: path.to_owned(),
        start_line: 1,
        end_line: 11,
        change: ChangeKind::Modified,
        complexity_delta: delta,
        complexity_before: Some(0),
        complexity_after: Some(delta.max(0) as u32),
        fan_in: 3,
        fan_in_high_confidence: 2,
        caveat,
    }
}

#[test]
fn a_risky_change_renders_one_marked_comment() {
    let text = body(&vec![row("src/lib.rs", "tally", 3, None)], 1, "<sub>footer does not gate</sub>");

    assert!(text.starts_with(STICKY_MARKER), "{text}");
    assert_eq!(text.matches(STICKY_MARKER).count(), 1, "{text}");
    assert!(text.contains("tally"), "{text}");
    assert!(text.contains("src/lib.rs:1-"), "{text}");
    assert!(text.contains("does not gate"), "{text}");
}

#[test]
fn the_same_report_renders_the_same_body() {
    let rows = || vec![row("src/lib.rs", "tally", 3, None), row("src/a.rs", "Ledger::new", -2, None)];
    assert_eq!(body(&rows(), 5, "f"), body(&rows(), 5, "f"));
}

#[test]
fn a_quiet_body_is_still_marked_and_says_so() {
    let text = quiet_body("80", 1, "<sub>f</sub>");

    assert!(text.starts_with(STICKY_MARKER), "{text}");
    assert!(text.contains("No changed symbol crossed"), "{text}");
    assert_eq!(
        text,
        "<!-- beholder:sticky:v1 -->\n### beholder\n\nNo changed symbol crossed the 80th percentile. 1 symbol changed.\n\n<sub>f</sub>\n"
    );
}

#[test]
fn the_body_is_exactly_the_table() {
    let text = body(&vec![row("src/lib.rs", "tally", 3, None)], 2, "F");

    assert_eq!(
        text,
        "<!-- beholder:sticky:v1 -->\n### beholder\n\n1 of 2 changed symbols ranked risky.\n\n\
         | # | symbol | change | complexity | fan-in |\n| --: | --- | --- | --: | --: |\n\
         | 1 | `tally`<br>`src/lib.rs:1-11` | modified | +3 (0 → 3) | 3 (2 stated) |\n\nF\n"
    );
}

#[test]
fn cells_spell_signs_sides_and_caveats() {
    assert_eq!(signed(4), "+4");
    assert_eq!(signed(0), "0");
    assert_eq!(signed(-12), "-12");
    assert_eq!(signed(i64::MIN), i64::MIN.to_string());
    assert_eq!(complexity(-2, Some(5), Some(3)), "-2 (5 → 3)");
    assert_eq!(complexity(7, None, Some(7)), "+7");
    assert_eq!(fan_in(9, 1, None), "9 (1 stated)");
    assert_eq!(fan_in(9, 1, Some(WeightCaveat::TraitMethodFanInUnreliable)), "9 (trait method, not weighted)");
    assert_eq!(describe_change(ChangeKind::Added), "added");
    assert_eq!(describe_change(ChangeKind::Renamed), "renamed");
}

#[test]
fn a_result_message_names_the_symbol_and_its_percentile() {
    let plain = describe(&row("src/lib.rs", "tally", 3, None), "97", "rust");
    assert_eq!(plain, "tally — complexity +3, fan-in 3 (2 stated), 97th percentile for rust");

    let trait_method = describe(
        &row("src/lib.rs", "<Canvas as Paint>::draw", 1, Some(WeightCaveat::TraitMethodFanInUnreliable)),
        "90",
        "rust",
    );
    assert!(trait_method.ends_with(". Fan-in on trait methods is not weighted: dispatch is not resolvable here"));
}
