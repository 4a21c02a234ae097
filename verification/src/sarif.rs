//! SARIF 2.1.0 records.
//!
//! A surface, not a second ranking: every result is a rendering of a ranked
//! change that was already chosen to surface.

use crate::markdown::{signed, spec_signed, Row};
use crate::risk::WeightCaveat;
use crate::text::{decimal, push_decimal, push_str};
use vstd::prelude::*;

verus! {

/// The schema a log declares.
pub const SCHEMA: &'static str = "https://json.schemastore.org/sarif-2.1.0.json";

/// The SARIF version a log declares.
pub const VERSION: &'static str = "2.1.0";

/// The one rule beholder reports under.
pub const RULE_ID: &'static str = "beholder/risky-change";

/// A SARIF log.
pub struct Log {
    pub schema: String,
    pub version: String,
    pub runs: Vec<Run>,
}

pub struct Run {
    pub tool: Tool,
    pub results: Vec<SarifResult>,
    pub column_kind: String,
}

pub struct Tool {
    pub driver: Driver,
}

pub struct Driver {
    pub name: String,
    pub version: String,
    pub information_uri: String,
    pub rules: Vec<Rule>,
}

pub struct Rule {
    pub id: String,
    pub name: String,
    pub short_description: Message,
    pub full_description: Message,
    pub default_configuration: Configuration,
}

pub struct Configuration {
    pub level: String,
}

pub struct Message {
    pub text: String,
}

pub struct SarifResult {
    pub rule_id: String,
    pub level: String,
    pub message: Message,
    pub locations: Vec<Location>,
    /// Fingerprint name to value, ascending by name.
    pub partial_fingerprints: Vec<(String, String)>,
}

pub struct Location {
    pub physical_location: PhysicalLocation,
}

pub struct PhysicalLocation {
    pub artifact_location: ArtifactLocation,
    pub region: Region,
}

pub struct ArtifactLocation {
    pub uri: String,
}

pub struct Region {
    pub start_line: usize,
    pub end_line: usize,
}

/// The level a result is reported at: beholder reports and does not gate, so
/// the top of the range is a warning and everything else a note.
pub fn level(top_of_range: bool) -> (r: &'static str)
    ensures
        r@ == if top_of_range {
            "warning"@
        } else {
            "note"@
        },
{
    if top_of_range {
        "warning"
    } else {
        "note"
    }
}

/// One result for a surfaced change: the rule, the level, the message, the
/// whole-line region of the symbol, and the symbol id as its fingerprint.
pub fn result(
    id: &str,
    path: &str,
    start_line: usize,
    end_line: usize,
    level: &str,
    message: String,
) -> (r: SarifResult)
    ensures
        r.rule_id@ == RULE_ID@,
        r.level@ == level@,
        r.message.text == message,
        r.locations@.len() == 1,
        r.locations@[0].physical_location.artifact_location.uri@ == path@,
        r.locations@[0].physical_location.region.start_line == start_line,
        r.locations@[0].physical_location.region.end_line == end_line,
        r.partial_fingerprints@.len() == 1,
        r.partial_fingerprints@[0].0@ == "beholderSymbol/v1"@,
        r.partial_fingerprints@[0].1@ == id@,
{
    let mut locations: Vec<Location> = Vec::new();
    locations.push(
        Location {
            physical_location: PhysicalLocation {
                artifact_location: ArtifactLocation { uri: path.to_owned() },
                region: Region { start_line, end_line },
            },
        },
    );
    let mut partial_fingerprints: Vec<(String, String)> = Vec::new();
    partial_fingerprints.push(("beholderSymbol/v1".to_owned(), id.to_owned()));
    SarifResult {
        rule_id: RULE_ID.to_owned(),
        level: level.to_owned(),
        message: Message { text: message },
        locations,
        partial_fingerprints,
    }
}

/// A log of one run of the given tool version, holding `results`, with the
/// one rule beholder reports under.
pub fn log(tool_version: &str, results: Vec<SarifResult>) -> (r: Log)
    ensures
        r.schema@ == SCHEMA@,
        r.version@ == VERSION@,
        r.runs@.len() == 1,
        r.runs@[0].results == results,
        r.runs@[0].column_kind@ == "utf16CodeUnits"@,
        r.runs@[0].tool.driver.name@ == "beholder"@,
        r.runs@[0].tool.driver.version@ == tool_version@,
        r.runs@[0].tool.driver.rules@.len() == 1,
        r.runs@[0].tool.driver.rules@[0].id@ == RULE_ID@,
        r.runs@[0].tool.driver.rules@[0].default_configuration.level@ == "note"@,
{
    let mut rules: Vec<Rule> = Vec::new();
    rules.push(
        Rule {
            id: RULE_ID.to_owned(),
            name: "RiskyChange".to_owned(),
            short_description: Message { text: "A changed symbol ranked risky".to_owned() },
            full_description: Message {
                text: "Cognitive complexity moved in a symbol that other code depends on. Ranked by complexity delta weighted by fan-in, as a percentile within its own language.".to_owned(),
            },
            default_configuration: Configuration { level: "note".to_owned() },
        },
    );
    let mut runs: Vec<Run> = Vec::new();
    runs.push(
        Run {
            tool: Tool {
                driver: Driver {
                    name: "beholder".to_owned(),
                    version: tool_version.to_owned(),
                    information_uri: "https://github.com/wyrd-company/beholder".to_owned(),
                    rules,
                },
            },
            results,
            column_kind: "utf16CodeUnits".to_owned(),
        },
    );
    Log { schema: SCHEMA.to_owned(), version: VERSION.to_owned(), runs }
}


/// A result's message: the symbol, its signed complexity delta, its fan-in
/// and how much of it is stated, its percentile as given (already spelled)
/// for its language, and why fan-in went unweighted when it did.
pub open spec fn spec_describe(r: Row, percentile: Seq<char>, language: Seq<char>) -> Seq<char> {
    let text = r.qualified_path@ + " — complexity "@ + spec_signed(r.complexity_delta as int) + ", fan-in "@ + decimal(
        r.fan_in as nat,
    ) + " ("@ + decimal(r.fan_in_high_confidence as nat) + " stated), "@ + percentile + "th percentile for "@
        + language;
    match r.caveat {
        Some(WeightCaveat::TraitMethodFanInUnreliable) => text
            + ". Fan-in on trait methods is not weighted: dispatch is not resolvable here"@,
        None => text,
    }
}

/// A result's message.
pub fn describe(r: &Row, percentile: &str, language: &str) -> (s: String)
    ensures
        s@ == spec_describe(*r, percentile@, language@),
{
    let mut out = String::new();
    push_str(&mut out, r.qualified_path.as_str());
    push_str(&mut out, " — complexity ");
    let delta = signed(r.complexity_delta);
    push_str(&mut out, delta.as_str());
    push_str(&mut out, ", fan-in ");
    push_decimal(&mut out, r.fan_in);
    push_str(&mut out, " (");
    push_decimal(&mut out, r.fan_in_high_confidence);
    push_str(&mut out, " stated), ");
    push_str(&mut out, percentile);
    push_str(&mut out, "th percentile for ");
    push_str(&mut out, language);
    let ghost text = out@;
    proof {
        assert(text =~= r.qualified_path@ + " — complexity "@ + spec_signed(r.complexity_delta as int) + ", fan-in "@
            + decimal(r.fan_in as nat) + " ("@ + decimal(r.fan_in_high_confidence as nat) + " stated), "@ + percentile@
            + "th percentile for "@ + language@);
    }
    match r.caveat {
        Some(WeightCaveat::TraitMethodFanInUnreliable) => {
            push_str(&mut out, ". Fan-in on trait methods is not weighted: dispatch is not resolvable here");
        },
        None => {},
    }
    out
}

} // verus!
