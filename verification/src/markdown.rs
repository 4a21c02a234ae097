//! The sticky pull request comment.
//!
//! One comment per pull request, rewritten in place on every push, so the
//! body is a pure function of what it shows: the same rows render the same
//! text. Nothing here reads the clock, the run number, or the surface it is
//! posted to.

use crate::delta::ChangeKind;
use crate::risk::WeightCaveat;
use crate::text::{decimal, push_decimal, push_decimal_u64, push_str};
use vstd::prelude::*;

verus! {

/// Marks the comment beholder owns, so a surface can find its own comment
/// again without keeping state anywhere else.
pub const STICKY_MARKER: &'static str = "<!-- beholder:sticky:v1 -->";

/// The plural suffix for a count: none for exactly one, `s` otherwise.
pub open spec fn spec_plural(count: nat) -> Seq<char> {
    if count == 1 {
        ""@
    } else {
        "s"@
    }
}

/// The plural suffix for a count: none for exactly one, `s` otherwise.
pub fn plural(count: usize) -> (r: &'static str)
    ensures
        r@ == spec_plural(count as nat),
{
    if count == 1 {
        ""
    } else {
        "s"
    }
}

/// A signed delta as reports show it: a plus sign on an increase, a minus
/// sign on a decrease, a bare zero otherwise.
pub open spec fn spec_signed(delta: int) -> Seq<char> {
    if delta > 0 {
        "+"@ + decimal(delta as nat)
    } else if delta < 0 {
        "-"@ + decimal((-delta) as nat)
    } else {
        decimal(0)
    }
}

/// A signed delta as reports show it.
pub fn signed(delta: i64) -> (r: String)
    ensures
        r@ == spec_signed(delta as int),
{
    let mut out = String::new();
    proof {
        reveal_strlit("+");
        reveal_strlit("-");
    }
    if delta > 0 {
        push_str(&mut out, "+");
        push_decimal_u64(&mut out, delta as u64);
    } else if delta < 0 {
        push_str(&mut out, "-");
        let magnitude: u64 = ((-(delta + 1)) as u64) + 1;
        push_decimal_u64(&mut out, magnitude);
    } else {
        push_decimal_u64(&mut out, 0);
    }
    out
}

/// How a change kind is named in the table.
pub open spec fn spec_change_name(kind: ChangeKind) -> Seq<char> {
    match kind {
        ChangeKind::Added => "added"@,
        ChangeKind::Removed => "removed"@,
        ChangeKind::Modified => "modified"@,
        ChangeKind::Moved => "moved"@,
        ChangeKind::Renamed => "renamed"@,
    }
}

/// How a change kind is named in the table.
pub fn describe_change(kind: ChangeKind) -> (r: &'static str)
    ensures
        r@ == spec_change_name(kind),
{
    match kind {
        ChangeKind::Added => "added",
        ChangeKind::Removed => "removed",
        ChangeKind::Modified => "modified",
        ChangeKind::Moved => "moved",
        ChangeKind::Renamed => "renamed",
    }
}

/// The complexity cell: the signed delta, then both sides when there are two.
pub open spec fn spec_complexity(delta: int, before: Option<u32>, after: Option<u32>) -> Seq<char> {
    match (before, after) {
        (Some(b), Some(a)) => spec_signed(delta) + " ("@ + decimal(b as nat) + " → "@ + decimal(a as nat) + ")"@,
        _ => spec_signed(delta),
    }
}

/// The complexity cell.
pub fn complexity(delta: i64, before: Option<u32>, after: Option<u32>) -> (r: String)
    ensures
        r@ == spec_complexity(delta as int, before, after),
{
    let mut out = signed(delta);
    match (before, after) {
        (Some(b), Some(a)) => {
            let ghost start = out@;
            push_str(&mut out, " (");
            push_decimal(&mut out, b as usize);
            push_str(&mut out, " → ");
            push_decimal(&mut out, a as usize);
            push_str(&mut out, ")");
            proof {
                assert(out@ =~= start + " ("@ + decimal(b as nat) + " → "@ + decimal(a as nat) + ")"@);
            }
        },
        _ => {},
    }
    out
}

/// The fan-in cell: every fan-in, and either how much of it is stated or
/// why it was not weighted.
pub open spec fn spec_fan_in(fan_in: nat, high_confidence: nat, caveat: Option<WeightCaveat>) -> Seq<char> {
    match caveat {
        Some(WeightCaveat::TraitMethodFanInUnreliable) => decimal(fan_in) + " (trait method, not weighted)"@,
        None => decimal(fan_in) + " ("@ + decimal(high_confidence) + " stated)"@,
    }
}

/// The fan-in cell.
pub fn fan_in(count: usize, high_confidence: usize, caveat: Option<WeightCaveat>) -> (r: String)
    ensures
        r@ == spec_fan_in(count as nat, high_confidence as nat, caveat),
{
    let mut out = String::new();
    push_decimal(&mut out, count);
    let ghost start = out@;
    match caveat {
        Some(WeightCaveat::TraitMethodFanInUnreliable) => {
            push_str(&mut out, " (trait method, not weighted)");
        },
        None => {
            push_str(&mut out, " (");
            push_decimal(&mut out, high_confidence);
            push_str(&mut out, " stated)");
            proof {
                assert(out@ =~= start + " ("@ + decimal(high_confidence as nat) + " stated)"@);
            }
        },
    }
    out
}

/// One surfaced change, as the table shows it.
pub struct Row {
    pub qualified_path: String,
    pub path: String,
    pub start_line: usize,
    pub end_line: usize,
    pub change: ChangeKind,
    pub complexity_delta: i64,
    pub complexity_before: Option<u32>,
    pub complexity_after: Option<u32>,
    pub fan_in: usize,
    pub fan_in_high_confidence: usize,
    pub caveat: Option<WeightCaveat>,
}

/// The table line of the row ranked `rank`, counting from one.
pub open spec fn spec_row(rank: nat, r: Row) -> Seq<char> {
    "| "@ + decimal(rank) + " | `"@ + r.qualified_path@ + "`<br>`"@ + r.path@ + ":"@ + decimal(r.start_line as nat)
        + "-"@ + decimal(r.end_line as nat) + "` | "@ + spec_change_name(r.change) + " | "@ + spec_complexity(
        r.complexity_delta as int,
        r.complexity_before,
        r.complexity_after,
    ) + " | "@ + spec_fan_in(r.fan_in as nat, r.fan_in_high_confidence as nat, r.caveat) + " |\n"@
}

/// The table lines of the first `n` rows, ranked from one.
pub open spec fn spec_rows(rows: Seq<Row>, n: int) -> Seq<char>
    decreases n,
{
    if n <= 0 {
        Seq::empty()
    } else {
        spec_rows(rows, n - 1) + spec_row(n as nat, rows[n - 1])
    }
}

/// The comment body: the marker, a heading, how many of the changes ranked
/// risky, the table of the surfaced ones most risky first, and the footer.
pub open spec fn spec_body(rows: Seq<Row>, changes: nat, footer: Seq<char>) -> Seq<char> {
    STICKY_MARKER@ + "\n### beholder\n\n"@ + decimal(rows.len()) + " of "@ + decimal(changes) + " changed symbol"@
        + spec_plural(changes) + " ranked risky.\n\n"@ + "| # | symbol | change | complexity | fan-in |\n"@
        + "| --: | --- | --- | --: | --: |\n"@ + spec_rows(rows, rows.len() as int) + "\n"@ + footer + "\n"@
}

/// One table line.
fn row(rank: usize, r: &Row) -> (s: String)
    ensures
        s@ == spec_row(rank as nat, *r),
{
    let mut out = String::new();
    push_str(&mut out, "| ");
    push_decimal(&mut out, rank);
    push_str(&mut out, " | `");
    push_str(&mut out, r.qualified_path.as_str());
    push_str(&mut out, "`<br>`");
    push_str(&mut out, r.path.as_str());
    push_str(&mut out, ":");
    push_decimal(&mut out, r.start_line);
    push_str(&mut out, "-");
    push_decimal(&mut out, r.end_line);
    push_str(&mut out, "` | ");
    push_str(&mut out, describe_change(r.change));
    push_str(&mut out, " | ");
    let c = complexity(r.complexity_delta, r.complexity_before, r.complexity_after);
    push_str(&mut out, c.as_str());
    push_str(&mut out, " | ");
    let f = fan_in(r.fan_in, r.fan_in_high_confidence, r.caveat);
    push_str(&mut out, f.as_str());
    push_str(&mut out, " |\n");
    proof {
        assert(out@ =~= spec_row(rank as nat, *r));
    }
    out
}

/// Render the comment body for the surfaced rows, most risky first, out of
/// `changes` changed symbols, ending with `footer`.
pub fn body(rows: &Vec<Row>, changes: usize, footer: &str) -> (s: String)
    ensures
        s@ == spec_body(rows@, changes as nat, footer@),
{
    let mut out = String::new();
    push_str(&mut out, STICKY_MARKER);
    push_str(&mut out, "\n### beholder\n\n");
    push_decimal(&mut out, rows.len());
    push_str(&mut out, " of ");
    push_decimal(&mut out, changes);
    push_str(&mut out, " changed symbol");
    push_str(&mut out, plural(changes));
    push_str(&mut out, " ranked risky.\n\n");
    push_str(&mut out, "| # | symbol | change | complexity | fan-in |\n");
    push_str(&mut out, "| --: | --- | --- | --: | --: |\n");
    let ghost head = out@;
    let mut k: usize = 0;
    while k < rows.len()
        invariant
            k <= rows@.len(),
            out@ == head + spec_rows(rows@, k as int),
        decreases rows@.len() - k,
    {
        let line = row(k + 1, &rows[k]);
        push_str(&mut out, line.as_str());
        proof {
            assert(head + spec_rows(rows@, k + 1) =~= head + spec_rows(rows@, k as int) + spec_row(
                (k + 1) as nat,
                rows@[k as int],
            ));
        }
        k = k + 1;
    }
    push_str(&mut out, "\n");
    push_str(&mut out, footer);
    push_str(&mut out, "\n");
    proof {
        assert(out@ =~= spec_body(rows@, changes as nat, footer@));
    }
    out
}

/// The body left behind when a report has gone quiet: the marker, that no
/// change crossed the threshold (as given, already spelled), how many
/// changed, and the footer.
pub open spec fn spec_quiet(threshold: Seq<char>, changes: nat, footer: Seq<char>) -> Seq<char> {
    STICKY_MARKER@ + "\n### beholder\n\nNo changed symbol crossed the "@ + threshold + "th percentile. "@ + decimal(
        changes,
    ) + " symbol"@ + spec_plural(changes) + " changed.\n\n"@ + footer + "\n"@
}

/// Render the body a surface leaves behind when a report has gone quiet.
pub fn quiet_body(threshold: &str, changes: usize, footer: &str) -> (s: String)
    ensures
        s@ == spec_quiet(threshold@, changes as nat, footer@),
{
    let mut out = String::new();
    push_str(&mut out, STICKY_MARKER);
    push_str(&mut out, "\n### beholder\n\nNo changed symbol crossed the ");
    push_str(&mut out, threshold);
    push_str(&mut out, "th percentile. ");
    push_decimal(&mut out, changes);
    push_str(&mut out, " symbol");
    push_str(&mut out, plural(changes));
    push_str(&mut out, " changed.\n\n");
    push_str(&mut out, footer);
    push_str(&mut out, "\n");
    proof {
        assert(out@ =~= spec_quiet(threshold@, changes as nat, footer@));
    }
    out
}

} // verus!
