//! The integer side of risk ranking: which fan-in a ranking weights by, why a
//! weight may be withheld, and how revisions and languages are named.

use crate::delta::{ChangeKind, Metrics, SymbolChange};
use crate::graph::Degree;
use crate::markdown::{signed, spec_signed, Row};
use crate::order::str_eq;
use crate::text::{contains_sub, decimal, push_decimal, push_str, split_on, split_str, str_contains, string_of_range};
use vstd::prelude::*;

verus! {

/// Which fan-in a ranking weights by.
#[derive(Debug, Clone, Copy, PartialEq, Eq, Structural)]
pub enum FanInBasis {
    /// Every resolved edge.
    Raw,
    /// Every edge, with the low-confidence contribution damped rather than
    /// discarded.
    Damped,
}

impl FanInBasis {
    /// The name this basis is reported under.
    pub fn label(self) -> (r: &'static str)
        ensures
            r@ == match self {
                FanInBasis::Raw => "raw"@,
                FanInBasis::Damped => "damped"@,
            },
    {
        match self {
            FanInBasis::Raw => "raw",
            FanInBasis::Damped => "damped",
        }
    }
}

/// Why a symbol's fan-in was not used as an ordinary weight.
#[derive(Debug, Clone, Copy, PartialEq, Eq, Structural)]
pub enum WeightCaveat {
    /// Fan-in on trait methods was measured as anti-correlated with the
    /// truth, so it is reported and not multiplied in.
    TraitMethodFanInUnreliable,
}

/// The language of a symbol id: everything before its first `:`.
pub fn language_of(id: &str) -> (r: String)
    ensures
        r@ == split_on(id@, ':')[0],
{
    let pieces = split_str(id, ':');
    proof {
        crate::text::lemma_split_on_nonempty(id@, ':');
        assert(pieces@[0]@ == pieces@.map_values(|p: String| p@)[0]);
    }
    pieces[0].clone()
}

/// An ASCII hexadecimal digit.
pub open spec fn is_hex_digit(c: char) -> bool {
    ('0' <= c && c <= '9') || ('a' <= c && c <= 'f') || ('A' <= c && c <= 'F')
}

/// How a revision is shown: a full hexadecimal commit id is cut to its first
/// eight characters; anything else is shown whole.
pub open spec fn spec_short(revision: Seq<char>) -> Seq<char> {
    if revision.len() > 8 && forall|i: int| 0 <= i < revision.len() ==> is_hex_digit(#[trigger] revision[i]) {
        revision.take(8)
    } else {
        revision
    }
}

/// How a revision is shown.
pub fn short(revision: &str) -> (r: String)
    ensures
        r@ == spec_short(revision@),
{
    let cs = crate::text::chars_of(revision);
    let mut all_hex = true;
    let mut i: usize = 0;
    while i < cs.len()
        invariant
            i <= cs@.len(),
            cs@ == revision@,
            all_hex <==> forall|k: int| 0 <= k < i ==> is_hex_digit(#[trigger] cs@[k]),
        decreases cs@.len() - i,
    {
        let c = cs[i];
        if !(('0' <= c && c <= '9') || ('a' <= c && c <= 'f') || ('A' <= c && c <= 'F')) {
            all_hex = false;
        }
        i = i + 1;
    }
    if cs.len() > 8 && all_hex {
        string_of_range(cs.as_slice(), 0, 8)
    } else {
        string_of_range(cs.as_slice(), 0, cs.len())
    }
}


/// The side of a change a ranking describes: after when there is one.
pub open spec fn side_of(c: SymbolChange) -> Metrics {
    if c.after is Some {
        c.after->0
    } else {
        c.before->0
    }
}

/// The complexity delta a ranking weights: the recorded one, else the whole
/// complexity of an added symbol, or its negation for a removed one.
pub open spec fn delta_of(c: SymbolChange) -> int {
    match c.complexity_delta {
        Some(d) => d as int,
        None => match (c.before, c.after) {
            (None, Some(a)) => a.cognitive_complexity as int,
            (Some(b), None) => -(b.cognitive_complexity as int),
            _ => 0,
        },
    }
}

/// The fan-in recorded for a symbol id: that of the first entry with the
/// id, none when no entry has it.
pub open spec fn fan_in_of(ds: Seq<(String, Degree)>, id: Seq<char>) -> nat
    decreases ds.len(),
{
    if ds.len() == 0 {
        0
    } else if ds[0].0@ == id {
        ds[0].1.fan_in as nat
    } else {
        fan_in_of(ds.drop_first(), id)
    }
}

/// Everything a ranking knows of a change before it weighs it.
pub struct ChangeFacts {
    pub id: String,
    pub path: String,
    pub qualified_path: String,
    pub language: String,
    pub kind: String,
    pub change: ChangeKind,
    pub start_line: usize,
    pub end_line: usize,
    pub complexity_before: Option<u32>,
    pub complexity_after: Option<u32>,
    /// Signed: a large simplification is worth seeing too.
    pub complexity_delta: i64,
    pub fan_in: usize,
    /// Set for a trait method, whose fan-in is reported and not weighted.
    pub caveat: Option<WeightCaveat>,
}

/// Gather what a ranking knows of a change: its side, its signed complexity
/// delta, its fan-in from the degree table, and whether that fan-in may be
/// weighted (not for a trait method, whose path spells ` as `).
pub fn facts(change: &SymbolChange, degrees: &Vec<(String, Degree)>) -> (r: ChangeFacts)
    requires
        change.before is Some || change.after is Some,
    ensures
        r.id@ == side_of(*change).id@,
        r.path@ == side_of(*change).path@,
        r.qualified_path@ == side_of(*change).qualified_path@,
        r.language@ == split_on(side_of(*change).id@, ':')[0],
        r.kind@ == change.kind@,
        r.change == change.change,
        r.start_line == side_of(*change).start_line,
        r.end_line == side_of(*change).end_line,
        r.complexity_before == match change.before {
            Some(m) => Some(m.cognitive_complexity),
            None => None::<u32>,
        },
        r.complexity_after == match change.after {
            Some(m) => Some(m.cognitive_complexity),
            None => None::<u32>,
        },
        r.complexity_delta == delta_of(*change),
        r.fan_in == fan_in_of(degrees@, side_of(*change).id@),
        r.caveat == if contains_sub(side_of(*change).qualified_path@, " as "@) {
            Some(WeightCaveat::TraitMethodFanInUnreliable)
        } else {
            None
        },
{
    let side: &Metrics = match &change.after {
        Some(a) => a,
        None => change.before.as_ref().unwrap(),
    };
    let complexity_delta: i64 = match change.complexity_delta {
        Some(d) => d,
        None => match (&change.before, &change.after) {
            (None, Some(a)) => a.cognitive_complexity as i64,
            (Some(b), None) => -(b.cognitive_complexity as i64),
            _ => 0,
        },
    };
    let mut fan_in: usize = 0;
    let mut k: usize = 0;
    let ghost ds = degrees@;
    proof {
        assert(ds.skip(0) =~= ds);
    }
    while k < degrees.len()
        invariant_except_break
            fan_in == 0,
        invariant
            k <= ds.len(),
            ds == degrees@,
            fan_in_of(ds, side.id@) == fan_in_of(ds.skip(k as int), side.id@),
        ensures
            fan_in == fan_in_of(ds, side.id@),
        decreases ds.len() - k,
    {
        proof {
            assert(ds.skip(k as int)[0] == ds[k as int]);
            assert(ds.skip(k as int).drop_first() =~= ds.skip(k + 1));
        }
        if str_eq(degrees[k].0.as_str(), side.id.as_str()) {
            fan_in = degrees[k].1.fan_in;
            break;
        }
        k = k + 1;
        proof {
            if k == ds.len() {
                assert(ds.skip(k as int).len() == 0);
            }
        }
    }
    let caveat = if str_contains(side.qualified_path.as_str(), " as ") {
        Some(WeightCaveat::TraitMethodFanInUnreliable)
    } else {
        None
    };
    ChangeFacts {
        id: side.id.clone(),
        path: side.path.clone(),
        qualified_path: side.qualified_path.clone(),
        language: language_of(side.id.as_str()),
        kind: change.kind.clone(),
        change: change.change,
        start_line: side.start_line,
        end_line: side.end_line,
        complexity_before: match &change.before {
            Some(m) => Some(m.cognitive_complexity),
            None => None,
        },
        complexity_after: match &change.after {
            Some(m) => Some(m.cognitive_complexity),
            None => None,
        },
        complexity_delta,
        fan_in,
        caveat,
    }
}


/// How a change kind is named in a review: its variant's name.
pub open spec fn spec_kind_name(kind: ChangeKind) -> Seq<char> {
    match kind {
        ChangeKind::Added => "Added"@,
        ChangeKind::Removed => "Removed"@,
        ChangeKind::Modified => "Modified"@,
        ChangeKind::Moved => "Moved"@,
        ChangeKind::Renamed => "Renamed"@,
    }
}

fn kind_name(kind: ChangeKind) -> (r: &'static str)
    ensures
        r@ == spec_kind_name(kind),
{
    match kind {
        ChangeKind::Added => "Added",
        ChangeKind::Removed => "Removed",
        ChangeKind::Modified => "Modified",
        ChangeKind::Moved => "Moved",
        ChangeKind::Renamed => "Renamed",
    }
}

/// A rank right-aligned in two columns.
pub open spec fn spec_rank(n: nat) -> Seq<char> {
    if n < 10 {
        " "@ + decimal(n)
    } else {
        decimal(n)
    }
}

/// The two lines of a review for the change ranked `rank`.
pub open spec fn spec_review_entry(rank: nat, r: Row) -> Seq<char> {
    spec_rank(rank) + ". "@ + r.qualified_path@ + " "@ + r.path@ + ":"@ + decimal(r.start_line as nat) + "-"@ + decimal(
        r.end_line as nat,
    ) + "\n"@ + "    "@ + spec_kind_name(r.change) + " · complexity "@ + spec_signed(r.complexity_delta as int)
        + match (r.complexity_before, r.complexity_after) {
        (Some(b), Some(a)) => " ("@ + decimal(b as nat) + " -> "@ + decimal(a as nat) + ")"@,
        _ => ""@,
    } + " · fan-in "@ + decimal(r.fan_in as nat) + " ("@ + decimal(r.fan_in_high_confidence as nat) + " stated)"@
        + match r.caveat {
        Some(WeightCaveat::TraitMethodFanInUnreliable) => " · trait method, fan-in not weighted"@,
        None => ""@,
    } + "\n"@
}

/// The review entries of the first `n` rows, ranked from one.
pub open spec fn spec_review_entries(rows: Seq<Row>, n: int) -> Seq<char>
    decreases n,
{
    if n <= 0 {
        Seq::empty()
    } else {
        spec_review_entries(rows, n - 1) + spec_review_entry(n as nat, rows[n - 1])
    }
}

/// The first line of a review: the revisions, how many symbols changed and
/// how many crossed the threshold under which basis.
pub open spec fn spec_review_head(
    before: Seq<char>,
    after: Seq<char>,
    changes: nat,
    surfaced: nat,
    threshold: Seq<char>,
    basis: FanInBasis,
) -> Seq<char> {
    spec_short(before) + ".."@ + spec_short(after) + "  "@ + decimal(changes) + " changed symbols, "@
        + decimal(surfaced) + " above the "@ + threshold + "th percentile  ["@ + match basis {
        FanInBasis::Raw => "raw"@,
        FanInBasis::Damped => "damped"@,
    } + " fan-in]\n"@
}

/// A review for a person to read: the revisions, how many symbols changed
/// and how many crossed the threshold (as given, already spelled) under
/// which basis; then that nothing changed, or that nothing crossed, or the
/// surfaced changes most risky first followed by the accuracy notes (as
/// given).
pub open spec fn spec_review(
    before: Seq<char>,
    after: Seq<char>,
    changes: nat,
    rows: Seq<Row>,
    threshold: Seq<char>,
    basis: FanInBasis,
    accuracy: Seq<char>,
) -> Seq<char> {
    let head = spec_review_head(before, after, changes, rows.len(), threshold, basis);
    if changes == 0 {
        head + "\nNo symbol changed.\n"@
    } else if rows.len() == 0 {
        head + "\nNothing crossed the threshold.\n"@
    } else {
        head + "\n"@ + spec_review_entries(rows, rows.len() as int) + accuracy
    }
}

fn review_entry(rank: usize, r: &Row) -> (s: String)
    ensures
        s@ == spec_review_entry(rank as nat, *r),
{
    let mut out = String::new();
    if rank < 10 {
        push_str(&mut out, " ");
    }
    push_decimal(&mut out, rank);
    push_str(&mut out, ". ");
    push_str(&mut out, r.qualified_path.as_str());
    push_str(&mut out, " ");
    push_str(&mut out, r.path.as_str());
    push_str(&mut out, ":");
    push_decimal(&mut out, r.start_line);
    push_str(&mut out, "-");
    push_decimal(&mut out, r.end_line);
    push_str(&mut out, "\n");
    push_str(&mut out, "    ");
    push_str(&mut out, kind_name(r.change));
    push_str(&mut out, " · complexity ");
    let delta = signed(r.complexity_delta);
    push_str(&mut out, delta.as_str());
    let ghost mid = out@;
    match (r.complexity_before, r.complexity_after) {
        (Some(b), Some(a)) => {
            push_str(&mut out, " (");
            push_decimal(&mut out, b as usize);
            push_str(&mut out, " -> ");
            push_decimal(&mut out, a as usize);
            push_str(&mut out, ")");
            proof {
                assert(out@ =~= mid + (" ("@ + decimal(b as nat) + " -> "@ + decimal(a as nat) + ")"@));
            }
        },
        _ => {
            proof {
                reveal_strlit("");
                assert(out@ =~= mid + ""@);
            }
        },
    }
    let ghost mid2 = out@;
    push_str(&mut out, " · fan-in ");
    push_decimal(&mut out, r.fan_in);
    push_str(&mut out, " (");
    push_decimal(&mut out, r.fan_in_high_confidence);
    push_str(&mut out, " stated)");
    let ghost mid3 = out@;
    match r.caveat {
        Some(WeightCaveat::TraitMethodFanInUnreliable) => {
            push_str(&mut out, " · trait method, fan-in not weighted");
        },
        None => {
            proof {
                reveal_strlit("");
                assert(out@ =~= mid3 + ""@);
            }
        },
    }
    push_str(&mut out, "\n");
    proof {
        assert(out@ =~= spec_review_entry(rank as nat, *r));
    }
    out
}

/// Render a review for a person to read.
pub fn review(
    before: &str,
    after: &str,
    changes: usize,
    rows: &Vec<Row>,
    threshold: &str,
    basis: FanInBasis,
    accuracy: &str,
) -> (s: String)
    ensures
        s@ == spec_review(before@, after@, changes as nat, rows@, threshold@, basis, accuracy@),
{
    let mut out = short(before);
    push_str(&mut out, "..");
    let a = short(after);
    push_str(&mut out, a.as_str());
    push_str(&mut out, "  ");
    push_decimal(&mut out, changes);
    push_str(&mut out, " changed symbols, ");
    push_decimal(&mut out, rows.len());
    push_str(&mut out, " above the ");
    push_str(&mut out, threshold);
    push_str(&mut out, "th percentile  [");
    push_str(&mut out, basis.label());
    push_str(&mut out, " fan-in]\n");
    let ghost head = out@;
    if changes == 0 {
        push_str(&mut out, "\nNo symbol changed.\n");
        return out;
    }
    if rows.len() == 0 {
        push_str(&mut out, "\nNothing crossed the threshold.\n");
        return out;
    }
    push_str(&mut out, "\n");
    let ghost start = out@;
    let mut k: usize = 0;
    while k < rows.len()
        invariant
            k <= rows@.len(),
            out@ == start + spec_review_entries(rows@, k as int),
        decreases rows@.len() - k,
    {
        let entry = review_entry(k + 1, &rows[k]);
        push_str(&mut out, entry.as_str());
        proof {
            assert(start + spec_review_entries(rows@, k + 1) =~= start + spec_review_entries(rows@, k as int)
                + spec_review_entry((k + 1) as nat, rows@[k as int]));
        }
        k = k + 1;
    }
    push_str(&mut out, accuracy);
    proof {
        assert(out@ =~= spec_review(before@, after@, changes as nat, rows@, threshold@, basis, accuracy@));
    }
    out
}


/// The entries of the first `n` rows are the entries of each row in turn,
/// the row at position `k` ranked `k + 1`.
proof fn lemma_entries_ranked(rows: Seq<Row>, n: int)
    requires
        0 <= n <= rows.len(),
    ensures
        spec_review_entries(rows, n) == Seq::new(n as nat, |k: int| spec_review_entry((k + 1) as nat, rows[k])).flatten_alt(),
    decreases n,
{
    let es = Seq::new(n as nat, |k: int| spec_review_entry((k + 1) as nat, rows[k]));
    if n > 0 {
        lemma_entries_ranked(rows, n - 1);
        assert(es.drop_last() =~= Seq::new((n - 1) as nat, |k: int| spec_review_entry((k + 1) as nat, rows[k])));
    } else {
        assert(es =~= Seq::empty());
    }
}

/// Ranks count up from one in the order the rows are given, most risky
/// first: when some change crossed the threshold, the review is its first
/// line, a blank line, the entry of each surfaced row in turn with the row
/// at position `k` ranked `k + 1`, and then the accuracy notes.
pub proof fn law_review_ranks_count_up(
    before: Seq<char>,
    after: Seq<char>,
    changes: nat,
    rows: Seq<Row>,
    threshold: Seq<char>,
    basis: FanInBasis,
    accuracy: Seq<char>,
)
    requires
        changes > 0,
        rows.len() > 0,
    ensures
        spec_review(before, after, changes, rows, threshold, basis, accuracy) == spec_review_head(
            before,
            after,
            changes,
            rows.len(),
            threshold,
            basis,
        ) + "\n"@ + Seq::new(rows.len(), |k: int| spec_review_entry((k + 1) as nat, rows[k])).flatten() + accuracy,
{
    let es = Seq::new(rows.len(), |k: int| spec_review_entry((k + 1) as nat, rows[k]));
    lemma_entries_ranked(rows, rows.len() as int);
    es.lemma_flatten_and_flatten_alt_are_equivalent();
}

/// An entry opens with its rank right-aligned in two columns, a dot, and the
/// qualified path of its change.
pub proof fn law_entry_opens_with_its_rank(rank: nat, r: Row)
    ensures
        spec_review_entry(rank, r).take((spec_rank(rank).len() + 2 + r.qualified_path@.len()) as int) == spec_rank(rank)
            + ". "@ + r.qualified_path@,
        rank < 10 ==> spec_rank(rank) == " "@ + decimal(rank),
        rank >= 10 ==> spec_rank(rank) == decimal(rank),
{
    reveal_strlit(". ");
    let head = spec_rank(rank) + ". "@ + r.qualified_path@;
    assert(head.len() == spec_rank(rank).len() + 2 + r.qualified_path@.len());
    assert(spec_review_entry(rank, r).take(head.len() as int) =~= head);
}

} // verus!
