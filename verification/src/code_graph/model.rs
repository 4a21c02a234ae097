//! Language-neutral records exchanged between semantic providers and
//! consumers.

use vstd::prelude::*;

verus! {

/// Version of the graph snapshot schema.
pub const SCHEMA_VERSION: u32 = 1;

/// A snapshot of one build's semantic graph.
pub struct CodeGraph {
    pub schema_version: u32,
    pub build: BuildIdentity,
    pub producer: Producer,
    pub scope: AnalyzedScope,
    pub nodes: Vec<GraphNode>,
    pub edges: Vec<Edge>,
    pub references: Vec<ReferenceFact>,
    pub diagnostics: Vec<Diagnostic>,
    pub validations: Vec<Validation>,
}

/// What was built, as far as it is known.
#[derive(Clone)]
pub struct BuildIdentity {
    pub id: String,
    pub repository: Knowledge<String>,
    pub revision: Knowledge<String>,
    pub dirty: Knowledge<bool>,
    pub source_digest: Knowledge<String>,
    pub configuration_digest: Knowledge<String>,
    pub provider_input_digest: String,
    pub units: Knowledge<Vec<CompilationUnit>>,
}

#[derive(Clone)]
pub struct CompilationUnit {
    pub id: String,
    pub language: String,
    pub name: String,
    pub kind: String,
    pub source_roots: Vec<String>,
    pub target: Knowledge<String>,
    pub features: Knowledge<Vec<String>>,
}

/// A value together with how it came to be known.
#[derive(Clone)]
pub struct Knowledge<T> {
    pub state: KnowledgeState,
    pub value: Option<T>,
}

impl<T> Knowledge<T> {
    /// A value the producer observed.
    pub fn observed(value: T) -> (r: Self)
        ensures
            r.state == KnowledgeState::Observed,
            r.value == Some(value),
    {
        Knowledge { state: KnowledgeState::Observed, value: Some(value) }
    }

    /// A value a caller declared.
    pub fn declared(value: T) -> (r: Self)
        ensures
            r.state == KnowledgeState::Declared,
            r.value == Some(value),
    {
        Knowledge { state: KnowledgeState::Declared, value: Some(value) }
    }

    /// Nothing is known.
    pub fn unknown() -> (r: Self)
        ensures
            r.state == KnowledgeState::Unknown,
            r.value.is_none(),
    {
        Knowledge { state: KnowledgeState::Unknown, value: None }
    }
}

#[derive(Clone, Copy, Debug, PartialEq, Eq, Structural)]
pub enum KnowledgeState {
    Observed,
    Declared,
    Unknown,
}

#[derive(Clone)]
pub struct Producer {
    pub name: String,
    pub version: Knowledge<String>,
    pub invocation: Knowledge<Vec<String>>,
    pub input_format: String,
}

/// Which documents the snapshot covers and what it could not see.
pub struct AnalyzedScope {
    /// Distinct, ascending.
    pub languages: Vec<String>,
    pub requested_roots: Vec<String>,
    pub included_documents: Vec<String>,
    /// Document and why it was excluded, ascending by document.
    pub excluded_documents: Vec<(String, String)>,
    pub missing_documents: Vec<String>,
    pub generated_documents: Vec<String>,
    pub external_documents: Vec<String>,
    pub limitations: Vec<String>,
}

impl AnalyzedScope {
    /// A scope that names nothing.
    pub fn empty() -> (r: Self)
        ensures
            r.languages@.len() == 0,
            r.requested_roots@.len() == 0,
            r.included_documents@.len() == 0,
            r.excluded_documents@.len() == 0,
            r.missing_documents@.len() == 0,
            r.generated_documents@.len() == 0,
            r.external_documents@.len() == 0,
            r.limitations@.len() == 0,
    {
        AnalyzedScope {
            languages: Vec::new(),
            requested_roots: Vec::new(),
            included_documents: Vec::new(),
            excluded_documents: Vec::new(),
            missing_documents: Vec::new(),
            generated_documents: Vec::new(),
            external_documents: Vec::new(),
            limitations: Vec::new(),
        }
    }
}

pub struct GraphNode {
    pub id: String,
    pub semantic_key: String,
    pub language: String,
    pub kind: NodeKind,
    pub provider_kind: String,
    pub display_name: String,
    pub scope: NodeScope,
    pub definitions: Vec<Location>,
    pub enclosing: Option<String>,
    pub provenance: Provenance,
}

#[derive(Clone, Copy, Debug, PartialEq, Eq, Structural)]
pub enum NodeKind {
    Module,
    Namespace,
    Package,
    Type,
    Callable,
    Member,
    Variable,
    Parameter,
    Macro,
    Other,
}

#[derive(Clone, Copy, Debug, PartialEq, Eq, Structural)]
pub enum NodeScope {
    Workspace,
    External,
    Local,
    Unknown,
}

pub struct Edge {
    pub id: String,
    pub from: String,
    pub to: String,
    pub kind: EdgeKind,
    pub evidence: Vec<String>,
    pub provenance: Provenance,
}

#[derive(Clone)]
pub enum EdgeKind {
    Reference,
    Import,
    Implementation,
    TypeDefinition,
    DefinitionAlias,
    ProviderSpecific { kind: String },
}

pub struct ReferenceFact {
    pub id: String,
    pub location: Option<Location>,
    pub source: Option<String>,
    pub raw_target: String,
    pub kind: EdgeKind,
    pub outcome: Resolution,
    pub provenance: Provenance,
}

/// What a reference resolved to.
pub enum Resolution {
    Resolved { node: String },
    Ambiguous { candidates: Vec<String> },
    External { node: String },
    Unknown { reason: UnknownReason },
}

pub struct UnknownReason {
    pub kind: UnknownReasonKind,
    pub details: String,
}

#[derive(Clone, Copy, Debug, PartialEq, Eq, Structural)]
pub enum UnknownReasonKind {
    AbsentFromScope,
    ExternalWithoutInformation,
    DefinitionCycle,
    ProviderOmission,
}

/// How columns in a location are counted.
#[derive(Clone, Copy, Debug, PartialEq, Eq, Structural)]
pub enum PositionEncoding {
    Utf8CodeUnit,
    Utf16CodeUnit,
    Utf32CodeUnit,
    Unknown,
}

#[derive(Clone)]
pub struct Location {
    pub path: String,
    pub range: SourceRange,
    pub encoding: PositionEncoding,
}

/// A span of source, zero-based lines and columns, end exclusive.
#[derive(Clone, Copy, Debug, PartialEq, Eq, Structural)]
pub struct SourceRange {
    pub start_line: u32,
    pub start_column: u32,
    pub end_line: u32,
    pub end_column: u32,
}

/// Lexicographic order on pairs of positions.
pub open spec fn position_le(line_a: u32, column_a: u32, line_b: u32, column_b: u32) -> bool {
    line_a < line_b || (line_a == line_b && column_a <= column_b)
}

impl SourceRange {
    /// Does this range cover `other` entirely?
    pub fn contains(&self, other: &Self) -> (r: bool)
        ensures
            r == (position_le(self.start_line, self.start_column, other.start_line, other.start_column)
                && position_le(other.end_line, other.end_column, self.end_line, self.end_column)),
    {
        let starts_before = self.start_line < other.start_line || (self.start_line
            == other.start_line && self.start_column <= other.start_column);
        let ends_after = other.end_line < self.end_line || (other.end_line == self.end_line
            && other.end_column <= self.end_column);
        starts_before && ends_after
    }

    /// Size used to prefer the innermost of several containing ranges:
    /// line span first, then column span, each saturating at zero.
    pub fn size_key(&self) -> (r: (u32, u32))
        ensures
            r.0 == (if self.end_line >= self.start_line { self.end_line - self.start_line } else { 0 }),
            r.1 == (if self.end_column >= self.start_column {
                self.end_column - self.start_column
            } else {
                0
            }),
    {
        (self.end_line.saturating_sub(self.start_line), self.end_column.saturating_sub(self.start_column))
    }
}

#[derive(Clone)]
pub struct Provenance {
    pub provider: String,
    pub record_kind: String,
}

pub struct Diagnostic {
    pub severity: DiagnosticSeverity,
    pub code: String,
    pub message: String,
    pub location: Option<Location>,
    pub provenance: Provenance,
}

#[derive(Clone, Copy, Debug, PartialEq, Eq, Structural)]
pub enum DiagnosticSeverity {
    Information,
    Warning,
    Error,
}

pub struct Validation {
    pub name: String,
    pub status: ValidationStatus,
    pub details: String,
    pub provenance: Provenance,
}

#[derive(Clone, Copy, Debug, PartialEq, Eq, Structural)]
pub enum ValidationStatus {
    Passed,
    Failed,
    Unknown,
}

/// Which edges a query report stands on.
pub struct EvidencePolicy {
    /// `all_stored_edges`: every edge stored in the snapshot counts.
    pub name: String,
}

/// Spelling of the policy that admits every stored edge.
pub open spec fn all_stored_edges_name() -> Seq<char> {
    "all_stored_edges"@
}

impl EvidencePolicy {
    /// The policy under which every stored edge is evidence.
    pub fn all_stored(graph: &CodeGraph) -> (r: Self)
        ensures
            r.name@ == all_stored_edges_name(),
    {
        EvidencePolicy { name: "all_stored_edges".to_owned() }
    }
}

/// How many reference facts ended in each resolution outcome.
pub struct UncertaintyCounts {
    pub resolved: usize,
    pub ambiguous: usize,
    pub external: usize,
    pub unknown: usize,
}

/// Number of the first `k` facts whose outcome satisfies `pick`.
pub open spec fn count_outcomes(facts: Seq<ReferenceFact>, k: int, pick: spec_fn(Resolution) -> bool) -> nat
    decreases k,
{
    if k <= 0 {
        0
    } else {
        count_outcomes(facts, k - 1, pick) + if pick(facts[k - 1].outcome) {
            1nat
        } else {
            0nat
        }
    }
}

pub open spec fn is_resolved(r: Resolution) -> bool {
    r is Resolved
}

pub open spec fn is_ambiguous(r: Resolution) -> bool {
    r is Ambiguous
}

pub open spec fn is_external(r: Resolution) -> bool {
    r is External
}

pub open spec fn is_unknown(r: Resolution) -> bool {
    r is Unknown
}

proof fn lemma_count_outcomes_bound(facts: Seq<ReferenceFact>, k: int, pick: spec_fn(Resolution) -> bool)
    requires
        0 <= k,
    ensures
        count_outcomes(facts, k, pick) <= k,
    decreases k,
{
    if k > 0 {
        lemma_count_outcomes_bound(facts, k - 1, pick);
    }
}

/// `u` counts the outcomes of the facts `refs`.
pub open spec fn counts_outcomes_of(u: UncertaintyCounts, refs: Seq<ReferenceFact>) -> bool {
    &&& u.resolved == count_outcomes(refs, refs.len() as int, |o: Resolution| is_resolved(o))
    &&& u.ambiguous == count_outcomes(refs, refs.len() as int, |o: Resolution| is_ambiguous(o))
    &&& u.external == count_outcomes(refs, refs.len() as int, |o: Resolution| is_external(o))
    &&& u.unknown == count_outcomes(refs, refs.len() as int, |o: Resolution| is_unknown(o))
}

impl UncertaintyCounts {
    /// Count the outcomes of every reference fact in a graph.
    pub fn of(graph: &CodeGraph) -> (r: Self)
        ensures
            counts_outcomes_of(r, graph.references@),
    {
        let ghost facts = graph.references@;
        let n = graph.references.len();
        let mut counts = UncertaintyCounts { resolved: 0, ambiguous: 0, external: 0, unknown: 0 };
        let mut i: usize = 0;
        while i < n
            invariant
                i <= n,
                n == facts.len(),
                facts == graph.references@,
                counts.resolved == count_outcomes(facts, i as int, |o: Resolution| is_resolved(o)),
                counts.ambiguous == count_outcomes(facts, i as int, |o: Resolution| is_ambiguous(o)),
                counts.external == count_outcomes(facts, i as int, |o: Resolution| is_external(o)),
                counts.unknown == count_outcomes(facts, i as int, |o: Resolution| is_unknown(o)),
            decreases n - i,
        {
            proof {
                lemma_count_outcomes_bound(facts, i as int, |o: Resolution| is_resolved(o));
                lemma_count_outcomes_bound(facts, i as int, |o: Resolution| is_ambiguous(o));
                lemma_count_outcomes_bound(facts, i as int, |o: Resolution| is_external(o));
                lemma_count_outcomes_bound(facts, i as int, |o: Resolution| is_unknown(o));
            }
            match &graph.references[i].outcome {
                Resolution::Resolved { .. } => counts.resolved = counts.resolved + 1,
                Resolution::Ambiguous { .. } => counts.ambiguous = counts.ambiguous + 1,
                Resolution::External { .. } => counts.external = counts.external + 1,
                Resolution::Unknown { .. } => counts.unknown = counts.unknown + 1,
            }
            i = i + 1;
        }
        counts
    }
}

/// Why a snapshot is not internally consistent.
#[derive(Debug)]
pub enum IntegrityError {
    UnsupportedSchema(u32),
    BuildIdentityMismatch,
    DuplicateNode,
    DuplicateEdge,
    DuplicateReference(String),
    DanglingNode(String),
    DanglingEvidence(String),
    MissingEvidence(String),
    EmptyCandidateSet(String),
    ResolutionScopeMismatch(String),
}


impl IntegrityError {
    /// What the failure says.
    pub open spec fn spec_message(&self) -> Seq<char> {
        match self {
            IntegrityError::UnsupportedSchema(version) => "unsupported schema "@ + crate::text::decimal(*version as nat),
            IntegrityError::BuildIdentityMismatch => "build capsule identity mismatch"@,
            IntegrityError::DuplicateNode => "duplicate node id"@,
            IntegrityError::DuplicateEdge => "duplicate edge id"@,
            IntegrityError::DuplicateReference(r) => "duplicate reference id "@ + r@,
            IntegrityError::DanglingNode(n) => "edge names missing node "@ + n@,
            IntegrityError::DanglingEvidence(e) => "edge names missing evidence "@ + e@,
            IntegrityError::MissingEvidence(e) => "edge has no evidence "@ + e@,
            IntegrityError::EmptyCandidateSet(r) => "ambiguous reference has no candidates "@ + r@,
            IntegrityError::ResolutionScopeMismatch(r) => "reference outcome contradicts node scope "@ + r@,
        }
    }

    /// What the failure says.
    pub fn message(&self) -> (r: String)
        ensures
            r@ == self.spec_message(),
    {
        let mut out = String::new();
        match self {
            IntegrityError::UnsupportedSchema(version) => {
                crate::text::push_str(&mut out, "unsupported schema ");
                crate::text::push_decimal(&mut out, *version as usize);
            },
            IntegrityError::BuildIdentityMismatch => {
                crate::text::push_str(&mut out, "build capsule identity mismatch");
            },
            IntegrityError::DuplicateNode => {
                crate::text::push_str(&mut out, "duplicate node id");
            },
            IntegrityError::DuplicateEdge => {
                crate::text::push_str(&mut out, "duplicate edge id");
            },
            IntegrityError::DuplicateReference(r) => {
                crate::text::push_str(&mut out, "duplicate reference id ");
                crate::text::push_str(&mut out, r.as_str());
            },
            IntegrityError::DanglingNode(n) => {
                crate::text::push_str(&mut out, "edge names missing node ");
                crate::text::push_str(&mut out, n.as_str());
            },
            IntegrityError::DanglingEvidence(e) => {
                crate::text::push_str(&mut out, "edge names missing evidence ");
                crate::text::push_str(&mut out, e.as_str());
            },
            IntegrityError::MissingEvidence(e) => {
                crate::text::push_str(&mut out, "edge has no evidence ");
                crate::text::push_str(&mut out, e.as_str());
            },
            IntegrityError::EmptyCandidateSet(r) => {
                crate::text::push_str(&mut out, "ambiguous reference has no candidates ");
                crate::text::push_str(&mut out, r.as_str());
            },
            IntegrityError::ResolutionScopeMismatch(r) => {
                crate::text::push_str(&mut out, "reference outcome contradicts node scope ");
                crate::text::push_str(&mut out, r.as_str());
            },
        }
        proof {
            assert(out@ =~= self.spec_message());
        }
        out
    }
}

} // verus!
