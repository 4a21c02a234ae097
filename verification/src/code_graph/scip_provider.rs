//! SCIP adapter: a decoded SCIP index, held as plain values, becomes a
//! language-neutral code graph.

use crate::analysis::{is_repo_relative, spec_is_repo_relative};
use crate::code_graph::model::{
    BuildIdentity, DiagnosticSeverity, EdgeKind, IntegrityError, Knowledge, KnowledgeState, NodeKind, PositionEncoding,
    AnalyzedScope, CodeGraph, Diagnostic, Edge, Location, GraphNode, NodeScope, Producer, Provenance, ReferenceFact,
    Resolution, SourceRange, UnknownReason, UnknownReasonKind, Validation, ValidationStatus, SCHEMA_VERSION,
    position_le,
};
use crate::code_graph::integrity::first_issue;
use crate::hash::{hex_sha256, sha256};
use crate::order::{contains_view, insert_sorted, seq_lt, sorted_strict, str_eq, views};
use crate::text::{chars_of, hex_lower, push_char, push_decimal, push_str, decimal};
use vstd::prelude::*;
use vstd::utf8::encode_utf8;

verus! {

/// Name the adapter reports as producer when the index names no tool.
pub const PROVIDER: &'static str = "scip";

/// Version of the SCIP transport this adapter reads.
pub const SCIP_TRANSPORT_VERSION: &'static str = "0.9.0";

/// Version of this adapter, as reported in the producer's input format.
pub const ADAPTER_VERSION: &'static str = "0.1.0";

/// Role bit of an occurrence that defines its symbol.
pub const DEFINITION_ROLE: i32 = 1;

/// Role bit of an occurrence that imports its symbol.
pub const IMPORT_ROLE: i32 = 2;

/// A decoded SCIP index.
pub struct ScipIndex {
    /// The tool that wrote the index, when the index names one.
    pub tool: Option<ScipToolInfo>,
    pub documents: Vec<ScipDocument>,
    pub external_symbols: Vec<ScipSymbol>,
}

pub struct ScipToolInfo {
    pub name: String,
    pub version: String,
    pub arguments: Vec<String>,
}

pub struct ScipDocument {
    pub relative_path: String,
    pub language: String,
    /// How the document counts columns.
    pub position_encoding: PositionEncoding,
    pub symbols: Vec<ScipSymbol>,
    pub occurrences: Vec<ScipOccurrence>,
}

/// What an index says of one symbol.
pub struct ScipSymbol {
    pub symbol: String,
    /// The name of the symbol's kind, when the kind is one SCIP defines.
    pub kind: Option<String>,
    pub display_name: String,
    pub enclosing_symbol: String,
    pub relationships: Vec<ScipRelationship>,
}

pub struct ScipRelationship {
    pub symbol: String,
    pub is_reference: bool,
    pub is_implementation: bool,
    pub is_type_definition: bool,
    pub is_definition: bool,
}

pub struct ScipOccurrence {
    /// `[line, start, end]` or `[start_line, start, end_line, end]`.
    pub range: Vec<i32>,
    pub symbol: String,
    /// Bitset of symbol roles.
    pub symbol_roles: i32,
    pub diagnostics: Vec<ScipDiagnostic>,
    pub enclosing_range: Vec<i32>,
}

pub struct ScipDiagnostic {
    pub severity: DiagnosticSeverity,
    pub code: String,
    pub message: String,
}

/// Imports SCIP indexes for one build.
pub struct ScipProvider {
    pub build: BuildIdentity,
    pub requested_roots: Vec<String>,
    pub limitations: Vec<String>,
}

/// Why a SCIP index could not become a graph.
pub enum ScipProviderError {
    InputDigestMismatch { expected: String, actual: String },
    InvalidPath(String),
    MalformedRange(String),
    DefinitionCycle(String),
    /// The input is not a SCIP index; what the decoder said.
    Decode(String),
    Integrity(IntegrityError),
}

/// Lowercase hex SHA-256 of the UTF-8 bytes of a text.
pub open spec fn digest_of(s: Seq<char>) -> Seq<char> {
    hex_lower(sha256(encode_utf8(s)))
}

fn digest(s: &str) -> (r: String)
    ensures
        r@ == digest_of(s@),
{
    hex_sha256(s.as_bytes())
}

/// Digest of a provider's raw input, as the build identity records it.
pub fn input_digest(input: &[u8]) -> (r: String)
    ensures
        r@ == hex_lower(sha256(input@)),
{
    hex_sha256(input)
}

impl ScipProvider {
    /// Refuse input other than the one the build identity was made for.
    pub fn check_input(&self, input: &[u8]) -> (r: Result<(), ScipProviderError>)
        ensures
            match r {
                Ok(_) => self.build.provider_input_digest@ == hex_lower(sha256(input@)),
                Err(ScipProviderError::InputDigestMismatch { expected, actual }) => {
                    &&& self.build.provider_input_digest@ != hex_lower(sha256(input@))
                    &&& expected@ == self.build.provider_input_digest@
                    &&& actual@ == hex_lower(sha256(input@))
                },
                Err(_) => false,
            },
    {
        let actual = input_digest(input);
        if !str_eq(actual.as_str(), self.build.provider_input_digest.as_str()) {
            return Err(
                ScipProviderError::InputDigestMismatch {
                    expected: self.build.provider_input_digest.clone(),
                    actual,
                },
            );
        }
        Ok(())
    }
}

/// A drive root such as `C:/` at the start of a path.
pub open spec fn has_drive_root(path: Seq<char>) -> bool {
    &&& path.len() >= 3
    &&& (('a' <= path[0] && path[0] <= 'z') || ('A' <= path[0] && path[0] <= 'Z'))
    &&& path[1] == ':'
    &&& path[2] == '/'
}

/// A document path the adapter will describe: repo-relative POSIX, without
/// a drive root.
pub open spec fn spec_is_safe_path(path: Seq<char>) -> bool {
    spec_is_repo_relative(path) && !has_drive_root(path)
}

fn is_safe_path(path: &str) -> (r: bool)
    ensures
        r == spec_is_safe_path(path@),
{
    if !is_repo_relative(path) {
        return false;
    }
    let cs = chars_of(path);
    let drive = cs.len() >= 3 && (('a' <= cs[0] && cs[0] <= 'z') || ('A' <= cs[0] && cs[0] <= 'Z')) && cs[1] == ':'
        && cs[2] == '/';
    !drive
}

/// A range from four coordinates, when none is negative and the start is
/// not after the end.
pub open spec fn spec_checked_range(
    start_line: i32,
    start_column: i32,
    end_line: i32,
    end_column: i32,
) -> Option<SourceRange> {
    if start_line >= 0 && start_column >= 0 && end_line >= 0 && end_column >= 0 && (start_line < end_line || (
    start_line == end_line && start_column <= end_column)) {
        Some(
            SourceRange {
                start_line: start_line as u32,
                start_column: start_column as u32,
                end_line: end_line as u32,
                end_column: end_column as u32,
            },
        )
    } else {
        None
    }
}

fn checked_range(start_line: i32, start_column: i32, end_line: i32, end_column: i32) -> (r: Option<SourceRange>)
    ensures
        r == spec_checked_range(start_line, start_column, end_line, end_column),
{
    if start_line >= 0 && start_column >= 0 && end_line >= 0 && end_column >= 0 && (start_line < end_line || (
    start_line == end_line && start_column <= end_column)) {
        Some(
            SourceRange {
                start_line: start_line as u32,
                start_column: start_column as u32,
                end_line: end_line as u32,
                end_column: end_column as u32,
            },
        )
    } else {
        None
    }
}

/// The range a SCIP range field spells: three elements share one line,
/// four name both ends; any other length is malformed.
pub open spec fn spec_range_of(range: Seq<i32>) -> Option<SourceRange> {
    if range.len() == 3 {
        spec_checked_range(range[0], range[1], range[0], range[2])
    } else if range.len() == 4 {
        spec_checked_range(range[0], range[1], range[2], range[3])
    } else {
        None
    }
}

fn range_of(range: &Vec<i32>) -> (r: Option<SourceRange>)
    ensures
        r == spec_range_of(range@),
{
    if range.len() == 3 {
        checked_range(range[0], range[1], range[0], range[2])
    } else if range.len() == 4 {
        checked_range(range[0], range[1], range[2], range[3])
    } else {
        None
    }
}

/// The broad kind a provider's kind name falls under.
pub open spec fn spec_broad_kind(k: Seq<char>) -> NodeKind {
    if k == "Module"@ {
        NodeKind::Module
    } else if k == "Namespace"@ {
        NodeKind::Namespace
    } else if k == "Package"@ {
        NodeKind::Package
    } else if k == "Class"@ || k == "Struct"@ || k == "Trait"@ || k == "Interface"@ || k == "Enum"@ || k
        == "Union"@ || k == "Type"@ || k == "TypeAlias"@ || k == "AssociatedType"@ {
        NodeKind::Type
    } else if k == "Function"@ || k == "Method"@ || k == "StaticMethod"@ || k == "Constructor"@ || k
        == "TraitMethod"@ {
        NodeKind::Callable
    } else if k == "Field"@ || k == "EnumMember"@ || k == "Property"@ || k == "Event"@ || k == "Constant"@ || k
        == "StaticVariable"@ {
        NodeKind::Member
    } else if k == "Variable"@ {
        NodeKind::Variable
    } else if k == "Parameter"@ || k == "SelfParameter"@ || k == "TypeParameter"@ {
        NodeKind::Parameter
    } else if k == "Macro"@ {
        NodeKind::Macro
    } else {
        NodeKind::Other
    }
}

fn is_any(k: &str, names: &[&str]) -> (r: bool)
    ensures
        r == exists|i: int| 0 <= i < names@.len() && k@ == (#[trigger] names@[i])@,
{
    let mut i: usize = 0;
    while i < names.len()
        invariant
            i <= names@.len(),
            forall|j: int| 0 <= j < i ==> k@ != (#[trigger] names@[j])@,
        decreases names@.len() - i,
    {
        if str_eq(k, names[i]) {
            return true;
        }
        i = i + 1;
    }
    false
}

fn broad_kind(provider_kind: &str) -> (r: NodeKind)
    ensures
        r == spec_broad_kind(provider_kind@),
{
    let k = provider_kind;
    proof {
        reveal_strlit("Module");
        reveal_strlit("Namespace");
        reveal_strlit("Package");
        reveal_strlit("Variable");
        reveal_strlit("Macro");
    }
    if str_eq(k, "Module") {
        NodeKind::Module
    } else if str_eq(k, "Namespace") {
        NodeKind::Namespace
    } else if str_eq(k, "Package") {
        NodeKind::Package
    } else if is_any(
        k,
        &["Class", "Struct", "Trait", "Interface", "Enum", "Union", "Type", "TypeAlias", "AssociatedType"],
    ) {
        NodeKind::Type
    } else if is_any(k, &["Function", "Method", "StaticMethod", "Constructor", "TraitMethod"]) {
        NodeKind::Callable
    } else if is_any(k, &["Field", "EnumMember", "Property", "Event", "Constant", "StaticVariable"]) {
        NodeKind::Member
    } else if str_eq(k, "Variable") {
        NodeKind::Variable
    } else if is_any(k, &["Parameter", "SelfParameter", "TypeParameter"]) {
        NodeKind::Parameter
    } else if str_eq(k, "Macro") {
        NodeKind::Macro
    } else {
        NodeKind::Other
    }
}

/// A symbol as the adapter keys it: global symbols by name, local symbols
/// by document and name.
pub enum SymbolKey {
    Global(String),
    Local { path: String, symbol: String },
}

/// A key as plain values: whether it is local, its document, its symbol.
pub open spec fn key_view(k: SymbolKey) -> (bool, Seq<char>, Seq<char>) {
    match k {
        SymbolKey::Global(s) => (false, Seq::empty(), s@),
        SymbolKey::Local { path, symbol } => (true, path@, symbol@),
    }
}

/// SCIP spells local symbols with this prefix.
pub open spec fn is_local_symbol(symbol: Seq<char>) -> bool {
    symbol.len() >= 6 && symbol.take(6) == "local "@
}

/// The key of `symbol` as it occurs in the document at `path`.
pub open spec fn spec_key(path: Seq<char>, symbol: Seq<char>) -> (bool, Seq<char>, Seq<char>) {
    if is_local_symbol(symbol) {
        (true, path, symbol)
    } else {
        (false, Seq::empty(), symbol)
    }
}

/// Key order: global keys first, then by document, then by symbol.
pub open spec fn key_view_lt(a: (bool, Seq<char>, Seq<char>), b: (bool, Seq<char>, Seq<char>)) -> bool {
    (!a.0 && b.0) || (a.0 == b.0 && (crate::order::seq_lt(a.1, b.1) || (a.1 == b.1 && crate::order::seq_lt(
        a.2,
        b.2,
    ))))
}

impl SymbolKey {
    fn new(path: &str, symbol: &str) -> (r: SymbolKey)
        ensures
            key_view(r) == spec_key(path@, symbol@),
    {
        let cs = chars_of(symbol);
        proof {
            reveal_strlit("local ");
        }
        let local = cs.len() >= 6 && cs[0] == 'l' && cs[1] == 'o' && cs[2] == 'c' && cs[3] == 'a' && cs[4] == 'l'
            && cs[5] == ' ';
        proof {
            if local {
                assert(symbol@.take(6) =~= "local "@);
            } else if cs@.len() >= 6 && symbol@.take(6) == "local "@ {
                assert(symbol@.take(6)[0] == 'l');
                assert(symbol@.take(6)[1] == 'o');
                assert(symbol@.take(6)[2] == 'c');
                assert(symbol@.take(6)[3] == 'a');
                assert(symbol@.take(6)[4] == 'l');
                assert(symbol@.take(6)[5] == ' ');
            }
        }
        if local {
            SymbolKey::Local { path: path.to_owned(), symbol: symbol.to_owned() }
        } else {
            SymbolKey::Global(symbol.to_owned())
        }
    }

    fn clone_key(&self) -> (r: SymbolKey)
        ensures
            key_view(r) == key_view(*self),
    {
        match self {
            SymbolKey::Global(s) => SymbolKey::Global(s.clone()),
            SymbolKey::Local { path, symbol } => SymbolKey::Local { path: path.clone(), symbol: symbol.clone() },
        }
    }

    fn same(&self, other: &SymbolKey) -> (r: bool)
        ensures
            r == (key_view(*self) == key_view(*other)),
    {
        match (self, other) {
            (SymbolKey::Global(a), SymbolKey::Global(b)) => str_eq(a.as_str(), b.as_str()),
            (SymbolKey::Local { path: p, symbol: s }, SymbolKey::Local { path: q, symbol: t }) => str_eq(
                p.as_str(),
                q.as_str(),
            ) && str_eq(s.as_str(), t.as_str()),
            _ => false,
        }
    }

    fn before(&self, other: &SymbolKey) -> (r: bool)
        ensures
            r == key_view_lt(key_view(*self), key_view(*other)),
    {
        proof {
            reveal_strlit("");
        }
        match (self, other) {
            (SymbolKey::Global(a), SymbolKey::Global(b)) => {
                proof {
                    crate::order::lemma_seq_lt_irreflexive(Seq::<char>::empty());
                }
                crate::order::str_lt(a.as_str(), b.as_str())
            },
            (SymbolKey::Global(_), SymbolKey::Local { .. }) => true,
            (SymbolKey::Local { .. }, SymbolKey::Global(_)) => false,
            (SymbolKey::Local { path: p, symbol: s }, SymbolKey::Local { path: q, symbol: t }) => {
                crate::order::str_lt(p.as_str(), q.as_str()) || (str_eq(p.as_str(), q.as_str())
                    && crate::order::str_lt(s.as_str(), t.as_str()))
            },
        }
    }

    /// The symbol as the index spells it.
    fn display(&self) -> (r: &str)
        ensures
            r@ == key_view(*self).2,
    {
        match self {
            SymbolKey::Global(symbol) => symbol.as_str(),
            SymbolKey::Local { symbol, .. } => symbol.as_str(),
        }
    }

    /// Stable across builds: the symbol, behind its document and a NUL when
    /// it is local.
    fn semantic_key(&self) -> (r: String)
        ensures
            r@ == spec_semantic_key(key_view(*self)),
    {
        match self {
            SymbolKey::Global(symbol) => symbol.clone(),
            SymbolKey::Local { path, symbol } => {
                let mut out = String::new();
                push_str(&mut out, path.as_str());
                push_char(&mut out, '\u{0}');
                push_str(&mut out, symbol.as_str());
                out
            },
        }
    }

    /// The node id of this key within the build `build_id`.
    fn id(&self, build_id: &str) -> (r: String)
        ensures
            r@ == spec_node_id(key_view(*self), build_id@),
    {
        let mut material = String::new();
        push_str(&mut material, build_id);
        match self {
            SymbolKey::Global(symbol) => {
                push_str(&mut material, "\u{0}global\u{0}");
                push_str(&mut material, symbol.as_str());
            },
            SymbolKey::Local { path, symbol } => {
                push_str(&mut material, "\u{0}local\u{0}");
                push_str(&mut material, path.as_str());
                push_char(&mut material, '\u{0}');
                push_str(&mut material, symbol.as_str());
            },
        }
        proof {
            let k = key_view(*self);
            if k.0 {
                assert(material@ =~= build_id@ + "\u{0}local\u{0}"@ + k.1 + seq!['\u{0}'] + k.2);
            } else {
                assert(material@ =~= build_id@ + "\u{0}global\u{0}"@ + k.2);
            }
        }
        let mut out = String::new();
        push_str(&mut out, "node:");
        let d = digest(material.as_str());
        push_str(&mut out, d.as_str());
        out
    }

    /// The document a local key belongs to; empty for a global key.
    fn path(&self) -> (r: &str)
        ensures
            r@ == key_view(*self).1,
    {
        proof {
            reveal_strlit("");
        }
        match self {
            SymbolKey::Global(_) => "",
            SymbolKey::Local { path, .. } => path.as_str(),
        }
    }
}

/// The semantic key of a key.
pub open spec fn spec_semantic_key(k: (bool, Seq<char>, Seq<char>)) -> Seq<char> {
    if k.0 {
        k.1 + seq!['\u{0}'] + k.2
    } else {
        k.2
    }
}

/// The node id of a key within a build.
pub open spec fn spec_node_id(k: (bool, Seq<char>, Seq<char>), build_id: Seq<char>) -> Seq<char> {
    "node:"@ + digest_of(
        if k.0 {
            build_id + "\u{0}local\u{0}"@ + k.1 + seq!['\u{0}'] + k.2
        } else {
            build_id + "\u{0}global\u{0}"@ + k.2
        },
    )
}

/// ASCII upper-case letters to lower case; everything else unchanged.
pub open spec fn ascii_lower(c: char) -> char {
    if 'A' <= c && c <= 'Z' {
        ((c as u32) + 32) as char
    } else {
        c
    }
}

/// The language a document names, lower-cased; `unknown` when it names none.
pub open spec fn spec_normalize_language(language: Seq<char>) -> Seq<char> {
    if language.len() == 0 {
        "unknown"@
    } else {
        language.map_values(|c: char| ascii_lower(c))
    }
}

fn normalize_language(language: &str) -> (r: String)
    ensures
        r@ == spec_normalize_language(language@),
{
    proof {
        reveal_strlit("unknown");
    }
    let cs = chars_of(language);
    if cs.len() == 0 {
        return "unknown".to_owned();
    }
    let mut out = String::new();
    let mut i: usize = 0;
    while i < cs.len()
        invariant
            i <= cs@.len(),
            cs@ == language@,
            out@ == language@.take(i as int).map_values(|c: char| ascii_lower(c)),
        decreases cs@.len() - i,
    {
        let c = cs[i];
        let lowered = if 'A' <= c && c <= 'Z' {
            let code: u32 = c as u32;
            let b: u8 = (code + 32) as u8;
            b as char
        } else {
            c
        };
        push_char(&mut out, lowered);
        proof {
            assert(language@.take(i + 1) =~= language@.take(i as int).push(c));
            assert(lowered == ascii_lower(c));
        }
        i = i + 1;
    }
    proof {
        assert(language@.take(cs@.len() as int) =~= language@);
    }
    out
}

fn provenance(record_kind: &str) -> (r: Provenance)
    ensures
        r.provider@ == PROVIDER@,
        r.record_kind@ == record_kind@,
{
    Provenance { provider: PROVIDER.to_owned(), record_kind: record_kind.to_owned() }
}

/// The spelling of the producer's input format.
pub open spec fn input_format() -> Seq<char> {
    "scip@"@ + SCIP_TRANSPORT_VERSION@ + ";beholder-adapter@"@ + ADAPTER_VERSION@
}

/// Who produced the index: the tool it names, its version and arguments
/// when it gives them, and this adapter's input format.
pub fn producer(index: &ScipIndex) -> (r: Producer)
    ensures
        r.name@ == match index.tool {
            Some(t) => if t.name@.len() > 0 {
                t.name@
            } else {
                PROVIDER@
            },
            None => PROVIDER@,
        },
        match index.tool {
            Some(t) => if t.version@.len() > 0 {
                r.version.state == KnowledgeState::Observed && r.version.value == Some(t.version)
            } else {
                r.version.state == KnowledgeState::Unknown && r.version.value is None
            },
            None => r.version.state == KnowledgeState::Unknown && r.version.value is None,
        },
        match index.tool {
            Some(t) => if t.arguments@.len() > 0 {
                r.invocation.state == KnowledgeState::Observed && (r.invocation.value matches Some(a) && a@
                    == t.arguments@)
            } else {
                r.invocation.state == KnowledgeState::Unknown && r.invocation.value is None
            },
            None => r.invocation.state == KnowledgeState::Unknown && r.invocation.value is None,
        },
        r.input_format@ == input_format(),
{
    let name = match &index.tool {
        Some(t) => if t.name.as_str().unicode_len() > 0 {
            t.name.clone()
        } else {
            PROVIDER.to_owned()
        },
        None => PROVIDER.to_owned(),
    };
    let version = match &index.tool {
        Some(t) => if t.version.as_str().unicode_len() > 0 {
            Knowledge::observed(t.version.clone())
        } else {
            Knowledge::unknown()
        },
        None => Knowledge::unknown(),
    };
    let invocation = match &index.tool {
        Some(t) => if t.arguments.len() > 0 {
            Knowledge::observed(clone_strings(&t.arguments))
        } else {
            Knowledge::unknown()
        },
        None => Knowledge::unknown(),
    };
    let mut input_format = String::new();
    push_str(&mut input_format, "scip@");
    push_str(&mut input_format, SCIP_TRANSPORT_VERSION);
    push_str(&mut input_format, ";beholder-adapter@");
    push_str(&mut input_format, ADAPTER_VERSION);
    Producer { name, version, invocation, input_format }
}

fn clone_strings(v: &Vec<String>) -> (r: Vec<String>)
    ensures
        r@ == v@,
{
    let mut out: Vec<String> = Vec::new();
    let mut i: usize = 0;
    while i < v.len()
        invariant
            i <= v@.len(),
            out@ == v@.take(i as int),
        decreases v@.len() - i,
    {
        out.push(v[i].clone());
        proof {
            assert(v@.take(i + 1) =~= v@.take(i as int).push(v@[i as int]));
        }
        i = i + 1;
    }
    proof {
        assert(v@.take(v@.len() as int) =~= v@);
        assert(out@ =~= v@);
    }
    out
}

/// The edge kinds a relationship stands for, in the adapter's order:
/// reference, implementation, type definition, definition alias.
pub open spec fn spec_relationship_kinds(relationship: ScipRelationship) -> Seq<EdgeKind> {
    (if relationship.is_reference { seq![EdgeKind::Reference] } else { Seq::empty() }) + (
    if relationship.is_implementation { seq![EdgeKind::Implementation] } else { Seq::empty() }) + (
    if relationship.is_type_definition { seq![EdgeKind::TypeDefinition] } else { Seq::empty() }) + (
    if relationship.is_definition { seq![EdgeKind::DefinitionAlias] } else { Seq::empty() })
}

/// The edge kinds a relationship between two symbols stands for.
fn relationship_kinds(relationship: &ScipRelationship) -> (r: Vec<EdgeKind>)
    ensures
        r@ == spec_relationship_kinds(*relationship),
        forall|i: int| 0 <= i < r@.len() ==> !(#[trigger] r@[i] is ProviderSpecific),
        r@.len() <= 4,
{
    let ghost r = *relationship;
    let ghost a = if r.is_reference { seq![EdgeKind::Reference] } else { Seq::<EdgeKind>::empty() };
    let ghost b = if r.is_implementation { seq![EdgeKind::Implementation] } else { Seq::<EdgeKind>::empty() };
    let ghost c = if r.is_type_definition { seq![EdgeKind::TypeDefinition] } else { Seq::<EdgeKind>::empty() };
    let ghost e = if r.is_definition { seq![EdgeKind::DefinitionAlias] } else { Seq::<EdgeKind>::empty() };
    let mut kinds: Vec<EdgeKind> = Vec::new();
    if relationship.is_reference {
        kinds.push(EdgeKind::Reference);
    }
    assert(kinds@ =~= a);
    if relationship.is_implementation {
        kinds.push(EdgeKind::Implementation);
    }
    assert(kinds@ =~= a + b);
    if relationship.is_type_definition {
        kinds.push(EdgeKind::TypeDefinition);
    }
    assert(kinds@ =~= a + b + c);
    if relationship.is_definition {
        kinds.push(EdgeKind::DefinitionAlias);
    }
    assert(kinds@ =~= a + b + c + e);
    kinds
}

/// The spelling of an edge kind the adapter emits.
pub open spec fn spec_kind_name(kind: EdgeKind) -> Seq<char> {
    match kind {
        EdgeKind::Reference => "Reference"@,
        EdgeKind::Import => "Import"@,
        EdgeKind::Implementation => "Implementation"@,
        EdgeKind::TypeDefinition => "TypeDefinition"@,
        EdgeKind::DefinitionAlias => "DefinitionAlias"@,
        EdgeKind::ProviderSpecific { .. } => "ProviderSpecific"@,
    }
}

/// Position of an edge kind in the kind order.
pub open spec fn spec_kind_rank(kind: EdgeKind) -> u8 {
    match kind {
        EdgeKind::Reference => 0,
        EdgeKind::Import => 1,
        EdgeKind::Implementation => 2,
        EdgeKind::TypeDefinition => 3,
        EdgeKind::DefinitionAlias => 4,
        EdgeKind::ProviderSpecific { .. } => 5,
    }
}

/// The name an edge kind the adapter emits is spelled with.
fn kind_name(kind: &EdgeKind) -> (r: &'static str)
    requires
        !(*kind is ProviderSpecific),
    ensures
        r@ == spec_kind_name(*kind),
{
    match kind {
        EdgeKind::Reference => "Reference",
        EdgeKind::Import => "Import",
        EdgeKind::Implementation => "Implementation",
        EdgeKind::TypeDefinition => "TypeDefinition",
        EdgeKind::DefinitionAlias => "DefinitionAlias",
        EdgeKind::ProviderSpecific { .. } => "ProviderSpecific",
    }
}

/// Position of an edge kind the adapter emits in the kind order.
fn kind_rank(kind: &EdgeKind) -> (r: u8)
    ensures
        r == spec_kind_rank(*kind),
{
    match kind {
        EdgeKind::Reference => 0,
        EdgeKind::Import => 1,
        EdgeKind::Implementation => 2,
        EdgeKind::TypeDefinition => 3,
        EdgeKind::DefinitionAlias => 4,
        EdgeKind::ProviderSpecific { .. } => 5,
    }
}

fn clone_kind(kind: &EdgeKind) -> (r: EdgeKind)
    requires
        !(*kind is ProviderSpecific),
    ensures
        r == *kind,
{
    match kind {
        EdgeKind::Reference => EdgeKind::Reference,
        EdgeKind::Import => EdgeKind::Import,
        EdgeKind::Implementation => EdgeKind::Implementation,
        EdgeKind::TypeDefinition => EdgeKind::TypeDefinition,
        EdgeKind::DefinitionAlias => EdgeKind::DefinitionAlias,
        EdgeKind::ProviderSpecific { kind } => EdgeKind::ProviderSpecific { kind: kind.clone() },
    }
}

/// A range as it is spelled in fact material.
pub open spec fn range_text(r: SourceRange) -> Seq<char> {
    "SourceRange { start_line: "@ + decimal(r.start_line as nat) + ", start_column: "@ + decimal(
        r.start_column as nat,
    ) + ", end_line: "@ + decimal(r.end_line as nat) + ", end_column: "@ + decimal(r.end_column as nat)
        + " }"@
}

/// Appends a range the way it is spelled in fact material.
fn push_range(out: &mut String, r: SourceRange)
    ensures
        final(out)@ == old(out)@ + range_text(r),
{
    push_str(out, "SourceRange { start_line: ");
    push_decimal(out, r.start_line as usize);
    push_str(out, ", start_column: ");
    push_decimal(out, r.start_column as usize);
    push_str(out, ", end_line: ");
    push_decimal(out, r.end_line as usize);
    push_str(out, ", end_column: ");
    push_decimal(out, r.end_column as usize);
    push_str(out, " }");
    assert(out@ =~= old(out)@ + range_text(r));
}

/// Position of `k` among the keys of `map`, or where it would be inserted
/// to keep keys ascending.
fn entry_position<V>(map: &Vec<(SymbolKey, V)>, k: &SymbolKey) -> (r: Result<usize, usize>)
    ensures
        match r {
            Ok(i) => i < map@.len() && key_view(map@[i as int].0) == key_view(*k) && forall|j: int|
                0 <= j < i ==> key_view((#[trigger] map@[j]).0) != key_view(*k),
            Err(i) => i <= map@.len() && forall|j: int| 0 <= j < map@.len() ==> key_view((#[trigger] map@[j]).0) != key_view(*k),
        },
{
    let mut i: usize = 0;
    let mut insert_at: Option<usize> = None;
    while i < map.len()
        invariant
            i <= map@.len(),
            forall|j: int| 0 <= j < i ==> key_view((#[trigger] map@[j]).0) != key_view(*k),
            match insert_at {
                Some(p) => p < i,
                None => true,
            },
        decreases map@.len() - i,
    {
        if map[i].0.same(k) {
            return Ok(i);
        }
        if insert_at.is_none() && k.before(&map[i].0) {
            insert_at = Some(i);
        }
        i = i + 1;
    }
    match insert_at {
        Some(p) => Err(p),
        None => Err(map.len()),
    }
}

/// Position of `k` in a list of keys, or where it would be inserted.
fn key_position(keys: &Vec<SymbolKey>, k: &SymbolKey) -> (r: Result<usize, usize>)
    ensures
        match r {
            Ok(i) => i < keys@.len() && key_view(keys@[i as int]) == key_view(*k),
            Err(i) => i <= keys@.len() && forall|j: int| 0 <= j < keys@.len() ==> key_view(#[trigger] keys@[j]) != key_view(*k),
        },
{
    let mut i: usize = 0;
    let mut insert_at: Option<usize> = None;
    while i < keys.len()
        invariant
            i <= keys@.len(),
            forall|j: int| 0 <= j < i ==> key_view(#[trigger] keys@[j]) != key_view(*k),
            match insert_at {
                Some(p) => p < i,
                None => true,
            },
        decreases keys@.len() - i,
    {
        if keys[i].same(k) {
            return Ok(i);
        }
        if insert_at.is_none() && k.before(&keys[i]) {
            insert_at = Some(i);
        }
        i = i + 1;
    }
    match insert_at {
        Some(p) => Err(p),
        None => Err(keys.len()),
    }
}

proof fn lemma_key_views_insert(before: Seq<SymbolKey>, after: Seq<SymbolKey>, p: int, k: SymbolKey)
    requires
        0 <= p <= before.len(),
        after == before.insert(p, k),
    ensures
        forall|x: (bool, Seq<char>, Seq<char>)|
            #[trigger] key_views(after).contains(x) <==> (key_views(before).contains(x) || x == key_view(k)),
{
    assert forall|x: (bool, Seq<char>, Seq<char>)|
        #[trigger] key_views(after).contains(x) <==> (key_views(before).contains(x) || x == key_view(k)) by {
        if key_views(after).contains(x) {
            let i = choose|i: int| 0 <= i < after.len() && key_views(after)[i] == x;
            if i < p {
                assert(key_views(before)[i] == x);
            } else if i > p {
                assert(key_views(before)[i - 1] == x);
            }
        }
        if key_views(before).contains(x) {
            let j = choose|j: int| 0 <= j < before.len() && key_views(before)[j] == x;
            if j < p {
                assert(key_views(after)[j] == x);
            } else {
                assert(key_views(after)[j + 1] == x);
            }
        }
        if x == key_view(k) {
            assert(key_views(after)[p] == x);
        }
    }
}

/// Add `k` to a list of keys kept ascending and free of repeats.
fn insert_key(keys: &mut Vec<SymbolKey>, k: SymbolKey)
    ensures
        forall|x: (bool, Seq<char>, Seq<char>)|
            #[trigger] key_views(final(keys)@).contains(x) <==> (key_views(old(keys)@).contains(x) || x == key_view(k)),
        exists|i: int| 0 <= i < final(keys)@.len() && key_view(#[trigger] final(keys)@[i]) == key_view(k),
        forall|j: int|
            0 <= j < old(keys)@.len() ==> exists|i: int|
                0 <= i < final(keys)@.len() && key_view(#[trigger] final(keys)@[i]) == key_view(
                    #[trigger] old(keys)@[j],
                ),
        forall|i: int|
            0 <= i < final(keys)@.len() ==> key_view(#[trigger] final(keys)@[i]) == key_view(k) || exists|j: int|
                0 <= j < old(keys)@.len() && key_view(final(keys)@[i]) == key_view(#[trigger] old(keys)@[j]),
{
    let ghost kv = key_view(k);
    match key_position(keys, &k) {
        Ok(i) => {
            proof {
                assert(key_views(keys@)[i as int] == kv);
                assert forall|x: (bool, Seq<char>, Seq<char>)|
                    #[trigger] key_views(keys@).contains(x) <==> (key_views(keys@).contains(x) || x == kv) by {}
            }
        },
        Err(p) => {
            let ghost before = keys@;
            keys.insert(p, k);
            proof {
                assert(key_view(keys@[p as int]) == key_view(k));
                assert forall|j: int| 0 <= j < before.len() implies exists|i: int|
                    0 <= i < keys@.len() && key_view(#[trigger] keys@[i]) == key_view(#[trigger] before[j]) by {
                    if j < p {
                        assert(keys@[j] == before[j]);
                    } else {
                        assert(keys@[j + 1] == before[j]);
                    }
                }
                assert forall|i: int| 0 <= i < keys@.len() implies key_view(#[trigger] keys@[i]) == key_view(k)
                    || exists|j: int| 0 <= j < before.len() && key_view(keys@[i]) == key_view(#[trigger] before[j]) by {
                    if i < p {
                        assert(keys@[i] == before[i]);
                    } else if i > p {
                        assert(keys@[i] == before[i - 1]);
                    }
                }
                lemma_key_views_insert(before, keys@, p as int, k);
            }
        },
    }
}

/// A definition site of a symbol, with the body it encloses when known.
struct Definition {
    key: SymbolKey,
    location: Location,
    body: Option<SourceRange>,
}

/// What the index says of a symbol that the nodes need.
struct InfoFacts {
    kind: Option<String>,
    display_name: String,
    enclosing_symbol: String,
}

/// The views of a list of keys.
pub open spec fn key_views(keys: Seq<SymbolKey>) -> Seq<(bool, Seq<char>, Seq<char>)> {
    keys.map_values(|k: SymbolKey| key_view(k))
}

/// Some entry of `entries` is for key `k`.
pub open spec fn has_entry<V>(entries: Seq<(SymbolKey, V)>, k: (bool, Seq<char>, Seq<char>)) -> bool {
    exists|j: int| 0 <= j < entries.len() && key_view((#[trigger] entries[j]).0) == k
}

/// The keys that the entries for `k` say define it.
pub open spec fn defined_by(
    relationships: Seq<(SymbolKey, Vec<SymbolKey>)>,
    k: (bool, Seq<char>, Seq<char>),
) -> Set<(bool, Seq<char>, Seq<char>)> {
    Set::new(
        |t: (bool, Seq<char>, Seq<char>)|
            exists|j: int|
                0 <= j < relationships.len() && key_view((#[trigger] relationships[j]).0) == k && key_views(
                    relationships[j].1@,
                ).contains(t),
    )
}

/// The relationship names a symbol that defines its owner.
pub open spec fn is_definition_of(relationship: ScipRelationship) -> bool {
    relationship.is_definition && relationship.symbol@.len() > 0
}

/// The keys, in the document at `path`, of the first `n` relationships of
/// `information` that name a defining symbol.
pub open spec fn definition_targets(path: Seq<char>, information: ScipSymbol, n: int) -> Set<
    (bool, Seq<char>, Seq<char>),
> {
    Set::new(
        |t: (bool, Seq<char>, Seq<char>)|
            exists|i: int|
                0 <= i < n && is_definition_of(#[trigger] information.relationships@[i]) && spec_key(
                    path,
                    information.relationships@[i].symbol@,
                ) == t,
    )
}

/// The first `n` relationships of `information` include one that names a
/// defining symbol.
pub open spec fn names_definition(information: ScipSymbol, n: int) -> bool {
    exists|i: int| 0 <= i < n && is_definition_of(#[trigger] information.relationships@[i])
}

/// `new` is `old` with the entry at `p` holding the same key and the keys of
/// `old`'s entry plus `t`.
proof fn lemma_relation_update(
    old: Seq<(SymbolKey, Vec<SymbolKey>)>,
    new: Seq<(SymbolKey, Vec<SymbolKey>)>,
    p: int,
    t: (bool, Seq<char>, Seq<char>),
)
    requires
        0 <= p < old.len(),
        new.len() == old.len(),
        forall|j: int| 0 <= j < old.len() && j != p ==> #[trigger] new[j] == old[j],
        key_view(new[p].0) == key_view(old[p].0),
        forall|x: (bool, Seq<char>, Seq<char>)|
            #[trigger] key_views(new[p].1@).contains(x) <==> (key_views(old[p].1@).contains(x) || x == t),
    ensures
        forall|k: (bool, Seq<char>, Seq<char>)| #[trigger] has_entry(new, k) == has_entry(old, k),
        forall|k: (bool, Seq<char>, Seq<char>)|
            #[trigger] defined_by(new, k) == if k == key_view(old[p].0) {
                defined_by(old, k).insert(t)
            } else {
                defined_by(old, k)
            },
{
    assert forall|k: (bool, Seq<char>, Seq<char>)| #[trigger] has_entry(new, k) == has_entry(old, k) by {
        if has_entry(new, k) {
            let j = choose|j: int| 0 <= j < new.len() && key_view((#[trigger] new[j]).0) == k;
            assert(key_view(old[j].0) == k);
        }
        if has_entry(old, k) {
            let j = choose|j: int| 0 <= j < old.len() && key_view((#[trigger] old[j]).0) == k;
            assert(key_view(new[j].0) == k);
        }
    }
    assert forall|k: (bool, Seq<char>, Seq<char>)|
        #[trigger] defined_by(new, k) == if k == key_view(old[p].0) {
            defined_by(old, k).insert(t)
        } else {
            defined_by(old, k)
        } by {
        let expected = if k == key_view(old[p].0) {
            defined_by(old, k).insert(t)
        } else {
            defined_by(old, k)
        };
        assert forall|x: (bool, Seq<char>, Seq<char>)| defined_by(new, k).contains(x) <==> expected.contains(x) by {
            if defined_by(new, k).contains(x) {
                let j = choose|j: int|
                    0 <= j < new.len() && key_view((#[trigger] new[j]).0) == k && key_views(new[j].1@).contains(x);
                if j != p {
                    assert(key_view(old[j].0) == k && key_views(old[j].1@).contains(x));
                } else if x != t {
                    assert(key_view(old[p].0) == k && key_views(old[p].1@).contains(x));
                }
            }
            if defined_by(old, k).contains(x) {
                let j = choose|j: int|
                    0 <= j < old.len() && key_view((#[trigger] old[j]).0) == k && key_views(old[j].1@).contains(x);
                if j != p {
                    assert(key_view(new[j].0) == k && key_views(new[j].1@).contains(x));
                } else {
                    assert(key_views(new[p].1@).contains(x));
                }
            }
            if k == key_view(old[p].0) && x == t {
                assert(key_views(new[p].1@).contains(x));
                assert(key_view(new[p].0) == k);
            }
        }
        assert(defined_by(new, k) =~= expected);
    }
}

/// `new` is `old` with an entry for a key no entry of `old` has inserted at
/// `p`, holding just `t`.
proof fn lemma_relation_insert(
    old: Seq<(SymbolKey, Vec<SymbolKey>)>,
    new: Seq<(SymbolKey, Vec<SymbolKey>)>,
    p: int,
    o: (bool, Seq<char>, Seq<char>),
    t: (bool, Seq<char>, Seq<char>),
)
    requires
        0 <= p <= old.len(),
        new == old.insert(p, new[p]),
        key_view(new[p].0) == o,
        key_views(new[p].1@) == seq![t],
        !has_entry(old, o),
    ensures
        forall|k: (bool, Seq<char>, Seq<char>)| #[trigger] has_entry(new, k) == (has_entry(old, k) || k == o),
        forall|k: (bool, Seq<char>, Seq<char>)|
            #[trigger] defined_by(new, k) == if k == o {
                defined_by(old, k).insert(t)
            } else {
                defined_by(old, k)
            },
{
    assert forall|k: (bool, Seq<char>, Seq<char>)| #[trigger] has_entry(new, k) == (has_entry(old, k) || k == o) by {
        if has_entry(new, k) {
            let j = choose|j: int| 0 <= j < new.len() && key_view((#[trigger] new[j]).0) == k;
            if j < p {
                assert(new[j] == old[j]);
            } else if j > p {
                assert(new[j] == old[j - 1]);
            }
        }
        if has_entry(old, k) {
            let j = choose|j: int| 0 <= j < old.len() && key_view((#[trigger] old[j]).0) == k;
            if j < p {
                assert(new[j] == old[j]);
            } else {
                assert(new[j + 1] == old[j]);
            }
        }
        if k == o {
            assert(key_view(new[p].0) == k);
        }
    }
    assert forall|k: (bool, Seq<char>, Seq<char>)|
        #[trigger] defined_by(new, k) == if k == o {
            defined_by(old, k).insert(t)
        } else {
            defined_by(old, k)
        } by {
        let expected = if k == o {
            defined_by(old, k).insert(t)
        } else {
            defined_by(old, k)
        };
        assert forall|x: (bool, Seq<char>, Seq<char>)| defined_by(new, k).contains(x) <==> expected.contains(x) by {
            if defined_by(new, k).contains(x) {
                let j = choose|j: int|
                    0 <= j < new.len() && key_view((#[trigger] new[j]).0) == k && key_views(new[j].1@).contains(x);
                if j < p {
                    assert(new[j] == old[j]);
                } else if j > p {
                    assert(new[j] == old[j - 1]);
                } else {
                    assert(key_views(new[p].1@)[0] == t);
                }
            }
            if defined_by(old, k).contains(x) {
                let j = choose|j: int|
                    0 <= j < old.len() && key_view((#[trigger] old[j]).0) == k && key_views(old[j].1@).contains(x);
                if j < p {
                    assert(new[j] == old[j]);
                    assert(key_view(new[j].0) == k && key_views(new[j].1@).contains(x));
                } else {
                    assert(new[j + 1] == old[j]);
                    assert(key_view(new[j + 1].0) == k && key_views(new[j + 1].1@).contains(x));
                }
            }
            if k == o && x == t {
                assert(key_views(new[p].1@)[0] == t);
                assert(key_view(new[p].0) == k && key_views(new[p].1@).contains(x));
            }
        }
        assert(defined_by(new, k) =~= expected);
    }
}

/// Record that `owner` is defined by each symbol its information names
/// with a definition relationship.
fn relate_definitions(
    relationships: &mut Vec<(SymbolKey, Vec<SymbolKey>)>,
    owner: &SymbolKey,
    path: &str,
    information: &ScipSymbol,
)
    requires
        unique_keys(old(relationships)@),
    ensures
        unique_keys(final(relationships)@),
        forall|k: (bool, Seq<char>, Seq<char>)|
            #[trigger] has_entry(final(relationships)@, k) == (has_entry(old(relationships)@, k) || (k == key_view(
                *owner,
            ) && names_definition(*information, information.relationships@.len() as int))),
        forall|k: (bool, Seq<char>, Seq<char>)|
            #[trigger] defined_by(final(relationships)@, k) == if k == key_view(*owner) {
                defined_by(old(relationships)@, k).union(
                    definition_targets(path@, *information, information.relationships@.len() as int),
                )
            } else {
                defined_by(old(relationships)@, k)
            },
{
    let ghost o = key_view(*owner);
    let mut i: usize = 0;
    proof {
        assert(definition_targets(path@, *information, 0) =~= Set::empty());
        assert forall|k: (bool, Seq<char>, Seq<char>)|
            #[trigger] defined_by(relationships@, k) == if k == o {
                defined_by(old(relationships)@, k).union(definition_targets(path@, *information, 0))
            } else {
                defined_by(old(relationships)@, k)
            } by {
            assert(defined_by(old(relationships)@, k).union(Set::empty()) =~= defined_by(old(relationships)@, k));
        }
    }
    while i < information.relationships.len()
        invariant
            i <= information.relationships@.len(),
            o == key_view(*owner),
            unique_keys(relationships@),
            forall|k: (bool, Seq<char>, Seq<char>)|
                #[trigger] has_entry(relationships@, k) == (has_entry(old(relationships)@, k) || (k == o
                    && names_definition(*information, i as int))),
            forall|k: (bool, Seq<char>, Seq<char>)|
                #[trigger] defined_by(relationships@, k) == if k == o {
                    defined_by(old(relationships)@, k).union(definition_targets(path@, *information, i as int))
                } else {
                    defined_by(old(relationships)@, k)
                },
        decreases information.relationships@.len() - i,
    {
        let relationship = &information.relationships[i];
        let ghost before = relationships@;
        if relationship.is_definition && relationship.symbol.as_str().unicode_len() > 0 {
            let target = SymbolKey::new(path, relationship.symbol.as_str());
            let ghost t = key_view(target);
            match entry_position(relationships, owner) {
                Ok(p) => {
                    let mut entry: (SymbolKey, Vec<SymbolKey>) = (SymbolKey::Global(String::new()), Vec::new());
                    std::mem::swap(&mut entry, &mut relationships[p]);
                    proof {
                        assert(entry == before[p as int]);
                    }
                    insert_key(&mut entry.1, target);
                    relationships.set(p, entry);
                    proof {
                        lemma_relation_update(before, relationships@, p as int, t);
                        assert forall|a: int, b: int|
                            0 <= a < b < relationships@.len() implies key_view((#[trigger] relationships@[a]).0) != key_view(
                            (#[trigger] relationships@[b]).0,
                        ) by {
                            assert(key_view(relationships@[a].0) == key_view(before[a].0));
                            assert(key_view(relationships@[b].0) == key_view(before[b].0));
                        }
                    }
                },
                Err(p) => {
                    let mut targets: Vec<SymbolKey> = Vec::new();
                    targets.push(target);
                    proof {
                        assert(key_views(targets@) =~= seq![t]);
                        assert(!has_entry(before, o));
                    }
                    relationships.insert(p, (owner.clone_key(), targets));
                    proof {
                        lemma_relation_insert(before, relationships@, p as int, o, t);
                        assert forall|a: int, b: int|
                            0 <= a < b < relationships@.len() implies key_view((#[trigger] relationships@[a]).0) != key_view(
                            (#[trigger] relationships@[b]).0,
                        ) by {
                            if a < p && b < p {
                                assert(relationships@[a] == before[a] && relationships@[b] == before[b]);
                            } else if a < p && b == p {
                                assert(relationships@[a] == before[a]);
                            } else if a < p {
                                assert(relationships@[a] == before[a] && relationships@[b] == before[b - 1]);
                            } else if a == p {
                                assert(relationships@[b] == before[b - 1]);
                            } else {
                                assert(relationships@[a] == before[a - 1] && relationships@[b] == before[b - 1]);
                            }
                        }
                    }
                },
            }
            proof {
                assert(is_definition_of(information.relationships@[i as int]));
                assert(names_definition(*information, i + 1));
                assert(definition_targets(path@, *information, i + 1) =~= definition_targets(
                    path@,
                    *information,
                    i as int,
                ).insert(t));
                assert forall|k: (bool, Seq<char>, Seq<char>)|
                    #[trigger] has_entry(relationships@, k) == (has_entry(old(relationships)@, k) || (k == o
                        && names_definition(*information, i + 1))) by {
                    if names_definition(*information, i as int) {
                        let j = choose|j: int| 0 <= j < i && is_definition_of(#[trigger] information.relationships@[j]);
                        assert(0 <= j < i + 1);
                    }
                }
                assert forall|k: (bool, Seq<char>, Seq<char>)|
                    #[trigger] defined_by(relationships@, k) == if k == o {
                        defined_by(old(relationships)@, k).union(definition_targets(path@, *information, i + 1))
                    } else {
                        defined_by(old(relationships)@, k)
                    } by {
                    if k == o {
                        assert(defined_by(old(relationships)@, k).union(definition_targets(path@, *information, i as int)).insert(
                            t,
                        ) =~= defined_by(old(relationships)@, k).union(definition_targets(path@, *information, i + 1)));
                    }
                }
            }
        } else {
            proof {
                assert(!is_definition_of(information.relationships@[i as int]));
                assert(definition_targets(path@, *information, i + 1) =~= definition_targets(
                    path@,
                    *information,
                    i as int,
                ));
                assert forall|k: (bool, Seq<char>, Seq<char>)|
                    #[trigger] has_entry(relationships@, k) == (has_entry(old(relationships)@, k) || (k == o
                        && names_definition(*information, i + 1))) by {
                    if names_definition(*information, i + 1) {
                        let j = choose|j: int| 0 <= j < i + 1 && is_definition_of(#[trigger] information.relationships@[j]);
                        assert(j < i);
                    }
                    if names_definition(*information, i as int) {
                        let j = choose|j: int| 0 <= j < i && is_definition_of(#[trigger] information.relationships@[j]);
                        assert(0 <= j < i + 1);
                    }
                }
            }
        }
        i = i + 1;
    }
}

/// The facts that the index records of a symbol, as kept for its node.
spec fn facts_of(symbol: ScipSymbol) -> InfoFacts {
    InfoFacts { kind: symbol.kind, display_name: symbol.display_name, enclosing_symbol: symbol.enclosing_symbol }
}

/// Record what the index says of `key`, unless something is recorded already.
fn note_information(information: &mut Vec<(SymbolKey, InfoFacts)>, key: &SymbolKey, symbol: &ScipSymbol)
    ensures
        if has_entry(old(information)@, key_view(*key)) {
            final(information)@ == old(information)@
        } else {
            exists|p: int|
                0 <= p <= old(information)@.len() && final(information)@ == old(information)@.insert(
                    p,
                    final(information)@[p],
                ) && key_view(final(information)@[p].0) == key_view(*key) && #[trigger] final(information)@[p].1
                    == facts_of(*symbol)
        },
{
    match entry_position(information, key) {
        Ok(_) => {},
        Err(p) => {
            let kind = match &symbol.kind {
                Some(k) => Some(k.clone()),
                None => None,
            };
            let facts = InfoFacts {
                kind,
                display_name: symbol.display_name.clone(),
                enclosing_symbol: symbol.enclosing_symbol.clone(),
            };
            information.insert(p, (key.clone_key(), facts));
            assert(information@[p as int].1 == facts_of(*symbol));
        },
    }
}

/// Number of the keys of `keys` that `visiting` does not hold.
pub open spec fn unvisited(
    keys: Seq<(bool, Seq<char>, Seq<char>)>,
    visiting: Seq<(bool, Seq<char>, Seq<char>)>,
) -> nat
    decreases keys.len(),
{
    if keys.len() == 0 {
        0
    } else {
        unvisited(keys.drop_last(), visiting) + if visiting.contains(keys.last()) {
            0nat
        } else {
            1nat
        }
    }
}

pub proof fn lemma_unvisited_push(
    keys: Seq<(bool, Seq<char>, Seq<char>)>,
    visiting: Seq<(bool, Seq<char>, Seq<char>)>,
    k: (bool, Seq<char>, Seq<char>),
)
    ensures
        unvisited(keys, visiting.push(k)) <= unvisited(keys, visiting),
        keys.contains(k) && !visiting.contains(k) ==> unvisited(keys, visiting.push(k)) < unvisited(keys, visiting),
    decreases keys.len(),
{
    if keys.len() > 0 {
        lemma_unvisited_push(keys.drop_last(), visiting, k);
        let last = keys.last();
        if visiting.contains(last) {
            let i = choose|i: int| 0 <= i < visiting.len() && visiting[i] == last;
            assert(visiting.push(k)[i] == last);
        }
        if last == k {
            assert(visiting.push(k)[visiting.len() as int] == k);
        }
        if visiting.push(k).contains(last) && last != k {
            let i = choose|i: int| 0 <= i < visiting.push(k).len() && visiting.push(k)[i] == last;
            assert(visiting[i] == last);
        }
        if keys.contains(k) && !visiting.contains(k) && last != k {
            let i = choose|i: int| 0 <= i < keys.len() && keys[i] == k;
            assert(keys.drop_last()[i] == k);
        }
    }
}

/// Whether a list of keys holds `k`.
fn holds_key(keys: &Vec<SymbolKey>, k: &SymbolKey) -> (r: bool)
    ensures
        r == key_views(keys@).contains(key_view(*k)),
{
    match key_position(keys, k) {
        Ok(i) => {
            proof {
                assert(key_views(keys@)[i as int] == key_view(*k));
            }
            true
        },
        Err(_) => {
            proof {
                if key_views(keys@).contains(key_view(*k)) {
                    let j = choose|j: int| 0 <= j < key_views(keys@).len() && key_views(keys@)[j] == key_view(*k);
                    assert(key_view(keys@[j]) == key_view(*k));
                }
            }
            false
        },
    }
}

/// The keys of the entries of a relation, in order.
pub open spec fn relation_keys(relationships: Seq<(SymbolKey, Vec<SymbolKey>)>) -> Seq<(bool, Seq<char>, Seq<char>)> {
    relationships.map_values(|p: (SymbolKey, Vec<SymbolKey>)| key_view(p.0))
}

/// `i` is the first entry for key `k`.
pub open spec fn entry_at<V>(entries: Seq<(SymbolKey, V)>, k: (bool, Seq<char>, Seq<char>), i: int) -> bool {
    &&& 0 <= i < entries.len()
    &&& key_view(entries[i].0) == k
    &&& forall|j: int| 0 <= j < i ==> key_view((#[trigger] entries[j]).0) != k
}

/// The texts a list of strings holds, as a set.
pub open spec fn text_set(v: Seq<String>) -> Set<Seq<char>> {
    Set::new(|y: Seq<char>| contains_view(views(v), y))
}

/// The node ids key `k` resolves to while the keys of `visiting` are being
/// resolved: none (a cycle) when `k` is among them; else, when an entry
/// names what defines `k`, the union of what those resolve to; else the
/// node of `k` itself, if it has one.
pub open spec fn resolution(
    k: (bool, Seq<char>, Seq<char>),
    relationships: Seq<(SymbolKey, Vec<SymbolKey>)>,
    nodes: Seq<(SymbolKey, String)>,
    visiting: Seq<(bool, Seq<char>, Seq<char>)>,
) -> Option<Set<Seq<char>>>
    decreases unvisited(relation_keys(relationships), visiting), 0nat,
{
    if visiting.contains(k) {
        None
    } else if has_entry(relationships, k) {
        proof {
            let j = choose|j: int| 0 <= j < relationships.len() && key_view((#[trigger] relationships[j]).0) == k;
            assert(relation_keys(relationships)[j] == k);
            lemma_unvisited_push(relation_keys(relationships), visiting, k);
        }
        let p = choose|p: int| entry_at(relationships, k, p);
        resolution_all(key_views(relationships[p].1@), relationships, nodes, visiting.push(k))
    } else {
        match node_id_of(nodes, k) {
            Some(id) => Some(set![id@]),
            None => Some(Set::empty()),
        }
    }
}

/// The union of what each of `targets` resolves to; none when one of them
/// meets a cycle.
pub open spec fn resolution_all(
    targets: Seq<(bool, Seq<char>, Seq<char>)>,
    relationships: Seq<(SymbolKey, Vec<SymbolKey>)>,
    nodes: Seq<(SymbolKey, String)>,
    visiting: Seq<(bool, Seq<char>, Seq<char>)>,
) -> Option<Set<Seq<char>>>
    decreases unvisited(relation_keys(relationships), visiting), targets.len(),
{
    if targets.len() == 0 {
        Some(Set::empty())
    } else {
        match resolution_all(targets.drop_last(), relationships, nodes, visiting) {
            None => None,
            Some(a) => match resolution(targets.last(), relationships, nodes, visiting) {
                None => None,
                Some(b) => Some(a.union(b)),
            },
        }
    }
}

proof fn lemma_resolution_all_none(
    targets: Seq<(bool, Seq<char>, Seq<char>)>,
    m: int,
    relationships: Seq<(SymbolKey, Vec<SymbolKey>)>,
    nodes: Seq<(SymbolKey, String)>,
    visiting: Seq<(bool, Seq<char>, Seq<char>)>,
)
    requires
        0 <= m <= targets.len(),
        resolution_all(targets.take(m), relationships, nodes, visiting) is None,
    ensures
        resolution_all(targets, relationships, nodes, visiting) is None,
    decreases targets.len() - m,
{
    if m == targets.len() {
        assert(targets.take(m) =~= targets);
    } else {
        assert(targets.take(m + 1).drop_last() =~= targets.take(m));
        lemma_resolution_all_none(targets, m + 1, relationships, nodes, visiting);
    }
}

/// The node ids a key stands for: itself when nothing defines it, else
/// whatever its definitions resolve to; a cycle of definitions is refused.
fn resolve_key(
    key: &SymbolKey,
    relationships: &Vec<(SymbolKey, Vec<SymbolKey>)>,
    nodes: &Vec<(SymbolKey, String)>,
    visiting: &mut Vec<SymbolKey>,
) -> (r: Result<Vec<String>, ScipProviderError>)
    ensures
        r is Ok ==> key_views(final(visiting)@) == key_views(old(visiting)@),
        match r {
            Ok(ids) => sorted_strict(views(ids@)) && resolution(
                key_view(*key),
                relationships@,
                nodes@,
                key_views(old(visiting)@),
            ) == Some(text_set(ids@)),
            Err(e) => e is DefinitionCycle && resolution(
                key_view(*key),
                relationships@,
                nodes@,
                key_views(old(visiting)@),
            ) is None,
        },
    decreases unvisited(relation_keys(relationships@), key_views(old(visiting)@)),
{
    let ghost rel_keys = relation_keys(relationships@);
    let ghost kv = key_view(*key);
    let ghost start = key_views(visiting@);
    if holds_key(visiting, key) {
        return Err(ScipProviderError::DefinitionCycle(key.display().to_owned()));
    }
    match entry_position(relationships, key) {
        Ok(p) => {
            visiting.push(key.clone_key());
            proof {
                assert(key_views(visiting@) =~= start.push(kv));
                assert(rel_keys[p as int] == kv);
                lemma_unvisited_push(rel_keys, start, kv);
                assert(has_entry(relationships@, kv));
                assert(entry_at(relationships@, kv, p as int));
                lemma_first_entry(relationships@, kv, p as int);
                let q = choose|q: int| entry_at(relationships@, kv, q);
                assert(q == p);
            }
            let targets = &relationships[p].1;
            let ghost ts = key_views(targets@);
            let mut resolved: Vec<String> = Vec::new();
            let mut t: usize = 0;
            proof {
                assert(ts.take(0) =~= Seq::<(bool, Seq<char>, Seq<char>)>::empty());
                assert(text_set(resolved@) =~= Set::<Seq<char>>::empty());
            }
            while t < targets.len()
                invariant
                    t <= targets@.len(),
                    ts == key_views(targets@),
                    sorted_strict(views(resolved@)),
                    key_views(visiting@) == start.push(kv),
                    rel_keys == relation_keys(relationships@),
                    unvisited(rel_keys, start.push(kv)) < unvisited(rel_keys, start),
                    start == key_views(old(visiting)@),
                    kv == key_view(*key),
                    resolution(kv, relationships@, nodes@, start) == resolution_all(ts, relationships@, nodes@, start.push(kv)),
                    resolution_all(ts.take(t as int), relationships@, nodes@, start.push(kv)) == Some(
                        text_set(resolved@),
                    ),
                decreases targets@.len() - t,
            {
                let sub = match resolve_key(&targets[t], relationships, nodes, visiting) {
                    Ok(sub) => sub,
                    Err(e) => {
                        proof {
                            assert(ts.take(t + 1).drop_last() =~= ts.take(t as int));
                            assert(ts.take(t + 1).last() == key_view(targets@[t as int]));
                            lemma_resolution_all_none(ts, t + 1, relationships@, nodes@, start.push(kv));
                        }
                        return Err(e);
                    },
                };
                let ghost before = text_set(resolved@);
                let mut u: usize = 0;
                proof {
                    assert(before.union(text_set(sub@.take(0))) =~= before);
                }
                while u < sub.len()
                    invariant
                        u <= sub@.len(),
                        sorted_strict(views(resolved@)),
                        text_set(resolved@) == before.union(text_set(sub@.take(u as int))),
                    decreases sub@.len() - u,
                {
                    let ghost old_resolved = resolved@;
                    insert_sorted(&mut resolved, sub[u].as_str());
                    proof {
                        assert forall|y: Seq<char>| text_set(resolved@).contains(y) <==> (text_set(old_resolved).contains(
                            y,
                        ) || y == sub@[u as int]@) by {
                            assert(text_set(resolved@).contains(y) == contains_view(views(resolved@), y));
                            assert(text_set(old_resolved).contains(y) == contains_view(views(old_resolved), y));
                        }
                        assert forall|y: Seq<char>| text_set(sub@.take(u + 1)).contains(y) <==> (text_set(
                            sub@.take(u as int),
                        ).contains(y) || y == sub@[u as int]@) by {
                            if contains_view(views(sub@.take(u + 1)), y) {
                                let i = choose|i: int| 0 <= i < views(sub@.take(u + 1)).len() && #[trigger] views(sub@.take(u + 1))[i] == y;
                                if i < u {
                                    assert(views(sub@.take(u as int))[i] == y);
                                }
                            }
                            if contains_view(views(sub@.take(u as int)), y) {
                                let i = choose|i: int| 0 <= i < views(sub@.take(u as int)).len() && #[trigger] views(sub@.take(u as int))[i] == y;
                                assert(views(sub@.take(u + 1))[i] == y);
                            }
                            if y == sub@[u as int]@ {
                                assert(views(sub@.take(u + 1))[u as int] == y);
                            }
                        }
                        assert forall|y: Seq<char>| #[trigger] text_set(resolved@).contains(y) <==> before.union(
                            text_set(sub@.take(u + 1)),
                        ).contains(y) by {
                            assert(text_set(old_resolved).contains(y) <==> (before.contains(y) || text_set(
                                sub@.take(u as int),
                            ).contains(y)));
                        }
                        assert(text_set(resolved@) =~= before.union(text_set(sub@.take(u + 1))));
                    }
                    u = u + 1;
                }
                proof {
                    assert(sub@.take(sub@.len() as int) =~= sub@);
                    assert(ts.take(t + 1).drop_last() =~= ts.take(t as int));
                    assert(ts.take(t + 1).last() == key_view(targets@[t as int]));
                }
                t = t + 1;
            }
            let ghost prior = visiting@;
            visiting.pop();
            proof {
                assert(visiting@ =~= prior.drop_last());
                assert(key_views(prior).drop_last() =~= key_views(prior.drop_last()));
                assert(key_views(visiting@) =~= start);
                assert(ts.take(ts.len() as int) =~= ts);
            }
            Ok(resolved)
        },
        Err(_) => {
            let mut ids: Vec<String> = Vec::new();
            proof {
                assert(!has_entry(relationships@, kv));
            }
            match entry_position(nodes, key) {
                Ok(j) => {
                    proof {
                        lemma_first_entry(nodes@, kv, j as int);
                    }
                    ids.push(nodes[j].1.clone());
                    proof {
                        assert(views(ids@) =~= seq![nodes@[j as int].1@]);
                        assert forall|y: Seq<char>| text_set(ids@).contains(y) <==> y == nodes@[j as int].1@ by {
                            if y == nodes@[j as int].1@ {
                                assert(views(ids@)[0] == y);
                            }
                        }
                        assert(text_set(ids@) =~= set![nodes@[j as int].1@]);
                    }
                },
                Err(_) => {
                    proof {
                        assert(text_set(ids@) =~= Set::<Seq<char>>::empty());
                    }
                },
            }
            Ok(ids)
        },
    }
}

/// Some occurrence of the document names a symbol at a malformed range.
pub open spec fn has_malformed_range(document: ScipDocument) -> bool {
    exists|o: int|
        0 <= o < document.occurrences@.len() && (#[trigger] document.occurrences@[o]).symbol@.len() > 0
            && spec_range_of(document.occurrences@[o].range@) is None
}

/// Range order: by start line, start column, end line, end column.
pub open spec fn range_lt(a: SourceRange, b: SourceRange) -> bool {
    a.start_line < b.start_line || (a.start_line == b.start_line && (a.start_column < b.start_column || (
    a.start_column == b.start_column && (a.end_line < b.end_line || (a.end_line == b.end_line && a.end_column
        < b.end_column)))))
}

/// Range order: by start line, start column, end line, end column.
fn range_before(a: &SourceRange, b: &SourceRange) -> (r: bool)
    ensures
        r == range_lt(*a, *b),
{
    a.start_line < b.start_line || (a.start_line == b.start_line && (a.start_column < b.start_column || (
    a.start_column == b.start_column && (a.end_line < b.end_line || (a.end_line == b.end_line && a.end_column
        < b.end_column)))))
}

fn same_range(a: &SourceRange, b: &SourceRange) -> (r: bool)
    ensures
        r == (*a == *b),
{
    a.start_line == b.start_line && a.start_column == b.start_column && a.end_line == b.end_line && a.end_column
        == b.end_column
}

/// A target use as plain values.
pub open spec fn target_views(targets: Seq<(String, bool)>) -> Seq<(Seq<char>, bool)> {
    targets.map_values(|t: (String, bool)| (t.0@, t.1))
}

/// Target order: by symbol, then a use that is not an import first.
pub open spec fn target_lt(a: (Seq<char>, bool), b: (Seq<char>, bool)) -> bool {
    seq_lt(a.0, b.0) || (a.0 == b.0 && !a.1 && b.1)
}

/// `new` is `old` with `x` placed at `i`, before the first entry that equals
/// it or is above it, unless that entry equals it.
pub open spec fn target_slot(old: Seq<(Seq<char>, bool)>, x: (Seq<char>, bool), new: Seq<(Seq<char>, bool)>, i: int) -> bool {
    &&& 0 <= i <= old.len()
    &&& forall|k: int| 0 <= k < i ==> #[trigger] old[k] != x && !target_lt(x, old[k])
    &&& i < old.len() ==> old[i] == x || target_lt(x, old[i])
    &&& if i < old.len() && old[i] == x {
        new == old
    } else {
        new == old.insert(i, x)
    }
}

/// Add a target use, kept ascending by symbol then by import flag.
fn insert_target(targets: &mut Vec<(String, bool)>, symbol: &str, import: bool)
    ensures
        exists|i: int| target_slot(target_views(old(targets)@), (symbol@, import), target_views(final(targets)@), i),
{
    let ghost x = (symbol@, import);
    let mut i: usize = 0;
    while i < targets.len()
        invariant
            i <= targets@.len(),
            targets@ == old(targets)@,
            x == (symbol@, import),
            forall|k: int| 0 <= k < i ==> #[trigger] target_views(old(targets)@)[k] != x && !target_lt(x, target_views(old(targets)@)[k]),
        decreases targets@.len() - i,
    {
        let same_symbol = str_eq(targets[i].0.as_str(), symbol);
        if same_symbol && targets[i].1 == import {
            assert(target_views(old(targets)@)[i as int] == x);
            assert(target_slot(target_views(old(targets)@), x, target_views(targets@), i as int));
            return;
        }
        if crate::order::str_lt(symbol, targets[i].0.as_str()) || (same_symbol && !import && targets[i].1) {
            assert(target_lt(x, target_views(old(targets)@)[i as int]));
            let owned = symbol.to_owned();
            targets.insert(i, (owned, import));
            assert(target_views(targets@) =~= target_views(old(targets)@).insert(i as int, x));
            assert(target_slot(target_views(old(targets)@), x, target_views(targets@), i as int));
            return;
        }
        i = i + 1;
    }
    let owned = symbol.to_owned();
    targets.push((owned, import));
    assert(target_views(targets@) =~= target_views(old(targets)@).insert(i as int, x));
    assert(target_slot(target_views(old(targets)@), x, target_views(targets@), i as int));
}

/// The occurrence names a symbol without defining it.
pub open spec fn is_reference_occurrence(o: ScipOccurrence) -> bool {
    o.symbol@.len() > 0 && o.symbol_roles & DEFINITION_ROLE == 0
}

/// A symbol used at an occurrence, and whether the use is an import.
pub open spec fn occurrence_target(o: ScipOccurrence) -> (Seq<char>, bool) {
    (o.symbol@, o.symbol_roles & IMPORT_ROLE != 0)
}

/// Some non-defining occurrence of the document has a malformed range.
pub open spec fn reference_malformed(document: ScipDocument) -> bool {
    exists|o: int|
        0 <= o < document.occurrences@.len() && is_reference_occurrence(#[trigger] document.occurrences@[o])
            && spec_range_of(document.occurrences@[o].range@) is None
}

/// One of the first `n` non-defining occurrences of the document uses
/// target `t` at range `r`.
pub open spec fn reference_used(document: ScipDocument, n: int, r: SourceRange, t: (Seq<char>, bool)) -> bool {
    exists|o: int|
        0 <= o < n && is_reference_occurrence(#[trigger] document.occurrences@[o]) && spec_range_of(
            document.occurrences@[o].range@,
        ) == Some(r) && occurrence_target(document.occurrences@[o]) == t
}

/// Some group at range `r` holds target `t`.
pub open spec fn group_has(groups: Seq<(Location, Vec<(String, bool)>)>, r: SourceRange, t: (Seq<char>, bool)) -> bool {
    exists|i: int| 0 <= i < groups.len() && (#[trigger] groups[i]).0.range == r && target_views(groups[i].1@).contains(t)
}

/// Targets strictly ascending.
pub open spec fn targets_sorted(t: Seq<(Seq<char>, bool)>) -> bool {
    forall|i: int, j: int| 0 <= i < j < t.len() ==> target_lt(#[trigger] t[i], #[trigger] t[j])
}

/// Groups located in the document, strictly ascending by range, each with
/// a nonempty, strictly ascending list of targets.
pub open spec fn groups_well_formed(groups: Seq<(Location, Vec<(String, bool)>)>, document: ScipDocument) -> bool {
    &&& forall|i: int|
        0 <= i < groups.len() ==> {
            &&& (#[trigger] groups[i]).0.path@ == document.relative_path@
            &&& groups[i].0.encoding == document.position_encoding
            &&& groups[i].1@.len() > 0
            &&& targets_sorted(target_views(groups[i].1@))
        }
    &&& forall|i: int, j: int| 0 <= i < j < groups.len() ==> range_lt((#[trigger] groups[i]).0.range, (#[trigger] groups[j]).0.range)
}

proof fn lemma_target_lt_transitive(a: (Seq<char>, bool), b: (Seq<char>, bool), c: (Seq<char>, bool))
    requires
        target_lt(a, b),
        target_lt(b, c),
    ensures
        target_lt(a, c),
{
    if seq_lt(a.0, b.0) && seq_lt(b.0, c.0) {
        crate::order::lemma_seq_lt_transitive(a.0, b.0, c.0);
    }
}

/// Placing a target by `target_slot` keeps a list sorted and adds just it.
proof fn lemma_target_slot(old: Seq<(Seq<char>, bool)>, x: (Seq<char>, bool), new: Seq<(Seq<char>, bool)>, i: int)
    requires
        targets_sorted(old),
        target_slot(old, x, new, i),
    ensures
        targets_sorted(new),
        forall|y: (Seq<char>, bool)| #[trigger] new.contains(y) <==> (old.contains(y) || y == x),
        new.len() > 0,
{
    if i < old.len() && old[i] == x {
        assert(new[i] == x);
    } else {
        assert forall|k: int| 0 <= k < i implies target_lt(#[trigger] old[k], x) by {
            crate::order::lemma_seq_lt_total(old[k].0, x.0);
            if seq_lt(x.0, old[k].0) {
            } else if old[k].0 == x.0 {
                if old[k].1 == x.1 {
                } else if !old[k].1 {
                } else {
                    assert(target_lt(x, old[k]));
                }
            }
        }
        assert forall|a: int, b: int| 0 <= a < b < new.len() implies target_lt(#[trigger] new[a], #[trigger] new[b]) by {
            if b < i {
                assert(new[a] == old[a] && new[b] == old[b]);
            } else if b == i {
                assert(new[a] == old[a]);
            } else if a < i {
                assert(new[a] == old[a] && new[b] == old[b - 1]);
                assert(target_lt(x, old[i]));
                if b - 1 > i {
                    lemma_target_lt_transitive(x, old[i], old[b - 1]);
                }
                lemma_target_lt_transitive(old[a], x, old[b - 1]);
            } else if a == i {
                assert(new[b] == old[b - 1]);
                if b - 1 > i {
                    lemma_target_lt_transitive(x, old[i], old[b - 1]);
                }
            } else {
                assert(new[a] == old[a - 1] && new[b] == old[b - 1]);
            }
        }
        assert forall|y: (Seq<char>, bool)| #[trigger] new.contains(y) <==> (old.contains(y) || y == x) by {
            if new.contains(y) {
                let k = choose|k: int| 0 <= k < new.len() && new[k] == y;
                if k < i {
                    assert(old[k] == y);
                } else if k > i {
                    assert(old[k - 1] == y);
                }
            }
            if old.contains(y) {
                let k = choose|k: int| 0 <= k < old.len() && old[k] == y;
                if k < i {
                    assert(new[k] == y);
                } else {
                    assert(new[k + 1] == y);
                }
            }
            if y == x {
                assert(new[i] == y);
            }
        }
    }
}

/// The non-defining occurrences of a document, grouped by where they are,
/// ascending by range, each with the symbols used there.
fn grouped_references(document: &ScipDocument) -> (r: Result<Vec<(Location, Vec<(String, bool)>)>, ScipProviderError>)
    ensures
        r is Ok <==> !reference_malformed(*document),
        match r {
            Ok(groups) => {
                &&& groups_well_formed(groups@, *document)
                &&& forall|rg: SourceRange, t: (Seq<char>, bool)|
                    #[trigger] group_has(groups@, rg, t) <==> reference_used(
                        *document,
                        document.occurrences@.len() as int,
                        rg,
                        t,
                    )
            },
            Err(ScipProviderError::MalformedRange(p)) => p@ == document.relative_path@ && has_malformed_range(*document),
            Err(_) => false,
        },
{
    let ghost occs = document.occurrences@;
    let mut grouped: Vec<(Location, Vec<(String, bool)>)> = Vec::new();
    let mut o: usize = 0;
    while o < document.occurrences.len()
        invariant
            o <= document.occurrences@.len(),
            occs == document.occurrences@,
            forall|k: int| 0 <= k < o && is_reference_occurrence(#[trigger] occs[k]) ==> spec_range_of(occs[k].range@) is Some,
            groups_well_formed(grouped@, *document),
            forall|rg: SourceRange, t: (Seq<char>, bool)|
                #[trigger] group_has(grouped@, rg, t) <==> reference_used(*document, o as int, rg, t),
        decreases document.occurrences@.len() - o,
    {
        let occurrence = &document.occurrences[o];
        let ghost before = grouped@;
        if occurrence.symbol.as_str().unicode_len() > 0 && occurrence.symbol_roles & DEFINITION_ROLE == 0 {
            let range = match range_of(&occurrence.range) {
                Some(r) => r,
                None => {
                    proof {
                        assert(document.occurrences@[o as int].symbol@.len() > 0);
                        assert(reference_malformed(*document));
                    }
                    return Err(ScipProviderError::MalformedRange(document.relative_path.clone()));
                },
            };
            let import = occurrence.symbol_roles & IMPORT_ROLE != 0;
            let ghost x = (occurrence.symbol@, import);
            let mut g: usize = 0;
            let mut found = false;
            while g < grouped.len()
                invariant_except_break
                    !found,
                invariant
                    g <= grouped@.len(),
                    grouped@ == before,
                    forall|k: int| 0 <= k < g ==> range_lt((#[trigger] before[k]).0.range, range),
                ensures
                    g <= grouped@.len(),
                    grouped@ == before,
                    forall|k: int| 0 <= k < g ==> range_lt((#[trigger] before[k]).0.range, range),
                    found ==> g < grouped@.len() && grouped@[g as int].0.range == range,
                    !found && g < grouped@.len() ==> range_lt(range, before[g as int].0.range),
                decreases grouped@.len() - g,
            {
                if same_range(&grouped[g].0.range, &range) {
                    found = true;
                    break;
                }
                if range_before(&range, &grouped[g].0.range) {
                    break;
                }
                g = g + 1;
            }
            if found && g < grouped.len() {
                let mut entry: (Location, Vec<(String, bool)>) = (
                    Location { path: String::new(), range, encoding: document.position_encoding },
                    Vec::new(),
                );
                std::mem::swap(&mut entry, &mut grouped[g]);
                let ghost old_targets = target_views(entry.1@);
                insert_target(&mut entry.1, occurrence.symbol.as_str(), import);
                proof {
                    let i = choose|i: int| target_slot(old_targets, x, target_views(entry.1@), i);
                    lemma_target_slot(old_targets, x, target_views(entry.1@), i);
                }
                grouped.set(g, entry);
                proof {
                    lemma_group_update(before, grouped@, g as int, x);
                }
            } else {
                let mut targets: Vec<(String, bool)> = Vec::new();
                targets.push((occurrence.symbol.clone(), import));
                let location = Location {
                    path: document.relative_path.clone(),
                    range,
                    encoding: document.position_encoding,
                };
                grouped.insert(g, (location, targets));
                proof {
                    assert(target_views(grouped@[g as int].1@) =~= seq![x]);
                    lemma_group_insert(before, grouped@, g as int, range, x);
                }
            }
            proof {
                assert forall|rg: SourceRange, t: (Seq<char>, bool)|
                    #[trigger] group_has(grouped@, rg, t) <==> reference_used(*document, o + 1, rg, t) by {
                    if reference_used(*document, o + 1, rg, t) && !(rg == range && t == x) {
                        let k = choose|k: int|
                            0 <= k < o + 1 && is_reference_occurrence(#[trigger] occs[k]) && spec_range_of(
                                occs[k].range@,
                            ) == Some(rg) && occurrence_target(occs[k]) == t;
                        assert(k < o);
                        assert(reference_used(*document, o as int, rg, t));
                    }
                    if reference_used(*document, o as int, rg, t) {
                        let k = choose|k: int|
                            0 <= k < o && is_reference_occurrence(#[trigger] occs[k]) && spec_range_of(occs[k].range@)
                                == Some(rg) && occurrence_target(occs[k]) == t;
                        assert(0 <= k < o + 1);
                    }
                    if rg == range && t == x {
                        assert(occurrence_target(occs[o as int]) == x);
                        assert(reference_used(*document, o + 1, rg, t));
                    }
                }
            }
        } else {
            proof {
                assert(!is_reference_occurrence(occs[o as int]));
                assert forall|rg: SourceRange, t: (Seq<char>, bool)|
                    #[trigger] group_has(grouped@, rg, t) <==> reference_used(*document, o + 1, rg, t) by {
                    if reference_used(*document, o + 1, rg, t) {
                        let k = choose|k: int|
                            0 <= k < o + 1 && is_reference_occurrence(#[trigger] occs[k]) && spec_range_of(
                                occs[k].range@,
                            ) == Some(rg) && occurrence_target(occs[k]) == t;
                        assert(k < o);
                        assert(reference_used(*document, o as int, rg, t));
                    }
                    if reference_used(*document, o as int, rg, t) {
                        let k = choose|k: int|
                            0 <= k < o && is_reference_occurrence(#[trigger] occs[k]) && spec_range_of(occs[k].range@)
                                == Some(rg) && occurrence_target(occs[k]) == t;
                        assert(0 <= k < o + 1);
                    }
                }
            }
        }
        o = o + 1;
    }
    proof {
        if reference_malformed(*document) {
            let k = choose|k: int|
                0 <= k < occs.len() && is_reference_occurrence(#[trigger] occs[k]) && spec_range_of(occs[k].range@)
                    is None;
        }
    }
    Ok(grouped)
}

/// Updating the targets of group `g` to take `x` as well.
proof fn lemma_group_update(
    before: Seq<(Location, Vec<(String, bool)>)>,
    after: Seq<(Location, Vec<(String, bool)>)>,
    g: int,
    x: (Seq<char>, bool),
)
    requires
        0 <= g < before.len(),
        after.len() == before.len(),
        forall|j: int| 0 <= j < before.len() && j != g ==> #[trigger] after[j] == before[j],
        after[g].0 == before[g].0,
        targets_sorted(target_views(after[g].1@)),
        after[g].1@.len() > 0,
        forall|y: (Seq<char>, bool)|
            #[trigger] target_views(after[g].1@).contains(y) <==> (target_views(before[g].1@).contains(y) || y == x),
    ensures
        forall|rg: SourceRange, t: (Seq<char>, bool)|
            #[trigger] group_has(after, rg, t) <==> (group_has(before, rg, t) || (rg == before[g].0.range && t == x)),
        forall|j: int| 0 <= j < after.len() ==> (#[trigger] after[j]).0 == before[j].0,
{
    assert forall|rg: SourceRange, t: (Seq<char>, bool)|
        #[trigger] group_has(after, rg, t) <==> (group_has(before, rg, t) || (rg == before[g].0.range && t == x)) by {
        if group_has(after, rg, t) {
            let i = choose|i: int| 0 <= i < after.len() && (#[trigger] after[i]).0.range == rg && target_views(after[i].1@).contains(t);
            if i != g {
                assert(before[i] == after[i]);
            } else if t != x {
                assert(target_views(before[g].1@).contains(t));
            }
        }
        if group_has(before, rg, t) {
            let i = choose|i: int| 0 <= i < before.len() && (#[trigger] before[i]).0.range == rg && target_views(before[i].1@).contains(t);
            if i != g {
                assert(before[i] == after[i]);
            } else {
                assert(target_views(after[g].1@).contains(t));
            }
        }
        if rg == before[g].0.range && t == x {
            assert(target_views(after[g].1@).contains(t));
        }
    }
}

/// Inserting a new group at `g` for range `rg0` holding just `x`.
proof fn lemma_group_insert(
    before: Seq<(Location, Vec<(String, bool)>)>,
    after: Seq<(Location, Vec<(String, bool)>)>,
    g: int,
    rg0: SourceRange,
    x: (Seq<char>, bool),
)
    requires
        0 <= g <= before.len(),
        after == before.insert(g, after[g]),
        after[g].0.range == rg0,
        target_views(after[g].1@) == seq![x],
    ensures
        forall|rg: SourceRange, t: (Seq<char>, bool)|
            #[trigger] group_has(after, rg, t) <==> (group_has(before, rg, t) || (rg == rg0 && t == x)),
{
    assert forall|rg: SourceRange, t: (Seq<char>, bool)|
        #[trigger] group_has(after, rg, t) <==> (group_has(before, rg, t) || (rg == rg0 && t == x)) by {
        if group_has(after, rg, t) {
            let i = choose|i: int| 0 <= i < after.len() && (#[trigger] after[i]).0.range == rg && target_views(after[i].1@).contains(t);
            if i < g {
                assert(before[i] == after[i]);
            } else if i > g {
                assert(before[i - 1] == after[i]);
            } else {
                let k = choose|k: int| 0 <= k < target_views(after[g].1@).len() && target_views(after[g].1@)[k] == t;
                assert(k == 0);
            }
        }
        if group_has(before, rg, t) {
            let i = choose|i: int| 0 <= i < before.len() && (#[trigger] before[i]).0.range == rg && target_views(before[i].1@).contains(t);
            if i < g {
                assert(after[i] == before[i]);
            } else {
                assert(after[i + 1] == before[i]);
            }
        }
        if rg == rg0 && t == x {
            assert(target_views(after[g].1@)[0] == x);
        }
    }
}

/// The definition's body covers `range`.
spec fn body_fits(d: Definition, range: SourceRange) -> bool {
    match d.body {
        Some(b) => position_le(b.start_line, b.start_column, range.start_line, range.start_column) && position_le(
            range.end_line,
            range.end_column,
            b.end_line,
            b.end_column,
        ),
        None => false,
    }
}

/// The size of a definition's body: line span, then column span, each
/// saturating at zero.
spec fn body_size(d: Definition) -> (int, int) {
    let b = d.body->0;
    (
        if b.end_line >= b.start_line { b.end_line - b.start_line } else { 0 },
        if b.end_column >= b.start_column { b.end_column - b.start_column } else { 0 },
    )
}

spec fn size_lt(a: (int, int), b: (int, int)) -> bool {
    a.0 < b.0 || (a.0 == b.0 && a.1 < b.1)
}

/// `p` is the first group of definitions for document `path`.
spec fn first_group(by_path: Seq<(String, Vec<Definition>)>, path: Seq<char>, p: int) -> bool {
    &&& 0 <= p < by_path.len()
    &&& by_path[p].0@ == path
    &&& forall|q: int| 0 <= q < p ==> (#[trigger] by_path[q]).0@ != path
}

/// `b` is the first of the smallest definitions whose body covers `range`.
spec fn innermost(defs: Seq<Definition>, range: SourceRange, b: int) -> bool {
    &&& 0 <= b < defs.len()
    &&& body_fits(defs[b], range)
    &&& forall|d: int| 0 <= d < defs.len() && body_fits(#[trigger] defs[d], range) ==> !size_lt(body_size(defs[d]), body_size(defs[b]))
    &&& forall|d: int| 0 <= d < b && body_fits(#[trigger] defs[d], range) ==> size_lt(body_size(defs[b]), body_size(defs[d]))
}

/// The innermost definition in the location's document whose body contains
/// the location; the first such when several are equally small.
fn containing_definition<'a>(
    by_path: &'a Vec<(String, Vec<Definition>)>,
    location: &Location,
) -> (r: Option<&'a SymbolKey>)
    ensures
        match r {
            Some(k) => exists|p: int, b: int|
                first_group(by_path@, location.path@, p) && innermost(by_path@[p].1@, location.range, b) && *k
                    == (#[trigger] by_path@[p].1@[b]).key,
            None => forall|p: int|
                first_group(by_path@, location.path@, p) ==> forall|d: int|
                    0 <= d < by_path@[p].1@.len() ==> !body_fits(#[trigger] by_path@[p].1@[d], location.range),
        },
{
    let mut p: usize = 0;
    while p < by_path.len()
        invariant
            p <= by_path@.len(),
            forall|q: int| 0 <= q < p ==> (#[trigger] by_path@[q]).0@ != location.path@,
        decreases by_path@.len() - p,
    {
        if str_eq(by_path[p].0.as_str(), location.path.as_str()) {
            let definitions = &by_path[p].1;
            let mut best: Option<usize> = None;
            let mut best_size: (u32, u32) = (0, 0);
            let mut d: usize = 0;
            while d < definitions.len()
                invariant
                    d <= definitions@.len(),
                    match best {
                        Some(b) => {
                            &&& b < d
                            &&& body_fits(definitions@[b as int], location.range)
                            &&& body_size(definitions@[b as int]) == (best_size.0 as int, best_size.1 as int)
                            &&& forall|e: int|
                                0 <= e < d && body_fits(#[trigger] definitions@[e], location.range) ==> !size_lt(
                                    body_size(definitions@[e]),
                                    body_size(definitions@[b as int]),
                                )
                            &&& forall|e: int|
                                0 <= e < b && body_fits(#[trigger] definitions@[e], location.range) ==> size_lt(
                                    body_size(definitions@[b as int]),
                                    body_size(definitions@[e]),
                                )
                        },
                        None => forall|e: int| 0 <= e < d ==> !body_fits(#[trigger] definitions@[e], location.range),
                    },
                decreases definitions@.len() - d,
            {
                match definitions[d].body {
                    Some(body) => {
                        if body.contains(&location.range) {
                            let size = body.size_key();
                            let smaller = match best {
                                None => true,
                                Some(_) => size.0 < best_size.0 || (size.0 == best_size.0 && size.1 < best_size.1),
                            };
                            if smaller {
                                best = Some(d);
                                best_size = size;
                            }
                        }
                    },
                    None => {},
                }
                d = d + 1;
            }
            proof {
                assert(first_group(by_path@, location.path@, p as int));
            }
            return match best {
                Some(b) => Some(&definitions[b].key),
                None => None,
            };
        }
        p = p + 1;
    }
    None
}

/// Does the document describe `symbol`?
pub open spec fn describes_symbol(document: ScipDocument, symbol: Seq<char>) -> bool {
    exists|i: int| 0 <= i < document.symbols@.len() && (#[trigger] document.symbols@[i]).symbol@ == symbol
}

/// The normalized language of the first document that `found` accepts;
/// `unknown` when none does.
pub open spec fn first_language(documents: Seq<ScipDocument>, local: bool, path: Seq<char>, symbol: Seq<char>) -> Seq<char>
    decreases documents.len(),
{
    if documents.len() == 0 {
        "unknown"@
    } else if (local && documents[0].relative_path@ == path) || (!local && describes_symbol(documents[0], symbol)) {
        spec_normalize_language(documents[0].language@)
    } else {
        first_language(documents.drop_first(), local, path, symbol)
    }
}

/// The language of a key's node, as plain values.
pub open spec fn spec_language_for(key: (bool, Seq<char>, Seq<char>), documents: Seq<ScipDocument>) -> Seq<char> {
    first_language(documents, key.0, key.1, key.2)
}

/// The language of a key's node: its document's for a local key, else that
/// of the first document describing the symbol; `unknown` when none does.
fn language_for(key: &SymbolKey, documents: &Vec<ScipDocument>) -> (r: String)
    ensures
        r@ == spec_language_for(key_view(*key), documents@),
{
    let ghost kv = key_view(*key);
    let ghost ds = documents@;
    match key {
        SymbolKey::Local { path, .. } => {
            let mut d: usize = 0;
            proof {
                assert(ds.skip(0) =~= ds);
            }
            while d < documents.len()
                invariant
                    d <= documents@.len(),
                    ds == documents@,
                    kv.0 && kv.1 == path@,
                    kv == key_view(*key),
                    first_language(ds, kv.0, kv.1, kv.2) == first_language(ds.skip(d as int), kv.0, kv.1, kv.2),
                decreases documents@.len() - d,
            {
                proof {
                    assert(ds.skip(d as int).drop_first() =~= ds.skip(d + 1));
                    assert(ds.skip(d as int)[0] == ds[d as int]);
                }
                if str_eq(documents[d].relative_path.as_str(), path.as_str()) {
                    proof {
                        assert(first_language(ds.skip(d as int), kv.0, kv.1, kv.2) == spec_normalize_language(
                            ds[d as int].language@,
                        ));
                    }
                    let language = normalize_language(documents[d].language.as_str());
                    assert(language@ == spec_normalize_language(ds[d as int].language@));
                    assert(first_language(ds, kv.0, kv.1, kv.2) == language@);
                    assert(kv == key_view(*key));
                    return language;
                }
                d = d + 1;
            }
            proof {
                assert(ds.skip(d as int) =~= Seq::<ScipDocument>::empty());
            }
            "unknown".to_owned()
        },
        SymbolKey::Global(symbol) => {
            let mut d: usize = 0;
            proof {
                assert(ds.skip(0) =~= ds);
            }
            while d < documents.len()
                invariant
                    d <= documents@.len(),
                    ds == documents@,
                    !kv.0 && kv.2 == symbol@,
                    kv == key_view(*key),
                    first_language(ds, kv.0, kv.1, kv.2) == first_language(ds.skip(d as int), kv.0, kv.1, kv.2),
                decreases documents@.len() - d,
            {
                proof {
                    assert(ds.skip(d as int).drop_first() =~= ds.skip(d + 1));
                    assert(ds.skip(d as int)[0] == ds[d as int]);
                }
                let symbols = &documents[d].symbols;
                let mut i: usize = 0;
                while i < symbols.len()
                    invariant
                        d < documents@.len(),
                        ds == documents@,
                        !kv.0 && kv.2 == symbol@,
                        kv == key_view(*key),
                        first_language(ds, kv.0, kv.1, kv.2) == first_language(ds.skip(d as int), kv.0, kv.1, kv.2),
                        i <= symbols@.len(),
                        symbols@ == ds[d as int].symbols@,
                        forall|j: int| 0 <= j < i ==> (#[trigger] symbols@[j]).symbol@ != symbol@,
                    decreases symbols@.len() - i,
                {
                    if str_eq(symbols[i].symbol.as_str(), symbol.as_str()) {
                        proof {
                            assert(describes_symbol(ds[d as int], symbol@));
                            assert(ds.skip(d as int)[0] == ds[d as int]);
                            assert(first_language(ds.skip(d as int), kv.0, kv.1, kv.2) == spec_normalize_language(
                                ds[d as int].language@,
                            ));
                        }
                        let language = normalize_language(documents[d].language.as_str());
                        assert(language@ == spec_normalize_language(ds[d as int].language@));
                        assert(first_language(ds, kv.0, kv.1, kv.2) == language@);
                        assert(kv == key_view(*key));
                        return language;
                    }
                    i = i + 1;
                }
                d = d + 1;
            }
            proof {
                assert(ds.skip(d as int) =~= Seq::<ScipDocument>::empty());
            }
            "unknown".to_owned()
        },
    }
}

/// Every target, keyed in the document at `path`, is an external symbol.
fn targets_are_external(targets: &Vec<String>, path: &str, external: &Vec<SymbolKey>) -> (r: bool)
    ensures
        r == forall|i: int|
            0 <= i < targets@.len() ==> key_views(external@).contains(spec_key(path@, (#[trigger] targets@[i])@)),
{
    let mut i: usize = 0;
    while i < targets.len()
        invariant
            i <= targets@.len(),
            forall|j: int|
                0 <= j < i ==> key_views(external@).contains(spec_key(path@, (#[trigger] targets@[j])@)),
        decreases targets@.len() - i,
    {
        let key = SymbolKey::new(path, targets[i].as_str());
        if !holds_key(external, &key) {
            return false;
        }
        i = i + 1;
    }
    true
}

/// The node id of the first entry for `k`, when there is one.
pub open spec fn node_id_of(nodes: Seq<(SymbolKey, String)>, k: (bool, Seq<char>, Seq<char>)) -> Option<String> {
    if exists|i: int| 0 <= i < nodes.len() && key_view(#[trigger] nodes[i].0) == k {
        let i = choose|i: int|
            0 <= i < nodes.len() && key_view(#[trigger] nodes[i].0) == k && forall|j: int|
                0 <= j < i ==> key_view((#[trigger] nodes[j]).0) != k;
        Some(nodes[i].1)
    } else {
        None
    }
}

/// The entry at `i` is the first entry for `k`.
proof fn lemma_first_entry<V>(entries: Seq<(SymbolKey, V)>, k: (bool, Seq<char>, Seq<char>), i: int)
    requires
        0 <= i < entries.len(),
        key_view(entries[i].0) == k,
        forall|j: int| 0 <= j < i ==> key_view((#[trigger] entries[j]).0) != k,
    ensures
        forall|m: int|
            0 <= m < entries.len() && key_view((#[trigger] entries[m]).0) == k && (forall|j: int|
                0 <= j < m ==> key_view((#[trigger] entries[j]).0) != k) ==> m == i,
{
    assert forall|m: int|
        0 <= m < entries.len() && key_view((#[trigger] entries[m]).0) == k && (forall|j: int|
            0 <= j < m ==> key_view((#[trigger] entries[j]).0) != k) implies m == i by {
        if m < i {
            assert(key_view(entries[m].0) != k);
        } else if m > i {
            assert(key_view(entries[i].0) != k);
        }
    }
}

/// The node id of a key, when it has a node.
fn node_of<'a>(nodes: &'a Vec<(SymbolKey, String)>, key: &SymbolKey) -> (r: Option<&'a String>)
    ensures
        match r {
            Some(id) => node_id_of(nodes@, key_view(*key)) == Some(*id),
            None => node_id_of(nodes@, key_view(*key)) is None,
        },
{
    match entry_position(nodes, key) {
        Ok(i) => {
            proof {
                lemma_first_entry(nodes@, key_view(*key), i as int);
            }
            Some(&nodes[i].1)
        },
        Err(_) => None,
    }
}

/// The edge kinds are the adapter's own, and every evidence list ascends.
spec fn evidence_ok(edges: Seq<(String, String, EdgeKind, Vec<String>)>) -> bool {
    forall|i: int|
        0 <= i < edges.len() ==> !((#[trigger] edges[i]).2 is ProviderSpecific) && sorted_strict(views(edges[i].3@))
}

/// The entry is for the edge `(from, to)` of a kind of the same rank.
pub open spec fn same_edge(e: (String, String, EdgeKind, Vec<String>), from: Seq<char>, to: Seq<char>, kind: EdgeKind) -> bool {
    e.0@ == from && e.1@ == to && spec_kind_rank(e.2) == spec_kind_rank(kind)
}

/// The edge `(from, to, kind)` goes before the entry: by ends, then kind.
pub open spec fn edge_goes_before(e: (String, String, EdgeKind, Vec<String>), from: Seq<char>, to: Seq<char>, kind: EdgeKind) -> bool {
    seq_lt(from, e.0@) || (e.0@ == from && (seq_lt(to, e.1@) || (e.1@ == to && spec_kind_rank(kind) < spec_kind_rank(e.2))))
}

/// `new` is `old` with fact `fact` noted behind the edge `(from, to, kind)`:
/// at `i`, the first entry for that edge or the first the edge goes before,
/// the fact joins the entry's evidence, or a new entry holding just the fact
/// is placed.
pub open spec fn evidence_slot(
    old: Seq<(String, String, EdgeKind, Vec<String>)>,
    from: Seq<char>,
    to: Seq<char>,
    kind: EdgeKind,
    fact: Seq<char>,
    new: Seq<(String, String, EdgeKind, Vec<String>)>,
    i: int,
) -> bool {
    &&& 0 <= i <= old.len()
    &&& forall|k: int| 0 <= k < i ==> !same_edge(#[trigger] old[k], from, to, kind) && !edge_goes_before(old[k], from, to, kind)
    &&& i < old.len() ==> same_edge(old[i], from, to, kind) || edge_goes_before(old[i], from, to, kind)
    &&& if i < old.len() && same_edge(old[i], from, to, kind) {
        &&& new.len() == old.len()
        &&& forall|j: int| 0 <= j < old.len() && j != i ==> #[trigger] new[j] == old[j]
        &&& new[i].0 == old[i].0 && new[i].1 == old[i].1 && new[i].2 == old[i].2
        &&& sorted_strict(views(new[i].3@))
        &&& forall|y: Seq<char>| #[trigger] contains_view(views(new[i].3@), y) <==> (contains_view(views(old[i].3@), y) || y == fact)
    } else {
        &&& new.len() == old.len() + 1
        &&& new == old.insert(i, new[i])
        &&& new[i].0@ == from && new[i].1@ == to && new[i].2 == kind && views(new[i].3@) == seq![fact]
    }
}

/// `new` is `old` after fact `fact` is noted behind edge `(from, to, kind)`.
pub open spec fn evidence_step(
    old: Seq<(String, String, EdgeKind, Vec<String>)>,
    from: Seq<char>,
    to: Seq<char>,
    kind: EdgeKind,
    fact: Seq<char>,
    new: Seq<(String, String, EdgeKind, Vec<String>)>,
) -> bool {
    exists|i: int| evidence_slot(old, from, to, kind, fact, new, i)
}

/// Note that fact `fact_id` stands behind the edge `(from, to, kind)`;
/// edges are kept ascending by ends, then kind.
fn add_evidence(edges: &mut Vec<(String, String, EdgeKind, Vec<String>)>, from: &str, to: &str, kind: &EdgeKind, fact_id: &str)
    requires
        evidence_ok(old(edges)@),
        !(*kind is ProviderSpecific),
    ensures
        evidence_ok(final(edges)@),
        evidence_step(old(edges)@, from@, to@, *kind, fact_id@, final(edges)@),
{
    let rank = kind_rank(kind);
    let mut i: usize = 0;
    while i < edges.len()
        invariant
            i <= edges@.len(),
            edges@ == old(edges)@,
            evidence_ok(edges@),
            !(*kind is ProviderSpecific),
            rank == spec_kind_rank(*kind),
            forall|k: int|
                0 <= k < i ==> !same_edge(#[trigger] old(edges)@[k], from@, to@, *kind) && !edge_goes_before(
                    old(edges)@[k],
                    from@,
                    to@,
                    *kind,
                ),
        decreases edges@.len() - i,
    {
        let same_from = str_eq(edges[i].0.as_str(), from);
        let same_to = str_eq(edges[i].1.as_str(), to);
        let other_rank = kind_rank(&edges[i].2);
        if same_from && same_to && other_rank == rank {
            let mut entry: (String, String, EdgeKind, Vec<String>) = (String::new(), String::new(), EdgeKind::Reference, Vec::new());
            std::mem::swap(&mut entry, &mut edges[i]);
            proof {
                assert(sorted_strict(views(entry.3@)));
                assert(!(entry.2 is ProviderSpecific));
            }
            insert_sorted(&mut entry.3, fact_id);
            edges.set(i, entry);
            assert(evidence_slot(old(edges)@, from@, to@, *kind, fact_id@, edges@, i as int));
            return;
        }
        let after = crate::order::str_lt(from, edges[i].0.as_str()) || (same_from && (crate::order::str_lt(
            to,
            edges[i].1.as_str(),
        ) || (same_to && rank < other_rank)));
        if after {
            let mut evidence: Vec<String> = Vec::new();
            evidence.push(fact_id.to_owned());
            proof {
                assert(views(evidence@).len() == 1);
            }
            edges.insert(i, (from.to_owned(), to.to_owned(), clone_kind(kind), evidence));
            assert(views(edges@[i as int].3@) =~= seq![fact_id@]);
            assert(evidence_slot(old(edges)@, from@, to@, *kind, fact_id@, edges@, i as int));
            return;
        }
        i = i + 1;
    }
    let mut evidence: Vec<String> = Vec::new();
    evidence.push(fact_id.to_owned());
    proof {
        assert(views(evidence@).len() == 1);
    }
    edges.push((from.to_owned(), to.to_owned(), clone_kind(kind), evidence));
    assert(views(edges@[i as int].3@) =~= seq![fact_id@]);
    assert(edges@ =~= old(edges)@.insert(i as int, edges@[i as int]));
    assert(evidence_slot(old(edges)@, from@, to@, *kind, fact_id@, edges@, i as int));
}

/// The relationships of one symbol and the edge kinds each stands for, as
/// `(symbol, relationship, kind)` positions.
pub open spec fn kinds_triples(s: int, r: int, kinds: Seq<EdgeKind>) -> Seq<(int, int, EdgeKind)> {
    kinds.map_values(|k: EdgeKind| (s, r, k))
}

/// Among the first `n` relationships of symbol `s`, those whose target has
/// a node, with each of their edge kinds.
pub open spec fn symbol_triples(
    nodes: Seq<(SymbolKey, String)>,
    path: Seq<char>,
    symbols: Seq<ScipSymbol>,
    s: int,
    n: nat,
) -> Seq<(int, int, EdgeKind)>
    decreases n,
{
    if n == 0 {
        Seq::empty()
    } else {
        let r = n - 1;
        let relationship = symbols[s].relationships@[r];
        symbol_triples(nodes, path, symbols, s, (n - 1) as nat) + if node_id_of(
            nodes,
            spec_key(path, relationship.symbol@),
        ) is Some {
            kinds_triples(s, r, spec_relationship_kinds(relationship))
        } else {
            Seq::empty()
        }
    }
}

/// For the first `n` symbols that have a node, the relationships whose
/// target has one too, with each of their edge kinds, in order.
pub open spec fn relationship_triples(
    nodes: Seq<(SymbolKey, String)>,
    path: Seq<char>,
    symbols: Seq<ScipSymbol>,
    n: nat,
) -> Seq<(int, int, EdgeKind)>
    decreases n,
{
    if n == 0 {
        Seq::empty()
    } else {
        let s = n - 1;
        relationship_triples(nodes, path, symbols, (n - 1) as nat) + if node_id_of(
            nodes,
            spec_key(path, symbols[s].symbol@),
        ) is Some {
            symbol_triples(nodes, path, symbols, s, symbols[s].relationships@.len())
        } else {
            Seq::empty()
        }
    }
}

/// The material a relationship fact's id digests.
pub open spec fn relationship_material(
    document_index: usize,
    path: Seq<char>,
    owner: Seq<char>,
    target: Seq<char>,
    s: int,
    r: int,
    kind: EdgeKind,
) -> Seq<char> {
    decimal(document_index as nat) + seq!['\u{0}'] + owner + seq!['\u{0}'] + target + seq!['\u{0}'] + path + seq![
        '\u{0}',
    ] + decimal(s as nat) + seq!['\u{0}'] + decimal(r as nat) + seq!['\u{0}'] + spec_kind_name(kind)
}

/// The node of the symbol at position `t`.
pub open spec fn triple_from(nodes: Seq<(SymbolKey, String)>, path: Seq<char>, symbols: Seq<ScipSymbol>, t: (int, int, EdgeKind)) -> String {
    node_id_of(nodes, spec_key(path, symbols[t.0].symbol@))->0
}

/// The node of the target of the relationship at position `t`.
pub open spec fn triple_to(nodes: Seq<(SymbolKey, String)>, path: Seq<char>, symbols: Seq<ScipSymbol>, t: (int, int, EdgeKind)) -> String {
    node_id_of(nodes, spec_key(path, symbols[t.0].relationships@[t.1].symbol@))->0
}

/// `f` is the fact recorded for the relationship edge at position `t`.
pub open spec fn relationship_fact_ok(
    f: ReferenceFact,
    document_index: usize,
    path: Seq<char>,
    symbols: Seq<ScipSymbol>,
    nodes: Seq<(SymbolKey, String)>,
    external_nodes: Seq<String>,
    t: (int, int, EdgeKind),
) -> bool {
    let information = symbols[t.0];
    let relationship = information.relationships@[t.1];
    let to = triple_to(nodes, path, symbols, t);
    &&& f.id@ == "relationship:"@ + digest_of(
        relationship_material(document_index, path, information.symbol@, relationship.symbol@, t.0, t.1, t.2),
    )
    &&& f.location is None
    &&& f.source == Some(triple_from(nodes, path, symbols, t))
    &&& f.raw_target == relationship.symbol
    &&& f.kind == t.2
    &&& !(t.2 is ProviderSpecific)
    &&& f.outcome == if contains_view(views(external_nodes), to@) {
        Resolution::External { node: to }
    } else {
        Resolution::Resolved { node: to }
    }
    &&& f.provenance.provider@ == PROVIDER@
    &&& f.provenance.record_kind@ == "symbol_relationship"@
}

/// After the relationship edges at positions `ts` were added: the facts are
/// `old_facts` followed by one fact per position, and `chain` steps from
/// `old_edges` to `edges` noting each fact behind its edge, in order.
#[verifier::opaque]
pub open spec fn relationships_added(
    old_facts: Seq<ReferenceFact>,
    facts: Seq<ReferenceFact>,
    old_edges: Seq<(String, String, EdgeKind, Vec<String>)>,
    edges: Seq<(String, String, EdgeKind, Vec<String>)>,
    chain: Seq<Seq<(String, String, EdgeKind, Vec<String>)>>,
    ts: Seq<(int, int, EdgeKind)>,
    document_index: usize,
    path: Seq<char>,
    symbols: Seq<ScipSymbol>,
    nodes: Seq<(SymbolKey, String)>,
    external_nodes: Seq<String>,
) -> bool {
    let base = old_facts.len();
    &&& facts.len() == base + ts.len()
    &&& facts.take(base as int) == old_facts
    &&& forall|q: int|
        0 <= q < ts.len() ==> relationship_fact_ok(
            #[trigger] facts[base + q],
            document_index,
            path,
            symbols,
            nodes,
            external_nodes,
            ts[q],
        )
    &&& chain.len() == ts.len() + 1
    &&& chain[0] == old_edges
    &&& chain.last() == edges
    &&& forall|q: int|
        0 <= q < ts.len() ==> evidence_step(
            #[trigger] chain[q],
            triple_from(nodes, path, symbols, ts[q])@,
            triple_to(nodes, path, symbols, ts[q])@,
            ts[q].2,
            facts[base + q].id@,
            chain[q + 1],
        )
}

/// Adding the fact and evidence of one more relationship edge keeps the
/// record of what was added.
proof fn lemma_relationship_added(
    old_facts: Seq<ReferenceFact>,
    facts_before: Seq<ReferenceFact>,
    facts: Seq<ReferenceFact>,
    old_edges: Seq<(String, String, EdgeKind, Vec<String>)>,
    edges_before: Seq<(String, String, EdgeKind, Vec<String>)>,
    edges: Seq<(String, String, EdgeKind, Vec<String>)>,
    chain: Seq<Seq<(String, String, EdgeKind, Vec<String>)>>,
    cur: Seq<(int, int, EdgeKind)>,
    t: (int, int, EdgeKind),
    document_index: usize,
    path: Seq<char>,
    symbols: Seq<ScipSymbol>,
    nodes: Seq<(SymbolKey, String)>,
    external_nodes: Seq<String>,
)
    requires
        relationships_added(
            old_facts,
            facts_before,
            old_edges,
            edges_before,
            chain,
            cur,
            document_index,
            path,
            symbols,
            nodes,
            external_nodes,
        ),
        facts == facts_before.push(facts.last()),
        relationship_fact_ok(facts.last(), document_index, path, symbols, nodes, external_nodes, t),
        evidence_step(
            edges_before,
            triple_from(nodes, path, symbols, t)@,
            triple_to(nodes, path, symbols, t)@,
            t.2,
            facts.last().id@,
            edges,
        ),
    ensures
        relationships_added(
            old_facts,
            facts,
            old_edges,
            edges,
            chain.push(edges),
            cur.push(t),
            document_index,
            path,
            symbols,
            nodes,
            external_nodes,
        ),
{
    reveal(relationships_added);
    let base = old_facts.len();
    let next = cur.push(t);
    let new_chain = chain.push(edges);
    assert(facts.take(base as int) =~= facts_before.take(base as int));
    assert forall|q: int| 0 <= q < next.len() implies relationship_fact_ok(
        #[trigger] facts[base + q],
        document_index,
        path,
        symbols,
        nodes,
        external_nodes,
        next[q],
    ) by {
        if q < cur.len() {
            assert(facts[base + q] == facts_before[base + q]);
        }
    }
    assert forall|q: int| 0 <= q < next.len() implies evidence_step(
        #[trigger] new_chain[q],
        triple_from(nodes, path, symbols, next[q])@,
        triple_to(nodes, path, symbols, next[q])@,
        next[q].2,
        facts[base + q].id@,
        new_chain[q + 1],
    ) by {
        if q < cur.len() {
            assert(facts[base + q] == facts_before[base + q]);
            assert(new_chain[q] == chain[q]);
            assert(new_chain[q + 1] == chain[q + 1]);
        } else {
            assert(new_chain[q] == edges_before);
        }
    }
}

proof fn lemma_symbol_triples_step(nodes: Seq<(SymbolKey, String)>, path: Seq<char>, symbols: Seq<ScipSymbol>, s: int, r: nat)
    ensures
        symbol_triples(nodes, path, symbols, s, r + 1) == symbol_triples(nodes, path, symbols, s, r) + if node_id_of(
            nodes,
            spec_key(path, symbols[s].relationships@[r as int].symbol@),
        ) is Some {
            kinds_triples(s, r as int, spec_relationship_kinds(symbols[s].relationships@[r as int]))
        } else {
            Seq::empty()
        },
{
}

proof fn lemma_relationship_triples_step(nodes: Seq<(SymbolKey, String)>, path: Seq<char>, symbols: Seq<ScipSymbol>, s: nat)
    ensures
        relationship_triples(nodes, path, symbols, s + 1) == relationship_triples(nodes, path, symbols, s) + if node_id_of(
            nodes,
            spec_key(path, symbols[s as int].symbol@),
        ) is Some {
            symbol_triples(nodes, path, symbols, s as int, symbols[s as int].relationships@.len())
        } else {
            Seq::empty()
        },
{
}

/// Some fact with id `x` resolved, within the graph or to an external node.
pub open spec fn backed(facts: Seq<ReferenceFact>, x: Seq<char>) -> bool {
    exists|k: int|
        0 <= k < facts.len() && (#[trigger] facts[k]).id@ == x && (facts[k].outcome is Resolved
            || facts[k].outcome is External)
}

/// Every evidence id of every edge names a fact that resolved.
pub open spec fn evidence_backed(edges: Seq<(String, String, EdgeKind, Vec<String>)>, facts: Seq<ReferenceFact>) -> bool {
    forall|i: int, y: Seq<char>|
        0 <= i < edges.len() && #[trigger] contains_view(views(edges[i].3@), y) ==> #[trigger] backed(facts, y)
}

proof fn lemma_backed_extend(edges: Seq<(String, String, EdgeKind, Vec<String>)>, facts: Seq<ReferenceFact>, more: Seq<ReferenceFact>)
    requires
        evidence_backed(edges, facts),
        facts.len() <= more.len(),
        forall|k: int| 0 <= k < facts.len() ==> #[trigger] more[k] == facts[k],
    ensures
        evidence_backed(edges, more),
{
    assert forall|i: int, y: Seq<char>|
        0 <= i < edges.len() && #[trigger] contains_view(views(edges[i].3@), y) implies #[trigger] backed(more, y) by {
        assert(backed(facts, y));
        let k = choose|k: int|
            0 <= k < facts.len() && (#[trigger] facts[k]).id@ == y && (facts[k].outcome is Resolved
                || facts[k].outcome is External);
        assert(more[k] == facts[k]);
    }
}

proof fn lemma_backed_permute(edges: Seq<(String, String, EdgeKind, Vec<String>)>, facts: Seq<ReferenceFact>, other: Seq<ReferenceFact>)
    requires
        evidence_backed(edges, facts),
        forall|j: int| 0 <= j < facts.len() ==> other.contains(#[trigger] facts[j]),
    ensures
        evidence_backed(edges, other),
{
    assert forall|i: int, y: Seq<char>|
        0 <= i < edges.len() && #[trigger] contains_view(views(edges[i].3@), y) implies #[trigger] backed(other, y) by {
        assert(backed(facts, y));
        let k = choose|k: int|
            0 <= k < facts.len() && (#[trigger] facts[k]).id@ == y && (facts[k].outcome is Resolved
                || facts[k].outcome is External);
        assert(other.contains(facts[k]));
        let m = choose|m: int| 0 <= m < other.len() && other[m] == facts[k];
        assert(other[m].id@ == y);
    }
}

proof fn lemma_evidence_step_backed(
    old: Seq<(String, String, EdgeKind, Vec<String>)>,
    from: Seq<char>,
    to: Seq<char>,
    kind: EdgeKind,
    fact: Seq<char>,
    new: Seq<(String, String, EdgeKind, Vec<String>)>,
    facts: Seq<ReferenceFact>,
)
    requires
        evidence_step(old, from, to, kind, fact, new),
        evidence_backed(old, facts),
        backed(facts, fact),
    ensures
        evidence_backed(new, facts),
{
    let i = choose|i: int| evidence_slot(old, from, to, kind, fact, new, i);
    assert forall|j: int, y: Seq<char>|
        0 <= j < new.len() && #[trigger] contains_view(views(new[j].3@), y) implies #[trigger] backed(facts, y) by {
        if i < old.len() && same_edge(old[i], from, to, kind) {
            if j != i {
                assert(new[j] == old[j]);
            } else if y != fact {
                assert(contains_view(views(old[i].3@), y));
            }
        } else {
            if j < i {
                assert(new[j] == old[j]);
            } else if j > i {
                assert(new[j] == old[j - 1]);
            } else {
                let m = choose|m: int| 0 <= m < views(new[j].3@).len() && #[trigger] views(new[j].3@)[m] == y;
                assert(views(new[j].3@)[m] == fact);
            }
        }
    }
}

/// The facts of relationship edges have no location.
#[verifier::spinoff_prover]
#[verifier::rlimit(40)]
proof fn lemma_relationship_facts_unlocated(
    old_facts: Seq<ReferenceFact>,
    facts: Seq<ReferenceFact>,
    old_edges: Seq<(String, String, EdgeKind, Vec<String>)>,
    edges: Seq<(String, String, EdgeKind, Vec<String>)>,
    chain: Seq<Seq<(String, String, EdgeKind, Vec<String>)>>,
    ts: Seq<(int, int, EdgeKind)>,
    document_index: usize,
    path: Seq<char>,
    symbols: Seq<ScipSymbol>,
    nodes: Seq<(SymbolKey, String)>,
    external_nodes: Seq<String>,
)
    requires
        relationships_added(
            old_facts,
            facts,
            old_edges,
            edges,
            chain,
            ts,
            document_index,
            path,
            symbols,
            nodes,
            external_nodes,
        ),
    ensures
        forall|k: int| old_facts.len() <= k < facts.len() ==> (#[trigger] facts[k]).location is None,
{
    reveal(relationships_added);
    let base = old_facts.len();
    assert forall|k: int| base <= k < facts.len() implies (#[trigger] facts[k]).location is None by {
        let q = k - base;
        assert(relationship_fact_ok(facts[base + q], document_index, path, symbols, nodes, external_nodes, ts[q]));
    }
}

proof fn lemma_relationships_backed(
    old_facts: Seq<ReferenceFact>,
    facts: Seq<ReferenceFact>,
    old_edges: Seq<(String, String, EdgeKind, Vec<String>)>,
    edges: Seq<(String, String, EdgeKind, Vec<String>)>,
    chain: Seq<Seq<(String, String, EdgeKind, Vec<String>)>>,
    ts: Seq<(int, int, EdgeKind)>,
    document_index: usize,
    path: Seq<char>,
    symbols: Seq<ScipSymbol>,
    nodes: Seq<(SymbolKey, String)>,
    external_nodes: Seq<String>,
)
    requires
        relationships_added(
            old_facts,
            facts,
            old_edges,
            edges,
            chain,
            ts,
            document_index,
            path,
            symbols,
            nodes,
            external_nodes,
        ),
        evidence_backed(old_edges, old_facts),
    ensures
        evidence_backed(edges, facts),
        old_facts.len() <= facts.len(),
        forall|k: int| 0 <= k < old_facts.len() ==> #[trigger] facts[k] == old_facts[k],
        forall|k: int| old_facts.len() <= k < facts.len() ==> (#[trigger] facts[k]).location is None,
{
    lemma_relationship_facts_unlocated(
        old_facts,
        facts,
        old_edges,
        edges,
        chain,
        ts,
        document_index,
        path,
        symbols,
        nodes,
        external_nodes,
    );
    reveal(relationships_added);
    let base = old_facts.len();
    assert forall|k: int| 0 <= k < old_facts.len() implies #[trigger] facts[k] == old_facts[k] by {
        assert(facts.take(base as int)[k] == facts[k]);
    }
    lemma_backed_extend(old_edges, old_facts, facts);
    lemma_chain_backed(facts, chain, ts, base as int, ts.len() as int, document_index, path, symbols, nodes, external_nodes);
    assert(chain[ts.len() as int] == chain.last());
}

proof fn lemma_chain_backed(
    facts: Seq<ReferenceFact>,
    chain: Seq<Seq<(String, String, EdgeKind, Vec<String>)>>,
    ts: Seq<(int, int, EdgeKind)>,
    base: int,
    q: int,
    document_index: usize,
    path: Seq<char>,
    symbols: Seq<ScipSymbol>,
    nodes: Seq<(SymbolKey, String)>,
    external_nodes: Seq<String>,
)
    requires
        0 <= q <= ts.len(),
        0 <= base,
        evidence_backed(chain[0], facts),
        chain.len() == ts.len() + 1,
        facts.len() == base + ts.len(),
        forall|q2: int|
            0 <= q2 < ts.len() ==> relationship_fact_ok(
                #[trigger] facts[base + q2],
                document_index,
                path,
                symbols,
                nodes,
                external_nodes,
                ts[q2],
            ),
        forall|q2: int|
            0 <= q2 < ts.len() ==> evidence_step(
                #[trigger] chain[q2],
                triple_from(nodes, path, symbols, ts[q2])@,
                triple_to(nodes, path, symbols, ts[q2])@,
                ts[q2].2,
                facts[base + q2].id@,
                chain[q2 + 1],
            ),
    ensures
        evidence_backed(chain[q], facts),
    decreases q,
{
    if q > 0 {
        let p = q - 1;
        lemma_chain_backed(facts, chain, ts, base, p, document_index, path, symbols, nodes, external_nodes);
        assert(relationship_fact_ok(facts[base + p], document_index, path, symbols, nodes, external_nodes, ts[p]));
        assert(backed(facts, facts[base + p].id@));
        assert(evidence_step(
            chain[p],
            triple_from(nodes, path, symbols, ts[p])@,
            triple_to(nodes, path, symbols, ts[p])@,
            ts[p].2,
            facts[base + p].id@,
            chain[p + 1],
        ));
        lemma_evidence_step_backed(
            chain[p],
            triple_from(nodes, path, symbols, ts[p])@,
            triple_to(nodes, path, symbols, ts[p])@,
            ts[p].2,
            facts[base + p].id@,
            chain[p + 1],
            facts,
        );
    }
}

/// Facts and edges for the relationships the symbols of one document (or
/// the external symbols, at `document_index` `usize::MAX` and path `""`)
/// declare between symbols that have nodes.
#[verifier::rlimit(50)]
fn add_relationship_edges(
    document_index: usize,
    path: &str,
    symbols: &Vec<ScipSymbol>,
    nodes: &Vec<(SymbolKey, String)>,
    external_nodes: &Vec<String>,
    facts: &mut Vec<ReferenceFact>,
    edges: &mut Vec<(String, String, EdgeKind, Vec<String>)>,
)
    requires
        evidence_ok(old(edges)@),
        sorted_strict(views(external_nodes@)),
    ensures
        evidence_ok(final(edges)@),
        exists|chain: Seq<Seq<(String, String, EdgeKind, Vec<String>)>>|
            relationships_added(
                old(facts)@,
                final(facts)@,
                old(edges)@,
                final(edges)@,
                chain,
                relationship_triples(nodes@, path@, symbols@, symbols@.len()),
                document_index,
                path@,
                symbols@,
                nodes@,
                external_nodes@,
            ),
{
    let ghost mut chain: Seq<Seq<(String, String, EdgeKind, Vec<String>)>> = seq![edges@];
    let ghost old_facts = facts@;
    let ghost old_edges = edges@;
    let ghost syms = symbols@;
    let ghost ns = nodes@;
    let ghost ext = external_nodes@;
    proof {
        reveal(relationships_added);
        assert(facts@.take(old_facts.len() as int) =~= old_facts);
        assert(relationship_triples(ns, path@, syms, 0) =~= Seq::empty());
    }
    let mut s: usize = 0;
    while s < symbols.len()
        invariant
            s <= symbols@.len(),
            syms == symbols@,
            ns == nodes@,
            ext == external_nodes@,
            evidence_ok(edges@),
            sorted_strict(views(external_nodes@)),
            relationships_added(
                old_facts,
                facts@,
                old_edges,
                edges@,
                chain,
                relationship_triples(ns, path@, syms, s as nat),
                document_index,
                path@,
                syms,
                ns,
                ext,
            ),
        decreases symbols@.len() - s,
    {
        let information = &symbols[s];
        let owner = SymbolKey::new(path, information.symbol.as_str());
        let ghost done = relationship_triples(ns, path@, syms, s as nat);
        match node_of(nodes, &owner) {
            None => {
                proof {
                    lemma_relationship_triples_step(ns, path@, syms, s as nat);
                    assert(relationship_triples(ns, path@, syms, (s + 1) as nat) =~= done);
                }
            },
            Some(from) => {
                let mut r: usize = 0;
                proof {
                    assert(done + symbol_triples(ns, path@, syms, s as int, 0) =~= done);
                }
                while r < information.relationships.len()
                    invariant
                        s < symbols@.len(),
                        r <= information.relationships@.len(),
                        syms == symbols@,
                        ns == nodes@,
                        ext == external_nodes@,
                        information == &syms[s as int],
                        node_id_of(ns, spec_key(path@, syms[s as int].symbol@)) == Some(*from),
                        done == relationship_triples(ns, path@, syms, s as nat),
                        evidence_ok(edges@),
                        sorted_strict(views(external_nodes@)),
                        relationships_added(
                            old_facts,
                            facts@,
                            old_edges,
                            edges@,
                            chain,
                            done + symbol_triples(ns, path@, syms, s as int, r as nat),
                            document_index,
                            path@,
                            syms,
                            ns,
                            ext,
                        ),
                    decreases information.relationships@.len() - r,
                {
                    let relationship = &information.relationships[r];
                    let target = SymbolKey::new(path, relationship.symbol.as_str());
                    let ghost upto = done + symbol_triples(ns, path@, syms, s as int, r as nat);
                    match node_of(nodes, &target) {
                        None => {
                            proof {
                                lemma_symbol_triples_step(ns, path@, syms, s as int, r as nat);
                                assert(symbol_triples(ns, path@, syms, s as int, (r + 1) as nat) =~= symbol_triples(
                                    ns,
                                    path@,
                                    syms,
                                    s as int,
                                    r as nat,
                                ));
                            }
                        },
                        Some(to) => {
                            let kinds = relationship_kinds(relationship);
                            let mut k: usize = 0;
                            proof {
                                assert(upto + kinds_triples(s as int, r as int, kinds@.take(0)) =~= upto);
                            }
                            while k < kinds.len()
                                invariant
                                    s < symbols@.len(),
                                    r < information.relationships@.len(),
                                    k <= kinds@.len(),
                                    syms == symbols@,
                                    ns == nodes@,
                                    ext == external_nodes@,
                                    information == &syms[s as int],
                                    relationship == &syms[s as int].relationships@[r as int],
                                    node_id_of(ns, spec_key(path@, syms[s as int].symbol@)) == Some(*from),
                                    node_id_of(ns, spec_key(path@, relationship.symbol@)) == Some(*to),
                                    kinds@ == spec_relationship_kinds(*relationship),
                                    upto == done + symbol_triples(ns, path@, syms, s as int, r as nat),
                                    evidence_ok(edges@),
                                    sorted_strict(views(external_nodes@)),
                                    forall|i: int| 0 <= i < kinds@.len() ==> !(#[trigger] kinds@[i] is ProviderSpecific),
                                    relationships_added(
                                        old_facts,
                                        facts@,
                                        old_edges,
                                        edges@,
                                        chain,
                                        upto + kinds_triples(s as int, r as int, kinds@.take(k as int)),
                                        document_index,
                                        path@,
                                        syms,
                                        ns,
                                        ext,
                                    ),
                                decreases kinds@.len() - k,
                            {
                                let kind = &kinds[k];
                                let ghost cur = upto + kinds_triples(s as int, r as int, kinds@.take(k as int));
                                let ghost t = (s as int, r as int, *kind);
                                let ghost facts_before = facts@;
                                let ghost edges_before = edges@;
                                let mut material = String::new();
                                push_decimal(&mut material, document_index);
                                push_char(&mut material, '\u{0}');
                                push_str(&mut material, information.symbol.as_str());
                                push_char(&mut material, '\u{0}');
                                push_str(&mut material, relationship.symbol.as_str());
                                push_char(&mut material, '\u{0}');
                                push_str(&mut material, path);
                                push_char(&mut material, '\u{0}');
                                push_decimal(&mut material, s);
                                push_char(&mut material, '\u{0}');
                                push_decimal(&mut material, r);
                                push_char(&mut material, '\u{0}');
                                push_str(&mut material, kind_name(kind));
                                proof {
                                    assert(material@ =~= relationship_material(
                                        document_index,
                                        path@,
                                        information.symbol@,
                                        relationship.symbol@,
                                        s as int,
                                        r as int,
                                        *kind,
                                    ));
                                }
                                let mut fact_id = String::new();
                                push_str(&mut fact_id, "relationship:");
                                let d = digest(material.as_str());
                                push_str(&mut fact_id, d.as_str());
                                let found = crate::order::find_sorted(external_nodes, to.as_str());
                                proof {
                                    match found {
                                        Some(i) => {
                                            assert(views(ext)[i as int] == to@);
                                        },
                                        None => {},
                                    }
                                }
                                let outcome = if found.is_some() {
                                    Resolution::External { node: to.clone() }
                                } else {
                                    Resolution::Resolved { node: to.clone() }
                                };
                                add_evidence(edges, from.as_str(), to.as_str(), kind, fact_id.as_str());
                                let ghost id_view = fact_id@;
                                facts.push(
                                    ReferenceFact {
                                        id: fact_id,
                                        location: None,
                                        source: Some(from.clone()),
                                        raw_target: relationship.symbol.clone(),
                                        kind: clone_kind(kind),
                                        outcome,
                                        provenance: provenance("symbol_relationship"),
                                    },
                                );
                                proof {
                                    assert(kinds_triples(s as int, r as int, kinds@.take(k + 1)) =~= kinds_triples(
                                        s as int,
                                        r as int,
                                        kinds@.take(k as int),
                                    ).push(t));
                                    assert(upto + kinds_triples(s as int, r as int, kinds@.take(k + 1)) =~= cur.push(t));
                                    assert(facts@ == facts_before.push(facts@.last()));
                                    assert(facts@.last().id@ == id_view);
                                    let f = facts@.last();
                                    assert(f.id@ == id_view);
                                    assert(f.source == Some(triple_from(ns, path@, syms, t)));
                                    assert(f.raw_target == relationship.symbol);
                                    assert(f.kind == t.2);
                                    assert(f.location is None);
                                    assert(f.provenance.record_kind@ == "symbol_relationship"@);
                                    assert(f.outcome == if contains_view(views(ext), triple_to(ns, path@, syms, t)@) {
                                        Resolution::External { node: triple_to(ns, path@, syms, t) }
                                    } else {
                                        Resolution::Resolved { node: triple_to(ns, path@, syms, t) }
                                    });
                                    assert(relationship_fact_ok(facts@.last(), document_index, path@, syms, ns, ext, t));
                                    lemma_relationship_added(
                                        old_facts,
                                        facts_before,
                                        facts@,
                                        old_edges,
                                        edges_before,
                                        edges@,
                                        chain,
                                        cur,
                                        t,
                                        document_index,
                                        path@,
                                        syms,
                                        ns,
                                        ext,
                                    );
                                    chain = chain.push(edges@);
                                }
                                k = k + 1;
                            }
                            proof {
                                assert(kinds@.take(kinds@.len() as int) =~= kinds@);
                                lemma_symbol_triples_step(ns, path@, syms, s as int, r as nat);
                                assert(upto + kinds_triples(s as int, r as int, kinds@) =~= done + symbol_triples(
                                    ns,
                                    path@,
                                    syms,
                                    s as int,
                                    (r + 1) as nat,
                                ));
                            }
                        },
                    }
                    r = r + 1;
                }
                proof {
                    lemma_relationship_triples_step(ns, path@, syms, s as nat);
                    assert(relationship_triples(ns, path@, syms, (s + 1) as nat) =~= done + symbol_triples(
                        ns,
                        path@,
                        syms,
                        s as int,
                        syms[s as int].relationships@.len(),
                    ));
                }
            },
        }
        s = s + 1;
    }
}

/// Nodes stably sorted by id.
fn sort_nodes(nodes: Vec<GraphNode>) -> (r: Vec<GraphNode>)
    ensures
        r@.len() == nodes@.len(),
        forall|j: int| 0 <= j < nodes@.len() ==> r@.contains(#[trigger] nodes@[j]),
        forall|k: int| 0 <= k < r@.len() ==> nodes@.contains(#[trigger] r@[k]),
        forall|i: int, j: int| 0 <= i < j < r@.len() ==> !crate::order::seq_lt(#[trigger] r@[j].id@, #[trigger] r@[i].id@),
{
    let mut rest = nodes;
    let mut out: Vec<GraphNode> = Vec::new();
    let ghost total = rest@.len();
    let ghost orig = rest@;
    let ghost mut done: int = 0;
    while rest.len() > 0
        invariant
            out@.len() + rest@.len() == total,
            total == orig.len(),
            orig == nodes@,
            0 <= done <= total,
            rest@ == orig.skip(done),
            forall|j: int| 0 <= j < done ==> out@.contains(#[trigger] orig[j]),
            forall|k: int| 0 <= k < out@.len() ==> orig.contains(#[trigger] out@[k]),
            forall|i: int, j: int| 0 <= i < j < out@.len() ==> !crate::order::seq_lt(#[trigger] out@[j].id@, #[trigger] out@[i].id@),
        decreases rest@.len(),
    {
        let node = rest.remove(0);
        proof {
            assert(node == orig[done]);
            assert(rest@ =~= orig.skip(done + 1));
        }
        let mut p = out.len();
        while p > 0 && crate::order::str_lt(node.id.as_str(), out[p - 1].id.as_str())
            invariant
                p <= out@.len(),
                forall|k: int| p <= k < out@.len() ==> crate::order::seq_lt(node.id@, #[trigger] out@[k].id@),
            decreases p,
        {
            p = p - 1;
        }
        proof {
            if p > 0 {
                crate::order::lemma_seq_lt_total(node.id@, out@[p - 1].id@);
            }
            assert forall|k: int| 0 <= k < p implies !crate::order::seq_lt(node.id@, #[trigger] out@[k].id@) by {
                if crate::order::seq_lt(node.id@, out@[k].id@) {
                    if k < p - 1 {
                        assert(!crate::order::seq_lt(out@[p - 1].id@, out@[k].id@));
                        crate::order::lemma_seq_lt_total(out@[p - 1].id@, out@[k].id@);
                        if out@[p - 1].id@ != out@[k].id@ {
                            crate::order::lemma_seq_lt_transitive(node.id@, out@[k].id@, out@[p - 1].id@);
                        }
                    }
                    crate::order::lemma_seq_lt_asymmetric(node.id@, out@[p - 1].id@);
                }
            }
        }
        let ghost before = out@;
        out.insert(p, node);
        proof {
            assert(out@[p as int] == orig[done]);
            assert forall|j: int| 0 <= j < done + 1 implies out@.contains(#[trigger] orig[j]) by {
                if j < done {
                    let k = choose|k: int| 0 <= k < before.len() && before[k] == orig[j];
                    if k < p {
                        assert(out@[k] == orig[j]);
                    } else {
                        assert(out@[k + 1] == orig[j]);
                    }
                } else {
                    assert(out@[p as int] == orig[j]);
                }
            }
            assert forall|k: int| 0 <= k < out@.len() implies orig.contains(#[trigger] out@[k]) by {
                if k < p {
                    assert(out@[k] == before[k]);
                } else if k > p {
                    assert(out@[k] == before[k - 1]);
                } else {
                    assert(orig[done] == out@[k]);
                }
            }
            done = done + 1;
            assert forall|i: int, j: int| 0 <= i < j < out@.len() implies !crate::order::seq_lt(
                #[trigger] out@[j].id@,
                #[trigger] out@[i].id@,
            ) by {
                if i < p && j == p {
                } else if i == p && j > p {
                    assert(out@[j] == before[j - 1]);
                    crate::order::lemma_seq_lt_asymmetric(out@[i].id@, out@[j].id@);
                } else {
                    let bi = if i < p { i } else { i - 1 };
                    let bj = if j < p { j } else { j - 1 };
                    assert(out@[i] == before[bi]);
                    assert(out@[j] == before[bj]);
                }
            }
        }
    }
    proof {
        assert(done == total);
    }
    out
}

/// Facts stably sorted by id.
fn sort_facts(nodes: Vec<ReferenceFact>) -> (r: Vec<ReferenceFact>)
    ensures
        r@.len() == nodes@.len(),
        forall|j: int| 0 <= j < nodes@.len() ==> r@.contains(#[trigger] nodes@[j]),
        forall|k: int| 0 <= k < r@.len() ==> nodes@.contains(#[trigger] r@[k]),
        forall|i: int, j: int| 0 <= i < j < r@.len() ==> !crate::order::seq_lt(#[trigger] r@[j].id@, #[trigger] r@[i].id@),
{
    let mut rest = nodes;
    let mut out: Vec<ReferenceFact> = Vec::new();
    let ghost total = rest@.len();
    let ghost orig = rest@;
    let ghost mut done: int = 0;
    while rest.len() > 0
        invariant
            out@.len() + rest@.len() == total,
            total == orig.len(),
            orig == nodes@,
            0 <= done <= total,
            rest@ == orig.skip(done),
            forall|j: int| 0 <= j < done ==> out@.contains(#[trigger] orig[j]),
            forall|k: int| 0 <= k < out@.len() ==> orig.contains(#[trigger] out@[k]),
            forall|i: int, j: int| 0 <= i < j < out@.len() ==> !crate::order::seq_lt(#[trigger] out@[j].id@, #[trigger] out@[i].id@),
        decreases rest@.len(),
    {
        let node = rest.remove(0);
        proof {
            assert(node == orig[done]);
            assert(rest@ =~= orig.skip(done + 1));
        }
        let mut p = out.len();
        while p > 0 && crate::order::str_lt(node.id.as_str(), out[p - 1].id.as_str())
            invariant
                p <= out@.len(),
                forall|k: int| p <= k < out@.len() ==> crate::order::seq_lt(node.id@, #[trigger] out@[k].id@),
            decreases p,
        {
            p = p - 1;
        }
        proof {
            if p > 0 {
                crate::order::lemma_seq_lt_total(node.id@, out@[p - 1].id@);
            }
            assert forall|k: int| 0 <= k < p implies !crate::order::seq_lt(node.id@, #[trigger] out@[k].id@) by {
                if crate::order::seq_lt(node.id@, out@[k].id@) {
                    if k < p - 1 {
                        assert(!crate::order::seq_lt(out@[p - 1].id@, out@[k].id@));
                        crate::order::lemma_seq_lt_total(out@[p - 1].id@, out@[k].id@);
                        if out@[p - 1].id@ != out@[k].id@ {
                            crate::order::lemma_seq_lt_transitive(node.id@, out@[k].id@, out@[p - 1].id@);
                        }
                    }
                    crate::order::lemma_seq_lt_asymmetric(node.id@, out@[p - 1].id@);
                }
            }
        }
        let ghost before = out@;
        out.insert(p, node);
        proof {
            assert(out@[p as int] == orig[done]);
            assert forall|j: int| 0 <= j < done + 1 implies out@.contains(#[trigger] orig[j]) by {
                if j < done {
                    let k = choose|k: int| 0 <= k < before.len() && before[k] == orig[j];
                    if k < p {
                        assert(out@[k] == orig[j]);
                    } else {
                        assert(out@[k + 1] == orig[j]);
                    }
                } else {
                    assert(out@[p as int] == orig[j]);
                }
            }
            assert forall|k: int| 0 <= k < out@.len() implies orig.contains(#[trigger] out@[k]) by {
                if k < p {
                    assert(out@[k] == before[k]);
                } else if k > p {
                    assert(out@[k] == before[k - 1]);
                } else {
                    assert(orig[done] == out@[k]);
                }
            }
            done = done + 1;
            assert forall|i: int, j: int| 0 <= i < j < out@.len() implies !crate::order::seq_lt(
                #[trigger] out@[j].id@,
                #[trigger] out@[i].id@,
            ) by {
                if i < p && j == p {
                } else if i == p && j > p {
                    assert(out@[j] == before[j - 1]);
                    crate::order::lemma_seq_lt_asymmetric(out@[i].id@, out@[j].id@);
                } else {
                    let bi = if i < p { i } else { i - 1 };
                    let bj = if j < p { j } else { j - 1 };
                    assert(out@[i] == before[bi]);
                    assert(out@[j] == before[bj]);
                }
            }
        }
    }
    proof {
        assert(done == total);
    }
    out
}

/// Edges stably sorted by id.
fn sort_edges(nodes: Vec<Edge>) -> (r: Vec<Edge>)
    ensures
        r@.len() == nodes@.len(),
        forall|j: int| 0 <= j < nodes@.len() ==> r@.contains(#[trigger] nodes@[j]),
        forall|k: int| 0 <= k < r@.len() ==> nodes@.contains(#[trigger] r@[k]),
        forall|i: int, j: int| 0 <= i < j < r@.len() ==> !crate::order::seq_lt(#[trigger] r@[j].id@, #[trigger] r@[i].id@),
{
    let mut rest = nodes;
    let mut out: Vec<Edge> = Vec::new();
    let ghost total = rest@.len();
    let ghost orig = rest@;
    let ghost mut done: int = 0;
    while rest.len() > 0
        invariant
            out@.len() + rest@.len() == total,
            total == orig.len(),
            orig == nodes@,
            0 <= done <= total,
            rest@ == orig.skip(done),
            forall|j: int| 0 <= j < done ==> out@.contains(#[trigger] orig[j]),
            forall|k: int| 0 <= k < out@.len() ==> orig.contains(#[trigger] out@[k]),
            forall|i: int, j: int| 0 <= i < j < out@.len() ==> !crate::order::seq_lt(#[trigger] out@[j].id@, #[trigger] out@[i].id@),
        decreases rest@.len(),
    {
        let node = rest.remove(0);
        proof {
            assert(node == orig[done]);
            assert(rest@ =~= orig.skip(done + 1));
        }
        let mut p = out.len();
        while p > 0 && crate::order::str_lt(node.id.as_str(), out[p - 1].id.as_str())
            invariant
                p <= out@.len(),
                forall|k: int| p <= k < out@.len() ==> crate::order::seq_lt(node.id@, #[trigger] out@[k].id@),
            decreases p,
        {
            p = p - 1;
        }
        proof {
            if p > 0 {
                crate::order::lemma_seq_lt_total(node.id@, out@[p - 1].id@);
            }
            assert forall|k: int| 0 <= k < p implies !crate::order::seq_lt(node.id@, #[trigger] out@[k].id@) by {
                if crate::order::seq_lt(node.id@, out@[k].id@) {
                    if k < p - 1 {
                        assert(!crate::order::seq_lt(out@[p - 1].id@, out@[k].id@));
                        crate::order::lemma_seq_lt_total(out@[p - 1].id@, out@[k].id@);
                        if out@[p - 1].id@ != out@[k].id@ {
                            crate::order::lemma_seq_lt_transitive(node.id@, out@[k].id@, out@[p - 1].id@);
                        }
                    }
                    crate::order::lemma_seq_lt_asymmetric(node.id@, out@[p - 1].id@);
                }
            }
        }
        let ghost before = out@;
        out.insert(p, node);
        proof {
            assert(out@[p as int] == orig[done]);
            assert forall|j: int| 0 <= j < done + 1 implies out@.contains(#[trigger] orig[j]) by {
                if j < done {
                    let k = choose|k: int| 0 <= k < before.len() && before[k] == orig[j];
                    if k < p {
                        assert(out@[k] == orig[j]);
                    } else {
                        assert(out@[k + 1] == orig[j]);
                    }
                } else {
                    assert(out@[p as int] == orig[j]);
                }
            }
            assert forall|k: int| 0 <= k < out@.len() implies orig.contains(#[trigger] out@[k]) by {
                if k < p {
                    assert(out@[k] == before[k]);
                } else if k > p {
                    assert(out@[k] == before[k - 1]);
                } else {
                    assert(orig[done] == out@[k]);
                }
            }
            done = done + 1;
            assert forall|i: int, j: int| 0 <= i < j < out@.len() implies !crate::order::seq_lt(
                #[trigger] out@[j].id@,
                #[trigger] out@[i].id@,
            ) by {
                if i < p && j == p {
                } else if i == p && j > p {
                    assert(out@[j] == before[j - 1]);
                    crate::order::lemma_seq_lt_asymmetric(out@[i].id@, out@[j].id@);
                } else {
                    let bi = if i < p { i } else { i - 1 };
                    let bj = if j < p { j } else { j - 1 };
                    assert(out@[i] == before[bi]);
                    assert(out@[j] == before[bj]);
                }
            }
        }
    }
    proof {
        assert(done == total);
    }
    out
}

/// Position of an encoding in the encoding order.
pub open spec fn spec_encoding_rank(e: PositionEncoding) -> u8 {
    match e {
        PositionEncoding::Utf8CodeUnit => 0,
        PositionEncoding::Utf16CodeUnit => 1,
        PositionEncoding::Utf32CodeUnit => 2,
        PositionEncoding::Unknown => 3,
    }
}

/// Location order: by document, range, then position encoding.
pub open spec fn location_lt(a: Location, b: Location) -> bool {
    crate::order::seq_lt(a.path@, b.path@) || (a.path@ == b.path@ && (range_lt(a.range, b.range) || (a.range
        == b.range && spec_encoding_rank(a.encoding) < spec_encoding_rank(b.encoding))))
}

/// Location order: by document, range, then position encoding.
fn location_before(a: &Location, b: &Location) -> (r: bool)
    ensures
        r == location_lt(*a, *b),
{
    crate::order::str_lt(a.path.as_str(), b.path.as_str()) || (str_eq(a.path.as_str(), b.path.as_str()) && (
    range_before(&a.range, &b.range) || (same_range(&a.range, &b.range) && encoding_rank(a.encoding)
        < encoding_rank(b.encoding))))
}

fn encoding_rank(e: PositionEncoding) -> (r: u8)
    ensures
        r == spec_encoding_rank(e),
{
    match e {
        PositionEncoding::Utf8CodeUnit => 0,
        PositionEncoding::Utf16CodeUnit => 1,
        PositionEncoding::Utf32CodeUnit => 2,
        PositionEncoding::Unknown => 3,
    }
}

/// `new` is `old` with `l` placed at `i`, before the first entry not below
/// it, unless that entry is not above it either.
pub open spec fn location_slot(old: Seq<Location>, l: Location, new: Seq<Location>, i: int) -> bool {
    &&& 0 <= i <= old.len()
    &&& forall|k: int| 0 <= k < i ==> location_lt(#[trigger] old[k], l)
    &&& i < old.len() ==> !location_lt(old[i], l)
    &&& if i < old.len() && !location_lt(l, old[i]) {
        new == old
    } else {
        new == old.insert(i, l)
    }
}

/// Add a location, kept ascending and free of repeats.
fn insert_location(locations: &mut Vec<Location>, l: &Location)
    ensures
        exists|i: int| location_slot(old(locations)@, *l, final(locations)@, i),
{
    let mut i: usize = 0;
    while i < locations.len()
        invariant
            i <= locations@.len(),
            locations@ == old(locations)@,
            forall|k: int| 0 <= k < i ==> location_lt(#[trigger] old(locations)@[k], *l),
        decreases locations@.len() - i,
    {
        if !location_before(&locations[i], l) {
            if !location_before(l, &locations[i]) {
                assert(location_slot(old(locations)@, *l, locations@, i as int));
                return;
            }
            let copy = Location { path: l.path.clone(), range: l.range, encoding: l.encoding };
            locations.insert(i, copy);
            assert(location_slot(old(locations)@, *l, locations@, i as int));
            return;
        }
        i = i + 1;
    }
    let copy = Location { path: l.path.clone(), range: l.range, encoding: l.encoding };
    locations.push(copy);
    assert(locations@ == old(locations)@.insert(i as int, *l));
    assert(location_slot(old(locations)@, *l, locations@, i as int));
}

/// Add `x` after every entry not greater than it, keeping repeats: it goes
/// before the first entry above it.
fn insert_in_order(v: &mut Vec<String>, x: &str)
    ensures
        exists|i: int|
            {
                &&& 0 <= i <= old(v)@.len()
                &&& forall|k: int| 0 <= k < i ==> !seq_lt(x@, (#[trigger] old(v)@[k])@)
                &&& i < old(v)@.len() ==> seq_lt(x@, old(v)@[i]@)
                &&& views(final(v)@) == views(old(v)@).insert(i, x@)
            },
{
    let mut i: usize = 0;
    while i < v.len()
        invariant
            i <= v@.len(),
            v@ == old(v)@,
            forall|k: int| 0 <= k < i ==> !seq_lt(x@, (#[trigger] old(v)@[k])@),
        decreases v@.len() - i,
    {
        if crate::order::str_lt(x, v[i].as_str()) {
            let owned = x.to_owned();
            v.insert(i, owned);
            assert(views(v@) =~= views(old(v)@).insert(i as int, x@));
            return;
        }
        i = i + 1;
    }
    let owned = x.to_owned();
    v.push(owned);
    assert(views(v@) =~= views(old(v)@).insert(i as int, x@));
}

/// The texts of `s` joined by ` | `.
pub open spec fn joined(s: Seq<Seq<char>>) -> Seq<char>
    decreases s.len(),
{
    if s.len() == 0 {
        Seq::empty()
    } else if s.len() == 1 {
        s[0]
    } else {
        joined(s.drop_last()) + " | "@ + s.last()
    }
}

/// The targets of one location, joined by ` | `.
fn join_targets(v: &Vec<String>) -> (r: String)
    ensures
        r@ == joined(views(v@)),
{
    let mut out = String::new();
    let mut i: usize = 0;
    while i < v.len()
        invariant
            i <= v@.len(),
            out@ == joined(views(v@).take(i as int)),
        decreases v@.len() - i,
    {
        proof {
            let t = views(v@).take(i + 1);
            assert(t.drop_last() =~= views(v@).take(i as int));
            assert(t.last() == v@[i as int]@);
            if i == 0 {
                assert(views(v@).take(0) =~= Seq::<Seq<char>>::empty());
                assert(out@ =~= Seq::<char>::empty());
            }
        }
        if i > 0 {
            push_str(&mut out, " | ");
        }
        push_str(&mut out, v[i].as_str());
        i = i + 1;
    }
    proof {
        assert(views(v@).take(v@.len() as int) =~= views(v@));
    }
    out
}

/// The document is one the adapter describes.
pub open spec fn described(document: ScipDocument) -> bool {
    spec_is_safe_path(document.relative_path@)
}

/// The scope entry of a document the adapter does not describe.
pub open spec fn external_entry(path: Seq<char>) -> Seq<char> {
    "external:"@ + digest_of(path)
}

/// The occurrence defines the symbol it names.
pub open spec fn is_definition_occurrence(o: ScipOccurrence) -> bool {
    o.symbol@.len() > 0 && o.symbol_roles & DEFINITION_ROLE != 0
}

/// One of the first `n` symbol informations of document `d` has key `k`.
pub open spec fn information_key(docs: Seq<ScipDocument>, d: int, n: int, k: (bool, Seq<char>, Seq<char>)) -> bool {
    exists|s: int|
        0 <= s < n && spec_key(docs[d].relative_path@, (#[trigger] docs[d].symbols@[s]).symbol@) == k
}

/// One of the first `n` occurrences of document `d` defines key `k`.
pub open spec fn definition_key(docs: Seq<ScipDocument>, d: int, n: int, k: (bool, Seq<char>, Seq<char>)) -> bool {
    exists|o: int|
        0 <= o < n && is_definition_occurrence(#[trigger] docs[d].occurrences@[o]) && spec_key(
            docs[d].relative_path@,
            docs[d].occurrences@[o].symbol@,
        ) == k
}

/// A described document among the first `n` has symbol information with key
/// `k`.
pub open spec fn informed_upto(docs: Seq<ScipDocument>, n: int, k: (bool, Seq<char>, Seq<char>)) -> bool {
    exists|d: int| 0 <= d < n && described(#[trigger] docs[d]) && information_key(docs, d, docs[d].symbols@.len() as int, k)
}

/// A described document among the first `n` defines key `k`.
pub open spec fn defined_upto(docs: Seq<ScipDocument>, n: int, k: (bool, Seq<char>, Seq<char>)) -> bool {
    exists|d: int|
        0 <= d < n && described(#[trigger] docs[d]) && definition_key(docs, d, docs[d].occurrences@.len() as int, k)
}

/// The key of one of the first `n` external symbols of the index.
pub open spec fn external_key(index: ScipIndex, n: int, k: (bool, Seq<char>, Seq<char>)) -> bool {
    exists|e: int| 0 <= e < n && k == (false, Seq::<char>::empty(), (#[trigger] index.external_symbols@[e]).symbol@)
}

/// The symbol keys an index names: those with symbol information or a
/// definition in a document the adapter describes, and the external
/// symbols.
#[verifier::opaque]
pub open spec fn index_key(index: ScipIndex, k: (bool, Seq<char>, Seq<char>)) -> bool {
    ||| informed_upto(index.documents@, index.documents@.len() as int, k)
    ||| defined_upto(index.documents@, index.documents@.len() as int, k)
    ||| external_key(index, index.external_symbols@.len() as int, k)
}

proof fn lemma_has_entry_insert<V>(old: Seq<(SymbolKey, V)>, new: Seq<(SymbolKey, V)>, p: int, key: (bool, Seq<char>, Seq<char>))
    requires
        0 <= p <= old.len(),
        new == old.insert(p, new[p]),
        key_view(new[p].0) == key,
    ensures
        forall|x: (bool, Seq<char>, Seq<char>)| #[trigger] has_entry(new, x) <==> (has_entry(old, x) || x == key),
{
    assert forall|x: (bool, Seq<char>, Seq<char>)| #[trigger] has_entry(new, x) <==> (has_entry(old, x) || x == key) by {
        if has_entry(new, x) {
            let j = choose|j: int| 0 <= j < new.len() && key_view((#[trigger] new[j]).0) == x;
            if j < p {
                assert(new[j] == old[j]);
            } else if j > p {
                assert(new[j] == old[j - 1]);
            }
        }
        if has_entry(old, x) {
            let j = choose|j: int| 0 <= j < old.len() && key_view((#[trigger] old[j]).0) == x;
            if j < p {
                assert(new[j] == old[j]);
            } else {
                assert(new[j + 1] == old[j]);
            }
        }
        if x == key {
            assert(key_view(new[p].0) == x);
        }
    }
}

proof fn lemma_has_entry_update<V>(old: Seq<(SymbolKey, V)>, new: Seq<(SymbolKey, V)>, p: int)
    requires
        0 <= p < old.len(),
        new.len() == old.len(),
        forall|j: int| 0 <= j < old.len() && j != p ==> #[trigger] new[j] == old[j],
        key_view(new[p].0) == key_view(old[p].0),
    ensures
        forall|x: (bool, Seq<char>, Seq<char>)| #[trigger] has_entry(new, x) <==> has_entry(old, x),
{
    assert forall|x: (bool, Seq<char>, Seq<char>)| #[trigger] has_entry(new, x) <==> has_entry(old, x) by {
        if has_entry(new, x) {
            let j = choose|j: int| 0 <= j < new.len() && key_view((#[trigger] new[j]).0) == x;
            if j != p {
                assert(new[j] == old[j]);
            }
        }
        if has_entry(old, x) {
            let j = choose|j: int| 0 <= j < old.len() && key_view((#[trigger] old[j]).0) == x;
            if j != p {
                assert(new[j] == old[j]);
            }
        }
    }
}

/// One of the first `i` entries is for key `x`.
pub open spec fn prefix_key<V>(entries: Seq<(SymbolKey, V)>, i: int, x: (bool, Seq<char>, Seq<char>)) -> bool {
    exists|j: int| 0 <= j < i && key_view((#[trigger] entries[j]).0) == x
}

proof fn lemma_upto_step(ds: Seq<ScipDocument>, d: int)
    requires
        0 <= d < ds.len(),
    ensures
        forall|x: (bool, Seq<char>, Seq<char>)|
            #[trigger] informed_upto(ds, d + 1, x) <==> (informed_upto(ds, d, x) || (described(ds[d]) && information_key(
                ds,
                d,
                ds[d].symbols@.len() as int,
                x,
            ))),
        forall|x: (bool, Seq<char>, Seq<char>)|
            #[trigger] defined_upto(ds, d + 1, x) <==> (defined_upto(ds, d, x) || (described(ds[d]) && definition_key(
                ds,
                d,
                ds[d].occurrences@.len() as int,
                x,
            ))),
{
    assert forall|x: (bool, Seq<char>, Seq<char>)|
        #[trigger] informed_upto(ds, d + 1, x) <==> (informed_upto(ds, d, x) || (described(ds[d]) && information_key(
            ds,
            d,
            ds[d].symbols@.len() as int,
            x,
        ))) by {
        if informed_upto(ds, d + 1, x) {
            let k = choose|k: int|
                0 <= k < d + 1 && described(#[trigger] ds[k]) && information_key(ds, k, ds[k].symbols@.len() as int, x);
            if k < d {
                assert(informed_upto(ds, d, x));
            }
        }
        if informed_upto(ds, d, x) {
            let k = choose|k: int|
                0 <= k < d && described(#[trigger] ds[k]) && information_key(ds, k, ds[k].symbols@.len() as int, x);
            assert(0 <= k < d + 1);
        }
    }
    assert forall|x: (bool, Seq<char>, Seq<char>)|
        #[trigger] defined_upto(ds, d + 1, x) <==> (defined_upto(ds, d, x) || (described(ds[d]) && definition_key(
            ds,
            d,
            ds[d].occurrences@.len() as int,
            x,
        ))) by {
        if defined_upto(ds, d + 1, x) {
            let k = choose|k: int|
                0 <= k < d + 1 && described(#[trigger] ds[k]) && definition_key(ds, k, ds[k].occurrences@.len() as int, x);
            if k < d {
                assert(defined_upto(ds, d, x));
            }
        }
        if defined_upto(ds, d, x) {
            let k = choose|k: int|
                0 <= k < d && described(#[trigger] ds[k]) && definition_key(ds, k, ds[k].occurrences@.len() as int, x);
            assert(0 <= k < d + 1);
        }
    }
}

proof fn lemma_information_key_step(ds: Seq<ScipDocument>, d: int, i: int)
    requires
        0 <= d < ds.len(),
        0 <= i < ds[d].symbols@.len(),
    ensures
        forall|x: (bool, Seq<char>, Seq<char>)|
            #[trigger] information_key(ds, d, i + 1, x) <==> (information_key(ds, d, i, x) || x == spec_key(
                ds[d].relative_path@,
                ds[d].symbols@[i].symbol@,
            )),
{
    assert forall|x: (bool, Seq<char>, Seq<char>)|
        #[trigger] information_key(ds, d, i + 1, x) <==> (information_key(ds, d, i, x) || x == spec_key(
            ds[d].relative_path@,
            ds[d].symbols@[i].symbol@,
        )) by {
        if information_key(ds, d, i + 1, x) {
            let s = choose|s: int|
                0 <= s < i + 1 && spec_key(ds[d].relative_path@, (#[trigger] ds[d].symbols@[s]).symbol@) == x;
            if s < i {
                assert(information_key(ds, d, i, x));
            }
        }
        if information_key(ds, d, i, x) {
            let s = choose|s: int| 0 <= s < i && spec_key(ds[d].relative_path@, (#[trigger] ds[d].symbols@[s]).symbol@) == x;
            assert(0 <= s < i + 1);
        }
        if x == spec_key(ds[d].relative_path@, ds[d].symbols@[i].symbol@) {
            assert(spec_key(ds[d].relative_path@, ds[d].symbols@[i].symbol@) == x);
        }
    }
}

proof fn lemma_definition_key_step(ds: Seq<ScipDocument>, d: int, o: int)
    requires
        0 <= d < ds.len(),
        0 <= o < ds[d].occurrences@.len(),
    ensures
        forall|x: (bool, Seq<char>, Seq<char>)|
            #[trigger] definition_key(ds, d, o + 1, x) <==> (definition_key(ds, d, o, x) || (is_definition_occurrence(
                ds[d].occurrences@[o],
            ) && x == spec_key(ds[d].relative_path@, ds[d].occurrences@[o].symbol@))),
{
    assert forall|x: (bool, Seq<char>, Seq<char>)|
        #[trigger] definition_key(ds, d, o + 1, x) <==> (definition_key(ds, d, o, x) || (is_definition_occurrence(
            ds[d].occurrences@[o],
        ) && x == spec_key(ds[d].relative_path@, ds[d].occurrences@[o].symbol@))) by {
        if definition_key(ds, d, o + 1, x) {
            let k = choose|k: int|
                0 <= k < o + 1 && is_definition_occurrence(#[trigger] ds[d].occurrences@[k]) && spec_key(
                    ds[d].relative_path@,
                    ds[d].occurrences@[k].symbol@,
                ) == x;
            if k < o {
                assert(definition_key(ds, d, o, x));
            }
        }
        if definition_key(ds, d, o, x) {
            let k = choose|k: int|
                0 <= k < o && is_definition_occurrence(#[trigger] ds[d].occurrences@[k]) && spec_key(
                    ds[d].relative_path@,
                    ds[d].occurrences@[k].symbol@,
                ) == x;
            assert(0 <= k < o + 1);
        }
        if is_definition_occurrence(ds[d].occurrences@[o]) && x == spec_key(ds[d].relative_path@, ds[d].occurrences@[o].symbol@) {
            assert(0 <= o < o + 1);
        }
    }
}

proof fn lemma_external_key_step(index: ScipIndex, e: int)
    requires
        0 <= e < index.external_symbols@.len(),
    ensures
        forall|x: (bool, Seq<char>, Seq<char>)|
            #[trigger] external_key(index, e + 1, x) <==> (external_key(index, e, x) || x == (
                false,
                Seq::<char>::empty(),
                index.external_symbols@[e].symbol@,
            )),
{
    assert forall|x: (bool, Seq<char>, Seq<char>)|
        #[trigger] external_key(index, e + 1, x) <==> (external_key(index, e, x) || x == (
            false,
            Seq::<char>::empty(),
            index.external_symbols@[e].symbol@,
        )) by {
        if external_key(index, e + 1, x) {
            let k = choose|k: int|
                0 <= k < e + 1 && x == (false, Seq::<char>::empty(), (#[trigger] index.external_symbols@[k]).symbol@);
            if k < e {
                assert(external_key(index, e, x));
            }
        }
        if external_key(index, e, x) {
            let k = choose|k: int| 0 <= k < e && x == (false, Seq::<char>::empty(), (#[trigger] index.external_symbols@[k]).symbol@);
            assert(0 <= k < e + 1);
        }
        if x == (false, Seq::<char>::empty(), index.external_symbols@[e].symbol@) {
            assert(0 <= e < e + 1);
        }
    }
}

/// What `note_information` does to the keys of the entries.
proof fn lemma_noted(old: Seq<(SymbolKey, InfoFacts)>, new: Seq<(SymbolKey, InfoFacts)>, key: (bool, Seq<char>, Seq<char>))
    requires
        if has_entry(old, key) {
            new == old
        } else {
            exists|p: int| 0 <= p <= old.len() && new == old.insert(p, new[p]) && key_view(new[p].0) == key
        },
    ensures
        forall|x: (bool, Seq<char>, Seq<char>)| #[trigger] has_entry(new, x) <==> (has_entry(old, x) || x == key),
{
    if !has_entry(old, key) {
        let p = choose|p: int| 0 <= p <= old.len() && new == old.insert(p, new[p]) && key_view(new[p].0) == key;
        lemma_has_entry_insert(old, new, p, key);
    }
}

proof fn lemma_prefix_key_step<V>(entries: Seq<(SymbolKey, V)>, i: int)
    requires
        0 <= i < entries.len(),
    ensures
        forall|x: (bool, Seq<char>, Seq<char>)|
            #[trigger] prefix_key(entries, i + 1, x) <==> (prefix_key(entries, i, x) || x == key_view(entries[i].0)),
        forall|x: (bool, Seq<char>, Seq<char>)| #[trigger] prefix_key(entries, entries.len() as int, x) <==> has_entry(entries, x),
{
    assert forall|x: (bool, Seq<char>, Seq<char>)|
        #[trigger] prefix_key(entries, i + 1, x) <==> (prefix_key(entries, i, x) || x == key_view(entries[i].0)) by {
        if prefix_key(entries, i + 1, x) {
            let j = choose|j: int| 0 <= j < i + 1 && key_view((#[trigger] entries[j]).0) == x;
            if j < i {
                assert(prefix_key(entries, i, x));
            }
        }
        if prefix_key(entries, i, x) {
            let j = choose|j: int| 0 <= j < i && key_view((#[trigger] entries[j]).0) == x;
            assert(0 <= j < i + 1);
        }
        if x == key_view(entries[i].0) {
            assert(0 <= i < i + 1);
        }
    }
}

/// The node's id is that of a key the index names.
pub open spec fn node_of_index_key(index: ScipIndex, build_id: Seq<char>, n: GraphNode) -> bool {
    exists|k: (bool, Seq<char>, Seq<char>)| #[trigger] index_key(index, k) && n.id@ == spec_node_id(k, build_id)
}

/// Some node has the id of key `k`.
pub open spec fn has_node_for(nodes: Seq<GraphNode>, build_id: Seq<char>, k: (bool, Seq<char>, Seq<char>)) -> bool {
    exists|i: int| 0 <= i < nodes.len() && (#[trigger] nodes[i]).id@ == spec_node_id(k, build_id)
}

/// The nodes of the assembled graph stand for the keys of the index, one
/// id each.
proof fn lemma_nodes_law(
    index: ScipIndex,
    build_id: Seq<char>,
    keys: Seq<SymbolKey>,
    unsorted: Seq<GraphNode>,
    sorted: Seq<GraphNode>,
)
    requires
        forall|x: (bool, Seq<char>, Seq<char>)| #[trigger] key_views(keys).contains(x) <==> index_key(index, x),
        unsorted.len() == keys.len(),
        forall|j: int| 0 <= j < keys.len() ==> (#[trigger] unsorted[j]).id@ == spec_node_id(key_view(keys[j]), build_id),
        forall|j: int| 0 <= j < unsorted.len() ==> sorted.contains(#[trigger] unsorted[j]),
        forall|k: int| 0 <= k < sorted.len() ==> unsorted.contains(#[trigger] sorted[k]),
    ensures
        forall|i: int| 0 <= i < sorted.len() ==> node_of_index_key(index, build_id, #[trigger] sorted[i]),
        forall|k: (bool, Seq<char>, Seq<char>)| #[trigger] index_key(index, k) ==> has_node_for(sorted, build_id, k),
{
    assert forall|i: int| 0 <= i < sorted.len() implies node_of_index_key(index, build_id, #[trigger] sorted[i]) by {
        lemma_node_has_key(index, build_id, keys, unsorted, sorted, i);
    }
    assert forall|k: (bool, Seq<char>, Seq<char>)| #[trigger] index_key(index, k) implies has_node_for(sorted, build_id, k) by {
        lemma_key_has_node(index, build_id, keys, unsorted, sorted, k);
    }
}

proof fn lemma_node_has_key(
    index: ScipIndex,
    build_id: Seq<char>,
    keys: Seq<SymbolKey>,
    unsorted: Seq<GraphNode>,
    sorted: Seq<GraphNode>,
    i: int,
)
    requires
        forall|x: (bool, Seq<char>, Seq<char>)| #[trigger] key_views(keys).contains(x) <==> index_key(index, x),
        unsorted.len() == keys.len(),
        forall|j: int| 0 <= j < keys.len() ==> (#[trigger] unsorted[j]).id@ == spec_node_id(key_view(keys[j]), build_id),
        forall|k: int| 0 <= k < sorted.len() ==> unsorted.contains(#[trigger] sorted[k]),
        0 <= i < sorted.len(),
    ensures
        node_of_index_key(index, build_id, sorted[i]),
{
    assert(unsorted.contains(sorted[i]));
    let j = choose|j: int| 0 <= j < unsorted.len() && unsorted[j] == sorted[i];
    let k = key_view(keys[j]);
    assert(key_views(keys)[j] == k);
    assert(key_views(keys).contains(k));
    assert(index_key(index, k));
    assert(sorted[i].id@ == spec_node_id(k, build_id));
}

proof fn lemma_key_has_node(
    index: ScipIndex,
    build_id: Seq<char>,
    keys: Seq<SymbolKey>,
    unsorted: Seq<GraphNode>,
    sorted: Seq<GraphNode>,
    k: (bool, Seq<char>, Seq<char>),
)
    requires
        forall|x: (bool, Seq<char>, Seq<char>)| #[trigger] key_views(keys).contains(x) <==> index_key(index, x),
        unsorted.len() == keys.len(),
        forall|j: int| 0 <= j < keys.len() ==> (#[trigger] unsorted[j]).id@ == spec_node_id(key_view(keys[j]), build_id),
        forall|j: int| 0 <= j < unsorted.len() ==> sorted.contains(#[trigger] unsorted[j]),
        index_key(index, k),
    ensures
        has_node_for(sorted, build_id, k),
{
    assert(key_views(keys).contains(k));
    let j = choose|j: int| 0 <= j < key_views(keys).len() && key_views(keys)[j] == k;
    assert(unsorted[j].id@ == spec_node_id(k, build_id));
    assert(sorted.contains(unsorted[j]));
    let i = choose|i: int| 0 <= i < sorted.len() && sorted[i] == unsorted[j];
    assert(sorted[i].id@ == spec_node_id(k, build_id));
}

/// Some fact is at range `r` of the document at `path`, counted in `enc`.
pub open spec fn fact_at(facts: Seq<ReferenceFact>, path: Seq<char>, r: SourceRange, enc: PositionEncoding) -> bool {
    exists|k: int|
        0 <= k < facts.len() && (#[trigger] facts[k]).location is Some && facts[k].location->0.path@ == path
            && facts[k].location->0.range == r && facts[k].location->0.encoding == enc
}

/// `l` is where a non-defining occurrence of one of the first `n` documents,
/// one the adapter describes, names a symbol.
pub open spec fn referenced_location(docs: Seq<ScipDocument>, n: int, l: Location) -> bool {
    exists|d: int, t: (Seq<char>, bool)|
        0 <= d < n && described(docs[d]) && docs[d].relative_path@ == l.path@ && l.encoding == docs[d].position_encoding
            && #[trigger] reference_used(docs[d], docs[d].occurrences@.len() as int, l.range, t)
}

proof fn lemma_fact_at_extend(facts: Seq<ReferenceFact>, more: Seq<ReferenceFact>, path: Seq<char>, r: SourceRange, enc: PositionEncoding)
    requires
        fact_at(facts, path, r, enc),
        facts.len() <= more.len(),
        forall|k: int| 0 <= k < facts.len() ==> #[trigger] more[k] == facts[k],
    ensures
        fact_at(more, path, r, enc),
{
    let k = choose|k: int|
        0 <= k < facts.len() && (#[trigger] facts[k]).location is Some && facts[k].location->0.path@ == path
            && facts[k].location->0.range == r && facts[k].location->0.encoding == enc;
    assert(more[k] == facts[k]);
}

proof fn lemma_referenced_upto(docs: Seq<ScipDocument>, n: int, m: int, l: Location)
    requires
        referenced_location(docs, n, l),
        n <= m,
    ensures
        referenced_location(docs, m, l),
{
    let (d, t) = choose|d: int, t: (Seq<char>, bool)|
        0 <= d < n && described(docs[d]) && docs[d].relative_path@ == l.path@ && l.encoding == docs[d].position_encoding
            && #[trigger] reference_used(docs[d], docs[d].occurrences@.len() as int, l.range, t);
    assert(reference_used(docs[d], docs[d].occurrences@.len() as int, l.range, t));
}

/// Recording the fact of group `g` keeps every group so far covered and
/// every located fact at a reference location.
proof fn lemma_group_fact(
    ds: Seq<ScipDocument>,
    d: int,
    refs: Seq<(Location, Vec<(String, bool)>)>,
    g: int,
    before: Seq<ReferenceFact>,
    facts: Seq<ReferenceFact>,
    facts_doc: Seq<ReferenceFact>,
)
    requires
        0 <= d < ds.len(),
        described(ds[d]),
        groups_well_formed(refs, ds[d]),
        forall|rg: SourceRange, t: (Seq<char>, bool)|
            #[trigger] group_has(refs, rg, t) <==> reference_used(ds[d], ds[d].occurrences@.len() as int, rg, t),
        0 <= g < refs.len(),
        facts.len() == before.len() + 1,
        forall|k: int| 0 <= k < before.len() ==> #[trigger] facts[k] == before[k],
        facts.last().location is Some,
        facts.last().location->0.path@ == refs[g].0.path@,
        facts.last().location->0.range == refs[g].0.range,
        facts.last().location->0.encoding == refs[g].0.encoding,
        facts_doc.len() <= before.len(),
        forall|k: int| 0 <= k < facts_doc.len() ==> #[trigger] before[k] == facts_doc[k],
        forall|g2: int|
            0 <= g2 < g ==> fact_at(before, ds[d].relative_path@, (#[trigger] refs[g2]).0.range, ds[d].position_encoding),
        forall|k: int|
            0 <= k < before.len() && (#[trigger] before[k]).location is Some ==> referenced_location(
                ds,
                d + 1,
                before[k].location->0,
            ),
    ensures
        facts_doc.len() <= facts.len(),
        forall|k: int| 0 <= k < facts_doc.len() ==> #[trigger] facts[k] == facts_doc[k],
        forall|g2: int|
            0 <= g2 < g + 1 ==> fact_at(facts, ds[d].relative_path@, (#[trigger] refs[g2]).0.range, ds[d].position_encoding),
        forall|k: int|
            0 <= k < facts.len() && (#[trigger] facts[k]).location is Some ==> referenced_location(
                ds,
                d + 1,
                facts[k].location->0,
            ),
{
    assert(refs[g].0.path@ == ds[d].relative_path@);
    assert(refs[g].0.encoding == ds[d].position_encoding);
    assert forall|k: int| 0 <= k < facts_doc.len() implies #[trigger] facts[k] == facts_doc[k] by {
        assert(before[k] == facts_doc[k]);
    }
    assert forall|g2: int| 0 <= g2 < g + 1 implies fact_at(
        facts,
        ds[d].relative_path@,
        (#[trigger] refs[g2]).0.range,
        ds[d].position_encoding,
    ) by {
        if g2 < g {
            lemma_fact_at_extend(before, facts, ds[d].relative_path@, refs[g2].0.range, ds[d].position_encoding);
        } else {
            assert(facts[before.len() as int] == facts.last());
        }
    }
    let t = target_views(refs[g].1@)[0];
    assert(target_views(refs[g].1@).contains(t));
    assert(group_has(refs, refs[g].0.range, t));
    assert(reference_used(ds[d], ds[d].occurrences@.len() as int, refs[g].0.range, t));
    assert forall|k: int| 0 <= k < facts.len() && (#[trigger] facts[k]).location is Some implies referenced_location(
        ds,
        d + 1,
        facts[k].location->0,
    ) by {
        if k < before.len() {
            assert(facts[k] == before[k]);
        } else {
            assert(facts[k] == facts.last());
            let l = facts[k].location->0;
            assert(reference_used(ds[d], ds[d].occurrences@.len() as int, l.range, t));
        }
    }
}

/// After the facts of every group of described document `d`, every
/// reference location of the documents up to `d` has a fact.
proof fn lemma_doc_covered(
    ds: Seq<ScipDocument>,
    d: int,
    refs: Seq<(Location, Vec<(String, bool)>)>,
    facts_doc: Seq<ReferenceFact>,
    facts: Seq<ReferenceFact>,
)
    requires
        0 <= d < ds.len(),
        described(ds[d]),
        forall|rg: SourceRange, t: (Seq<char>, bool)|
            #[trigger] group_has(refs, rg, t) <==> reference_used(ds[d], ds[d].occurrences@.len() as int, rg, t),
        facts_doc.len() <= facts.len(),
        forall|k: int| 0 <= k < facts_doc.len() ==> #[trigger] facts[k] == facts_doc[k],
        forall|g2: int|
            0 <= g2 < refs.len() ==> fact_at(facts, ds[d].relative_path@, (#[trigger] refs[g2]).0.range, ds[d].position_encoding),
        forall|d2: int, r: SourceRange, t: (Seq<char>, bool)|
            0 <= d2 < d && described(ds[d2]) && #[trigger] reference_used(ds[d2], ds[d2].occurrences@.len() as int, r, t)
                ==> fact_at(facts_doc, ds[d2].relative_path@, r, ds[d2].position_encoding),
    ensures
        forall|d2: int, r: SourceRange, t: (Seq<char>, bool)|
            0 <= d2 < d + 1 && described(ds[d2]) && #[trigger] reference_used(ds[d2], ds[d2].occurrences@.len() as int, r, t)
                ==> fact_at(facts, ds[d2].relative_path@, r, ds[d2].position_encoding),
{
    assert forall|d2: int, r: SourceRange, t: (Seq<char>, bool)|
        0 <= d2 < d + 1 && described(ds[d2]) && #[trigger] reference_used(ds[d2], ds[d2].occurrences@.len() as int, r, t)
            implies fact_at(facts, ds[d2].relative_path@, r, ds[d2].position_encoding) by {
        if d2 < d {
            lemma_fact_at_extend(facts_doc, facts, ds[d2].relative_path@, r, ds[d2].position_encoding);
        } else {
            assert(group_has(refs, r, t));
            let i = choose|i: int| 0 <= i < refs.len() && (#[trigger] refs[i]).0.range == r && target_views(refs[i].1@).contains(t);
            assert(fact_at(facts, ds[d].relative_path@, refs[i].0.range, ds[d].position_encoding));
        }
    }
}

/// A document the adapter does not describe adds no reference location.
proof fn lemma_doc_skipped(ds: Seq<ScipDocument>, d: int, facts: Seq<ReferenceFact>)
    requires
        0 <= d < ds.len(),
        !described(ds[d]),
        forall|d2: int, r: SourceRange, t: (Seq<char>, bool)|
            0 <= d2 < d && described(ds[d2]) && #[trigger] reference_used(ds[d2], ds[d2].occurrences@.len() as int, r, t)
                ==> fact_at(facts, ds[d2].relative_path@, r, ds[d2].position_encoding),
        forall|k: int|
            0 <= k < facts.len() && (#[trigger] facts[k]).location is Some ==> referenced_location(ds, d, facts[k].location->0),
    ensures
        forall|d2: int, r: SourceRange, t: (Seq<char>, bool)|
            0 <= d2 < d + 1 && described(ds[d2]) && #[trigger] reference_used(ds[d2], ds[d2].occurrences@.len() as int, r, t)
                ==> fact_at(facts, ds[d2].relative_path@, r, ds[d2].position_encoding),
        forall|k: int|
            0 <= k < facts.len() && (#[trigger] facts[k]).location is Some ==> referenced_location(ds, d + 1, facts[k].location->0),
{
    assert forall|k: int|
        0 <= k < facts.len() && (#[trigger] facts[k]).location is Some implies referenced_location(ds, d + 1, facts[k].location->0) by {
        lemma_referenced_upto(ds, d, d + 1, facts[k].location->0);
    }
}

/// Facts appended without a location keep every reference location covered
/// and every located fact at one.
proof fn lemma_located_kept(ds: Seq<ScipDocument>, facts0: Seq<ReferenceFact>, facts: Seq<ReferenceFact>)
    requires
        facts0.len() <= facts.len(),
        forall|k: int| 0 <= k < facts0.len() ==> #[trigger] facts[k] == facts0[k],
        forall|k: int| facts0.len() <= k < facts.len() ==> (#[trigger] facts[k]).location is None,
        forall|d2: int, r: SourceRange, t: (Seq<char>, bool)|
            0 <= d2 < ds.len() && described(ds[d2]) && #[trigger] reference_used(ds[d2], ds[d2].occurrences@.len() as int, r, t)
                ==> fact_at(facts0, ds[d2].relative_path@, r, ds[d2].position_encoding),
        forall|k: int|
            0 <= k < facts0.len() && (#[trigger] facts0[k]).location is Some ==> referenced_location(
                ds,
                ds.len() as int,
                facts0[k].location->0,
            ),
    ensures
        forall|d2: int, r: SourceRange, t: (Seq<char>, bool)|
            0 <= d2 < ds.len() && described(ds[d2]) && #[trigger] reference_used(ds[d2], ds[d2].occurrences@.len() as int, r, t)
                ==> fact_at(facts, ds[d2].relative_path@, r, ds[d2].position_encoding),
        forall|k: int|
            0 <= k < facts.len() && (#[trigger] facts[k]).location is Some ==> referenced_location(
                ds,
                ds.len() as int,
                facts[k].location->0,
            ),
{
    assert forall|d2: int, r: SourceRange, t: (Seq<char>, bool)|
        0 <= d2 < ds.len() && described(ds[d2]) && #[trigger] reference_used(ds[d2], ds[d2].occurrences@.len() as int, r, t)
            implies fact_at(facts, ds[d2].relative_path@, r, ds[d2].position_encoding) by {
        lemma_fact_at_extend(facts0, facts, ds[d2].relative_path@, r, ds[d2].position_encoding);
    }
    assert forall|k: int|
        0 <= k < facts.len() && (#[trigger] facts[k]).location is Some implies referenced_location(
            ds,
            ds.len() as int,
            facts[k].location->0,
        ) by {
        assert(facts[k] == facts0[k]);
    }
}

/// Sorting the facts keeps every reference location covered and every
/// located fact at one.
proof fn lemma_located_sorted(ds: Seq<ScipDocument>, facts0: Seq<ReferenceFact>, facts: Seq<ReferenceFact>)
    requires
        forall|j: int| 0 <= j < facts0.len() ==> facts.contains(#[trigger] facts0[j]),
        forall|k: int| 0 <= k < facts.len() ==> facts0.contains(#[trigger] facts[k]),
        forall|d2: int, r: SourceRange, t: (Seq<char>, bool)|
            0 <= d2 < ds.len() && described(ds[d2]) && #[trigger] reference_used(ds[d2], ds[d2].occurrences@.len() as int, r, t)
                ==> fact_at(facts0, ds[d2].relative_path@, r, ds[d2].position_encoding),
        forall|k: int|
            0 <= k < facts0.len() && (#[trigger] facts0[k]).location is Some ==> referenced_location(
                ds,
                ds.len() as int,
                facts0[k].location->0,
            ),
    ensures
        forall|d2: int, r: SourceRange, t: (Seq<char>, bool)|
            0 <= d2 < ds.len() && described(ds[d2]) && #[trigger] reference_used(ds[d2], ds[d2].occurrences@.len() as int, r, t)
                ==> fact_at(facts, ds[d2].relative_path@, r, ds[d2].position_encoding),
        forall|k: int|
            0 <= k < facts.len() && (#[trigger] facts[k]).location is Some ==> referenced_location(
                ds,
                ds.len() as int,
                facts[k].location->0,
            ),
{
    assert forall|d2: int, r: SourceRange, t: (Seq<char>, bool)|
        0 <= d2 < ds.len() && described(ds[d2]) && #[trigger] reference_used(ds[d2], ds[d2].occurrences@.len() as int, r, t)
            implies fact_at(facts, ds[d2].relative_path@, r, ds[d2].position_encoding) by {
        let k = choose|k: int|
            0 <= k < facts0.len() && (#[trigger] facts0[k]).location is Some && facts0[k].location->0.path@
                == ds[d2].relative_path@ && facts0[k].location->0.range == r && facts0[k].location->0.encoding
                == ds[d2].position_encoding;
        assert(facts.contains(facts0[k]));
        let m = choose|m: int| 0 <= m < facts.len() && facts[m] == facts0[k];
        assert(facts[m].location is Some);
    }
    assert forall|k: int|
        0 <= k < facts.len() && (#[trigger] facts[k]).location is Some implies referenced_location(
            ds,
            ds.len() as int,
            facts[k].location->0,
        ) by {
        assert(facts0.contains(facts[k]));
        let j = choose|j: int| 0 <= j < facts0.len() && facts0[j] == facts[k];
        assert(facts0[j].location is Some);
    }
}

/// The node a fact resolved to, within the graph or outside it.
pub open spec fn resolved_node(f: ReferenceFact) -> Option<String> {
    match f.outcome {
        Resolution::Resolved { node } => Some(node),
        Resolution::External { node } => Some(node),
        _ => None,
    }
}

/// Some edge entry from `from` to `to` of kind `kind` holds evidence `id`.
pub open spec fn edge_carries(edges: Seq<(String, String, EdgeKind, Vec<String>)>, from: Seq<char>, to: Seq<char>, kind: EdgeKind, id: Seq<char>) -> bool {
    exists|i: int|
        0 <= i < edges.len() && (#[trigger] edges[i]).0@ == from && edges[i].1@ == to && edges[i].2 == kind
            && contains_view(views(edges[i].3@), id)
}

/// Every fact with a source that resolved to a node is evidence of the edge
/// from its source to that node, of its kind.
pub open spec fn facts_carried(edges: Seq<(String, String, EdgeKind, Vec<String>)>, facts: Seq<ReferenceFact>) -> bool {
    forall|k: int|
        0 <= k < facts.len() && (#[trigger] facts[k]).source is Some && resolved_node(facts[k]) is Some ==> edge_carries(
            edges,
            facts[k].source->0@,
            resolved_node(facts[k])->0@,
            facts[k].kind,
            facts[k].id@,
        )
}

proof fn lemma_step_carries(old: Seq<(String, String, EdgeKind, Vec<String>)>, from: Seq<char>, to: Seq<char>, kind: EdgeKind, fact: Seq<char>, new: Seq<(String, String, EdgeKind, Vec<String>)>)
    requires
        evidence_step(old, from, to, kind, fact, new),
        evidence_ok(old),
        !(kind is ProviderSpecific),
    ensures
        edge_carries(new, from, to, kind, fact),
        forall|a: Seq<char>, b: Seq<char>, k: EdgeKind, y: Seq<char>|
            #[trigger] edge_carries(old, a, b, k, y) ==> edge_carries(new, a, b, k, y),
{
    let i = choose|i: int| evidence_slot(old, from, to, kind, fact, new, i);
    if i < old.len() && same_edge(old[i], from, to, kind) {
        assert(!(old[i].2 is ProviderSpecific));
        assert(new[i].2 == kind);
        assert(contains_view(views(new[i].3@), fact));
    } else {
        let m = 0int;
        assert(views(new[i].3@)[m] == fact);
    }
    assert forall|a: Seq<char>, b: Seq<char>, k: EdgeKind, y: Seq<char>|
        #[trigger] edge_carries(old, a, b, k, y) implies edge_carries(new, a, b, k, y) by {
        let j = choose|j: int|
            0 <= j < old.len() && (#[trigger] old[j]).0@ == a && old[j].1@ == b && old[j].2 == k && contains_view(
                views(old[j].3@),
                y,
            );
        if i < old.len() && same_edge(old[i], from, to, kind) {
            if j != i {
                assert(new[j] == old[j]);
            } else {
                assert(contains_view(views(new[i].3@), y));
            }
        } else {
            if j < i {
                assert(new[j] == old[j]);
            } else {
                assert(new[j + 1] == old[j]);
            }
        }
    }
}

proof fn lemma_carried_extend(edges: Seq<(String, String, EdgeKind, Vec<String>)>, facts: Seq<ReferenceFact>, more: Seq<ReferenceFact>, edges2: Seq<(String, String, EdgeKind, Vec<String>)>)
    requires
        facts_carried(edges, facts),
        forall|a: Seq<char>, b: Seq<char>, k: EdgeKind, y: Seq<char>|
            #[trigger] edge_carries(edges, a, b, k, y) ==> edge_carries(edges2, a, b, k, y),
        facts.len() <= more.len(),
        forall|k: int| 0 <= k < facts.len() ==> #[trigger] more[k] == facts[k],
        forall|k: int|
            facts.len() <= k < more.len() && (#[trigger] more[k]).source is Some && resolved_node(more[k]) is Some
                ==> edge_carries(edges2, more[k].source->0@, resolved_node(more[k])->0@, more[k].kind, more[k].id@),
    ensures
        facts_carried(edges2, more),
{
    assert forall|k: int|
        0 <= k < more.len() && (#[trigger] more[k]).source is Some && resolved_node(more[k]) is Some implies edge_carries(
        edges2,
        more[k].source->0@,
        resolved_node(more[k])->0@,
        more[k].kind,
        more[k].id@,
    ) by {
        if k < facts.len() {
            assert(more[k] == facts[k]);
            assert(edge_carries(edges, facts[k].source->0@, resolved_node(facts[k])->0@, facts[k].kind, facts[k].id@));
        }
    }
}

/// A step of evidence keeps the entries well formed.
proof fn lemma_step_ok(old: Seq<(String, String, EdgeKind, Vec<String>)>, from: Seq<char>, to: Seq<char>, kind: EdgeKind, fact: Seq<char>, new: Seq<(String, String, EdgeKind, Vec<String>)>)
    requires
        evidence_step(old, from, to, kind, fact, new),
        evidence_ok(old),
        !(kind is ProviderSpecific),
    ensures
        evidence_ok(new),
{
    let i = choose|i: int| evidence_slot(old, from, to, kind, fact, new, i);
    assert forall|j: int| 0 <= j < new.len() implies !((#[trigger] new[j]).2 is ProviderSpecific) && sorted_strict(
        views(new[j].3@),
    ) by {
        if i < old.len() && same_edge(old[i], from, to, kind) {
            if j != i {
                assert(new[j] == old[j]);
            }
        } else {
            if j < i {
                assert(new[j] == old[j]);
            } else if j > i {
                assert(new[j] == old[j - 1]);
            }
        }
    }
}

proof fn lemma_chain_carried(
    facts: Seq<ReferenceFact>,
    chain: Seq<Seq<(String, String, EdgeKind, Vec<String>)>>,
    ts: Seq<(int, int, EdgeKind)>,
    base: int,
    q: int,
    document_index: usize,
    path: Seq<char>,
    symbols: Seq<ScipSymbol>,
    nodes: Seq<(SymbolKey, String)>,
    external_nodes: Seq<String>,
)
    requires
        0 <= q <= ts.len(),
        0 <= base,
        chain.len() == ts.len() + 1,
        facts.len() == base + ts.len(),
        evidence_ok(chain[0]),
        facts_carried(chain[0], facts.take(base)),
        forall|q2: int|
            0 <= q2 < ts.len() ==> relationship_fact_ok(
                #[trigger] facts[base + q2],
                document_index,
                path,
                symbols,
                nodes,
                external_nodes,
                ts[q2],
            ),
        forall|q2: int|
            0 <= q2 < ts.len() ==> evidence_step(
                #[trigger] chain[q2],
                triple_from(nodes, path, symbols, ts[q2])@,
                triple_to(nodes, path, symbols, ts[q2])@,
                ts[q2].2,
                facts[base + q2].id@,
                chain[q2 + 1],
            ),
    ensures
        evidence_ok(chain[q]),
        facts_carried(chain[q], facts.take(base + q)),
    decreases q,
{
    if q > 0 {
        let p = q - 1;
        lemma_chain_carried(facts, chain, ts, base, p, document_index, path, symbols, nodes, external_nodes);
        let f = facts[base + p];
        let from = triple_from(nodes, path, symbols, ts[p]);
        let to = triple_to(nodes, path, symbols, ts[p]);
        assert(relationship_fact_ok(f, document_index, path, symbols, nodes, external_nodes, ts[p]));
        assert(evidence_step(chain[p], from@, to@, ts[p].2, f.id@, chain[p + 1]));
        assert(facts.take(base + q) =~= facts.take(base + p).push(f));
        lemma_chain_carried_step(facts.take(base + p), facts.take(base + q), chain[p], chain[q], f, from@, to@, ts[p].2);
    } else {
        assert(facts.take(base + q) =~= facts.take(base));
    }
}

proof fn lemma_chain_carried_step(
    before: Seq<ReferenceFact>,
    after: Seq<ReferenceFact>,
    old: Seq<(String, String, EdgeKind, Vec<String>)>,
    new: Seq<(String, String, EdgeKind, Vec<String>)>,
    f: ReferenceFact,
    from: Seq<char>,
    to: Seq<char>,
    kind: EdgeKind,
)
    requires
        evidence_ok(old),
        facts_carried(old, before),
        after == before.push(f),
        evidence_step(old, from, to, kind, f.id@, new),
        !(kind is ProviderSpecific),
        f.source is Some && f.source->0@ == from,
        resolved_node(f) is Some && resolved_node(f)->0@ == to,
        f.kind == kind,
    ensures
        evidence_ok(new),
        facts_carried(new, after),
{
    lemma_step_ok(old, from, to, kind, f.id@, new);
    lemma_step_carries(old, from, to, kind, f.id@, new);
    assert forall|k: int| 0 <= k < before.len() implies #[trigger] after[k] == before[k] by {}
    assert(after[before.len() as int] == f);
    lemma_carried_extend(old, before, after, new);
}

/// Adding relationship edges keeps every resolved fact with a source the
/// evidence of its edge, and makes each new fact the evidence of its own.
proof fn lemma_relationships_carried(
    old_facts: Seq<ReferenceFact>,
    facts: Seq<ReferenceFact>,
    old_edges: Seq<(String, String, EdgeKind, Vec<String>)>,
    edges: Seq<(String, String, EdgeKind, Vec<String>)>,
    chain: Seq<Seq<(String, String, EdgeKind, Vec<String>)>>,
    ts: Seq<(int, int, EdgeKind)>,
    document_index: usize,
    path: Seq<char>,
    symbols: Seq<ScipSymbol>,
    nodes: Seq<(SymbolKey, String)>,
    external_nodes: Seq<String>,
)
    requires
        relationships_added(
            old_facts,
            facts,
            old_edges,
            edges,
            chain,
            ts,
            document_index,
            path,
            symbols,
            nodes,
            external_nodes,
        ),
        evidence_ok(old_edges),
        facts_carried(old_edges, old_facts),
    ensures
        facts_carried(edges, facts),
{
    reveal(relationships_added);
    let base = old_facts.len();
    assert(facts.take(base as int) == old_facts);
    lemma_chain_carried(facts, chain, ts, base as int, ts.len() as int, document_index, path, symbols, nodes, external_nodes);
    assert(facts.take((base + ts.len()) as int) =~= facts);
    assert(chain[ts.len() as int] == chain.last());
}

/// Some edge from `from` to `to` of kind `kind` holds evidence `id`.
pub open spec fn edge_has(edges: Seq<Edge>, from: Seq<char>, to: Seq<char>, kind: EdgeKind, id: Seq<char>) -> bool {
    exists|i: int|
        0 <= i < edges.len() && (#[trigger] edges[i]).from@ == from && edges[i].to@ == to && edges[i].kind == kind
            && contains_view(views(edges[i].evidence@), id)
}

/// The fact has a source and resolved to a node: it stands behind an edge.
pub open spec fn edge_eligible(f: ReferenceFact) -> bool {
    f.source is Some && resolved_node(f) is Some
}

proof fn lemma_carried_permute(edges: Seq<(String, String, EdgeKind, Vec<String>)>, facts: Seq<ReferenceFact>, other: Seq<ReferenceFact>)
    requires
        facts_carried(edges, facts),
        forall|k: int| 0 <= k < other.len() ==> facts.contains(#[trigger] other[k]),
    ensures
        facts_carried(edges, other),
{
    assert forall|k: int|
        0 <= k < other.len() && (#[trigger] other[k]).source is Some && resolved_node(other[k]) is Some implies edge_carries(
        edges,
        other[k].source->0@,
        resolved_node(other[k])->0@,
        other[k].kind,
        other[k].id@,
    ) by {
        assert(facts.contains(other[k]));
        let j = choose|j: int| 0 <= j < facts.len() && facts[j] == other[k];
        assert(facts[j].source is Some && resolved_node(facts[j]) is Some);
    }
}

proof fn lemma_edges_loop_step(
    facts: Seq<ReferenceFact>,
    before: Seq<(String, String, EdgeKind, Vec<String>)>,
    rest: Seq<(String, String, EdgeKind, Vec<String>)>,
    built: Seq<Edge>,
    edges: Seq<Edge>,
)
    requires
        before.len() > 0,
        rest == before.subrange(1, before.len() as int),
        edges.len() == built.len() + 1,
        forall|i: int| 0 <= i < built.len() ==> #[trigger] edges[i] == built[i],
        edges.last().from == before[0].0,
        edges.last().to == before[0].1,
        edges.last().kind == before[0].2,
        edges.last().evidence == before[0].3,
        forall|k: int|
            0 <= k < facts.len() && #[trigger] edge_eligible(facts[k]) ==> edge_carries(
                before,
                facts[k].source->0@,
                resolved_node(facts[k])->0@,
                facts[k].kind,
                facts[k].id@,
            ) || edge_has(built, facts[k].source->0@, resolved_node(facts[k])->0@, facts[k].kind, facts[k].id@),
    ensures
        forall|k: int|
            0 <= k < facts.len() && #[trigger] edge_eligible(facts[k]) ==> edge_carries(
                rest,
                facts[k].source->0@,
                resolved_node(facts[k])->0@,
                facts[k].kind,
                facts[k].id@,
            ) || edge_has(edges, facts[k].source->0@, resolved_node(facts[k])->0@, facts[k].kind, facts[k].id@),
{
    assert forall|k: int| 0 <= k < facts.len() && #[trigger] edge_eligible(facts[k]) implies edge_carries(
        rest,
        facts[k].source->0@,
        resolved_node(facts[k])->0@,
        facts[k].kind,
        facts[k].id@,
    ) || edge_has(edges, facts[k].source->0@, resolved_node(facts[k])->0@, facts[k].kind, facts[k].id@) by {
        let a = facts[k].source->0@;
        let b = resolved_node(facts[k])->0@;
        let kd = facts[k].kind;
        let y = facts[k].id@;
        if edge_has(built, a, b, kd, y) {
            let i = choose|i: int|
                0 <= i < built.len() && (#[trigger] built[i]).from@ == a && built[i].to@ == b && built[i].kind == kd
                    && contains_view(views(built[i].evidence@), y);
            assert(edges[i] == built[i]);
        } else {
            assert(edge_carries(before, a, b, kd, y));
            let j = choose|j: int|
                0 <= j < before.len() && (#[trigger] before[j]).0@ == a && before[j].1@ == b && before[j].2 == kd
                    && contains_view(views(before[j].3@), y);
            if j == 0 {
                assert(edges[edges.len() - 1] == edges.last());
            } else {
                assert(rest[j - 1] == before[j]);
            }
        }
    }
}

proof fn lemma_edges_sorted_has(facts: Seq<ReferenceFact>, unsorted: Seq<Edge>, sorted: Seq<Edge>)
    requires
        forall|j: int| 0 <= j < unsorted.len() ==> sorted.contains(#[trigger] unsorted[j]),
        forall|k: int|
            0 <= k < facts.len() && #[trigger] edge_eligible(facts[k]) ==> edge_has(
                unsorted,
                facts[k].source->0@,
                resolved_node(facts[k])->0@,
                facts[k].kind,
                facts[k].id@,
            ),
    ensures
        forall|k: int|
            0 <= k < facts.len() && #[trigger] edge_eligible(facts[k]) ==> edge_has(
                sorted,
                facts[k].source->0@,
                resolved_node(facts[k])->0@,
                facts[k].kind,
                facts[k].id@,
            ),
{
    assert forall|k: int| 0 <= k < facts.len() && #[trigger] edge_eligible(facts[k]) implies edge_has(
        sorted,
        facts[k].source->0@,
        resolved_node(facts[k])->0@,
        facts[k].kind,
        facts[k].id@,
    ) by {
        let a = facts[k].source->0@;
        let b = resolved_node(facts[k])->0@;
        let kd = facts[k].kind;
        let y = facts[k].id@;
        assert(edge_has(unsorted, a, b, kd, y));
        let i = choose|i: int|
            0 <= i < unsorted.len() && (#[trigger] unsorted[i]).from@ == a && unsorted[i].to@ == b && unsorted[i].kind == kd
                && contains_view(views(unsorted[i].evidence@), y);
        assert(sorted.contains(unsorted[i]));
        let m = choose|m: int| 0 <= m < sorted.len() && sorted[m] == unsorted[i];
        assert(sorted[m].from@ == a);
    }
}

/// The kind of the fact for the references at range `r` of a document: an
/// import when every symbol used there is used as an import, else a plain
/// reference.
pub open spec fn occurrence_kind(document: ScipDocument, r: SourceRange) -> EdgeKind {
    if forall|t: (Seq<char>, bool)|
        #[trigger] reference_used(document, document.occurrences@.len() as int, r, t) ==> t.1 {
        EdgeKind::Import
    } else {
        EdgeKind::Reference
    }
}

/// Some symbol information of a described document, under that document's
/// path, before symbol `i` of document `d`, is for key `k` and names a key
/// that defines it.
pub open spec fn doc_names_upto(index: ScipIndex, d: int, i: int, k: (bool, Seq<char>, Seq<char>)) -> bool {
    let docs = index.documents@;
    exists|d2: int, i2: int|
        0 <= d2 < docs.len() && described(docs[d2]) && 0 <= i2 < docs[d2].symbols@.len() && (d2 < d || (d2 == d && i2
            < i)) && spec_key(docs[d2].relative_path@, (#[trigger] docs[d2].symbols@[i2]).symbol@) == k && names_definition(
            docs[d2].symbols@[i2],
            docs[d2].symbols@[i2].relationships@.len() as int,
        )
}

/// As `doc_names_upto`, naming `t` among the keys that define `k`.
pub open spec fn doc_defines_upto(
    index: ScipIndex,
    d: int,
    i: int,
    k: (bool, Seq<char>, Seq<char>),
    t: (bool, Seq<char>, Seq<char>),
) -> bool {
    let docs = index.documents@;
    exists|d2: int, i2: int|
        0 <= d2 < docs.len() && described(docs[d2]) && 0 <= i2 < docs[d2].symbols@.len() && (d2 < d || (d2 == d && i2
            < i)) && spec_key(docs[d2].relative_path@, (#[trigger] docs[d2].symbols@[i2]).symbol@) == k
            && definition_targets(
            docs[d2].relative_path@,
            docs[d2].symbols@[i2],
            docs[d2].symbols@[i2].relationships@.len() as int,
        ).contains(t)
}

/// One of the first `e` external symbols, under the empty path, is for key
/// `k` and names a key that defines it.
pub open spec fn ext_names_upto(index: ScipIndex, e: int, k: (bool, Seq<char>, Seq<char>)) -> bool {
    let ext = index.external_symbols@;
    exists|i: int|
        0 <= i < e && i < ext.len() && (false, Seq::<char>::empty(), (#[trigger] ext[i]).symbol@) == k && names_definition(
            ext[i],
            ext[i].relationships@.len() as int,
        )
}

/// As `ext_names_upto`, naming `t` among the keys that define `k`.
pub open spec fn ext_defines_upto(
    index: ScipIndex,
    e: int,
    k: (bool, Seq<char>, Seq<char>),
    t: (bool, Seq<char>, Seq<char>),
) -> bool {
    let ext = index.external_symbols@;
    exists|i: int|
        0 <= i < e && i < ext.len() && (false, Seq::<char>::empty(), (#[trigger] ext[i]).symbol@) == k
            && definition_targets(Seq::empty(), ext[i], ext[i].relationships@.len() as int).contains(t)
}

/// Some symbol information of the index, of a described document under its
/// path or of the external symbols under the empty path, is for key `k` and
/// names a key that defines it.
pub open spec fn index_names_definition(index: ScipIndex, k: (bool, Seq<char>, Seq<char>)) -> bool {
    doc_names_upto(index, index.documents@.len() as int, 0, k) || ext_names_upto(
        index,
        index.external_symbols@.len() as int,
        k,
    )
}

/// As `index_names_definition`, naming `t` among the keys that define `k`.
pub open spec fn index_defines(
    index: ScipIndex,
    k: (bool, Seq<char>, Seq<char>),
    t: (bool, Seq<char>, Seq<char>),
) -> bool {
    doc_defines_upto(index, index.documents@.len() as int, 0, k, t) || ext_defines_upto(
        index,
        index.external_symbols@.len() as int,
        k,
        t,
    )
}

/// No two entries share a key.
pub open spec fn unique_keys<V>(entries: Seq<(SymbolKey, V)>) -> bool {
    forall|i: int, j: int|
        0 <= i < j < entries.len() ==> key_view((#[trigger] entries[i]).0) != key_view((#[trigger] entries[j]).0)
}

/// `relation` holds the definitions named so far: of the documents before
/// symbol `i` of document `d`, and of the first `e` external symbols.
pub open spec fn relation_upto(index: ScipIndex, d: int, i: int, e: int, relation: Seq<(SymbolKey, Vec<SymbolKey>)>) -> bool {
    &&& unique_keys(relation)
    &&& forall|k: (bool, Seq<char>, Seq<char>)|
        #[trigger] has_entry(relation, k) <==> (doc_names_upto(index, d, i, k) || ext_names_upto(index, e, k))
    &&& forall|k: (bool, Seq<char>, Seq<char>), t: (bool, Seq<char>, Seq<char>)|
        #[trigger] defined_by(relation, k).contains(t) <==> (doc_defines_upto(index, d, i, k, t) || ext_defines_upto(
            index,
            e,
            k,
            t,
        ))
}

/// `relation` holds one entry per key that the index says others define,
/// with exactly the keys it names as defining it.
pub open spec fn relation_of(index: ScipIndex, relation: Seq<(SymbolKey, Vec<SymbolKey>)>) -> bool {
    &&& unique_keys(relation)
    &&& forall|k: (bool, Seq<char>, Seq<char>)| #[trigger] has_entry(relation, k) <==> index_names_definition(index, k)
    &&& forall|k: (bool, Seq<char>, Seq<char>), t: (bool, Seq<char>, Seq<char>)|
        #[trigger] defined_by(relation, k).contains(t) <==> index_defines(index, k, t)
}

/// The definitions named by symbol `i` of described document `d` join those
/// named before it.
proof fn lemma_relation_symbol(
    index: ScipIndex,
    d: int,
    i: int,
    old: Seq<(SymbolKey, Vec<SymbolKey>)>,
    new: Seq<(SymbolKey, Vec<SymbolKey>)>,
)
    requires
        0 <= d < index.documents@.len(),
        described(index.documents@[d]),
        0 <= i < index.documents@[d].symbols@.len(),
        relation_upto(index, d, i, 0, old),
        unique_keys(new),
        ({
            let doc = index.documents@[d];
            let info = doc.symbols@[i];
            let o = spec_key(doc.relative_path@, info.symbol@);
            &&& forall|k: (bool, Seq<char>, Seq<char>)|
                #[trigger] has_entry(new, k) == (has_entry(old, k) || (k == o && names_definition(
                    info,
                    info.relationships@.len() as int,
                )))
            &&& forall|k: (bool, Seq<char>, Seq<char>)|
                #[trigger] defined_by(new, k) == if k == o {
                    defined_by(old, k).union(definition_targets(doc.relative_path@, info, info.relationships@.len() as int))
                } else {
                    defined_by(old, k)
                }
        }),
    ensures
        relation_upto(index, d, i + 1, 0, new),
{
    let docs = index.documents@;
    let doc = docs[d];
    let info = doc.symbols@[i];
    let o = spec_key(doc.relative_path@, info.symbol@);
    let n = info.relationships@.len() as int;
    assert forall|k: (bool, Seq<char>, Seq<char>)|
        #[trigger] has_entry(new, k) <==> (doc_names_upto(index, d, i + 1, k) || ext_names_upto(index, 0, k)) by {
        if doc_names_upto(index, d, i + 1, k) {
            let (d2, i2) = choose|d2: int, i2: int|
                0 <= d2 < docs.len() && described(docs[d2]) && 0 <= i2 < docs[d2].symbols@.len() && (d2 < d || (d2 == d
                    && i2 < i + 1)) && spec_key(docs[d2].relative_path@, (#[trigger] docs[d2].symbols@[i2]).symbol@) == k
                    && names_definition(docs[d2].symbols@[i2], docs[d2].symbols@[i2].relationships@.len() as int);
            if d2 < d || i2 < i {
                assert(doc_names_upto(index, d, i, k));
            }
        }
        if doc_names_upto(index, d, i, k) {
            let (d2, i2) = choose|d2: int, i2: int|
                0 <= d2 < docs.len() && described(docs[d2]) && 0 <= i2 < docs[d2].symbols@.len() && (d2 < d || (d2 == d
                    && i2 < i)) && spec_key(docs[d2].relative_path@, (#[trigger] docs[d2].symbols@[i2]).symbol@) == k
                    && names_definition(docs[d2].symbols@[i2], docs[d2].symbols@[i2].relationships@.len() as int);
            assert(doc_names_upto(index, d, i + 1, k));
        }
        if k == o && names_definition(info, n) {
            assert(docs[d].symbols@[i] == info);
            assert(doc_names_upto(index, d, i + 1, k));
        }
    }
    assert forall|k: (bool, Seq<char>, Seq<char>), t: (bool, Seq<char>, Seq<char>)|
        #[trigger] defined_by(new, k).contains(t) <==> (doc_defines_upto(index, d, i + 1, k, t) || ext_defines_upto(
            index,
            0,
            k,
            t,
        )) by {
        if doc_defines_upto(index, d, i + 1, k, t) {
            let (d2, i2) = choose|d2: int, i2: int|
                0 <= d2 < docs.len() && described(docs[d2]) && 0 <= i2 < docs[d2].symbols@.len() && (d2 < d || (d2 == d
                    && i2 < i + 1)) && spec_key(docs[d2].relative_path@, (#[trigger] docs[d2].symbols@[i2]).symbol@) == k
                    && definition_targets(
                    docs[d2].relative_path@,
                    docs[d2].symbols@[i2],
                    docs[d2].symbols@[i2].relationships@.len() as int,
                ).contains(t);
            if d2 < d || i2 < i {
                assert(doc_defines_upto(index, d, i, k, t));
            }
        }
        if doc_defines_upto(index, d, i, k, t) {
            let (d2, i2) = choose|d2: int, i2: int|
                0 <= d2 < docs.len() && described(docs[d2]) && 0 <= i2 < docs[d2].symbols@.len() && (d2 < d || (d2 == d
                    && i2 < i)) && spec_key(docs[d2].relative_path@, (#[trigger] docs[d2].symbols@[i2]).symbol@) == k
                    && definition_targets(
                    docs[d2].relative_path@,
                    docs[d2].symbols@[i2],
                    docs[d2].symbols@[i2].relationships@.len() as int,
                ).contains(t);
            assert(doc_defines_upto(index, d, i + 1, k, t));
        }
        if k == o && definition_targets(doc.relative_path@, info, n).contains(t) {
            assert(docs[d].symbols@[i] == info);
            assert(doc_defines_upto(index, d, i + 1, k, t));
        }
    }
}

/// After document `d`, whether described or not, the definitions named are
/// those before the next document.
proof fn lemma_relation_doc(index: ScipIndex, d: int, rel: Seq<(SymbolKey, Vec<SymbolKey>)>)
    requires
        0 <= d < index.documents@.len(),
        described(index.documents@[d]) ==> relation_upto(
            index,
            d,
            index.documents@[d].symbols@.len() as int,
            0,
            rel,
        ),
        !described(index.documents@[d]) ==> relation_upto(index, d, 0, 0, rel),
    ensures
        relation_upto(index, d + 1, 0, 0, rel),
{
    let docs = index.documents@;
    let m: int = if described(docs[d]) {
        docs[d].symbols@.len() as int
    } else {
        0
    };
    assert forall|k: (bool, Seq<char>, Seq<char>)| doc_names_upto(index, d + 1, 0, k) <==> #[trigger] doc_names_upto(
        index,
        d,
        m,
        k,
    ) by {
        if doc_names_upto(index, d + 1, 0, k) {
            let (d2, i2) = choose|d2: int, i2: int|
                0 <= d2 < docs.len() && described(docs[d2]) && 0 <= i2 < docs[d2].symbols@.len() && (d2 < d + 1 || (d2
                    == d + 1 && i2 < 0)) && spec_key(docs[d2].relative_path@, (#[trigger] docs[d2].symbols@[i2]).symbol@)
                    == k && names_definition(docs[d2].symbols@[i2], docs[d2].symbols@[i2].relationships@.len() as int);
            assert(doc_names_upto(index, d, m, k));
        }
        if doc_names_upto(index, d, m, k) {
            let (d2, i2) = choose|d2: int, i2: int|
                0 <= d2 < docs.len() && described(docs[d2]) && 0 <= i2 < docs[d2].symbols@.len() && (d2 < d || (d2 == d
                    && i2 < m)) && spec_key(docs[d2].relative_path@, (#[trigger] docs[d2].symbols@[i2]).symbol@) == k
                    && names_definition(docs[d2].symbols@[i2], docs[d2].symbols@[i2].relationships@.len() as int);
            assert(doc_names_upto(index, d + 1, 0, k));
        }
    }
    assert forall|k: (bool, Seq<char>, Seq<char>), t: (bool, Seq<char>, Seq<char>)|
        doc_defines_upto(index, d + 1, 0, k, t) <==> #[trigger] doc_defines_upto(index, d, m, k, t) by {
        if doc_defines_upto(index, d + 1, 0, k, t) {
            let (d2, i2) = choose|d2: int, i2: int|
                0 <= d2 < docs.len() && described(docs[d2]) && 0 <= i2 < docs[d2].symbols@.len() && (d2 < d + 1 || (d2
                    == d + 1 && i2 < 0)) && spec_key(docs[d2].relative_path@, (#[trigger] docs[d2].symbols@[i2]).symbol@)
                    == k && definition_targets(
                    docs[d2].relative_path@,
                    docs[d2].symbols@[i2],
                    docs[d2].symbols@[i2].relationships@.len() as int,
                ).contains(t);
            assert(doc_defines_upto(index, d, m, k, t));
        }
        if doc_defines_upto(index, d, m, k, t) {
            let (d2, i2) = choose|d2: int, i2: int|
                0 <= d2 < docs.len() && described(docs[d2]) && 0 <= i2 < docs[d2].symbols@.len() && (d2 < d || (d2 == d
                    && i2 < m)) && spec_key(docs[d2].relative_path@, (#[trigger] docs[d2].symbols@[i2]).symbol@) == k
                    && definition_targets(
                    docs[d2].relative_path@,
                    docs[d2].symbols@[i2],
                    docs[d2].symbols@[i2].relationships@.len() as int,
                ).contains(t);
            assert(doc_defines_upto(index, d + 1, 0, k, t));
        }
    }
}

/// The definitions named by external symbol `e` join those named before it.
proof fn lemma_relation_external(
    index: ScipIndex,
    e: int,
    old: Seq<(SymbolKey, Vec<SymbolKey>)>,
    new: Seq<(SymbolKey, Vec<SymbolKey>)>,
)
    requires
        0 <= e < index.external_symbols@.len(),
        relation_upto(index, index.documents@.len() as int, 0, e, old),
        unique_keys(new),
        ({
            let info = index.external_symbols@[e];
            let o = (false, Seq::<char>::empty(), info.symbol@);
            &&& forall|k: (bool, Seq<char>, Seq<char>)|
                #[trigger] has_entry(new, k) == (has_entry(old, k) || (k == o && names_definition(
                    info,
                    info.relationships@.len() as int,
                )))
            &&& forall|k: (bool, Seq<char>, Seq<char>)|
                #[trigger] defined_by(new, k) == if k == o {
                    defined_by(old, k).union(definition_targets(Seq::empty(), info, info.relationships@.len() as int))
                } else {
                    defined_by(old, k)
                }
        }),
    ensures
        relation_upto(index, index.documents@.len() as int, 0, e + 1, new),
{
    let ext = index.external_symbols@;
    let nd = index.documents@.len() as int;
    let info = ext[e];
    let o = (false, Seq::<char>::empty(), info.symbol@);
    let n = info.relationships@.len() as int;
    assert forall|k: (bool, Seq<char>, Seq<char>)|
        #[trigger] has_entry(new, k) <==> (doc_names_upto(index, nd, 0, k) || ext_names_upto(index, e + 1, k)) by {
        if ext_names_upto(index, e + 1, k) {
            let i = choose|i: int|
                0 <= i < e + 1 && i < ext.len() && (false, Seq::<char>::empty(), (#[trigger] ext[i]).symbol@) == k
                    && names_definition(ext[i], ext[i].relationships@.len() as int);
            if i < e {
                assert(ext_names_upto(index, e, k));
            }
        }
        if ext_names_upto(index, e, k) {
            let i = choose|i: int|
                0 <= i < e && i < ext.len() && (false, Seq::<char>::empty(), (#[trigger] ext[i]).symbol@) == k
                    && names_definition(ext[i], ext[i].relationships@.len() as int);
            assert(ext_names_upto(index, e + 1, k));
        }
        if k == o && names_definition(info, n) {
            assert(ext_names_upto(index, e + 1, k));
        }
    }
    assert forall|k: (bool, Seq<char>, Seq<char>), t: (bool, Seq<char>, Seq<char>)|
        #[trigger] defined_by(new, k).contains(t) <==> (doc_defines_upto(index, nd, 0, k, t) || ext_defines_upto(
            index,
            e + 1,
            k,
            t,
        )) by {
        if ext_defines_upto(index, e + 1, k, t) {
            let i = choose|i: int|
                0 <= i < e + 1 && i < ext.len() && (false, Seq::<char>::empty(), (#[trigger] ext[i]).symbol@) == k
                    && definition_targets(Seq::empty(), ext[i], ext[i].relationships@.len() as int).contains(t);
            if i < e {
                assert(ext_defines_upto(index, e, k, t));
            }
        }
        if ext_defines_upto(index, e, k, t) {
            let i = choose|i: int|
                0 <= i < e && i < ext.len() && (false, Seq::<char>::empty(), (#[trigger] ext[i]).symbol@) == k
                    && definition_targets(Seq::empty(), ext[i], ext[i].relationships@.len() as int).contains(t);
            assert(ext_defines_upto(index, e + 1, k, t));
        }
        if k == o && definition_targets(Seq::empty(), info, n).contains(t) {
            assert(ext_defines_upto(index, e + 1, k, t));
        }
    }
}

/// An entry for `k` among the first `n` entries makes one of them the first
/// entry for `k`.
proof fn lemma_first_exists(nodes: Seq<(SymbolKey, String)>, k: (bool, Seq<char>, Seq<char>), n: int)
    requires
        0 <= n <= nodes.len(),
        exists|i: int| 0 <= i < n && key_view(#[trigger] nodes[i].0) == k,
    ensures
        exists|i: int|
            0 <= i < nodes.len() && key_view(#[trigger] nodes[i].0) == k && forall|j: int|
                0 <= j < i ==> key_view((#[trigger] nodes[j]).0) != k,
    decreases n,
{
    if exists|i: int| 0 <= i < n - 1 && key_view(#[trigger] nodes[i].0) == k {
        lemma_first_exists(nodes, k, n - 1);
    } else {
        let i = n - 1;
        assert(key_view(nodes[i].0) == k);
        assert forall|j: int| 0 <= j < i implies key_view((#[trigger] nodes[j]).0) != k by {}
    }
}

/// A map from the keys of the index, each to the id of its node.
proof fn lemma_node_map(index: ScipIndex, build_id: Seq<char>, keys: Seq<SymbolKey>, nodes: Seq<(SymbolKey, String)>)
    requires
        forall|x: (bool, Seq<char>, Seq<char>)| #[trigger] key_views(keys).contains(x) <==> index_key(index, x),
        nodes.len() == keys.len(),
        forall|j: int|
            0 <= j < keys.len() ==> key_view((#[trigger] nodes[j]).0) == key_view(keys[j]) && nodes[j].1@ == spec_node_id(
                key_view(keys[j]),
                build_id,
            ),
    ensures
        node_map_of(index, build_id, nodes),
{
    assert forall|k: (bool, Seq<char>, Seq<char>)|
        #![trigger node_id_of(nodes, k)]
        (node_id_of(nodes, k) is Some <==> index_key(index, k)) && (node_id_of(nodes, k) matches Some(id) ==> id@
            == spec_node_id(k, build_id)) by {
        if index_key(index, k) {
            assert(key_views(keys).contains(k));
            let j = choose|j: int| 0 <= j < key_views(keys).len() && #[trigger] key_views(keys)[j] == k;
            assert(key_view(nodes[j].0) == key_view(keys[j]));
            assert(exists|i: int| 0 <= i < nodes.len() && key_view(#[trigger] nodes[i].0) == k);
        }
        if exists|i: int| 0 <= i < nodes.len() && key_view(#[trigger] nodes[i].0) == k {
            lemma_first_exists(nodes, k, nodes.len() as int);
            let i = choose|i: int|
                0 <= i < nodes.len() && key_view(#[trigger] nodes[i].0) == k && forall|j: int|
                    0 <= j < i ==> key_view((#[trigger] nodes[j]).0) != k;
            assert(node_id_of(nodes, k) == Some(nodes[i].1));
            assert(key_view(keys[i]) == k);
            assert(key_views(keys)[i] == k);
            assert(key_views(keys).contains(k));
        }
    }
}

/// A list of one text holds exactly that text.
proof fn lemma_text_set_one(v: Seq<String>)
    requires
        v.len() == 1,
    ensures
        text_set(v) == set![v[0]@],
{
    assert forall|y: Seq<char>| text_set(v).contains(y) <==> set![v[0]@].contains(y) by {
        if y == v[0]@ {
            assert(views(v)[0] == y);
        }
    }
    assert(text_set(v) =~= set![v[0]@]);
}

/// `nodes` gives each key of the index the id of its node under `build_id`,
/// and no other key an id.
pub open spec fn node_map_of(index: ScipIndex, build_id: Seq<char>, nodes: Seq<(SymbolKey, String)>) -> bool {
    forall|k: (bool, Seq<char>, Seq<char>)|
        #![trigger node_id_of(nodes, k)]
        (node_id_of(nodes, k) is Some <==> index_key(index, k)) && (node_id_of(nodes, k) matches Some(id) ==> id@
            == spec_node_id(k, build_id))
}

/// `ts` lists, ascending, the targets used by the non-defining occurrences
/// at range `r` of a document.
pub open spec fn targets_at(document: ScipDocument, r: SourceRange, ts: Seq<(Seq<char>, bool)>) -> bool {
    &&& targets_sorted(ts)
    &&& forall|t: (Seq<char>, bool)|
        ts.contains(t) <==> #[trigger] reference_used(document, document.occurrences@.len() as int, r, t)
}

/// The keys of the symbols that a list of targets names, in a document at
/// `path`.
pub open spec fn target_keys(path: Seq<char>, ts: Seq<(Seq<char>, bool)>) -> Seq<(bool, Seq<char>, Seq<char>)> {
    ts.map_values(|t: (Seq<char>, bool)| spec_key(path, t.0))
}

/// `y` is the id of the node of an external symbol of the index that no
/// described document defines.
pub open spec fn external_node(index: ScipIndex, build_id: Seq<char>, y: Seq<char>) -> bool {
    exists|k: (bool, Seq<char>, Seq<char>)|
        external_key(index, index.external_symbols@.len() as int, k) && !defined_upto(
            index.documents@,
            index.documents@.len() as int,
            k,
        ) && index_key(index, k) && #[trigger] spec_node_id(k, build_id) == y
}

/// The outcome recorded for references whose targets resolve to `c`: a
/// definition cycle gives an unknown outcome for that reason; no node, an
/// unknown outcome for another reason; one node, that node, within the
/// graph or, when it is the node of an external symbol that no described
/// document defines, outside it; more nodes, all of them, ascending, as
/// ambiguous.
pub open spec fn outcome_for(index: ScipIndex, build_id: Seq<char>, c: Option<Set<Seq<char>>>, o: Resolution) -> bool {
    match c {
        None => o matches Resolution::Unknown { reason } && reason.kind == UnknownReasonKind::DefinitionCycle,
        Some(s) => match o {
            Resolution::Resolved { node } => s == set![node@] && !external_node(index, build_id, node@),
            Resolution::External { node } => s == set![node@] && external_node(index, build_id, node@),
            Resolution::Ambiguous { candidates } => sorted_strict(views(candidates@)) && candidates@.len() > 1 && text_set(
                candidates@,
            ) == s,
            Resolution::Unknown { reason } => s == Set::<Seq<char>>::empty() && reason.kind != UnknownReasonKind::DefinitionCycle,
        },
    }
}

/// Range `b` covers range `r` entirely.
pub open spec fn range_covers(b: SourceRange, r: SourceRange) -> bool {
    position_le(b.start_line, b.start_column, r.start_line, r.start_column) && position_le(
        r.end_line,
        r.end_column,
        b.end_line,
        b.end_column,
    )
}

/// The size of a range: its line span, then its column span, each
/// saturating at zero.
pub open spec fn range_span(b: SourceRange) -> (int, int) {
    (
        if b.end_line >= b.start_line { b.end_line - b.start_line } else { 0 },
        if b.end_column >= b.start_column { b.end_column - b.start_column } else { 0 },
    )
}

/// Size order: by line span, then by column span.
pub open spec fn span_lt(a: (int, int), b: (int, int)) -> bool {
    a.0 < b.0 || (a.0 == b.0 && a.1 < b.1)
}

/// Occurrence `o` of document `d` defines a symbol, at a well-formed range,
/// in a document the adapter describes.
pub open spec fn definition_site(docs: Seq<ScipDocument>, d: int, o: int) -> bool {
    &&& 0 <= d < docs.len()
    &&& described(docs[d])
    &&& 0 <= o < docs[d].occurrences@.len()
    &&& is_definition_occurrence(docs[d].occurrences@[o])
    &&& spec_range_of(docs[d].occurrences@[o].range@) is Some
}

/// Definition site `o` of document `d`, a document at `path`, has a body
/// (its enclosing range) that covers range `r`.
pub open spec fn covers_at(docs: Seq<ScipDocument>, d: int, o: int, path: Seq<char>, r: SourceRange) -> bool {
    &&& definition_site(docs, d, o)
    &&& docs[d].relative_path@ == path
    &&& spec_range_of(docs[d].occurrences@[o].enclosing_range@) is Some
    &&& range_covers(spec_range_of(docs[d].occurrences@[o].enclosing_range@)->0, r)
}

/// The size of the body of definition site `o` of document `d`.
pub open spec fn site_span(docs: Seq<ScipDocument>, d: int, o: int) -> (int, int) {
    range_span(spec_range_of(docs[d].occurrences@[o].enclosing_range@)->0)
}

/// The id of the node of the symbol that site `o` of document `d` defines.
pub open spec fn site_node(docs: Seq<ScipDocument>, d: int, o: int, build_id: Seq<char>) -> Seq<char> {
    spec_node_id(spec_key(docs[d].relative_path@, docs[d].occurrences@[o].symbol@), build_id)
}

/// The source of references at range `r` of the documents at `path`: none
/// when no definition there has a body covering the range; else the node
/// of a definition with one of the smallest such bodies.
pub open spec fn source_fits(
    docs: Seq<ScipDocument>,
    build_id: Seq<char>,
    path: Seq<char>,
    r: SourceRange,
    source: Option<String>,
) -> bool {
    match source {
        None => forall|d: int, o: int| !#[trigger] covers_at(docs, d, o, path, r),
        Some(s) => exists|d: int, o: int|
            #[trigger] covers_at(docs, d, o, path, r) && s@ == site_node(docs, d, o, build_id) && forall|d3: int, o3: int|
                #[trigger] covers_at(docs, d3, o3, path, r) ==> !span_lt(site_span(docs, d3, o3), site_span(docs, d, o)),
    }
}

/// `def` records definition site `o` of document `d`.
spec fn records(docs: Seq<ScipDocument>, d: int, o: int, def: Definition) -> bool {
    &&& key_view(def.key) == spec_key(docs[d].relative_path@, docs[d].occurrences@[o].symbol@)
    &&& def.location.path@ == docs[d].relative_path@
    &&& def.location.range == spec_range_of(docs[d].occurrences@[o].range@)->0
    &&& def.location.encoding == docs[d].position_encoding
    &&& def.body == spec_range_of(docs[d].occurrences@[o].enclosing_range@)
}

/// Two definitions record the same thing.
spec fn same_def(a: Definition, b: Definition) -> bool {
    &&& key_view(a.key) == key_view(b.key)
    &&& a.location.path@ == b.location.path@
    &&& a.location.range == b.location.range
    &&& a.location.encoding == b.location.encoding
    &&& a.body == b.body
}

/// The definition records some definition site.
spec fn def_ok(docs: Seq<ScipDocument>, def: Definition) -> bool {
    exists|d: int, o: int| definition_site(docs, d, o) && #[trigger] records(docs, d, o, def)
}

/// Every definition held records some definition site.
spec fn defs_sound(docs: Seq<ScipDocument>, defs: Seq<(SymbolKey, Vec<Definition>)>) -> bool {
    forall|i: int, j: int|
        #![trigger defs[i].1@[j]]
        0 <= i < defs.len() && 0 <= j < defs[i].1@.len() ==> def_ok(docs, defs[i].1@[j])
}

/// Some definition held records site `o` of document `d`.
spec fn site_recorded(docs: Seq<ScipDocument>, defs: Seq<(SymbolKey, Vec<Definition>)>, d: int, o: int) -> bool {
    exists|i: int, j: int| 0 <= i < defs.len() && 0 <= j < defs[i].1@.len() && #[trigger] records(docs, d, o, defs[i].1@[j])
}

/// Every definition site before occurrence `o` of document `d` is recorded.
spec fn defs_complete(docs: Seq<ScipDocument>, defs: Seq<(SymbolKey, Vec<Definition>)>, d: int, o: int) -> bool {
    forall|d2: int, o2: int|
        #[trigger] definition_site(docs, d2, o2) && (d2 < d || (d2 == d && o2 < o)) ==> site_recorded(docs, defs, d2, o2)
}

/// Site `o` of document `d` joins the list of entry `p`.
proof fn lemma_defs_update(
    docs: Seq<ScipDocument>,
    old: Seq<(SymbolKey, Vec<Definition>)>,
    new: Seq<(SymbolKey, Vec<Definition>)>,
    p: int,
    def: Definition,
    d: int,
    o: int,
)
    requires
        0 <= p < old.len(),
        new.len() == old.len(),
        forall|i: int| 0 <= i < old.len() && i != p ==> #[trigger] new[i] == old[i],
        new[p].1@ == old[p].1@.push(def),
        definition_site(docs, d, o),
        records(docs, d, o, def),
        defs_sound(docs, old),
        defs_complete(docs, old, d, o),
    ensures
        defs_sound(docs, new),
        defs_complete(docs, new, d, o + 1),
{
    assert forall|i: int, j: int|
        #![trigger new[i].1@[j]]
        0 <= i < new.len() && 0 <= j < new[i].1@.len() implies def_ok(docs, new[i].1@[j]) by {
        if i != p || j < old[p].1@.len() {
            assert(new[i].1@[j] == old[i].1@[j]);
            assert(def_ok(docs, old[i].1@[j]));
        } else {
            assert(new[i].1@[j] == def);
            assert(records(docs, d, o, new[i].1@[j]));
        }
    }
    assert forall|d2: int, o2: int|
        #[trigger] definition_site(docs, d2, o2) && (d2 < d || (d2 == d && o2 < o + 1)) implies site_recorded(
        docs,
        new,
        d2,
        o2,
    ) by {
        if d2 == d && o2 == o {
            assert(new[p].1@[old[p].1@.len() as int] == def);
            assert(records(docs, d2, o2, new[p].1@[old[p].1@.len() as int]));
        } else {
            assert(site_recorded(docs, old, d2, o2));
            let (i, j) = choose|i: int, j: int|
                0 <= i < old.len() && 0 <= j < old[i].1@.len() && #[trigger] records(docs, d2, o2, old[i].1@[j]);
            if i != p {
                assert(new[i].1@[j] == old[i].1@[j]);
                assert(records(docs, d2, o2, new[i].1@[j]));
            } else {
                assert(new[p].1@[j] == old[p].1@[j]);
                assert(records(docs, d2, o2, new[p].1@[j]));
            }
        }
    }
}

/// Site `o` of document `d` becomes a new entry at `p`.
proof fn lemma_defs_insert(
    docs: Seq<ScipDocument>,
    old: Seq<(SymbolKey, Vec<Definition>)>,
    new: Seq<(SymbolKey, Vec<Definition>)>,
    p: int,
    def: Definition,
    d: int,
    o: int,
)
    requires
        0 <= p <= old.len(),
        new == old.insert(p, new[p]),
        new[p].1@ == seq![def],
        definition_site(docs, d, o),
        records(docs, d, o, def),
        defs_sound(docs, old),
        defs_complete(docs, old, d, o),
    ensures
        defs_sound(docs, new),
        defs_complete(docs, new, d, o + 1),
{
    assert forall|i: int, j: int|
        #![trigger new[i].1@[j]]
        0 <= i < new.len() && 0 <= j < new[i].1@.len() implies def_ok(docs, new[i].1@[j]) by {
        if i != p {
            let i0 = if i < p { i } else { i - 1 };
            assert(new[i] == old[i0]);
            assert(def_ok(docs, old[i0].1@[j]));
        } else {
            assert(new[i].1@[j] == def);
            assert(records(docs, d, o, new[i].1@[j]));
        }
    }
    assert forall|d2: int, o2: int|
        #[trigger] definition_site(docs, d2, o2) && (d2 < d || (d2 == d && o2 < o + 1)) implies site_recorded(
        docs,
        new,
        d2,
        o2,
    ) by {
        if d2 == d && o2 == o {
            assert(new[p].1@[0] == def);
            assert(records(docs, d2, o2, new[p].1@[0]));
        } else {
            assert(site_recorded(docs, old, d2, o2));
            let (i, j) = choose|i: int, j: int|
                0 <= i < old.len() && 0 <= j < old[i].1@.len() && #[trigger] records(docs, d2, o2, old[i].1@[j]);
            if i < p {
                assert(new[i] == old[i]);
                assert(records(docs, d2, o2, new[i].1@[j]));
            } else {
                assert(new[i + 1] == old[i]);
                assert(records(docs, d2, o2, new[i + 1].1@[j]));
            }
        }
    }
}

/// An occurrence that is no definition site leaves the record complete one
/// step further.
proof fn lemma_defs_skip(docs: Seq<ScipDocument>, defs: Seq<(SymbolKey, Vec<Definition>)>, d: int, o: int)
    requires
        !definition_site(docs, d, o),
        defs_complete(docs, defs, d, o),
    ensures
        defs_complete(docs, defs, d, o + 1),
{
}

/// After document `d`, described or not, every site before the next one is
/// recorded.
proof fn lemma_defs_doc(docs: Seq<ScipDocument>, defs: Seq<(SymbolKey, Vec<Definition>)>, d: int)
    requires
        0 <= d < docs.len(),
        described(docs[d]) ==> defs_complete(docs, defs, d, docs[d].occurrences@.len() as int),
        !described(docs[d]) ==> defs_complete(docs, defs, d, 0),
    ensures
        defs_complete(docs, defs, d + 1, 0),
{
}

/// The paths of the groups.
spec fn group_paths(bp: Seq<(String, Vec<Definition>)>) -> Seq<Seq<char>> {
    bp.map_values(|g: (String, Vec<Definition>)| g.0@)
}

/// Every definition of a group is at the group's path and records a site.
spec fn groups_sound(docs: Seq<ScipDocument>, bp: Seq<(String, Vec<Definition>)>) -> bool {
    forall|p: int, j: int|
        #![trigger bp[p].1@[j]]
        0 <= p < bp.len() && 0 <= j < bp[p].1@.len() ==> bp[p].1@[j].location.path@ == bp[p].0@ && exists|d: int, o: int|
            definition_site(docs, d, o) && #[trigger] records(docs, d, o, bp[p].1@[j])
}

/// Some group at `e`'s path holds a definition recording what `e` does.
spec fn in_groups(bp: Seq<(String, Vec<Definition>)>, e: Definition) -> bool {
    exists|p: int, j: int|
        0 <= p < bp.len() && 0 <= j < bp[p].1@.len() && bp[p].0@ == e.location.path@ && #[trigger] same_def(bp[p].1@[j], e)
}

/// Every definition site is recorded in a group at its document's path.
spec fn groups_complete(docs: Seq<ScipDocument>, bp: Seq<(String, Vec<Definition>)>) -> bool {
    forall|d: int, o: int|
        #[trigger] definition_site(docs, d, o) ==> exists|q: int, j: int|
            0 <= q < bp.len() && 0 <= j < bp[q].1@.len() && bp[q].0@ == docs[d].relative_path@ && #[trigger] records(
                docs,
                d,
                o,
                bp[q].1@[j],
            )
}

/// The groups hold, at their paths and in path order, exactly the records
/// of the definition sites.
#[verifier::opaque]
spec fn groups_ok(docs: Seq<ScipDocument>, bp: Seq<(String, Vec<Definition>)>) -> bool {
    groups_sound(docs, bp) && sorted_strict(group_paths(bp)) && groups_complete(docs, bp)
}

/// `copy` joins group `p`.
proof fn lemma_groups_update(
    docs: Seq<ScipDocument>,
    old: Seq<(String, Vec<Definition>)>,
    new: Seq<(String, Vec<Definition>)>,
    p: int,
    copy: Definition,
)
    requires
        0 <= p < old.len(),
        new.len() == old.len(),
        forall|q: int| 0 <= q < old.len() && q != p ==> #[trigger] new[q] == old[q],
        new[p].0@ == old[p].0@,
        new[p].1@ == old[p].1@.push(copy),
        copy.location.path@ == old[p].0@,
        exists|d: int, o: int| definition_site(docs, d, o) && #[trigger] records(docs, d, o, copy),
        groups_sound(docs, old),
        sorted_strict(group_paths(old)),
    ensures
        groups_sound(docs, new),
        sorted_strict(group_paths(new)),
        forall|e: Definition| #[trigger] in_groups(old, e) ==> in_groups(new, e),
        in_groups(new, copy),
{
    assert(group_paths(new) =~= group_paths(old)) by {
        assert forall|q: int| 0 <= q < old.len() implies group_paths(new)[q] == group_paths(old)[q] by {
            if q != p {
                assert(new[q] == old[q]);
            }
        }
    }
    assert forall|q: int, j: int|
        #![trigger new[q].1@[j]]
        0 <= q < new.len() && 0 <= j < new[q].1@.len() implies new[q].1@[j].location.path@ == new[q].0@ && exists|
            d: int,
            o: int,
        | definition_site(docs, d, o) && #[trigger] records(docs, d, o, new[q].1@[j]) by {
        if q != p {
            assert(new[q].1@[j] == old[q].1@[j]);
        } else if j < old[p].1@.len() {
            assert(new[q].1@[j] == old[p].1@[j]);
        } else {
            assert(new[q].1@[j] == copy);
        }
    }
    assert forall|e: Definition| #[trigger] in_groups(old, e) implies in_groups(new, e) by {
        let (q, j) = choose|q: int, j: int|
            0 <= q < old.len() && 0 <= j < old[q].1@.len() && old[q].0@ == e.location.path@ && #[trigger] same_def(
                old[q].1@[j],
                e,
            );
        if q != p {
            assert(new[q].1@[j] == old[q].1@[j]);
            assert(same_def(new[q].1@[j], e));
        } else {
            assert(new[p].1@[j] == old[p].1@[j]);
            assert(same_def(new[p].1@[j], e));
        }
    }
    assert(new[p].1@[old[p].1@.len() as int] == copy);
    assert(same_def(new[p].1@[old[p].1@.len() as int], copy));
}

/// `copy` starts a new group at `p`, between the paths below and above it.
proof fn lemma_groups_insert(
    docs: Seq<ScipDocument>,
    old: Seq<(String, Vec<Definition>)>,
    new: Seq<(String, Vec<Definition>)>,
    p: int,
    copy: Definition,
)
    requires
        0 <= p <= old.len(),
        new == old.insert(p, new[p]),
        new[p].0@ == copy.location.path@,
        new[p].1@ == seq![copy],
        exists|d: int, o: int| definition_site(docs, d, o) && #[trigger] records(docs, d, o, copy),
        forall|q: int| 0 <= q < p ==> seq_lt((#[trigger] old[q]).0@, copy.location.path@),
        p < old.len() ==> seq_lt(copy.location.path@, old[p].0@),
        groups_sound(docs, old),
        sorted_strict(group_paths(old)),
    ensures
        groups_sound(docs, new),
        sorted_strict(group_paths(new)),
        forall|e: Definition| #[trigger] in_groups(old, e) ==> in_groups(new, e),
        in_groups(new, copy),
{
    let x = copy.location.path@;
    assert forall|a: int, b: int| 0 <= a < b < new.len() implies seq_lt(
        #[trigger] group_paths(new)[a],
        #[trigger] group_paths(new)[b],
    ) by {
        if b < p {
            assert(group_paths(old)[a] == group_paths(new)[a] && group_paths(old)[b] == group_paths(new)[b]);
        } else if b == p {
            assert(group_paths(new)[a] == old[a].0@);
        } else if a < p {
            assert(group_paths(new)[a] == old[a].0@);
            assert(group_paths(new)[b] == old[b - 1].0@);
            assert(seq_lt(x, old[p].0@));
            if b - 1 > p {
                assert(seq_lt(group_paths(old)[p], group_paths(old)[b - 1]));
                crate::order::lemma_seq_lt_transitive(x, old[p].0@, old[b - 1].0@);
            }
            crate::order::lemma_seq_lt_transitive(old[a].0@, x, old[b - 1].0@);
        } else if a == p {
            assert(group_paths(new)[b] == old[b - 1].0@);
            if b - 1 > p {
                assert(seq_lt(group_paths(old)[p], group_paths(old)[b - 1]));
                crate::order::lemma_seq_lt_transitive(x, old[p].0@, old[b - 1].0@);
            }
        } else {
            assert(group_paths(new)[a] == old[a - 1].0@);
            assert(group_paths(new)[b] == old[b - 1].0@);
            assert(seq_lt(group_paths(old)[a - 1], group_paths(old)[b - 1]));
        }
    }
    assert forall|q: int, j: int|
        #![trigger new[q].1@[j]]
        0 <= q < new.len() && 0 <= j < new[q].1@.len() implies new[q].1@[j].location.path@ == new[q].0@ && exists|
            d: int,
            o: int,
        | definition_site(docs, d, o) && #[trigger] records(docs, d, o, new[q].1@[j]) by {
        if q < p {
            assert(new[q] == old[q]);
        } else if q > p {
            assert(new[q] == old[q - 1]);
        } else {
            assert(new[q].1@[j] == copy);
        }
    }
    assert forall|e: Definition| #[trigger] in_groups(old, e) implies in_groups(new, e) by {
        let (q, j) = choose|q: int, j: int|
            0 <= q < old.len() && 0 <= j < old[q].1@.len() && old[q].0@ == e.location.path@ && #[trigger] same_def(
                old[q].1@[j],
                e,
            );
        if q < p {
            assert(new[q] == old[q]);
            assert(same_def(new[q].1@[j], e));
        } else {
            assert(new[q + 1] == old[q]);
            assert(same_def(new[q + 1].1@[j], e));
        }
    }
    assert(new[p].1@[0] == copy);
    assert(same_def(new[p].1@[0], copy));
}

/// The source found among the groups fits what the index says.
proof fn lemma_source_found(
    docs: Seq<ScipDocument>,
    bp: Seq<(String, Vec<Definition>)>,
    build_id: Seq<char>,
    path: Seq<char>,
    r: SourceRange,
    p: int,
    b: int,
)
    requires
        groups_ok(docs, bp),
        first_group(bp, path, p),
        innermost(bp[p].1@, r, b),
    ensures
        forall|s: String|
            s@ == spec_node_id(key_view(bp[p].1@[b].key), build_id) ==> #[trigger] source_fits(
                docs,
                build_id,
                path,
                r,
                Some(s),
            ),
{
    reveal(groups_ok);
    let (d, o) = choose|d: int, o: int| definition_site(docs, d, o) && #[trigger] records(docs, d, o, bp[p].1@[b]);
    assert(covers_at(docs, d, o, path, r));
    assert forall|d3: int, o3: int| #[trigger] covers_at(docs, d3, o3, path, r) implies !span_lt(
        site_span(docs, d3, o3),
        site_span(docs, d, o),
    ) by {
        lemma_source_smallest(docs, bp, path, r, p, b, d, o, d3, o3);
    }
    assert forall|s: String|
        s@ == spec_node_id(key_view(bp[p].1@[b].key), build_id) implies #[trigger] source_fits(
        docs,
        build_id,
        path,
        r,
        Some(s),
    ) by {
        assert(s@ == site_node(docs, d, o, build_id));
    }
}

/// No covering definition is smaller than the innermost one of the group.
#[verifier::spinoff_prover]
proof fn lemma_source_smallest(
    docs: Seq<ScipDocument>,
    bp: Seq<(String, Vec<Definition>)>,
    path: Seq<char>,
    r: SourceRange,
    p: int,
    b: int,
    d: int,
    o: int,
    d3: int,
    o3: int,
)
    requires
        sorted_strict(group_paths(bp)),
        groups_complete(docs, bp),
        first_group(bp, path, p),
        innermost(bp[p].1@, r, b),
        records(docs, d, o, bp[p].1@[b]),
        covers_at(docs, d3, o3, path, r),
    ensures
        !span_lt(site_span(docs, d3, o3), site_span(docs, d, o)),
{
    assert(definition_site(docs, d3, o3));
    let (q, j) = choose|q: int, j: int|
        0 <= q < bp.len() && 0 <= j < bp[q].1@.len() && bp[q].0@ == docs[d3].relative_path@ && #[trigger] records(
            docs,
            d3,
            o3,
            bp[q].1@[j],
        );
    if q != p {
        if q < p {
            assert(seq_lt(group_paths(bp)[q], group_paths(bp)[p]));
        } else {
            assert(seq_lt(group_paths(bp)[p], group_paths(bp)[q]));
        }
        crate::order::lemma_seq_lt_irreflexive(path);
    }
    assert(body_fits(bp[p].1@[j], r));
    assert(!size_lt(body_size(bp[p].1@[j]), body_size(bp[p].1@[b])));
}

/// No source found among the groups means none in the index.
proof fn lemma_source_none(
    docs: Seq<ScipDocument>,
    bp: Seq<(String, Vec<Definition>)>,
    path: Seq<char>,
    r: SourceRange,
)
    requires
        groups_ok(docs, bp),
        forall|p: int|
            first_group(bp, path, p) ==> forall|e: int|
                0 <= e < bp[p].1@.len() ==> !body_fits(#[trigger] bp[p].1@[e], r),
    ensures
        forall|d: int, o: int| !#[trigger] covers_at(docs, d, o, path, r),
{
    reveal(groups_ok);
    assert forall|d: int, o: int| !#[trigger] covers_at(docs, d, o, path, r) by {
        if covers_at(docs, d, o, path, r) {
            assert(definition_site(docs, d, o));
            let (q, j) = choose|q: int, j: int|
                0 <= q < bp.len() && 0 <= j < bp[q].1@.len() && bp[q].0@ == docs[d].relative_path@ && #[trigger] records(
                    docs,
                    d,
                    o,
                    bp[q].1@[j],
                );
            assert forall|q2: int| 0 <= q2 < q implies (#[trigger] bp[q2]).0@ != path by {
                assert(seq_lt(group_paths(bp)[q2], group_paths(bp)[q]));
                crate::order::lemma_seq_lt_irreflexive(path);
            }
            assert(first_group(bp, path, q));
            assert(body_fits(bp[q].1@[j], r));
        }
    }
}

/// A located fact stands at a location of a document the adapter
/// describes, with the kind of the references there and the outcome of
/// resolving their targets through `relation` and `nodes`.
pub open spec fn fact_fits(
    index: ScipIndex,
    relation: Seq<(SymbolKey, Vec<SymbolKey>)>,
    nodes: Seq<(SymbolKey, String)>,
    build_id: Seq<char>,
    f: ReferenceFact,
) -> bool {
    let docs = index.documents@;
    f.location is Some ==> {
        &&& exists|d: int, ts: Seq<(Seq<char>, bool)>|
            0 <= d < docs.len() && described(docs[d]) && docs[d].relative_path@ == f.location->0.path@ && f.kind
                == occurrence_kind(docs[d], f.location->0.range) && #[trigger] targets_at(docs[d], f.location->0.range, ts)
                && outcome_for(
                index,
                build_id,
                resolution_all(target_keys(docs[d].relative_path@, ts), relation, nodes, Seq::empty()),
                f.outcome,
            )
        &&& source_fits(docs, build_id, f.location->0.path@, f.location->0.range, f.source)
    }
}

/// The kind chosen for a group of references is the kind of the references
/// at its range.
proof fn lemma_group_kind(document: ScipDocument, refs: Seq<(Location, Vec<(String, bool)>)>, g: int, all_import: bool)
    requires
        groups_well_formed(refs, document),
        forall|rg: SourceRange, t: (Seq<char>, bool)|
            #[trigger] group_has(refs, rg, t) <==> reference_used(document, document.occurrences@.len() as int, rg, t),
        0 <= g < refs.len(),
        all_import == (forall|i: int| 0 <= i < refs[g].1@.len() ==> (#[trigger] refs[g].1@[i]).1),
    ensures
        (if all_import {
            EdgeKind::Import
        } else {
            EdgeKind::Reference
        }) == occurrence_kind(document, refs[g].0.range),
        targets_at(document, refs[g].0.range, target_views(refs[g].1@)),
{
    let rg = refs[g].0.range;
    let n = document.occurrences@.len() as int;
    assert forall|t: (Seq<char>, bool)|
        target_views(refs[g].1@).contains(t) <==> #[trigger] reference_used(document, n, rg, t) by {
        if reference_used(document, n, rg, t) {
            assert(group_has(refs, rg, t));
            let i = choose|i: int| 0 <= i < refs.len() && (#[trigger] refs[i]).0.range == rg && target_views(refs[i].1@).contains(t);
            if i < g {
                assert(range_lt(refs[i].0.range, refs[g].0.range));
            } else if g < i {
                assert(range_lt(refs[g].0.range, refs[i].0.range));
            }
        }
        if target_views(refs[g].1@).contains(t) {
            assert(group_has(refs, rg, t));
        }
    }
    if all_import {
        assert forall|t: (Seq<char>, bool)| #[trigger] reference_used(document, n, rg, t) implies t.1 by {
            assert(group_has(refs, rg, t));
            let i = choose|i: int| 0 <= i < refs.len() && (#[trigger] refs[i]).0.range == rg && target_views(refs[i].1@).contains(t);
            if i < g {
                assert(range_lt(refs[i].0.range, refs[g].0.range));
            } else if g < i {
                assert(range_lt(refs[g].0.range, refs[i].0.range));
            }
            let j = choose|j: int| 0 <= j < target_views(refs[g].1@).len() && target_views(refs[g].1@)[j] == t;
            assert(refs[g].1@[j].1);
        }
    } else {
        let i = choose|i: int| 0 <= i < refs[g].1@.len() && !(#[trigger] refs[g].1@[i]).1;
        let t = target_views(refs[g].1@)[i];
        assert(target_views(refs[g].1@).contains(t));
        assert(group_has(refs, rg, t));
        assert(reference_used(document, n, rg, t));
    }
}

/// Facts added without a location keep every fact fitting.
proof fn lemma_fits_kept(
    index: ScipIndex,
    rel: Seq<(SymbolKey, Vec<SymbolKey>)>,
    nodes: Seq<(SymbolKey, String)>,
    build_id: Seq<char>,
    facts0: Seq<ReferenceFact>,
    facts: Seq<ReferenceFact>,
)
    requires
        facts0.len() <= facts.len(),
        forall|k: int| 0 <= k < facts0.len() ==> #[trigger] facts[k] == facts0[k],
        forall|k: int| facts0.len() <= k < facts.len() ==> (#[trigger] facts[k]).location is None,
        forall|k: int| 0 <= k < facts0.len() ==> fact_fits(index, rel, nodes, build_id, #[trigger] facts0[k]),
    ensures
        forall|k: int| 0 <= k < facts.len() ==> fact_fits(index, rel, nodes, build_id, #[trigger] facts[k]),
{
    assert forall|k: int| 0 <= k < facts.len() implies fact_fits(index, rel, nodes, build_id, #[trigger] facts[k]) by {
        if k < facts0.len() {
            assert(facts[k] == facts0[k]);
        }
    }
}

/// Reordering the facts keeps every fact fitting.
proof fn lemma_fits_sorted(
    index: ScipIndex,
    rel: Seq<(SymbolKey, Vec<SymbolKey>)>,
    nodes: Seq<(SymbolKey, String)>,
    build_id: Seq<char>,
    facts0: Seq<ReferenceFact>,
    facts: Seq<ReferenceFact>,
)
    requires
        forall|k: int| 0 <= k < facts.len() ==> facts0.contains(#[trigger] facts[k]),
        forall|k: int| 0 <= k < facts0.len() ==> fact_fits(index, rel, nodes, build_id, #[trigger] facts0[k]),
    ensures
        forall|k: int| 0 <= k < facts.len() ==> fact_fits(index, rel, nodes, build_id, #[trigger] facts[k]),
{
    assert forall|k: int| 0 <= k < facts.len() implies fact_fits(index, rel, nodes, build_id, #[trigger] facts[k]) by {
        assert(facts0.contains(facts[k]));
        let j = choose|j: int| 0 <= j < facts0.len() && facts0[j] == facts[k];
        assert(fact_fits(index, rel, nodes, build_id, facts0[j]));
    }
}

/// The graph the adapter assembles from an index, before its integrity is
/// checked: it carries the provider's build under `build_id` and the
/// index's producer, names the documents it describes and those it does
/// not, keeps nodes, edges and facts sorted by id, and every edge stands on
/// facts that resolved to a node. Its nodes are those of the index's keys,
/// each of the broad kind of its provider kind; every reference location
/// has a fact and every located fact stands at one, with the kind of the
/// references there, the source that the definitions covering it give, and
/// the outcome of resolving its targets through the index's definition
/// relation and node map.
pub open spec fn assembled(index: ScipIndex, provider: ScipProvider, build_id: Seq<char>, g: CodeGraph) -> bool {
    let docs = index.documents@;
    &&& g.schema_version == SCHEMA_VERSION
    &&& g.build.id@ == build_id
    &&& g.build.provider_input_digest@ == provider.build.provider_input_digest@
    &&& g.producer.input_format@ == input_format()
    &&& views(g.scope.requested_roots@) == views(provider.requested_roots@)
    &&& views(g.scope.limitations@) == views(provider.limitations@)
    &&& sorted_strict(views(g.scope.included_documents@))
    &&& forall|y: Seq<char>|
        #[trigger] contains_view(views(g.scope.included_documents@), y) <==> exists|d: int|
            0 <= d < docs.len() && described(#[trigger] docs[d]) && docs[d].relative_path@ == y
    &&& sorted_strict(views(g.scope.languages@))
    &&& forall|y: Seq<char>|
        #[trigger] contains_view(views(g.scope.languages@), y) <==> exists|d: int|
            0 <= d < docs.len() && described(#[trigger] docs[d]) && spec_normalize_language(docs[d].language@) == y
    &&& sorted_strict(views(g.scope.external_documents@))
    &&& forall|y: Seq<char>|
        #[trigger] contains_view(views(g.scope.external_documents@), y) <==> exists|d: int|
            0 <= d < docs.len() && !described(#[trigger] docs[d]) && external_entry(docs[d].relative_path@) == y
    &&& forall|i: int, j: int| 0 <= i < j < g.nodes@.len() ==> !seq_lt(#[trigger] g.nodes@[j].id@, #[trigger] g.nodes@[i].id@)
    &&& forall|i: int, j: int| 0 <= i < j < g.edges@.len() ==> !seq_lt(#[trigger] g.edges@[j].id@, #[trigger] g.edges@[i].id@)
    &&& forall|i: int, j: int|
        0 <= i < j < g.references@.len() ==> !seq_lt(#[trigger] g.references@[j].id@, #[trigger] g.references@[i].id@)
    &&& forall|i: int, y: Seq<char>|
        0 <= i < g.edges@.len() && #[trigger] contains_view(views(g.edges@[i].evidence@), y) ==> #[trigger] backed(
            g.references@,
            y,
        )
    &&& forall|d: int, r: SourceRange, t: (Seq<char>, bool)|
        0 <= d < docs.len() && described(docs[d]) && #[trigger] reference_used(
            docs[d],
            docs[d].occurrences@.len() as int,
            r,
            t,
        ) ==> fact_at(g.references@, docs[d].relative_path@, r, docs[d].position_encoding)
    &&& forall|k: int|
        0 <= k < g.references@.len() && (#[trigger] g.references@[k]).location is Some ==> referenced_location(
            docs,
            docs.len() as int,
            g.references@[k].location->0,
        )
    &&& forall|k: int|
        0 <= k < g.references@.len() && #[trigger] edge_eligible(g.references@[k]) ==> edge_has(
            g.edges@,
            g.references@[k].source->0@,
            resolved_node(g.references@[k])->0@,
            g.references@[k].kind,
            g.references@[k].id@,
        )
    &&& forall|i: int| 0 <= i < g.nodes@.len() ==> node_of_index_key(index, build_id, #[trigger] g.nodes@[i])
    &&& forall|i: int| 0 <= i < g.nodes@.len() ==> (#[trigger] g.nodes@[i]).kind == spec_broad_kind(g.nodes@[i].provider_kind@)
    &&& exists|relation: Seq<(SymbolKey, Vec<SymbolKey>)>, nodes: Seq<(SymbolKey, String)>|
        #![trigger relation_of(index, relation), node_map_of(index, build_id, nodes)]
        relation_of(index, relation) && node_map_of(index, build_id, nodes) && forall|k: int|
            0 <= k < g.references@.len() ==> fact_fits(index, relation, nodes, build_id, #[trigger] g.references@[k])
    &&& forall|k: (bool, Seq<char>, Seq<char>)| #[trigger] index_key(index, k) ==> has_node_for(g.nodes@, build_id, k)
}

/// What the adapter's graph says of an index it imported: the graph it
/// assembled, internally consistent under `build_id`, recording that both
/// the input digest and the integrity check passed.
pub open spec fn imported(index: ScipIndex, provider: ScipProvider, build_id: Seq<char>, g: CodeGraph) -> bool {
    &&& assembled(index, provider, build_id, g)
    &&& first_issue(g, build_id) is None
    &&& g.validations@.len() == 2
    &&& g.validations@[0].name@ == "provider_input_digest"@
    &&& g.validations@[0].status == ValidationStatus::Passed
    &&& g.validations@[0].details@ == provider.build.provider_input_digest@
    &&& g.validations@[1].name@ == "graph_integrity"@
    &&& g.validations@[1].status == ValidationStatus::Passed
}

/// Every document names its path, and every symbol occurrence of a document
/// the adapter describes has a well-formed range.
pub open spec fn well_formed_index(index: ScipIndex) -> bool {
    forall|d: int|
        0 <= d < index.documents@.len() ==> (#[trigger] index.documents@[d]).relative_path@.len() > 0 && (described(
            index.documents@[d],
        ) ==> !has_malformed_range(index.documents@[d]))
}

/// What importing `index` for `provider` under `build_id` may give: the
/// imported graph; a refused path or malformed range that the index holds;
/// or an integrity issue of the graph the import assembled. A well-formed
/// index is refused only for integrity.
pub open spec fn import_outcome(
    index: ScipIndex,
    provider: ScipProvider,
    build_id: Seq<char>,
    r: Result<CodeGraph, ScipProviderError>,
) -> bool {
    &&& match r {
        Ok(g) => imported(index, provider, build_id, g),
        Err(ScipProviderError::InvalidPath(p)) => p@.len() == 0 && exists|d: int|
            0 <= d < index.documents@.len() && (#[trigger] index.documents@[d]).relative_path@.len() == 0,
        Err(ScipProviderError::MalformedRange(p)) => exists|d: int|
            0 <= d < index.documents@.len() && described(#[trigger] index.documents@[d])
                && index.documents@[d].relative_path@ == p@ && has_malformed_range(index.documents@[d]),
        Err(ScipProviderError::Integrity(e)) => exists|g: CodeGraph|
            assembled(index, provider, build_id, g) && first_issue(g, build_id) == Some(e@),
        Err(_) => false,
    }
    &&& well_formed_index(index) ==> (r is Ok || r is Err && r->Err_0 is Integrity)
}

impl ScipProvider {
    /// Turn a decoded index into a graph for this provider's build, whose
    /// id, computed from the build's capsule, is `build_id`.
    ///
    /// Refused: a document without a path; a symbol occurrence at a
    /// malformed range in a document the adapter describes; a graph that
    /// fails its own integrity check. Documents with other unsafe paths are
    /// only named, by digest, as external.
    pub fn import(&self, index: &ScipIndex, build_id: &str) -> (r: Result<CodeGraph, ScipProviderError>)
        ensures
            import_outcome(*index, *self, build_id@, r),
    {
        import_index(index, self, build_id)
    }
}

#[verifier::rlimit(80)]
fn import_index(index: &ScipIndex, provider: &ScipProvider, build_id: &str) -> (r: Result<CodeGraph, ScipProviderError>)
    ensures
        match r {
            Ok(g) => imported(*index, *provider, build_id@, g),
            Err(ScipProviderError::InvalidPath(p)) => p@.len() == 0 && exists|d: int|
                0 <= d < index.documents@.len() && (#[trigger] index.documents@[d]).relative_path@.len() == 0,
            Err(ScipProviderError::MalformedRange(p)) => exists|d: int|
                0 <= d < index.documents@.len() && described(#[trigger] index.documents@[d])
                    && index.documents@[d].relative_path@ == p@ && has_malformed_range(index.documents@[d]),
            Err(ScipProviderError::Integrity(e)) => exists|g: CodeGraph|
                assembled(*index, *provider, build_id@, g) && first_issue(g, build_id@) == Some(e@),
            Err(_) => false,
        },
        well_formed_index(*index) ==> (r is Ok || r is Err && r->Err_0 is Integrity),
{
    let producer = producer(index);
    let docs = &index.documents;
    let ghost ds = docs@;
    let mut languages: Vec<String> = Vec::new();
    let mut included: Vec<String> = Vec::new();
    let mut external_documents: Vec<String> = Vec::new();
    let mut definitions: Vec<(SymbolKey, Vec<Definition>)> = Vec::new();
    let mut information: Vec<(SymbolKey, InfoFacts)> = Vec::new();
    let mut relationships: Vec<(SymbolKey, Vec<SymbolKey>)> = Vec::new();
    let mut diagnostics: Vec<Diagnostic> = Vec::new();
    let mut d: usize = 0;
    proof {
        assert forall|x: (bool, Seq<char>, Seq<char>)| #[trigger] has_entry(information@, x) <==> informed_upto(ds, 0, x) by {}
        assert forall|x: (bool, Seq<char>, Seq<char>)| #[trigger] has_entry(definitions@, x) <==> defined_upto(ds, 0, x) by {}
    }
    proof {
        assert(unique_keys(relationships@));
        assert forall|x: (bool, Seq<char>, Seq<char>)|
            #[trigger] has_entry(relationships@, x) <==> (doc_names_upto(*index, 0, 0, x) || ext_names_upto(*index, 0, x)) by {}
        assert forall|x: (bool, Seq<char>, Seq<char>), t: (bool, Seq<char>, Seq<char>)|
            #[trigger] defined_by(relationships@, x).contains(t) <==> (doc_defines_upto(*index, 0, 0, x, t)
                || ext_defines_upto(*index, 0, x, t)) by {}
    }
    while d < docs.len()
        invariant
            d <= ds.len(),
            ds == docs@,
            docs == &index.documents,
            forall|k: int| 0 <= k < d ==> (#[trigger] ds[k]).relative_path@.len() > 0,
            sorted_strict(views(included@)),
            forall|y: Seq<char>|
                #[trigger] contains_view(views(included@), y) <==> exists|k: int|
                    0 <= k < d && described(#[trigger] ds[k]) && ds[k].relative_path@ == y,
            sorted_strict(views(languages@)),
            forall|y: Seq<char>|
                #[trigger] contains_view(views(languages@), y) <==> exists|k: int|
                    0 <= k < d && described(#[trigger] ds[k]) && spec_normalize_language(ds[k].language@) == y,
            sorted_strict(views(external_documents@)),
            forall|y: Seq<char>|
                #[trigger] contains_view(views(external_documents@), y) <==> exists|k: int|
                    0 <= k < d && !described(#[trigger] ds[k]) && external_entry(ds[k].relative_path@) == y,
            forall|x: (bool, Seq<char>, Seq<char>)| #[trigger] has_entry(information@, x) <==> informed_upto(ds, d as int, x),
            forall|x: (bool, Seq<char>, Seq<char>)| #[trigger] has_entry(definitions@, x) <==> defined_upto(ds, d as int, x),
            relation_upto(*index, d as int, 0, 0, relationships@),
            defs_sound(ds, definitions@),
            defs_complete(ds, definitions@, d as int, 0),
        decreases ds.len() - d,
    {
        let document = &docs[d];
        let path = document.relative_path.as_str();
        proof {
            lemma_upto_step(ds, d as int);
        }
        if path.unicode_len() == 0 {
            proof {
                assert(ds[d as int].relative_path@.len() == 0);
            }
            return Err(ScipProviderError::InvalidPath(String::new()));
        }
        if !is_safe_path(path) {
            let mut entry = String::new();
            push_str(&mut entry, "external:");
            let digested = digest(path);
            push_str(&mut entry, digested.as_str());
            proof {
                reveal_strlit("external:");
                assert(entry@ == external_entry(ds[d as int].relative_path@));
            }
            insert_sorted(&mut external_documents, entry.as_str());
            proof {
                assert forall|y: Seq<char>| #[trigger] contains_view(views(external_documents@), y) <==> exists|k: int|
                    0 <= k < d + 1 && !described(#[trigger] ds[k]) && external_entry(ds[k].relative_path@) == y by {
                    if exists|k: int| 0 <= k < d + 1 && !described(#[trigger] ds[k]) && external_entry(ds[k].relative_path@) == y {
                        let k = choose|k: int| 0 <= k < d + 1 && !described(#[trigger] ds[k]) && external_entry(ds[k].relative_path@) == y;
                        if k < d {
                            assert(exists|k: int| 0 <= k < d && !described(#[trigger] ds[k]) && external_entry(ds[k].relative_path@) == y);
                        }
                    }
                    if exists|k: int| 0 <= k < d && !described(#[trigger] ds[k]) && external_entry(ds[k].relative_path@) == y {
                        let k = choose|k: int| 0 <= k < d && !described(#[trigger] ds[k]) && external_entry(ds[k].relative_path@) == y;
                        assert(0 <= k < d + 1);
                    }
                }
                assert forall|y: Seq<char>| #[trigger] contains_view(views(included@), y) <==> exists|k: int|
                    0 <= k < d + 1 && described(#[trigger] ds[k]) && ds[k].relative_path@ == y by {
                    if exists|k: int| 0 <= k < d + 1 && described(#[trigger] ds[k]) && ds[k].relative_path@ == y {
                        let k = choose|k: int| 0 <= k < d + 1 && described(#[trigger] ds[k]) && ds[k].relative_path@ == y;
                        if k < d {
                            assert(exists|k: int| 0 <= k < d && described(#[trigger] ds[k]) && ds[k].relative_path@ == y);
                        }
                    }
                    if exists|k: int| 0 <= k < d && described(#[trigger] ds[k]) && ds[k].relative_path@ == y {
                        let k = choose|k: int| 0 <= k < d && described(#[trigger] ds[k]) && ds[k].relative_path@ == y;
                        assert(0 <= k < d + 1);
                    }
                }
                assert forall|y: Seq<char>| #[trigger] contains_view(views(languages@), y) <==> exists|k: int|
                    0 <= k < d + 1 && described(#[trigger] ds[k]) && spec_normalize_language(ds[k].language@) == y by {
                    if exists|k: int| 0 <= k < d + 1 && described(#[trigger] ds[k]) && spec_normalize_language(ds[k].language@) == y {
                        let k = choose|k: int| 0 <= k < d + 1 && described(#[trigger] ds[k]) && spec_normalize_language(ds[k].language@) == y;
                        if k < d {
                            assert(exists|k: int| 0 <= k < d && described(#[trigger] ds[k]) && spec_normalize_language(ds[k].language@) == y);
                        }
                    }
                    if exists|k: int| 0 <= k < d && described(#[trigger] ds[k]) && spec_normalize_language(ds[k].language@) == y {
                        let k = choose|k: int| 0 <= k < d && described(#[trigger] ds[k]) && spec_normalize_language(ds[k].language@) == y;
                        assert(0 <= k < d + 1);
                    }
                }
            }

        } else {
            let language = normalize_language(document.language.as_str());
            insert_sorted(&mut languages, language.as_str());
            insert_sorted(&mut included, path);
            proof {
                assert(language@ == spec_normalize_language(ds[d as int].language@));
            }
            proof {
                assert forall|y: Seq<char>| #[trigger] contains_view(views(external_documents@), y) <==> exists|k: int|
                    0 <= k < d + 1 && !described(#[trigger] ds[k]) && external_entry(ds[k].relative_path@) == y by {
                    if exists|k: int| 0 <= k < d + 1 && !described(#[trigger] ds[k]) && external_entry(ds[k].relative_path@) == y {
                        let k = choose|k: int| 0 <= k < d + 1 && !described(#[trigger] ds[k]) && external_entry(ds[k].relative_path@) == y;
                        if k < d {
                            assert(exists|k: int| 0 <= k < d && !described(#[trigger] ds[k]) && external_entry(ds[k].relative_path@) == y);
                        }
                    }
                    if exists|k: int| 0 <= k < d && !described(#[trigger] ds[k]) && external_entry(ds[k].relative_path@) == y {
                        let k = choose|k: int| 0 <= k < d && !described(#[trigger] ds[k]) && external_entry(ds[k].relative_path@) == y;
                        assert(0 <= k < d + 1);
                    }
                }
                assert forall|y: Seq<char>| #[trigger] contains_view(views(included@), y) <==> exists|k: int|
                    0 <= k < d + 1 && described(#[trigger] ds[k]) && ds[k].relative_path@ == y by {
                    if exists|k: int| 0 <= k < d + 1 && described(#[trigger] ds[k]) && ds[k].relative_path@ == y {
                        let k = choose|k: int| 0 <= k < d + 1 && described(#[trigger] ds[k]) && ds[k].relative_path@ == y;
                        if k < d {
                            assert(exists|k: int| 0 <= k < d && described(#[trigger] ds[k]) && ds[k].relative_path@ == y);
                        }
                    }
                    if exists|k: int| 0 <= k < d && described(#[trigger] ds[k]) && ds[k].relative_path@ == y {
                        let k = choose|k: int| 0 <= k < d && described(#[trigger] ds[k]) && ds[k].relative_path@ == y;
                        assert(0 <= k < d + 1);
                    }
                }
                assert forall|y: Seq<char>| #[trigger] contains_view(views(languages@), y) <==> exists|k: int|
                    0 <= k < d + 1 && described(#[trigger] ds[k]) && spec_normalize_language(ds[k].language@) == y by {
                    if exists|k: int| 0 <= k < d + 1 && described(#[trigger] ds[k]) && spec_normalize_language(ds[k].language@) == y {
                        let k = choose|k: int| 0 <= k < d + 1 && described(#[trigger] ds[k]) && spec_normalize_language(ds[k].language@) == y;
                        if k < d {
                            assert(exists|k: int| 0 <= k < d && described(#[trigger] ds[k]) && spec_normalize_language(ds[k].language@) == y);
                        }
                    }
                    if exists|k: int| 0 <= k < d && described(#[trigger] ds[k]) && spec_normalize_language(ds[k].language@) == y {
                        let k = choose|k: int| 0 <= k < d && described(#[trigger] ds[k]) && spec_normalize_language(ds[k].language@) == y;
                        assert(0 <= k < d + 1);
                    }
                }
            }

            let mut i: usize = 0;
            proof {
                assert(described(ds[d as int]));
            }
            while i < document.symbols.len()
                invariant
                    i <= document.symbols@.len(),
                    d < ds.len(),
                    ds == index.documents@,
                    document == &ds[d as int],
                    path@ == ds[d as int].relative_path@,
                    described(ds[d as int]),
                    relation_upto(*index, d as int, i as int, 0, relationships@),
                    forall|x: (bool, Seq<char>, Seq<char>)|
                        #[trigger] has_entry(information@, x) <==> (informed_upto(ds, d as int, x) || information_key(
                            ds,
                            d as int,
                            i as int,
                            x,
                        )),
                decreases document.symbols@.len() - i,
            {
                let symbol = &document.symbols[i];
                let key = SymbolKey::new(path, symbol.symbol.as_str());
                let ghost before = information@;
                note_information(&mut information, &key, symbol);
                proof {
                    lemma_noted(before, information@, key_view(key));
                    lemma_information_key_step(ds, d as int, i as int);
                }
                let ghost rel_before = relationships@;
                relate_definitions(&mut relationships, &key, path, symbol);
                proof {
                    lemma_relation_symbol(*index, d as int, i as int, rel_before, relationships@);
                }
                i = i + 1;
            }
            let mut o: usize = 0;
            while o < document.occurrences.len()
                invariant
                    o <= document.occurrences@.len(),
                    d < ds.len(),
                    ds == index.documents@,
                    document == &ds[d as int],
                    described(ds[d as int]),
                    path@ == ds[d as int].relative_path@,
                    forall|x: (bool, Seq<char>, Seq<char>)|
                        #[trigger] has_entry(information@, x) <==> (informed_upto(ds, d as int, x) || information_key(
                            ds,
                            d as int,
                            ds[d as int].symbols@.len() as int,
                            x,
                        )),
                    forall|x: (bool, Seq<char>, Seq<char>)|
                        #[trigger] has_entry(definitions@, x) <==> (defined_upto(ds, d as int, x) || definition_key(
                            ds,
                            d as int,
                            o as int,
                            x,
                        )),
                    defs_sound(ds, definitions@),
                    defs_complete(ds, definitions@, d as int, o as int),
                decreases document.occurrences@.len() - o,
            {
                let occurrence = &document.occurrences[o];
                let mut g: usize = 0;
                while g < occurrence.diagnostics.len()
                    invariant
                        g <= occurrence.diagnostics@.len(),
                    decreases occurrence.diagnostics@.len() - g,
                {
                    let diagnostic = &occurrence.diagnostics[g];
                    let location = match range_of(&occurrence.range) {
                        Some(range) => Some(
                            Location { path: path.to_owned(), range, encoding: document.position_encoding },
                        ),
                        None => None,
                    };
                    diagnostics.push(
                        Diagnostic {
                            severity: diagnostic.severity,
                            code: diagnostic.code.clone(),
                            message: diagnostic.message.clone(),
                            location,
                            provenance: provenance("diagnostic"),
                        },
                    );
                    g = g + 1;
                }
                if occurrence.symbol.as_str().unicode_len() > 0 && occurrence.symbol_roles & DEFINITION_ROLE != 0 {
                    let range = match range_of(&occurrence.range) {
                        Some(r) => r,
                        None => {
                            proof {
                                assert(ds[d as int].occurrences@[o as int].symbol@.len() > 0);
                                assert(has_malformed_range(ds[d as int]));
                            }
                            return Err(ScipProviderError::MalformedRange(document.relative_path.clone()));
                        },
                    };
                    let key = SymbolKey::new(path, occurrence.symbol.as_str());
                    let definition = Definition {
                        key: key.clone_key(),
                        location: Location { path: path.to_owned(), range, encoding: document.position_encoding },
                        body: range_of(&occurrence.enclosing_range),
                    };
                    let ghost before = definitions@;
                    let ghost kv = key_view(key);
                    let ghost dg = definition;
                    proof {
                        assert(is_definition_occurrence(ds[d as int].occurrences@[o as int]));
                        assert(definition_site(ds, d as int, o as int));
                        assert(records(ds, d as int, o as int, dg));
                    }
                    match entry_position(&definitions, &key) {
                        Ok(p) => {
                            let mut entry: (SymbolKey, Vec<Definition>) = (SymbolKey::Global(String::new()), Vec::new());
                            std::mem::swap(&mut entry, &mut definitions[p]);
                            entry.1.push(definition);
                            definitions.set(p, entry);
                            proof {
                                lemma_has_entry_update(before, definitions@, p as int);
                                assert(has_entry(before, kv));
                                lemma_defs_update(ds, before, definitions@, p as int, dg, d as int, o as int);
                            }
                        },
                        Err(p) => {
                            let mut list: Vec<Definition> = Vec::new();
                            list.push(definition);
                            definitions.insert(p, (key, list));
                            proof {
                                lemma_has_entry_insert(before, definitions@, p as int, kv);
                                assert(definitions@[p as int].1@ =~= seq![dg]);
                                lemma_defs_insert(ds, before, definitions@, p as int, dg, d as int, o as int);
                            }
                        },
                    }
                } else {
                    proof {
                        assert(!definition_site(ds, d as int, o as int));
                        lemma_defs_skip(ds, definitions@, d as int, o as int);
                    }
                }
                proof {
                    lemma_definition_key_step(ds, d as int, o as int);
                }
                o = o + 1;
            }
        }
        proof {
            lemma_relation_doc(*index, d as int, relationships@);
            lemma_defs_doc(ds, definitions@, d as int);
        }
        d = d + 1;
    }
    let build = BuildIdentity {
        id: build_id.to_owned(),
        repository: provider.build.repository.clone(),
        revision: provider.build.revision.clone(),
        dirty: provider.build.dirty.clone(),
        source_digest: provider.build.source_digest.clone(),
        configuration_digest: provider.build.configuration_digest.clone(),
        provider_input_digest: provider.build.provider_input_digest.clone(),
        units: provider.build.units.clone(),
    };
    let mut external: Vec<SymbolKey> = Vec::new();
    let mut e: usize = 0;
    let ghost nd = ds.len() as int;
    proof {
        assert forall|x: (bool, Seq<char>, Seq<char>)| #[trigger] has_entry(information@, x) <==> (informed_upto(ds, nd, x) || external_key(*index, 0, x)) by {}
        assert forall|x: (bool, Seq<char>, Seq<char>)| #[trigger] key_views(external@).contains(x) <==> external_key(*index, 0, x) by {}
    }
    while e < index.external_symbols.len()
        invariant
            e <= index.external_symbols@.len(),
            nd == index.documents@.len(),
            ds == index.documents@,
            forall|x: (bool, Seq<char>, Seq<char>)|
                #[trigger] has_entry(information@, x) <==> (informed_upto(ds, nd, x) || external_key(*index, e as int, x)),
            forall|x: (bool, Seq<char>, Seq<char>)| #[trigger] key_views(external@).contains(x) <==> external_key(*index, e as int, x),
            relation_upto(*index, nd, 0, e as int, relationships@),
        decreases index.external_symbols@.len() - e,
    {
        let symbol = &index.external_symbols[e];
        let key = SymbolKey::Global(symbol.symbol.clone());
        let ghost before = information@;
        proof {
            lemma_external_key_step(*index, e as int);
        }
        insert_key(&mut external, key.clone_key());
        note_information(&mut information, &key, symbol);
        proof {
            lemma_noted(before, information@, key_view(key));
        }
        let ghost rel_before = relationships@;
        relate_definitions(&mut relationships, &key, "", symbol);
        proof {
            reveal_strlit("");
            assert(""@ =~= Seq::<char>::empty());
            lemma_relation_external(*index, e as int, rel_before, relationships@);
        }
        e = e + 1;
    }
    proof {
        assert(relation_of(*index, relationships@));
    }
    let mut all_keys: Vec<SymbolKey> = Vec::new();
    let mut i: usize = 0;
    while i < definitions.len()
        invariant
            i <= definitions@.len(),
            forall|x: (bool, Seq<char>, Seq<char>)| #[trigger] key_views(all_keys@).contains(x) <==> prefix_key(definitions@, i as int, x),
        decreases definitions@.len() - i,
    {
        proof {
            lemma_prefix_key_step(definitions@, i as int);
        }
        insert_key(&mut all_keys, definitions[i].0.clone_key());
        i = i + 1;
    }
    proof {
        assert forall|x: (bool, Seq<char>, Seq<char>)| #[trigger] prefix_key(definitions@, definitions@.len() as int, x) <==> has_entry(definitions@, x) by {}
    }
    let mut i: usize = 0;
    while i < external.len()
        invariant
            i <= external@.len(),
            forall|x: (bool, Seq<char>, Seq<char>)|
                #[trigger] key_views(all_keys@).contains(x) <==> (has_entry(definitions@, x) || key_views(external@.take(i as int)).contains(x)),
        decreases external@.len() - i,
    {
        proof {
            assert forall|x: (bool, Seq<char>, Seq<char>)| #[trigger] key_views(external@.take(i + 1)).contains(x) <==> (key_views(external@.take(i as int)).contains(x) || x == key_view(external@[i as int])) by {
                if key_views(external@.take(i + 1)).contains(x) {
                    let j = choose|j: int| 0 <= j < i + 1 && #[trigger] key_views(external@.take(i + 1))[j] == x;
                    if j < i {
                        assert(key_views(external@.take(i as int))[j] == x);
                    }
                }
                if key_views(external@.take(i as int)).contains(x) {
                    let j = choose|j: int| 0 <= j < i && #[trigger] key_views(external@.take(i as int))[j] == x;
                    assert(key_views(external@.take(i + 1))[j] == x);
                }
                if x == key_view(external@[i as int]) {
                    assert(key_views(external@.take(i + 1))[i as int] == x);
                }
            }
        }
        insert_key(&mut all_keys, external[i].clone_key());
        i = i + 1;
    }
    proof {
        assert(external@.take(external@.len() as int) =~= external@);
    }
    let mut i: usize = 0;
    while i < information.len()
        invariant
            i <= information@.len(),
            forall|x: (bool, Seq<char>, Seq<char>)|
                #[trigger] key_views(all_keys@).contains(x) <==> (has_entry(definitions@, x) || key_views(external@).contains(x)
                    || prefix_key(information@, i as int, x)),
        decreases information@.len() - i,
    {
        proof {
            lemma_prefix_key_step(information@, i as int);
        }
        insert_key(&mut all_keys, information[i].0.clone_key());
        i = i + 1;
    }
    proof {
        reveal(index_key);
        assert forall|x: (bool, Seq<char>, Seq<char>)| #[trigger] key_views(all_keys@).contains(x) <==> index_key(*index, x) by {
            assert(prefix_key(information@, information@.len() as int, x) <==> has_entry(information@, x));
        }
    }
    let mut node_map: Vec<(SymbolKey, String)> = Vec::new();
    let mut i: usize = 0;
    while i < all_keys.len()
        invariant
            i <= all_keys@.len(),
            node_map@.len() == i,
            forall|j: int|
                0 <= j < i ==> key_view((#[trigger] node_map@[j]).0) == key_view(all_keys@[j]) && node_map@[j].1@
                    == spec_node_id(key_view(all_keys@[j]), build_id@),
        decreases all_keys@.len() - i,
    {
        let id = all_keys[i].id(build_id);
        node_map.push((all_keys[i].clone_key(), id));
        i = i + 1;
    }
    proof {
        lemma_node_map(*index, build_id@, all_keys@, node_map@);
    }
    let mut external_node_ids: Vec<String> = Vec::new();
    let mut i: usize = 0;
    while i < external.len()
        invariant
            i <= external@.len(),
            sorted_strict(views(external_node_ids@)),
            node_map_of(*index, build_id@, node_map@),
            forall|y: Seq<char>|
                #[trigger] contains_view(views(external_node_ids@), y) <==> exists|e2: int|
                    0 <= e2 < i && !has_entry(definitions@, key_view(external@[e2])) && index_key(
                        *index,
                        key_view(external@[e2]),
                    ) && #[trigger] spec_node_id(key_view(external@[e2]), build_id@) == y,
        decreases external@.len() - i,
    {
        let ghost ext0 = external_node_ids@;
        let ghost kx = key_view(external@[i as int]);
        if entry_position(&definitions, &external[i]).is_err() {
            match node_of(&node_map, &external[i]) {
                Some(id) => {
                    insert_sorted(&mut external_node_ids, id.as_str());
                    proof {
                        assert(node_id_of(node_map@, kx) is Some);
                        assert(id@ == spec_node_id(kx, build_id@));
                    }
                },
                None => {
                    proof {
                        assert(node_id_of(node_map@, kx) is None);
                    }
                },
            }
        }
        proof {
            assert forall|y: Seq<char>|
                #[trigger] contains_view(views(external_node_ids@), y) <==> exists|e2: int|
                    0 <= e2 < i + 1 && !has_entry(definitions@, key_view(external@[e2])) && index_key(
                        *index,
                        key_view(external@[e2]),
                    ) && #[trigger] spec_node_id(key_view(external@[e2]), build_id@) == y by {
                if exists|e2: int|
                    0 <= e2 < i + 1 && !has_entry(definitions@, key_view(external@[e2])) && index_key(
                        *index,
                        key_view(external@[e2]),
                    ) && #[trigger] spec_node_id(key_view(external@[e2]), build_id@) == y {
                    let e2 = choose|e2: int|
                        0 <= e2 < i + 1 && !has_entry(definitions@, key_view(external@[e2])) && index_key(
                            *index,
                            key_view(external@[e2]),
                        ) && #[trigger] spec_node_id(key_view(external@[e2]), build_id@) == y;
                    if e2 < i {
                        assert(contains_view(views(ext0), y));
                    }
                }
            }
        }
        i = i + 1;
    }
    proof {
        assert forall|y: Seq<char>|
            #[trigger] contains_view(views(external_node_ids@), y) <==> external_node(*index, build_id@, y) by {
            if contains_view(views(external_node_ids@), y) {
                let e2 = choose|e2: int|
                    0 <= e2 < external@.len() && !has_entry(definitions@, key_view(external@[e2])) && index_key(
                        *index,
                        key_view(external@[e2]),
                    ) && #[trigger] spec_node_id(key_view(external@[e2]), build_id@) == y;
                assert(key_views(external@)[e2] == key_view(external@[e2]));
                assert(key_views(external@).contains(key_view(external@[e2])));
            }
            if external_node(*index, build_id@, y) {
                let k = choose|k: (bool, Seq<char>, Seq<char>)|
                    external_key(*index, index.external_symbols@.len() as int, k) && !defined_upto(
                        index.documents@,
                        index.documents@.len() as int,
                        k,
                    ) && index_key(*index, k) && #[trigger] spec_node_id(k, build_id@) == y;
                assert(key_views(external@).contains(k));
                let e2 = choose|e2: int| 0 <= e2 < key_views(external@).len() && #[trigger] key_views(external@)[e2] == k;
                assert(key_view(external@[e2]) == k);
            }
        }
    }
    let mut by_path: Vec<(String, Vec<Definition>)> = Vec::new();
    let mut i: usize = 0;
    proof {
        assert(group_paths(by_path@) =~= Seq::<Seq<char>>::empty());
    }
    while i < definitions.len()
        invariant
            i <= definitions@.len(),
            defs_sound(ds, definitions@),
            groups_sound(ds, by_path@),
            sorted_strict(group_paths(by_path@)),
            forall|i2: int, j2: int|
                #![trigger definitions@[i2].1@[j2]]
                0 <= i2 < i && 0 <= j2 < definitions@[i2].1@.len() ==> in_groups(by_path@, definitions@[i2].1@[j2]),
        decreases definitions@.len() - i,
    {
        let list = &definitions[i].1;
        let mut j: usize = 0;
        while j < list.len()
            invariant
                i < definitions@.len(),
                list == &definitions@[i as int].1,
                j <= list@.len(),
                defs_sound(ds, definitions@),
                groups_sound(ds, by_path@),
                sorted_strict(group_paths(by_path@)),
                forall|i2: int, j2: int|
                    #![trigger definitions@[i2].1@[j2]]
                    0 <= i2 < definitions@.len() && 0 <= j2 < definitions@[i2].1@.len() && (i2 < i || (i2 == i && j2
                        < j)) ==> in_groups(by_path@, definitions@[i2].1@[j2]),
            decreases list@.len() - j,
        {
            let definition = &list[j];
            let copy = Definition {
                key: definition.key.clone_key(),
                location: Location {
                    path: definition.location.path.clone(),
                    range: definition.location.range,
                    encoding: definition.location.encoding,
                },
                body: definition.body,
            };
            proof {
                assert(definitions@[i as int].1@[j as int] == *definition);
                assert(def_ok(ds, definitions@[i as int].1@[j as int]));
                let (d2, o2) = choose|d2: int, o2: int|
                    definition_site(ds, d2, o2) && #[trigger] records(ds, d2, o2, definitions@[i as int].1@[j as int]);
                assert(records(ds, d2, o2, copy));
            }
            let ghost path = definition.location.path@;
            let mut p: usize = 0;
            let mut found = false;
            while p < by_path.len()
                invariant_except_break
                    !found,
                invariant
                    p <= by_path@.len(),
                    path == definition.location.path@,
                    forall|q: int| 0 <= q < p ==> (#[trigger] by_path@[q]).0@ != path && !seq_lt(path, by_path@[q].0@),
                ensures
                    p <= by_path@.len(),
                    forall|q: int| 0 <= q < p ==> (#[trigger] by_path@[q]).0@ != path && !seq_lt(path, by_path@[q].0@),
                    found ==> p < by_path@.len() && by_path@[p as int].0@ == path,
                    !found ==> p == by_path@.len() || seq_lt(path, by_path@[p as int].0@),
                decreases by_path@.len() - p,
            {
                if str_eq(by_path[p].0.as_str(), definition.location.path.as_str()) {
                    found = true;
                    break;
                }
                if crate::order::str_lt(definition.location.path.as_str(), by_path[p].0.as_str()) {
                    break;
                }
                p = p + 1;
            }
            let ghost old_groups = by_path@;
            if found && p < by_path.len() {
                let mut entry: (String, Vec<Definition>) = (String::new(), Vec::new());
                std::mem::swap(&mut entry, &mut by_path[p]);
                entry.1.push(copy);
                by_path.set(p, entry);
                proof {
                    lemma_groups_update(ds, old_groups, by_path@, p as int, copy);
                }
            } else {
                let mut group: Vec<Definition> = Vec::new();
                group.push(copy);
                by_path.insert(p, (definition.location.path.clone(), group));
                proof {
                    assert forall|q: int| 0 <= q < p implies seq_lt((#[trigger] old_groups[q]).0@, path) by {
                        crate::order::lemma_seq_lt_total(old_groups[q].0@, path);
                    }
                    assert(by_path@[p as int].1@ =~= seq![copy]);
                    lemma_groups_insert(ds, old_groups, by_path@, p as int, copy);
                }
            }
            proof {
                assert(same_def(copy, definitions@[i as int].1@[j as int]));
                assert forall|i2: int, j2: int|
                    #![trigger definitions@[i2].1@[j2]]
                    0 <= i2 < definitions@.len() && 0 <= j2 < definitions@[i2].1@.len() && (i2 < i || (i2 == i && j2
                        < j + 1)) implies in_groups(by_path@, definitions@[i2].1@[j2]) by {
                    if i2 == i && j2 == j {
                        let (q, k) = choose|q: int, k: int|
                            0 <= q < by_path@.len() && 0 <= k < by_path@[q].1@.len() && by_path@[q].0@ == copy.location.path@
                                && #[trigger] same_def(by_path@[q].1@[k], copy);
                        assert(same_def(by_path@[q].1@[k], definitions@[i2].1@[j2]));
                    } else {
                        assert(in_groups(old_groups, definitions@[i2].1@[j2]));
                    }
                }
            }
            j = j + 1;
        }
        i = i + 1;
    }
    proof {
        assert forall|d2: int, o2: int|
            #[trigger] definition_site(ds, d2, o2) implies exists|q: int, j: int|
                0 <= q < by_path@.len() && 0 <= j < by_path@[q].1@.len() && by_path@[q].0@ == ds[d2].relative_path@
                    && #[trigger] records(ds, d2, o2, by_path@[q].1@[j]) by {
            assert(site_recorded(ds, definitions@, d2, o2));
            let (a, b) = choose|a: int, b: int|
                0 <= a < definitions@.len() && 0 <= b < definitions@[a].1@.len() && #[trigger] records(
                    ds,
                    d2,
                    o2,
                    definitions@[a].1@[b],
                );
            assert(in_groups(by_path@, definitions@[a].1@[b]));
            let (q, j) = choose|q: int, j: int|
                0 <= q < by_path@.len() && 0 <= j < by_path@[q].1@.len() && by_path@[q].0@
                    == definitions@[a].1@[b].location.path@ && #[trigger] same_def(by_path@[q].1@[j], definitions@[a].1@[b]);
            assert(records(ds, d2, o2, by_path@[q].1@[j]));
        }
        reveal(groups_ok);
        assert(groups_ok(ds, by_path@));
    }
    let mut nodes: Vec<GraphNode> = Vec::new();
    let mut i: usize = 0;
    while i < all_keys.len()
        invariant
            i <= all_keys@.len(),
            nodes@.len() == i,
            forall|j: int| 0 <= j < i ==> (#[trigger] nodes@[j]).id@ == spec_node_id(key_view(all_keys@[j]), build_id@),
            forall|j: int| 0 <= j < i ==> (#[trigger] nodes@[j]).kind == spec_broad_kind(nodes@[j].provider_kind@),
        decreases all_keys@.len() - i,
    {
        let key = &all_keys[i];
        let id = key.id(build_id);
        let info: Option<&InfoFacts> = match entry_position(&information, key) {
            Ok(p) => Some(&information[p].1),
            Err(_) => None,
        };
        let provider_kind = match info {
            Some(facts) => match &facts.kind {
                Some(k) => k.clone(),
                None => "UnspecifiedKind".to_owned(),
            },
            None => "UnspecifiedKind".to_owned(),
        };
        let defined = entry_position(&definitions, key);
        let mut locations: Vec<Location> = Vec::new();
        match defined {
            Ok(p) => {
                let list = &definitions[p].1;
                let mut j: usize = 0;
                while j < list.len()
                    invariant
                        j <= list@.len(),
                    decreases list@.len() - j,
                {
                    insert_location(&mut locations, &list[j].location);
                    j = j + 1;
                }
            },
            Err(_) => {},
        }
        let display_name = match info {
            Some(facts) => if facts.display_name.as_str().unicode_len() > 0 {
                facts.display_name.clone()
            } else {
                key.display().to_owned()
            },
            None => key.display().to_owned(),
        };
        let is_local = match key {
            SymbolKey::Local { .. } => true,
            SymbolKey::Global(_) => false,
        };
        let scope = if is_local {
            NodeScope::Local
        } else if holds_key(&external, key) && defined.is_err() {
            NodeScope::External
        } else {
            NodeScope::Workspace
        };
        let enclosing = match info {
            Some(facts) => if facts.enclosing_symbol.as_str().unicode_len() > 0 {
                let enclosing_key = SymbolKey::new(key.path(), facts.enclosing_symbol.as_str());
                match node_of(&node_map, &enclosing_key) {
                    Some(n) => Some(n.clone()),
                    None => None,
                }
            } else {
                None
            },
            None => None,
        };
        let kind = broad_kind(provider_kind.as_str());
        nodes.push(
            GraphNode {
                id,
                semantic_key: key.semantic_key(),
                language: language_for(key, docs),
                kind,
                provider_kind,
                display_name,
                scope,
                definitions: locations,
                enclosing,
                provenance: provenance("symbol_information"),
            },
        );
        i = i + 1;
    }
    let ghost unsorted_nodes = nodes@;
    let nodes = sort_nodes(nodes);
    proof {
        lemma_nodes_law(*index, build_id@, all_keys@, unsorted_nodes, nodes@);
        assert forall|j: int| 0 <= j < nodes@.len() implies (#[trigger] nodes@[j]).kind == spec_broad_kind(
            nodes@[j].provider_kind@,
        ) by {
            assert(unsorted_nodes.contains(nodes@[j]));
        }
    }
    let mut facts: Vec<ReferenceFact> = Vec::new();
    let mut evidence: Vec<(String, String, EdgeKind, Vec<String>)> = Vec::new();
    let mut d: usize = 0;
    while d < docs.len()
        invariant
            d <= ds.len(),
            ds == docs@,
            ds == index.documents@,
            evidence_ok(evidence@),
            evidence_backed(evidence@, facts@),
            facts_carried(evidence@, facts@),
            forall|k: int| 0 <= k < facts@.len() ==> fact_fits(*index, relationships@, node_map@, build_id@, #[trigger] facts@[k]),
            forall|y: Seq<char>| #[trigger] contains_view(views(external_node_ids@), y) <==> external_node(*index, build_id@, y),
            groups_ok(ds, by_path@),
            sorted_strict(views(external_node_ids@)),
            forall|d2: int, r: SourceRange, t: (Seq<char>, bool)|
                0 <= d2 < d && described(ds[d2]) && #[trigger] reference_used(
                    ds[d2],
                    ds[d2].occurrences@.len() as int,
                    r,
                    t,
                ) ==> fact_at(facts@, ds[d2].relative_path@, r, ds[d2].position_encoding),
            forall|k: int|
                0 <= k < facts@.len() && (#[trigger] facts@[k]).location is Some ==> referenced_location(
                    ds,
                    d as int,
                    facts@[k].location->0,
                ),
        decreases ds.len() - d,
    {
        let document = &docs[d];
        let ghost facts_doc = facts@;
        if is_safe_path(document.relative_path.as_str()) {
            let references = match grouped_references(document) {
                Ok(r) => r,
                Err(err) => {
                    proof {
                        assert(described(ds[d as int]));
                    }
                    return Err(err);
                },
            };
            let mut g: usize = 0;
            proof {
                assert(described(ds[d as int]));
            }
            while g < references.len()
                invariant
                    g <= references@.len(),
                    d < ds.len(),
                    ds == docs@,
                    ds == index.documents@,
                    document == &ds[d as int],
                    described(ds[d as int]),
                    groups_well_formed(references@, *document),
                    forall|rg: SourceRange, t: (Seq<char>, bool)|
                        #[trigger] group_has(references@, rg, t) <==> reference_used(
                            *document,
                            document.occurrences@.len() as int,
                            rg,
                            t,
                        ),
                    evidence_ok(evidence@),
                    evidence_backed(evidence@, facts@),
                    facts_carried(evidence@, facts@),
                    forall|k: int| 0 <= k < facts@.len() ==> fact_fits(*index, relationships@, node_map@, build_id@, #[trigger] facts@[k]),
                    forall|y: Seq<char>| #[trigger] contains_view(views(external_node_ids@), y) <==> external_node(*index, build_id@, y),
                    groups_ok(ds, by_path@),
                    sorted_strict(views(external_node_ids@)),
                    facts_doc.len() <= facts@.len(),
                    forall|k: int| 0 <= k < facts_doc.len() ==> #[trigger] facts@[k] == facts_doc[k],
                    forall|g2: int|
                        0 <= g2 < g ==> fact_at(
                            facts@,
                            document.relative_path@,
                            (#[trigger] references@[g2]).0.range,
                            document.position_encoding,
                        ),
                    forall|k: int|
                        0 <= k < facts@.len() && (#[trigger] facts@[k]).location is Some ==> referenced_location(
                            ds,
                            d + 1,
                            facts@[k].location->0,
                        ),
                decreases references@.len() - g,
            {
                let ghost ev0 = evidence@;
                let ghost facts0 = facts@;
                let ghost mut stepped = false;
                let ghost mut step_from_id: Seq<char> = Seq::empty();
                let ghost mut step_to_id: Seq<char> = Seq::empty();
                let ghost mut step_kind = EdgeKind::Reference;
                let location = &references[g].0;
                let targets = &references[g].1;
                let source = match containing_definition(&by_path, location) {
                    Some(k) => {
                        let id = k.id(build_id);
                        proof {
                            let (p, b) = choose|p: int, b: int|
                                first_group(by_path@, location.path@, p) && innermost(by_path@[p].1@, location.range, b) && *k
                                    == (#[trigger] by_path@[p].1@[b]).key;
                            lemma_source_found(ds, by_path@, build_id@, location.path@, location.range, p, b);
                            assert(source_fits(ds, build_id@, location.path@, location.range, Some(id)));
                        }
                        Some(id)
                    },
                    None => {
                        proof {
                            lemma_source_none(ds, by_path@, location.path@, location.range);
                        }
                        None
                    },
                };
                proof {
                    assert(source_fits(ds, build_id@, location.path@, location.range, source));
                }
                let mut all_import = true;
                let mut t: usize = 0;
                while t < targets.len()
                    invariant
                        t <= targets@.len(),
                        all_import == (forall|i: int| 0 <= i < t ==> (#[trigger] targets@[i]).1),
                    decreases targets@.len() - t,
                {
                    if !targets[t].1 {
                        all_import = false;
                    }
                    t = t + 1;
                }
                let edge_kind = if all_import {
                    EdgeKind::Import
                } else {
                    EdgeKind::Reference
                };
                proof {
                    lemma_group_kind(*document, references@, g as int, all_import);
                }
                let mut candidates: Vec<String> = Vec::new();
                let mut raw_targets: Vec<String> = Vec::new();
                let mut cycle = false;
                let mut cycle_at = String::new();
                let ghost keys = target_keys(document.relative_path@, target_views(targets@));
                proof {
                    assert(keys.take(0) =~= Seq::<(bool, Seq<char>, Seq<char>)>::empty());
                    assert(text_set(candidates@) =~= Set::<Seq<char>>::empty());
                }
                let mut t: usize = 0;
                while t < targets.len()
                    invariant
                        t <= targets@.len(),
                        sorted_strict(views(candidates@)),
                        keys == target_keys(document.relative_path@, target_views(targets@)),
                        cycle ==> resolution_all(keys.take(t as int), relationships@, node_map@, Seq::empty()) is None,
                        !cycle ==> resolution_all(keys.take(t as int), relationships@, node_map@, Seq::empty()) == Some(
                            text_set(candidates@),
                        ),
                    decreases targets@.len() - t,
                {
                    let key = SymbolKey::new(document.relative_path.as_str(), targets[t].0.as_str());
                    insert_in_order(&mut raw_targets, targets[t].0.as_str());
                    let mut visiting: Vec<SymbolKey> = Vec::new();
                    proof {
                        assert(key_views(visiting@) =~= Seq::<(bool, Seq<char>, Seq<char>)>::empty());
                        assert(key_view(key) == keys[t as int]);
                        assert(keys.take(t + 1).drop_last() =~= keys.take(t as int));
                        assert(keys.take(t + 1).last() == keys[t as int]);
                    }
                    match resolve_key(&key, &relationships, &node_map, &mut visiting) {
                        Ok(ids) => {
                            let ghost c0 = candidates@;
                            let mut u: usize = 0;
                            while u < ids.len()
                                invariant
                                    u <= ids@.len(),
                                    sorted_strict(views(candidates@)),
                                    forall|y: Seq<char>|
                                        #[trigger] contains_view(views(candidates@), y) <==> (contains_view(views(c0), y)
                                            || exists|j: int| 0 <= j < u && ids@[j]@ == y),
                                decreases ids@.len() - u,
                            {
                                insert_sorted(&mut candidates, ids[u].as_str());
                                proof {
                                    assert forall|y: Seq<char>|
                                        #[trigger] contains_view(views(candidates@), y) <==> (contains_view(views(c0), y)
                                            || exists|j: int| 0 <= j < u + 1 && ids@[j]@ == y) by {
                                        if y == ids@[u as int]@ {
                                            assert(0 <= u < u + 1 && ids@[u as int]@ == y);
                                        }
                                        if exists|j: int| 0 <= j < u + 1 && ids@[j]@ == y {
                                            let j = choose|j: int| 0 <= j < u + 1 && ids@[j]@ == y;
                                            if j < u {
                                                assert(exists|j: int| 0 <= j < u && ids@[j]@ == y);
                                            }
                                        }
                                    }
                                }
                                u = u + 1;
                            }
                            proof {
                                assert forall|y: Seq<char>|
                                    text_set(candidates@).contains(y) <==> #[trigger] text_set(c0).union(text_set(ids@)).contains(
                                        y,
                                    ) by {
                                    if exists|j: int| 0 <= j < ids@.len() && ids@[j]@ == y {
                                        let j = choose|j: int| 0 <= j < ids@.len() && ids@[j]@ == y;
                                        assert(views(ids@)[j] == y);
                                    }
                                    if contains_view(views(ids@), y) {
                                        let j = choose|j: int| 0 <= j < views(ids@).len() && #[trigger] views(ids@)[j] == y;
                                        assert(ids@[j]@ == y);
                                    }
                                }
                                assert(text_set(candidates@) =~= text_set(c0).union(text_set(ids@)));
                            }
                        },
                        Err(ScipProviderError::DefinitionCycle(at)) => {
                            cycle = true;
                            cycle_at = at;
                        },
                        Err(_) => {
                            proof {
                                assert(false);
                            }
                        },
                    }
                    t = t + 1;
                }
                proof {
                    assert(keys.take(targets@.len() as int) =~= keys);
                }
                let raw_target = join_targets(&raw_targets);
                let mut material = String::new();
                push_decimal(&mut material, d);
                push_char(&mut material, '\u{0}');
                push_str(&mut material, location.path.as_str());
                push_char(&mut material, '\u{0}');
                push_range(&mut material, location.range);
                push_char(&mut material, '\u{0}');
                push_str(&mut material, raw_target.as_str());
                let mut fact_id = String::new();
                push_str(&mut fact_id, "reference:");
                let digested = digest(material.as_str());
                push_str(&mut fact_id, digested.as_str());
                let outcome = if cycle {
                    let mut message = String::new();
                    push_str(&mut message, "SCIP definition relationship cycle at ");
                    push_str(&mut message, cycle_at.as_str());
                    diagnostics.push(
                        Diagnostic {
                            severity: DiagnosticSeverity::Warning,
                            code: "definition_cycle".to_owned(),
                            message,
                            location: Some(location.clone()),
                            provenance: provenance("adapter_diagnostic"),
                        },
                    );
                    Resolution::Unknown {
                        reason: UnknownReason {
                            kind: UnknownReasonKind::DefinitionCycle,
                            details: "definition relationship cycle".to_owned(),
                        },
                    }
                } else if candidates.len() > 1 {
                    Resolution::Ambiguous { candidates: clone_strings(&candidates) }
                } else if candidates.len() == 1 {
                    let target = &candidates[0];
                    match &source {
                        Some(from) => {
                            add_evidence(&mut evidence, from.as_str(), target.as_str(), &edge_kind, fact_id.as_str());
                            proof {
                                stepped = true;
                                step_from_id = from@;
                                step_to_id = target@;
                                step_kind = edge_kind;
                            }
                        },
                        None => {},
                    }
                    let hit = crate::order::find_sorted(&external_node_ids, target.as_str());
                    proof {
                        if hit is Some {
                            assert(views(external_node_ids@)[hit->0 as int] == target@);
                            assert(contains_view(views(external_node_ids@), target@));
                        } else {
                            assert(!contains_view(views(external_node_ids@), target@));
                        }
                        assert(contains_view(views(external_node_ids@), target@) <==> external_node(*index, build_id@, target@));
                        assert(hit is Some <==> external_node(*index, build_id@, target@));
                    }
                    if hit.is_some() {
                        Resolution::External { node: target.clone() }
                    } else {
                        Resolution::Resolved { node: target.clone() }
                    }
                } else if targets_are_external(&raw_targets, document.relative_path.as_str(), &external) {
                    Resolution::Unknown {
                        reason: UnknownReason {
                            kind: UnknownReasonKind::ExternalWithoutInformation,
                            details: "external target has no symbol information".to_owned(),
                        },
                    }
                } else {
                    let mut details = String::new();
                    push_str(&mut details, "SCIP index has no matching symbol information: ");
                    push_str(&mut details, raw_target.as_str());
                    Resolution::Unknown {
                        reason: UnknownReason { kind: UnknownReasonKind::ProviderOmission, details },
                    }
                };
                proof {
                    if !cycle {
                        if candidates@.len() == 1 {
                            lemma_text_set_one(candidates@);
                        } else if candidates@.len() == 0 {
                            assert(text_set(candidates@) =~= Set::<Seq<char>>::empty());
                        }
                    }
                    assert(outcome_for(*index, build_id@, resolution_all(keys, relationships@, node_map@, Seq::empty()), outcome));
                }
                let ghost id_view = fact_id@;
                proof {
                    assert(stepped ==> (outcome is Resolved || outcome is External));
                    assert(stepped ==> evidence_step(ev0, step_from_id, step_to_id, step_kind, id_view, evidence@));
                    assert(!stepped ==> evidence@ == ev0);
                }
                let ghost facts_before_push = facts@;
                let ghost src = source;
                proof {
                    assert(stepped ==> src == Some(src->0) && src->0@ == step_from_id);
                }
                let fact_location = Location {
                    path: location.path.clone(),
                    range: location.range,
                    encoding: location.encoding,
                };
                facts.push(
                    ReferenceFact {
                        id: fact_id,
                        location: Some(fact_location),
                        source,
                        raw_target,
                        kind: edge_kind,
                        outcome,
                        provenance: provenance("occurrence"),
                    },
                );
                proof {
                    lemma_backed_extend(ev0, facts0, facts@);
                    if stepped {
                        assert(facts@[facts0.len() as int].id@ == id_view);
                        assert(backed(facts@, id_view));
                        lemma_evidence_step_backed(ev0, step_from_id, step_to_id, step_kind, id_view, evidence@, facts@);
                    }
                    lemma_group_fact(ds, d as int, references@, g as int, facts_before_push, facts@, facts_doc);
                    let f = facts@.last();
                    assert(f.source == src && f.kind == edge_kind && f.id@ == id_view);
                    if stepped {
                        lemma_step_carries(ev0, step_from_id, step_to_id, step_kind, id_view, evidence@);
                        assert(resolved_node(f) is Some && resolved_node(f)->0@ == step_to_id);
                        assert(edge_carries(evidence@, f.source->0@, resolved_node(f)->0@, f.kind, f.id@));
                    } else {
                        assert(!(f.source is Some && resolved_node(f) is Some));
                        assert forall|a: Seq<char>, b: Seq<char>, k: EdgeKind, y: Seq<char>|
                            #[trigger] edge_carries(ev0, a, b, k, y) implies edge_carries(evidence@, a, b, k, y) by {}
                    }
                    assert forall|k: int| 0 <= k < facts0.len() implies #[trigger] facts@[k] == facts0[k] by {}
                    lemma_carried_extend(ev0, facts0, facts@, evidence@);
                }
                proof {
                    assert forall|k: int| 0 <= k < facts@.len() implies fact_fits(*index, relationships@, node_map@, build_id@, #[trigger] facts@[k]) by {
                        if k < facts0.len() {
                            assert(facts@[k] == facts0[k]);
                        } else {
                            let f = facts@[k];
                            assert(ds == index.documents@);
                            assert(described(ds[d as int]));
                            assert(f.location->0.path@ == ds[d as int].relative_path@);
                            assert(f.location->0.range == location.range);
                            assert(targets_at(ds[d as int], f.location->0.range, target_views(targets@)));
                            assert(f.kind == occurrence_kind(ds[d as int], f.location->0.range));
                            assert(target_keys(ds[d as int].relative_path@, target_views(targets@)) == keys);
                            assert(outcome_for(*index, build_id@, resolution_all(keys, relationships@, node_map@, Seq::empty()), f.outcome));
                            assert(f.source == src);
                            assert(source_fits(ds, build_id@, f.location->0.path@, f.location->0.range, f.source));
                        }
                    }
                }
                g = g + 1;
            }
            proof {
                lemma_doc_covered(ds, d as int, references@, facts_doc, facts@);
            }
        } else {
            proof {
                assert(!described(ds[d as int]));
                lemma_doc_skipped(ds, d as int, facts@);
            }
        }
        d = d + 1;
    }
    let mut d: usize = 0;
    while d < docs.len()
        invariant
            d <= ds.len(),
            ds == docs@,
            evidence_ok(evidence@),
            evidence_backed(evidence@, facts@),
            facts_carried(evidence@, facts@),
            forall|k: int| 0 <= k < facts@.len() ==> fact_fits(*index, relationships@, node_map@, build_id@, #[trigger] facts@[k]),
            sorted_strict(views(external_node_ids@)),
            forall|d2: int, r: SourceRange, t: (Seq<char>, bool)|
                0 <= d2 < ds.len() && described(ds[d2]) && #[trigger] reference_used(
                    ds[d2],
                    ds[d2].occurrences@.len() as int,
                    r,
                    t,
                ) ==> fact_at(facts@, ds[d2].relative_path@, r, ds[d2].position_encoding),
            forall|k: int|
                0 <= k < facts@.len() && (#[trigger] facts@[k]).location is Some ==> referenced_location(
                    ds,
                    ds.len() as int,
                    facts@[k].location->0,
                ),
        decreases ds.len() - d,
    {
        let document = &docs[d];
        let ghost ev0 = evidence@;
        let ghost facts0 = facts@;
        if is_safe_path(document.relative_path.as_str()) {
            add_relationship_edges(
                d,
                document.relative_path.as_str(),
                &document.symbols,
                &node_map,
                &external_node_ids,
                &mut facts,
                &mut evidence,
            );
            proof {
                let chain = choose|chain: Seq<Seq<(String, String, EdgeKind, Vec<String>)>>|
                    relationships_added(
                        facts0,
                        facts@,
                        ev0,
                        evidence@,
                        chain,
                        relationship_triples(node_map@, document.relative_path@, document.symbols@, document.symbols@.len()),
                        d,
                        document.relative_path@,
                        document.symbols@,
                        node_map@,
                        external_node_ids@,
                    );
                lemma_relationships_backed(
                    facts0,
                    facts@,
                    ev0,
                    evidence@,
                    chain,
                    relationship_triples(node_map@, document.relative_path@, document.symbols@, document.symbols@.len()),
                    d,
                    document.relative_path@,
                    document.symbols@,
                    node_map@,
                    external_node_ids@,
                );
                lemma_located_kept(ds, facts0, facts@);
                lemma_fits_kept(*index, relationships@, node_map@, build_id@, facts0, facts@);
                lemma_relationships_carried(
                    facts0,
                    facts@,
                    ev0,
                    evidence@,
                    chain,
                    relationship_triples(node_map@, document.relative_path@, document.symbols@, document.symbols@.len()),
                    d,
                    document.relative_path@,
                    document.symbols@,
                    node_map@,
                    external_node_ids@,
                );
            }
        }
        d = d + 1;
    }
    let ghost ev0 = evidence@;
    let ghost facts0 = facts@;
    add_relationship_edges(
        usize::MAX,
        "",
        &index.external_symbols,
        &node_map,
        &external_node_ids,
        &mut facts,
        &mut evidence,
    );
    proof {
        let chain = choose|chain: Seq<Seq<(String, String, EdgeKind, Vec<String>)>>|
            relationships_added(
                facts0,
                facts@,
                ev0,
                evidence@,
                chain,
                relationship_triples(node_map@, ""@, index.external_symbols@, index.external_symbols@.len()),
                usize::MAX,
                ""@,
                index.external_symbols@,
                node_map@,
                external_node_ids@,
            );
        lemma_relationships_backed(
            facts0,
            facts@,
            ev0,
            evidence@,
            chain,
            relationship_triples(node_map@, ""@, index.external_symbols@, index.external_symbols@.len()),
            usize::MAX,
            ""@,
            index.external_symbols@,
            node_map@,
            external_node_ids@,
        );
        lemma_located_kept(ds, facts0, facts@);
                lemma_fits_kept(*index, relationships@, node_map@, build_id@, facts0, facts@);
        lemma_relationships_carried(
            facts0,
            facts@,
            ev0,
            evidence@,
            chain,
            relationship_triples(node_map@, ""@, index.external_symbols@, index.external_symbols@.len()),
            usize::MAX,
            ""@,
            index.external_symbols@,
            node_map@,
            external_node_ids@,
        );
    }
    let ghost unsorted = facts@;
    let facts = sort_facts(facts);
    proof {
        lemma_backed_permute(evidence@, unsorted, facts@);
        lemma_located_sorted(ds, unsorted, facts@);
        lemma_fits_sorted(*index, relationships@, node_map@, build_id@, unsorted, facts@);
        lemma_carried_permute(evidence@, unsorted, facts@);
    }
    let mut edges: Vec<Edge> = Vec::new();
    let mut rest = evidence;
    while rest.len() > 0
        invariant
            evidence_ok(rest@),
            evidence_backed(rest@, facts@),
            forall|i: int, y: Seq<char>|
                0 <= i < edges@.len() && #[trigger] contains_view(views(edges@[i].evidence@), y) ==> #[trigger] backed(
                    facts@,
                    y,
                ),
            forall|k: int|
                0 <= k < facts@.len() && #[trigger] edge_eligible(facts@[k]) ==> edge_carries(
                    rest@,
                    facts@[k].source->0@,
                    resolved_node(facts@[k])->0@,
                    facts@[k].kind,
                    facts@[k].id@,
                ) || edge_has(edges@, facts@[k].source->0@, resolved_node(facts@[k])->0@, facts@[k].kind, facts@[k].id@),
        decreases rest@.len(),
    {
        let ghost before = rest@;
        let (from, to, kind, fact_ids) = rest.remove(0);
        proof {
            assert(fact_ids == before[0].3);
            assert forall|i: int, y: Seq<char>|
                0 <= i < rest@.len() && #[trigger] contains_view(views(rest@[i].3@), y) implies #[trigger] backed(facts@, y) by {
                assert(rest@[i] == before[i + 1]);
            }
            assert(!(before[0].2 is ProviderSpecific));
            assert forall|i: int| 0 <= i < rest@.len() implies !((#[trigger] rest@[i]).2 is ProviderSpecific) && sorted_strict(
                views(rest@[i].3@),
            ) by {
                assert(rest@[i] == before[i + 1]);
            }
        }
        let mut material = String::new();
        push_str(&mut material, from.as_str());
        push_char(&mut material, '\u{0}');
        push_str(&mut material, to.as_str());
        push_char(&mut material, '\u{0}');
        push_str(&mut material, kind_name(&kind));
        let mut id = String::new();
        push_str(&mut id, "edge:");
        let digested = digest(material.as_str());
        push_str(&mut id, digested.as_str());
        let ghost built = edges@;
        let ghost entry = before[0];
        proof {
            assert(from == entry.0 && to == entry.1 && kind == entry.2 && fact_ids == entry.3);
            assert(rest@ =~= before.subrange(1, before.len() as int));
        }
        edges.push(Edge { id, from, to, kind, evidence: fact_ids, provenance: provenance("derived_edge") });
        proof {
            lemma_edges_loop_step(facts@, before, rest@, built, edges@);
            assert forall|i: int, y: Seq<char>|
                0 <= i < edges@.len() && #[trigger] contains_view(views(edges@[i].evidence@), y) implies #[trigger] backed(
                facts@,
                y,
            ) by {
                if i < built.len() {
                    assert(edges@[i] == built[i]);
                    assert(contains_view(views(built[i].evidence@), y));
                } else {
                    assert(edges@[i].evidence == before[0].3);
                    assert(contains_view(views(before[0].3@), y));
                    assert(evidence_backed(before, facts@));
                    assert(backed(facts@, y));
                }
            }
        }
    }
    let ghost unsorted_edges = edges@;
    proof {
        assert(rest@.len() == 0);
        assert forall|k: int|
            0 <= k < facts@.len() && #[trigger] edge_eligible(facts@[k]) implies edge_has(
            unsorted_edges,
            facts@[k].source->0@,
            resolved_node(facts@[k])->0@,
            facts@[k].kind,
            facts@[k].id@,
        ) by {
            assert(!edge_carries(rest@, facts@[k].source->0@, resolved_node(facts@[k])->0@, facts@[k].kind, facts@[k].id@));
        }
    }
    let edges = sort_edges(edges);
    proof {
        lemma_edges_sorted_has(facts@, unsorted_edges, edges@);
    }
    proof {
        assert forall|i: int, y: Seq<char>|
            0 <= i < edges@.len() && #[trigger] contains_view(views(edges@[i].evidence@), y) implies #[trigger] backed(
            facts@,
            y,
        ) by {
            assert(unsorted_edges.contains(edges@[i]));
            let k = choose|k: int| 0 <= k < unsorted_edges.len() && unsorted_edges[k] == edges@[i];
            assert(contains_view(views(unsorted_edges[k].evidence@), y));
            assert(backed(facts@, y));
        }
    }
    let mut scope = AnalyzedScope::empty();
    scope.requested_roots = clone_strings(&provider.requested_roots);
    scope.limitations = clone_strings(&provider.limitations);
    scope.languages = languages;
    scope.included_documents = included;
    scope.external_documents = external_documents;
    let mut validations: Vec<Validation> = Vec::new();
    validations.push(
        Validation {
            name: "provider_input_digest".to_owned(),
            status: ValidationStatus::Passed,
            details: provider.build.provider_input_digest.clone(),
            provenance: provenance("adapter_validation"),
        },
    );
    validations.push(
        Validation {
            name: "graph_integrity".to_owned(),
            status: ValidationStatus::Passed,
            details: "every edge-eligible fact has exactly one evidence-backed projection".to_owned(),
            provenance: provenance("adapter_validation"),
        },
    );
    let graph = CodeGraph {
        schema_version: SCHEMA_VERSION,
        build,
        producer,
        scope,
        nodes,
        edges,
        references: facts,
        diagnostics,
        validations,
    };
    // The integrity check reads no validation record, so checking the graph
    // that already records it passing is checking the graph before it.
    proof {
        assert(relation_of(*index, relationships@) && node_map_of(*index, build_id@, node_map@));
        assert(assembled(*index, *provider, build_id@, graph));
    }
    match graph.validate(build_id) {
        Ok(_) => {},
        Err(error) => return Err(ScipProviderError::Integrity(error)),
    }
    proof {
        reveal_strlit("provider_input_digest");
        reveal_strlit("graph_integrity");
    }
    Ok(graph)
}


impl ScipProviderError {
    /// What the refusal says.
    pub open spec fn spec_message(&self) -> Seq<char> {
        match self {
            ScipProviderError::InputDigestMismatch { expected, actual } => "SCIP input digest mismatch: expected "@
                + expected@ + ", got "@ + actual@,
            ScipProviderError::InvalidPath(path) => "SCIP document path is unsafe: "@ + path@,
            ScipProviderError::MalformedRange(path) => "malformed SCIP range in "@ + path@,
            ScipProviderError::DefinitionCycle(symbol) => "SCIP definition relationship cycle at "@ + symbol@,
            ScipProviderError::Decode(detail) => "failed to decode SCIP: "@ + detail@,
            ScipProviderError::Integrity(e) => e.spec_message(),
        }
    }

    /// What the refusal says.
    pub fn message(&self) -> (r: String)
        ensures
            r@ == self.spec_message(),
    {
        let mut out = String::new();
        match self {
            ScipProviderError::InputDigestMismatch { expected, actual } => {
                crate::text::push_str(&mut out, "SCIP input digest mismatch: expected ");
                crate::text::push_str(&mut out, expected.as_str());
                crate::text::push_str(&mut out, ", got ");
                crate::text::push_str(&mut out, actual.as_str());
            },
            ScipProviderError::InvalidPath(path) => {
                crate::text::push_str(&mut out, "SCIP document path is unsafe: ");
                crate::text::push_str(&mut out, path.as_str());
            },
            ScipProviderError::MalformedRange(path) => {
                crate::text::push_str(&mut out, "malformed SCIP range in ");
                crate::text::push_str(&mut out, path.as_str());
            },
            ScipProviderError::DefinitionCycle(symbol) => {
                crate::text::push_str(&mut out, "SCIP definition relationship cycle at ");
                crate::text::push_str(&mut out, symbol.as_str());
            },
            ScipProviderError::Decode(detail) => {
                crate::text::push_str(&mut out, "failed to decode SCIP: ");
                crate::text::push_str(&mut out, detail.as_str());
            },
            ScipProviderError::Integrity(e) => {
                return e.message();
            },
        }
        proof {
            assert(out@ =~= self.spec_message());
        }
        out
    }
}

} // verus!
