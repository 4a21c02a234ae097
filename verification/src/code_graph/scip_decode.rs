//! SCIP indexes read from their protobuf encoding.
//!
//! protobuf decodes the bytes; small wrappers hand the library each part of
//! the decoded index as its own plain records, enum fields as their numbers,
//! and the library reads those numbers and assembles a `ScipIndex`.

use crate::code_graph::model::{CodeGraph, DiagnosticSeverity, PositionEncoding};
use crate::code_graph::scip_provider::{
    import_outcome, ScipDiagnostic, ScipDocument, ScipIndex, ScipOccurrence, ScipProvider, ScipProviderError,
    ScipRelationship, ScipSymbol, ScipToolInfo,
};
use crate::hash::sha256;
use crate::order::views;
use crate::text::hex_lower;
use protobuf::EnumFull;
use protobuf::Message;
use vstd::prelude::*;

verus! {

#[verifier::external_type_specification]
#[verifier::external_body]
pub struct ExScipIndex(scip::types::Index);

/// A relationship as plain values: the related symbol, then whether it is a
/// reference, an implementation, a type definition and a definition.
pub type RelationshipView = (Seq<char>, bool, bool, bool, bool);

/// A symbol as plain values: its symbol, kind, display name, enclosing
/// symbol and relationships.
pub type SymbolView = (Seq<char>, Option<Seq<char>>, Seq<char>, Seq<char>, Seq<RelationshipView>);

/// A diagnostic as plain values: severity, code and message.
pub type DiagnosticView = (DiagnosticSeverity, Seq<char>, Seq<char>);

/// An occurrence as plain values: range, symbol, roles, diagnostics and
/// enclosing range.
pub type OccurrenceView = (Seq<i32>, Seq<char>, i32, Seq<DiagnosticView>, Seq<i32>);

/// A document as plain values: relative path, language, position encoding,
/// symbols and occurrences.
pub type DocumentView = (Seq<char>, Seq<char>, PositionEncoding, Seq<SymbolView>, Seq<OccurrenceView>);

/// A tool as plain values: name, version and arguments.
pub type ToolView = (Seq<char>, Seq<char>, Seq<Seq<char>>);

/// An index as plain values: its tool, its documents and its external
/// symbols.
pub type IndexView = (Option<ToolView>, Seq<DocumentView>, Seq<SymbolView>);

/// A diagnostic as decoded: severity number, code and message.
pub type RawDiagnostic = (i32, Seq<char>, Seq<char>);

/// An occurrence as decoded: range, symbol, roles, diagnostics and
/// enclosing range.
pub type RawOccurrence = (Seq<i32>, Seq<char>, i32, Seq<RawDiagnostic>, Seq<i32>);

/// A document as decoded: relative path, language, position encoding
/// number, symbols and occurrences.
pub type RawDocument = (Seq<char>, Seq<char>, i32, Seq<SymbolView>, Seq<RawOccurrence>);

/// An index as decoded: its tool, its documents and its external symbols.
pub type RawIndex = (Option<ToolView>, Seq<RawDocument>, Seq<SymbolView>);

/// How the library reads a SCIP position encoding number: UTF-8, UTF-16 or
/// UTF-32 code units for 1, 2 and 3; unknown otherwise.
pub open spec fn read_encoding(v: i32) -> PositionEncoding {
    if v == 1 {
        PositionEncoding::Utf8CodeUnit
    } else if v == 2 {
        PositionEncoding::Utf16CodeUnit
    } else if v == 3 {
        PositionEncoding::Utf32CodeUnit
    } else {
        PositionEncoding::Unknown
    }
}

/// How the library reads a SCIP severity number: error for 1, warning for
/// 2, information otherwise.
pub open spec fn read_severity(v: i32) -> DiagnosticSeverity {
    if v == 1 {
        DiagnosticSeverity::Error
    } else if v == 2 {
        DiagnosticSeverity::Warning
    } else {
        DiagnosticSeverity::Information
    }
}

pub open spec fn read_diagnostic(g: RawDiagnostic) -> DiagnosticView {
    (read_severity(g.0), g.1, g.2)
}

pub open spec fn read_occurrence(o: RawOccurrence) -> OccurrenceView {
    (o.0, o.1, o.2, o.3.map_values(|g: RawDiagnostic| read_diagnostic(g)), o.4)
}

pub open spec fn read_document(d: RawDocument) -> DocumentView {
    (d.0, d.1, read_encoding(d.2), d.3, d.4.map_values(|o: RawOccurrence| read_occurrence(o)))
}

/// The library's reading of a decoded index.
pub open spec fn read_index(ix: RawIndex) -> IndexView {
    (ix.0, ix.1.map_values(|d: RawDocument| read_document(d)), ix.2)
}

/// The library's reading of a SCIP position encoding number.
fn encoding_of(v: i32) -> (r: PositionEncoding)
    ensures
        r == read_encoding(v),
{
    if v == 1 {
        PositionEncoding::Utf8CodeUnit
    } else if v == 2 {
        PositionEncoding::Utf16CodeUnit
    } else if v == 3 {
        PositionEncoding::Utf32CodeUnit
    } else {
        PositionEncoding::Unknown
    }
}

/// The library's reading of a SCIP severity number.
fn severity_of(v: i32) -> (r: DiagnosticSeverity)
    ensures
        r == read_severity(v),
{
    if v == 1 {
        DiagnosticSeverity::Error
    } else if v == 2 {
        DiagnosticSeverity::Warning
    } else {
        DiagnosticSeverity::Information
    }
}

pub open spec fn relationship_view(r: ScipRelationship) -> RelationshipView {
    (r.symbol@, r.is_reference, r.is_implementation, r.is_type_definition, r.is_definition)
}

pub open spec fn symbol_view(s: ScipSymbol) -> SymbolView {
    (
        s.symbol@,
        match s.kind {
            Some(k) => Some(k@),
            None => None,
        },
        s.display_name@,
        s.enclosing_symbol@,
        s.relationships@.map_values(|r: ScipRelationship| relationship_view(r)),
    )
}

pub open spec fn diagnostic_view(g: ScipDiagnostic) -> DiagnosticView {
    (g.severity, g.code@, g.message@)
}

pub open spec fn occurrence_view(o: ScipOccurrence) -> OccurrenceView {
    (o.range@, o.symbol@, o.symbol_roles, o.diagnostics@.map_values(|g: ScipDiagnostic| diagnostic_view(g)), o.enclosing_range@)
}

pub open spec fn document_view(d: ScipDocument) -> DocumentView {
    (
        d.relative_path@,
        d.language@,
        d.position_encoding,
        d.symbols@.map_values(|s: ScipSymbol| symbol_view(s)),
        d.occurrences@.map_values(|o: ScipOccurrence| occurrence_view(o)),
    )
}

pub open spec fn tool_view(t: ScipToolInfo) -> ToolView {
    (t.name@, t.version@, views(t.arguments@))
}

/// The library's record of an index as plain values.
pub open spec fn index_view(ix: ScipIndex) -> IndexView {
    (
        match ix.tool {
            Some(t) => Some(tool_view(t)),
            None => None,
        },
        ix.documents@.map_values(|d: ScipDocument| document_view(d)),
        ix.external_symbols@.map_values(|s: ScipSymbol| symbol_view(s)),
    )
}

/// What protobuf decodes from `bytes` as a SCIP `Index`, read as plain
/// values; `None` when the bytes are not an encoded index.
pub uninterp spec fn scip_decoded(bytes: Seq<u8>) -> Option<RawIndex>;

/// An index protobuf decoded, kept beside the bytes it was decoded from.
/// Only `parse_index` makes one.
pub struct DecodedIndex {
    index: scip::types::Index,
    bytes: Vec<u8>,
}

impl DecodedIndex {
    /// The decoded index as plain values.
    pub closed spec fn model(self) -> RawIndex {
        scip_decoded(self.bytes@)->0
    }
}

/// The symbol list of document `d` of a decoded index, or its external
/// symbols when `d` is `None`.
pub open spec fn symbol_list(m: RawIndex, d: Option<usize>) -> Seq<SymbolView> {
    match d {
        Some(d) => m.1[d as int].3,
        None => m.2,
    }
}

/// Whether `d` names a document of the index, or the external symbols.
pub open spec fn list_exists(m: RawIndex, d: Option<usize>) -> bool {
    match d {
        Some(d) => d < m.1.len(),
        None => true,
    }
}

/// `Index::parse_from_bytes` (protobuf's `Message`): the decoded index, or
/// the decoder's error as text. Decoding depends on the bytes alone.
#[verifier::external_body]
fn parse_index(bytes: &[u8]) -> (r: Result<DecodedIndex, String>)
    ensures
        r is Ok <==> scip_decoded(bytes@) is Some,
        r matches Ok(x) ==> x.model() == scip_decoded(bytes@)->0,
{
    match scip::types::Index::parse_from_bytes(bytes) {
        Ok(index) => Ok(DecodedIndex { index, bytes: bytes.to_vec() }),
        Err(error) => Err(error.to_string()),
    }
}

/// The index metadata's tool information, when the index names a tool.
#[verifier::external_body]
fn index_tool(x: &DecodedIndex) -> (r: Option<ScipToolInfo>)
    ensures
        (match r {
            Some(t) => Some(tool_view(t)),
            None => None,
        }) == x.model().0,
{
    x.index.metadata.tool_info.as_ref().map(
        |tool| ScipToolInfo { name: tool.name.clone(), version: tool.version.clone(), arguments: tool.arguments.clone() },
    )
}

/// The number of documents of the index.
#[verifier::external_body]
fn document_count(x: &DecodedIndex) -> (r: usize)
    ensures
        r == x.model().1.len(),
{
    x.index.documents.len()
}

/// Document `d`'s path, language and position encoding number; `None` past
/// the last.
#[verifier::external_body]
fn document_header(x: &DecodedIndex, d: usize) -> (r: Option<(String, String, i32)>)
    ensures
        d < x.model().1.len() <==> r is Some,
        r matches Some(h) ==> h.0@ == x.model().1[d as int].0 && h.1@ == x.model().1[d as int].1 && h.2
            == x.model().1[d as int].2,
{
    x.index.documents.get(d).map(|doc| (doc.relative_path.clone(), doc.language.clone(), doc.position_encoding.value()))
}

/// Document `d`'s occurrences, without their diagnostics; none past the last.
#[verifier::external_body]
fn document_occurrences(x: &DecodedIndex, d: usize) -> (r: Vec<ScipOccurrence>)
    ensures
        d < x.model().1.len() ==> r@.len() == x.model().1[d as int].4.len(),
        forall|o: int|
            #![trigger r@[o]]
            d < x.model().1.len() && 0 <= o < r@.len() ==> r@[o].range@ == x.model().1[d as int].4[o].0 && r@[o].symbol@
                == x.model().1[d as int].4[o].1 && r@[o].symbol_roles == x.model().1[d as int].4[o].2
                && r@[o].enclosing_range@ == x.model().1[d as int].4[o].4,
{
    x.index.documents.get(d).map_or(Vec::new(), |doc| {
        doc.occurrences.iter().map(|o| ScipOccurrence {
            range: o.range.clone(),
            symbol: o.symbol.clone(),
            symbol_roles: o.symbol_roles,
            diagnostics: Vec::new(),
            enclosing_range: o.enclosing_range.clone(),
        }).collect()
    })
}

/// A decoded diagnostic as plain values.
pub open spec fn raw_diagnostic_view(g: (i32, String, String)) -> RawDiagnostic {
    (g.0, g.1@, g.2@)
}

/// The diagnostics of occurrence `o` of document `d`, each as its severity
/// number, code and message; none past the last.
#[verifier::external_body]
fn occurrence_diagnostics(x: &DecodedIndex, d: usize, o: usize) -> (r: Vec<(i32, String, String)>)
    ensures
        d < x.model().1.len() && o < x.model().1[d as int].4.len() ==> r@.map_values(
            |g: (i32, String, String)| raw_diagnostic_view(g),
        ) == x.model().1[d as int].4[o as int].3,
{
    x.index.documents.get(d).and_then(|doc| doc.occurrences.get(o)).map_or(Vec::new(), |occurrence| {
        occurrence.diagnostics.iter().map(|g| (g.severity.value(), g.code.clone(), g.message.clone())).collect()
    })
}

/// The diagnostics of occurrence `o` of document `d`, as the library reads
/// them.
fn diagnostics_of(x: &DecodedIndex, d: usize, o: usize) -> (r: Vec<ScipDiagnostic>)
    requires
        d < x.model().1.len(),
        o < x.model().1[d as int].4.len(),
    ensures
        r@.map_values(|g: ScipDiagnostic| diagnostic_view(g)) == x.model().1[d as int].4[o as int].3.map_values(
            |g: RawDiagnostic| read_diagnostic(g),
        ),
{
    let raw = occurrence_diagnostics(x, d, o);
    let ghost rv = x.model().1[d as int].4[o as int].3;
    let mut out: Vec<ScipDiagnostic> = Vec::new();
    let mut i: usize = 0;
    while i < raw.len()
        invariant
            i <= raw@.len(),
            raw@.map_values(|g: (i32, String, String)| raw_diagnostic_view(g)) == rv,
            out@.len() == i,
            forall|k: int| 0 <= k < i ==> diagnostic_view(#[trigger] out@[k]) == read_diagnostic(rv[k]),
        decreases raw@.len() - i,
    {
        proof {
            assert(raw_diagnostic_view(raw@[i as int]) == rv[i as int]);
        }
        out.push(ScipDiagnostic { severity: severity_of(raw[i].0), code: raw[i].1.clone(), message: raw[i].2.clone() });
        i = i + 1;
    }
    proof {
        assert(out@.map_values(|g: ScipDiagnostic| diagnostic_view(g)) =~~= rv.map_values(
            |g: RawDiagnostic| read_diagnostic(g),
        ));
    }
    out
}

/// The number of symbol informations of document `d`, or of the index's
/// external symbols when `d` is `None`; 0 past the last document.
#[verifier::external_body]
fn symbol_count(x: &DecodedIndex, d: Option<usize>) -> (r: usize)
    ensures
        list_exists(x.model(), d) ==> r == symbol_list(x.model(), d).len(),
{
    match d {
        Some(d) => x.index.documents.get(d).map_or(0, |doc| doc.symbols.len()),
        None => x.index.external_symbols.len(),
    }
}

/// Symbol information `s` of document `d`, or of the index's external
/// symbols when `d` is `None`, without its relationships; the kind by the
/// name its enum value descriptor gives it (`EnumFull::descriptor`). `None`
/// past the last.
#[verifier::external_body]
fn symbol_information(x: &DecodedIndex, d: Option<usize>, s: usize) -> (r: Option<ScipSymbol>)
    ensures
        list_exists(x.model(), d) && s < symbol_list(x.model(), d).len() ==> r is Some,
        r is Some && list_exists(x.model(), d) && s < symbol_list(x.model(), d).len() ==> r->0.symbol@ == symbol_list(
            x.model(),
            d,
        )[s as int].0 && (match r->0.kind {
            Some(k) => Some(k@),
            None => None,
        }) == symbol_list(x.model(), d)[s as int].1 && r->0.display_name@ == symbol_list(x.model(), d)[s as int].2
            && r->0.enclosing_symbol@ == symbol_list(x.model(), d)[s as int].3,
{
    let list = match d {
        Some(d) => x.index.documents.get(d).map(|doc| &doc.symbols),
        None => Some(&x.index.external_symbols),
    };
    list.and_then(|symbols| symbols.get(s)).map(|info| ScipSymbol {
        symbol: info.symbol.clone(),
        kind: info.kind.enum_value().ok().map(|kind| kind.descriptor().name().to_owned()),
        display_name: info.display_name.clone(),
        enclosing_symbol: info.enclosing_symbol.clone(),
        relationships: Vec::new(),
    })
}

/// The relationships of symbol information `s` of document `d`, or of the
/// external symbols when `d` is `None`; none past the last.
#[verifier::external_body]
fn symbol_relationships(x: &DecodedIndex, d: Option<usize>, s: usize) -> (r: Vec<ScipRelationship>)
    ensures
        list_exists(x.model(), d) && s < symbol_list(x.model(), d).len() ==> r@.map_values(
            |g: ScipRelationship| relationship_view(g),
        ) == symbol_list(x.model(), d)[s as int].4,
{
    let list = match d {
        Some(d) => x.index.documents.get(d).map(|doc| &doc.symbols),
        None => Some(&x.index.external_symbols),
    };
    list.and_then(|symbols| symbols.get(s)).map_or(Vec::new(), |info| info.relationships.iter().map(|r| ScipRelationship {
        symbol: r.symbol.clone(),
        is_reference: r.is_reference,
        is_implementation: r.is_implementation,
        is_type_definition: r.is_type_definition,
        is_definition: r.is_definition,
    }).collect())
}

/// The symbol information of document `d`, or of the external symbols when
/// `d` is `None`, each with its relationships, in index order.
fn symbols_of(x: &DecodedIndex, d: Option<usize>) -> (r: Vec<ScipSymbol>)
    requires
        list_exists(x.model(), d),
    ensures
        r@.map_values(|s: ScipSymbol| symbol_view(s)) == symbol_list(x.model(), d),
{
    let ghost list = symbol_list(x.model(), d);
    let count = symbol_count(x, d);
    let mut out: Vec<ScipSymbol> = Vec::new();
    let mut s: usize = 0;
    while s < count
        invariant
            list_exists(x.model(), d),
            list == symbol_list(x.model(), d),
            count == list.len(),
            s <= count,
            out@.len() == s,
            forall|k: int| 0 <= k < s ==> symbol_view(#[trigger] out@[k]) == list[k],
        decreases count - s,
    {
        match symbol_information(x, d, s) {
            Some(mut symbol) => {
                symbol.relationships = symbol_relationships(x, d, s);
                proof {
                    assert(symbol_view(symbol) =~~= list[s as int]);
                }
                out.push(symbol);
            },
            None => {
                proof {
                    assert(false);
                }
            },
        }
        s = s + 1;
    }
    proof {
        assert(out@.map_values(|s: ScipSymbol| symbol_view(s)) =~~= list);
    }
    out
}

/// Document `d` of the index with its symbols and its occurrences, each with
/// its diagnostics.
fn document_of(x: &DecodedIndex, d: usize, header: (String, String, i32)) -> (r: ScipDocument)
    requires
        d < x.model().1.len(),
        header.0@ == x.model().1[d as int].0,
        header.1@ == x.model().1[d as int].1,
        header.2 == x.model().1[d as int].2,
    ensures
        document_view(r) == read_document(x.model().1[d as int]),
{
    let ghost m = x.model().1[d as int];
    let mut occurrences = document_occurrences(x, d);
    let mut o: usize = 0;
    while o < occurrences.len()
        invariant
            d < x.model().1.len(),
            m == x.model().1[d as int],
            o <= occurrences@.len(),
            occurrences@.len() == m.4.len(),
            forall|k: int| 0 <= k < o ==> occurrence_view(#[trigger] occurrences@[k]) == read_occurrence(m.4[k]),
            forall|k: int|
                #![trigger occurrences@[k]]
                o <= k < occurrences@.len() ==> {
                    &&& occurrences@[k].range@ == m.4[k].0
                    &&& occurrences@[k].symbol@ == m.4[k].1
                    &&& occurrences@[k].symbol_roles == m.4[k].2
                    &&& occurrences@[k].enclosing_range@ == m.4[k].4
                },
        decreases occurrences@.len() - o,
    {
        let mut occurrence = occurrences.remove(o);
        occurrence.diagnostics = diagnostics_of(x, d, o);
        proof {
            assert(occurrence_view(occurrence) =~~= read_occurrence(m.4[o as int]));
        }
        occurrences.insert(o, occurrence);
        o = o + 1;
    }
    let (relative_path, language, raw_encoding) = header;
    let position_encoding = encoding_of(raw_encoding);
    let r = ScipDocument { relative_path, language, position_encoding, symbols: symbols_of(x, Some(d)), occurrences };
    proof {
        assert(r.occurrences@.map_values(|o: ScipOccurrence| occurrence_view(o)) =~~= m.4.map_values(
            |o: RawOccurrence| read_occurrence(o),
        ));
        assert(document_view(r) =~~= read_document(m));
    }
    r
}

/// The library's record of a SCIP index encoded in `bytes`: the tool that
/// wrote it, its documents and its external symbols, in index order;
/// `Decode` with the decoder's words when the bytes are not an index.
pub fn decode(bytes: &[u8]) -> (r: Result<ScipIndex, ScipProviderError>)
    ensures
        r is Ok <==> scip_decoded(bytes@) is Some,
        r matches Ok(ix) ==> index_view(ix) == read_index(scip_decoded(bytes@)->0),
        r is Err ==> r->Err_0 is Decode,
{
    let x = match parse_index(bytes) {
        Ok(x) => x,
        Err(detail) => return Err(ScipProviderError::Decode(detail)),
    };
    let ghost m = x.model();
    let count = document_count(&x);
    let mut documents: Vec<ScipDocument> = Vec::new();
    let mut d: usize = 0;
    while d < count
        invariant
            m == x.model(),
            count == m.1.len(),
            d <= count,
            documents@.len() == d,
            forall|k: int| 0 <= k < d ==> document_view(#[trigger] documents@[k]) == read_document(m.1[k]),
        decreases count - d,
    {
        match document_header(&x, d) {
            Some(header) => documents.push(document_of(&x, d, header)),
            None => {
                proof {
                    assert(false);
                }
            },
        }
        d = d + 1;
    }
    let ix = ScipIndex { tool: index_tool(&x), documents, external_symbols: symbols_of(&x, None) };
    proof {
        assert(ix.documents@.map_values(|d: ScipDocument| document_view(d)) =~~= m.1.map_values(
            |d: RawDocument| read_document(d),
        ));
        assert(index_view(ix) =~~= read_index(m));
    }
    Ok(ix)
}

impl ScipProvider {
    /// A graph from a provider's raw input, under the build id `build_id`:
    /// refused when the input is not the one the build identity was made
    /// for, or is not a SCIP index; else the import of the decoded index.
    pub fn produce(&self, input: &[u8], build_id: &str) -> (r: Result<CodeGraph, ScipProviderError>)
        ensures
            self.build.provider_input_digest@ != hex_lower(sha256(input@)) ==> (r matches Err(
                ScipProviderError::InputDigestMismatch { expected, actual },
            ) && expected@ == self.build.provider_input_digest@ && actual@ == hex_lower(sha256(input@))),
            self.build.provider_input_digest@ == hex_lower(sha256(input@)) && scip_decoded(input@) is None ==> r matches Err(
                ScipProviderError::Decode(_),
            ),
            self.build.provider_input_digest@ == hex_lower(sha256(input@)) && scip_decoded(input@) is Some ==> exists|
                index: ScipIndex,
            | index_view(index) == read_index(scip_decoded(input@)->0) && import_outcome(index, *self, build_id@, r),
    {
        match self.check_input(input) {
            Ok(()) => {},
            Err(e) => return Err(e),
        }
        let index = match decode(input) {
            Ok(index) => index,
            Err(e) => return Err(e),
        };
        self.import(&index, build_id)
    }
}

} // verus!
