//! Symbol records and symbol identity.
//!
//! Identity is the load-bearing property of the whole index. It must survive a
//! reformat, a comment edit, and a line shift, and it must never encode a line
//! number, an absolute path, or anything about the machine that produced it.

use crate::hash::{hex_sha256, sha256};
use crate::text::{decimal, hex_lower, push_char, push_decimal, push_str};
use vstd::prelude::*;
use vstd::utf8::encode_utf8;

verus! {

/// One function or type.
#[derive(Debug, Clone, PartialEq)]
pub struct Symbol {
    /// Stable identity. See [`symbol_id`].
    pub id: String,
    /// Repo-relative, forward-slash separated.
    pub path: String,
    pub language: String,
    pub kind: String,
    /// Declared name, without scope.
    pub name: String,
    /// Scope segments plus name, joined by the language's separator.
    pub qualified_path: String,
    /// Declared metadata that tells this symbol apart from another with the
    /// same qualified path. Part of identity whenever it is present.
    pub discriminator: Option<String>,
    /// 1-based, inclusive.
    pub start_line: usize,
    /// 0-based byte offset within the start line.
    pub start_column: usize,
    /// 1-based, inclusive.
    pub end_line: usize,
    /// 0-based byte offset within the end line, exclusive.
    pub end_column: usize,
    /// Where the symbol's own name token is written.
    pub declaration: Option<Span>,
    pub cognitive_complexity: u32,
    /// The tier that produced this record.
    pub tier: u8,
    /// Hash of the symbol's token stream. Never part of identity.
    pub content_fingerprint: String,
    /// As `content_fingerprint`, with the symbol's own name left out.
    pub body_fingerprint: String,
}

/// A single-line span of source, as an external index spells one.
#[derive(Debug, Clone, Copy, PartialEq, Eq)]
pub struct Span {
    /// 1-based.
    pub line: usize,
    /// 0-based byte offset within the line.
    pub start_column: usize,
    /// 0-based byte offset within the line, exclusive.
    pub end_column: usize,
}

/// The identity `symbol_id` builds from its parts.
pub open spec fn spec_symbol_id(
    language: Seq<char>,
    path: Seq<char>,
    kind: Seq<char>,
    qualified_path: Seq<char>,
    discriminator: Option<Seq<char>>,
    ordinal: Option<nat>,
) -> Seq<char> {
    let base = language + seq![':'] + path + seq![':'] + kind + seq![':'] + qualified_path;
    let with_discriminator = match discriminator {
        Some(d) => base + seq!['@'] + d,
        None => base,
    };
    match ordinal {
        Some(o) => with_discriminator + seq!['#'] + decimal(o),
        None => with_discriminator,
    }
}

/// The view of an optional string slice.
pub open spec fn opt_view(s: Option<&str>) -> Option<Seq<char>> {
    match s {
        Some(t) => Some(t@),
        None => None,
    }
}

/// The view of an optional ordinal.
pub open spec fn opt_nat(o: Option<usize>) -> Option<nat> {
    match o {
        Some(n) => Some(n as nat),
        None => None,
    }
}

/// Build a symbol's stable identity.
///
/// `discriminator` is declared, content-derived metadata and applies whenever
/// it is present. `ordinal` is the positional fallback for symbols that stay
/// indistinguishable after that.
pub fn symbol_id(
    language: &str,
    path: &str,
    kind: &str,
    qualified_path: &str,
    discriminator: Option<&str>,
    ordinal: Option<usize>,
) -> (id: String)
    ensures
        id@ == spec_symbol_id(
            language@,
            path@,
            kind@,
            qualified_path@,
            opt_view(discriminator),
            opt_nat(ordinal),
        ),
{
    let mut id = String::new();
    push_str(&mut id, language);
    push_char(&mut id, ':');
    push_str(&mut id, path);
    push_char(&mut id, ':');
    push_str(&mut id, kind);
    push_char(&mut id, ':');
    push_str(&mut id, qualified_path);
    assert(id@ =~= language@ + seq![':'] + path@ + seq![':'] + kind@ + seq![':'] + qualified_path@);

    if let Some(discriminator) = discriminator {
        push_char(&mut id, '@');
        push_str(&mut id, discriminator);
    }

    if let Some(ordinal) = ordinal {
        push_char(&mut id, '#');
        push_decimal(&mut id, ordinal);
    }

    id
}

/// The bytes a token stream is hashed from: each token's kind, a NUL, its
/// text and a `\u{1}`, in order.
pub open spec fn token_material(tokens: Seq<(Seq<char>, Seq<char>)>) -> Seq<char>
    decreases tokens.len(),
{
    if tokens.len() == 0 {
        Seq::empty()
    } else {
        let last = tokens.last();
        token_material(tokens.drop_last()) + last.0 + seq!['\u{0}'] + last.1 + seq!['\u{1}']
    }
}

/// The views of a token stream.
pub open spec fn token_views(tokens: Seq<(&str, &str)>) -> Seq<(Seq<char>, Seq<char>)> {
    tokens.map_values(|t: (&str, &str)| (t.0@, t.1@))
}

/// Hash of a symbol's token stream.
///
/// Tokens are `(kind, text)` pairs in source order. Kind and text are kept
/// apart by separators, so `("ab", "c")` and `("a", "bc")` hash differently.
pub fn content_fingerprint(tokens: &[(&str, &str)]) -> (r: String)
    ensures
        r@ == hex_lower(sha256(encode_utf8(token_material(token_views(tokens@))))),
{
    let mut material = String::new();
    let n = tokens.len();
    let mut i: usize = 0;
    while i < n
        invariant
            i <= n,
            n == tokens@.len(),
            material@ == token_material(token_views(tokens@.take(i as int))),
        decreases n - i,
    {
        let (kind, text) = tokens[i];
        push_str(&mut material, kind);
        push_char(&mut material, '\u{0}');
        push_str(&mut material, text);
        push_char(&mut material, '\u{1}');
        proof {
            let prefix = tokens@.take(i + 1);
            assert(prefix.drop_last() =~= tokens@.take(i as int));
            assert(token_views(prefix).drop_last() =~= token_views(tokens@.take(i as int)));
            assert(token_views(prefix).last() == (kind@, text@));
        }
        i = i + 1;
    }
    assert(tokens@.take(n as int) =~= tokens@);
    hex_sha256(material.as_str().as_bytes())
}

} // verus!
