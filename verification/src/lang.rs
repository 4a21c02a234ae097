//! The language metadata table.
//!
//! Language support is data: a language is an entry of the table plus its
//! query texts. Nothing here branches on which language it is looking at.

use crate::config::path_extension;
use crate::hash::{hex_sha256, sha256};
use crate::order::{contains_view, str_eq, views};
use crate::text::{hex_lower, push_char, push_str, split_on, split_str, string_of};
use vstd::prelude::*;
use vstd::utf8::encode_utf8;

verus! {

/// How a language spells an import tree.
pub struct ImportSyntax {
    /// Between path segments.
    pub separator: String,
    pub group_open: char,
    pub group_close: char,
    /// Between items inside a group.
    pub item_separator: char,
    /// Introduces a local alias, as in `use a::b as c`.
    pub alias_keyword: String,
    /// Imports everything under a path.
    pub glob: String,
    /// Refers to the path itself rather than a child.
    pub self_segment: String,
    /// Leading segments that mean "somewhere in this project".
    pub crate_roots: Vec<String>,
}

/// How a repo-relative file path becomes a module path.
pub struct ModulePathRules {
    /// Leading directory segments that name no module. Everything up to and
    /// including the last of these is dropped.
    pub strip_prefixes: Vec<String>,
    /// File stems that name their containing directory rather than a module
    /// of their own.
    pub root_stems: Vec<String>,
}

/// A separator a formatter may add or drop at the end of one kind of list
/// without changing meaning.
pub struct TrailingSeparator {
    /// Node kind of the list that holds the separator.
    pub container: String,
    /// The separator token itself.
    pub token: String,
}

/// One language's metadata.
pub struct LanguageDef {
    /// Stable identifier used in output and in percentile bucketing.
    pub id: String,
    /// File extensions, without the leading dot.
    pub extensions: Vec<String>,
    pub symbols_query: String,
    pub scopes_query: String,
    pub complexity_query: String,
    pub discriminators_query: String,
    pub references_query: String,
    pub imports_query: String,
    /// How an import tree is spelled.
    pub import_syntax: ImportSyntax,
    /// How a file path becomes a module path.
    pub module_paths: ModulePathRules,
    /// Separator between qualified-path segments.
    pub path_separator: String,
    /// Lists whose trailing separator is a formatter's choice.
    pub optional_trailing: Vec<TrailingSeparator>,
}

/// Position of the last `c` in `s`, or -1.
pub open spec fn last_pos(s: Seq<char>, c: char) -> int
    decreases s.len(),
{
    if s.len() == 0 {
        -1
    } else if s.last() == c {
        s.len() - 1
    } else {
        last_pos(s.drop_last(), c)
    }
}

proof fn lemma_last_pos(s: Seq<char>, c: char)
    ensures
        -1 <= last_pos(s, c) < s.len(),
    decreases s.len(),
{
    if s.len() > 0 {
        lemma_last_pos(s.drop_last(), c);
    }
}

/// `s` up to its last `.`, or all of `s` when it has none.
pub open spec fn without_extension(s: Seq<char>) -> Seq<char> {
    if last_pos(s, '.') >= 0 {
        s.take(last_pos(s, '.'))
    } else {
        s
    }
}

/// Position of the last of `segs` that is one of `names`, or -1.
pub open spec fn last_named(segs: Seq<Seq<char>>, names: Seq<Seq<char>>) -> int
    decreases segs.len(),
{
    if segs.len() == 0 {
        -1
    } else if contains_view(names, segs.last()) {
        segs.len() - 1
    } else {
        last_named(segs.drop_last(), names)
    }
}

proof fn lemma_last_named(segs: Seq<Seq<char>>, names: Seq<Seq<char>>)
    ensures
        -1 <= last_named(segs, names) < segs.len(),
    decreases segs.len(),
{
    if segs.len() > 0 {
        lemma_last_named(segs.drop_last(), names);
    }
}

/// The module path a file contributes, as segments.
pub open spec fn module_segments(rules: ModulePathRules, path: Seq<char>) -> Seq<Seq<char>> {
    let segs = split_on(without_extension(path), '/');
    let kept = segs.skip(last_named(segs, views(rules.strip_prefixes@)) + 1);
    if kept.len() > 0 && contains_view(views(rules.root_stems@), kept.last()) {
        kept.drop_last()
    } else {
        kept
    }
}

/// Is `x` one of `v`?
fn is_one_of(v: &Vec<String>, x: &str) -> (r: bool)
    ensures
        r == contains_view(views(v@), x@),
{
    let n = v.len();
    let mut i: usize = 0;
    while i < n
        invariant
            i <= n,
            n == v@.len(),
            forall|k: int| 0 <= k < i ==> (#[trigger] v@[k])@ != x@,
        decreases n - i,
    {
        if str_eq(v[i].as_str(), x) {
            proof {
                assert(views(v@)[i as int] == x@);
            }
            return true;
        }
        i = i + 1;
    }
    proof {
        if contains_view(views(v@), x@) {
            let k = choose|k: int| 0 <= k < views(v@).len() && #[trigger] views(v@)[k] == x@;
            assert(v@[k]@ == x@);
        }
    }
    false
}

fn vec_of(items: &[&str]) -> (r: Vec<String>)
    ensures
        views(r@) == items@.map_values(|s: &str| s@),
{
    let mut out: Vec<String> = Vec::new();
    let mut i: usize = 0;
    while i < items.len()
        invariant
            i <= items@.len(),
            views(out@) == items@.take(i as int).map_values(|s: &str| s@),
        decreases items@.len() - i,
    {
        let ghost before = views(out@);
        let item = items[i].to_owned();
        out.push(item);
        proof {
            assert(views(out@) =~= before.push(item@));
            assert(items@.take(i + 1).map_values(|s: &str| s@) =~= items@.take(i as int).map_values(|s: &str| s@).push(
                items@[i as int]@,
            ));
        }
        i = i + 1;
    }
    proof {
        assert(items@.take(items@.len() as int) =~= items@);
    }
    out
}

/// Position of the last `c` in `cs`.
fn last_char(cs: &Vec<char>, c: char) -> (r: Option<usize>)
    ensures
        match r {
            Some(k) => k as int == last_pos(cs@, c),
            None => last_pos(cs@, c) < 0,
        },
{
    let mut i = cs.len();
    proof {
        assert(cs@.take(i as int) =~= cs@);
    }
    while i > 0
        invariant
            i <= cs@.len(),
            last_pos(cs@, c) == last_pos(cs@.take(i as int), c),
        decreases i,
    {
        proof {
            let t = cs@.take(i as int);
            assert(t.drop_last() =~= cs@.take(i - 1));
            assert(t.last() == cs@[i - 1]);
        }
        if cs[i - 1] == c {
            return Some(i - 1);
        }
        i = i - 1;
    }
    None
}

/// Position of the last of `segs` that is one of `names`.
fn last_one_of(segs: &Vec<String>, names: &Vec<String>) -> (r: Option<usize>)
    ensures
        match r {
            Some(k) => k as int == last_named(views(segs@), views(names@)),
            None => last_named(views(segs@), views(names@)) < 0,
        },
{
    let ghost ss = views(segs@);
    let mut i = segs.len();
    proof {
        assert(ss.take(i as int) =~= ss);
    }
    while i > 0
        invariant
            i <= segs@.len(),
            ss == views(segs@),
            last_named(ss, views(names@)) == last_named(ss.take(i as int), views(names@)),
        decreases i,
    {
        proof {
            let t = ss.take(i as int);
            assert(t.drop_last() =~= ss.take(i - 1));
            assert(t.last() == ss[i - 1]);
        }
        if is_one_of(names, segs[i - 1].as_str()) {
            return Some(i - 1);
        }
        i = i - 1;
    }
    None
}

impl ModulePathRules {
    /// Rust's rules: `src` names no module; `lib`, `main` and `mod` name
    /// their directory.
    pub fn rust() -> (r: ModulePathRules)
        ensures
            views(r.strip_prefixes@) == seq!["src"@],
            views(r.root_stems@) == seq!["lib"@, "main"@, "mod"@],
    {
        let strip_prefixes = vec_of(&["src"]);
        let root_stems = vec_of(&["lib", "main", "mod"]);
        ModulePathRules { strip_prefixes, root_stems }
    }

    /// The module path a file contributes, as segments.
    ///
    /// `crates/core/src/git.rs` is `git`; `crates/core/src/lib.rs` is the
    /// crate root and contributes nothing; `src/a/mod.rs` is `a`.
    pub fn segments(&self, path: &str) -> (r: Vec<String>)
        ensures
            views(r@) == module_segments(*self, path@),
    {
        let cs = crate::text::chars_of(path);
        proof {
            lemma_last_pos(cs@, '.');
        }
        let cut = match last_char(&cs, '.') {
            Some(p) => p,
            None => cs.len(),
        };
        let stem = crate::text::string_of_range(cs.as_slice(), 0, cut);
        proof {
            assert(stem@ =~= without_extension(path@));
        }
        let segs = split_str(stem.as_str(), '/');
        let ghost ss = views(segs@);
        proof {
            assert(ss == segs@.map_values(|p: String| p@));
        }
        let nseg = segs.len();
        proof {
            lemma_last_named(ss, views(self.strip_prefixes@));
        }
        let start = match last_one_of(&segs, &self.strip_prefixes) {
            Some(p) => p + 1,
            None => 0,
        };
        let mut out: Vec<String> = Vec::new();
        let mut k = start;
        while k < segs.len()
            invariant
                start <= k <= segs@.len(),
                ss == views(segs@),
                views(out@) == ss.subrange(start as int, k as int),
            decreases segs@.len() - k,
        {
            let ghost before = views(out@);
            let piece = segs[k].clone();
            out.push(piece);
            proof {
                assert(views(out@) =~= before.push(ss[k as int]));
                assert(ss.subrange(start as int, k + 1) =~= ss.subrange(start as int, k as int).push(ss[k as int]));
            }
            k = k + 1;
        }
        proof {
            assert(ss.subrange(start as int, ss.len() as int) =~= ss.skip(start as int));
        }
        let n = out.len();
        if n > 0 && is_one_of(&self.root_stems, out[n - 1].as_str()) {
            let ghost before = views(out@);
            out.pop();
            proof {
                assert(views(out@) =~= before.drop_last());
            }
        }
        out
    }
}

impl ImportSyntax {
    /// How Rust spells an import tree.
    pub fn rust() -> (r: ImportSyntax)
        ensures
            r.separator@ == "::"@,
            r.group_open == '{',
            r.group_close == '}',
            r.item_separator == ',',
            r.alias_keyword@ == "as"@,
            r.glob@ == "*"@,
            r.self_segment@ == "self"@,
            views(r.crate_roots@) == seq!["crate"@, "self"@, "super"@],
    {
        ImportSyntax {
            separator: "::".to_owned(),
            group_open: '{',
            group_close: '}',
            item_separator: ',',
            alias_keyword: "as".to_owned(),
            glob: "*".to_owned(),
            self_segment: "self".to_owned(),
            crate_roots: vec_of(&["crate", "self", "super"]),
        }
    }
}

/// The list kinds whose trailing comma a Rust formatter may add or drop.
///
/// Deliberately absent: `token_tree`, `tuple_expression`, `tuple_type` and
/// `tuple_pattern`, where a trailing comma carries meaning.
pub fn rust_optional_trailing() -> (r: Vec<TrailingSeparator>)
    ensures
        r@.len() == 16,
        forall|i: int| 0 <= i < r@.len() ==> (#[trigger] r@[i]).token@ == ","@,
{
    let containers = [
        "arguments",
        "array_expression",
        "closure_parameters",
        "enum_variant_list",
        "field_declaration_list",
        "field_initializer_list",
        "match_block",
        "ordered_field_declaration_list",
        "parameters",
        "slice_pattern",
        "struct_pattern",
        "tuple_struct_pattern",
        "type_arguments",
        "type_parameters",
        "use_list",
        "where_clause",
    ];
    let mut out: Vec<TrailingSeparator> = Vec::new();
    let mut i: usize = 0;
    while i < 16
        invariant
            i <= 16,
            out@.len() == i,
            forall|k: int| 0 <= k < i ==> (#[trigger] out@[k]).token@ == ","@,
        decreases 16 - i,
    {
        out.push(TrailingSeparator { container: containers[i].to_owned(), token: ",".to_owned() });
        i = i + 1;
    }
    out
}

/// The items of `xs`, with `sep` between consecutive items.
pub open spec fn join(xs: Seq<Seq<char>>, sep: Seq<char>) -> Seq<char>
    decreases xs.len(),
{
    if xs.len() == 0 {
        Seq::empty()
    } else if xs.len() == 1 {
        xs[0]
    } else {
        join(xs.drop_last(), sep) + sep + xs.last()
    }
}

/// The text one trailing-separator list contributes to the fingerprint.
pub open spec fn trailing_material(ts: Seq<TrailingSeparator>) -> Seq<char>
    decreases ts.len(),
{
    if ts.len() == 0 {
        Seq::empty()
    } else {
        trailing_material(ts.drop_last()) + ts.last().container@ + seq!['\u{0}'] + ts.last().token@ + seq!['\u{0}']
    }
}

/// The text one language contributes to the fingerprint.
pub open spec fn language_material(l: LanguageDef) -> Seq<char> {
    l.id@ + seq!['\u{0}'] + l.path_separator@ + seq!['\u{0}'] + trailing_material(l.optional_trailing@) + join(
        views(l.extensions@),
        seq![','],
    ) + seq!['\u{0}'] + l.symbols_query@ + l.scopes_query@ + l.complexity_query@ + l.discriminators_query@
        + l.references_query@ + l.imports_query@ + seq!['\u{0}']
}

/// The text a whole table contributes to the fingerprint.
pub open spec fn table_material(table: Seq<LanguageDef>) -> Seq<char>
    decreases table.len(),
{
    if table.len() == 0 {
        Seq::empty()
    } else {
        table_material(table.drop_last()) + language_material(table.last())
    }
}

/// Identity of a language table and its queries: lowercase hex SHA-256 of
/// its fields and query texts, in order, separated by NULs.
///
/// Changing a query changes analysis output, so it must invalidate stored
/// results the same way a tool version bump does.
pub fn table_fingerprint(table: &Vec<LanguageDef>) -> (r: String)
    ensures
        r@ == hex_lower(sha256(encode_utf8(table_material(table@)))),
        r@.len() == 64,
{
    let mut material = String::new();
    let n = table.len();
    let mut i: usize = 0;
    while i < n
        invariant
            i <= n,
            n == table@.len(),
            material@ == table_material(table@.take(i as int)),
        decreases n - i,
    {
        let lang = &table[i];
        let ghost start = material@;
        push_str(&mut material, lang.id.as_str());
        push_char(&mut material, '\u{0}');
        push_str(&mut material, lang.path_separator.as_str());
        push_char(&mut material, '\u{0}');
        let ghost before_trailing = material@;
        let mut t: usize = 0;
        while t < lang.optional_trailing.len()
            invariant
                t <= lang.optional_trailing@.len(),
                material@ == before_trailing + trailing_material(lang.optional_trailing@.take(t as int)),
            decreases lang.optional_trailing@.len() - t,
        {
            let sep = &lang.optional_trailing[t];
            push_str(&mut material, sep.container.as_str());
            push_char(&mut material, '\u{0}');
            push_str(&mut material, sep.token.as_str());
            push_char(&mut material, '\u{0}');
            proof {
                let p = lang.optional_trailing@.take(t + 1);
                assert(p.drop_last() =~= lang.optional_trailing@.take(t as int));
                assert(p.last() == *sep);
            }
            t = t + 1;
        }
        proof {
            assert(lang.optional_trailing@.take(lang.optional_trailing@.len() as int) =~= lang.optional_trailing@);
        }
        let ghost before_extensions = material@;
        let exts = &lang.extensions;
        let mut x: usize = 0;
        while x < exts.len()
            invariant
                x <= exts@.len(),
                material@ == before_extensions + join(views(exts@).take(x as int), seq![',']),
            decreases exts@.len() - x,
        {
            if x > 0 {
                push_char(&mut material, ',');
            }
            push_str(&mut material, exts[x].as_str());
            proof {
                let p = views(exts@).take(x + 1);
                assert(p.drop_last() =~= views(exts@).take(x as int));
                assert(p.last() == exts@[x as int]@);
                if x == 0 {
                    assert(views(exts@).take(0) =~= Seq::<Seq<char>>::empty());
                }
            }
            x = x + 1;
        }
        proof {
            assert(views(exts@).take(exts@.len() as int) =~= views(exts@));
        }
        push_char(&mut material, '\u{0}');
        push_str(&mut material, lang.symbols_query.as_str());
        push_str(&mut material, lang.scopes_query.as_str());
        push_str(&mut material, lang.complexity_query.as_str());
        push_str(&mut material, lang.discriminators_query.as_str());
        push_str(&mut material, lang.references_query.as_str());
        push_str(&mut material, lang.imports_query.as_str());
        push_char(&mut material, '\u{0}');
        proof {
            let p = table@.take(i + 1);
            assert(p.drop_last() =~= table@.take(i as int));
            assert(p.last() == *lang);
            assert(material@ =~= start + language_material(*lang));
        }
        i = i + 1;
    }
    proof {
        assert(table@.take(n as int) =~= table@);
    }
    hex_sha256(material.as_str().as_bytes())
}

/// The first language of the table that claims the extension of `path`.
pub open spec fn claims(l: LanguageDef, path: Seq<char>) -> bool {
    path_extension(path) is Some && contains_view(views(l.extensions@), path_extension(path)->0)
}

/// The language for a repo-relative path: the first entry of the table that
/// claims its extension.
pub fn for_path<'a>(table: &'a Vec<LanguageDef>, path: &str) -> (r: Option<&'a LanguageDef>)
    ensures
        match r {
            Some(l) => exists|i: int|
                0 <= i < table@.len() && table@[i] == *l && claims(*l, path@) && forall|k: int|
                    0 <= k < i ==> !claims(#[trigger] table@[k], path@),
            None => forall|k: int| 0 <= k < table@.len() ==> !claims(#[trigger] table@[k], path@),
        },
{
    let ext = match crate::config::extension_of(path) {
        Some(e) => e,
        None => return None,
    };
    let n = table.len();
    let mut i: usize = 0;
    while i < n
        invariant
            i <= n,
            n == table@.len(),
            path_extension(path@) == Some(ext@),
            forall|k: int| 0 <= k < i ==> !claims(#[trigger] table@[k], path@),
        decreases n - i,
    {
        if is_one_of(&table[i].extensions, ext) {
            return Some(&table[i]);
        }
        i = i + 1;
    }
    None
}

/// The position in the table of the language for a repo-relative path: the
/// first entry that claims its extension.
pub fn position_for_path(table: &Vec<LanguageDef>, path: &str) -> (r: Option<usize>)
    ensures
        match r {
            Some(i) => i < table@.len() && claims(table@[i as int], path@) && forall|k: int|
                0 <= k < i ==> !claims(#[trigger] table@[k], path@),
            None => forall|k: int| 0 <= k < table@.len() ==> !claims(#[trigger] table@[k], path@),
        },
{
    let ext = match crate::config::extension_of(path) {
        Some(e) => e,
        None => return None,
    };
    let n = table.len();
    let mut i: usize = 0;
    while i < n
        invariant
            i <= n,
            n == table@.len(),
            path_extension(path@) == Some(ext@),
            forall|k: int| 0 <= k < i ==> !claims(#[trigger] table@[k], path@),
        decreases n - i,
    {
        if is_one_of(&table[i].extensions, ext) {
            return Some(i);
        }
        i = i + 1;
    }
    None
}

/// `i` is the first entry of the table with this identifier.
pub open spec fn is_first_with_id(table: Seq<LanguageDef>, id: Seq<char>, i: int) -> bool {
    &&& 0 <= i < table.len()
    &&& table[i].id@ == id
    &&& forall|k: int| 0 <= k < i ==> (#[trigger] table[k]).id@ != id
}

/// The first language of the table with this identifier.
pub open spec fn spec_by_id(table: Seq<LanguageDef>, id: Seq<char>) -> Option<LanguageDef> {
    if exists|i: int| is_first_with_id(table, id, i) {
        Some(table[choose|i: int| is_first_with_id(table, id, i)])
    } else {
        None
    }
}

/// The first language of the table with this identifier.
pub fn by_id<'a>(table: &'a Vec<LanguageDef>, id: &str) -> (r: Option<&'a LanguageDef>)
    ensures
        match r {
            Some(l) => spec_by_id(table@, id@) == Some(*l),
            None => spec_by_id(table@, id@) is None,
        },
{
    let n = table.len();
    let mut i: usize = 0;
    while i < n
        invariant
            i <= n,
            n == table@.len(),
            forall|k: int| 0 <= k < i ==> (#[trigger] table@[k]).id@ != id@,
        decreases n - i,
    {
        if str_eq(table[i].id.as_str(), id) {
            proof {
                assert(is_first_with_id(table@, id@, i as int));
                let j = choose|j: int| is_first_with_id(table@, id@, j);
                if j < i {
                    assert(table@[j].id@ != id@);
                }
                if i < j {
                    assert(table@[i as int].id@ != id@);
                }
            }
            return Some(&table[i]);
        }
        i = i + 1;
    }
    None
}

} // verus!
