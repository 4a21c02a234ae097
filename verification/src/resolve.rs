//! Resolved references between symbols, and the name arithmetic resolution
//! rests on.

use crate::graph::separator_of;
use crate::lang::{by_id, join, LanguageDef};
use crate::order::{lemma_seq_lt_asymmetric, lemma_seq_lt_irreflexive, lemma_seq_lt_total, lemma_seq_lt_transitive, seq_lt, str_eq, str_lt, views};
use crate::phase1::{join_with, FileAnalysis, Occurrence};
use crate::symbol::Symbol;
use crate::text::{chars_of, occurs_at, push_str, string_of_range};
use vstd::prelude::*;

verus! {

/// One resolved reference between two symbols.
#[derive(Debug, Clone, PartialEq, Eq, PartialOrd, Ord)]
pub struct Edge {
    /// Symbol id the reference was written inside.
    pub from: String,
    /// Symbol id it resolved to.
    pub to: String,
    /// The syntactic position it was written in.
    pub kind: String,
}

/// Why an occurrence produced no edge.
#[derive(Debug, Clone, Copy, PartialEq, Eq, Structural)]
pub enum Unresolved {
    /// No symbol anywhere carries that name.
    NoCandidate,
    /// Several symbols do, and nothing chose between them.
    Ambiguous,
    /// The occurrence sits outside any symbol.
    NoReferrer,
}

/// Counts of what resolution could not do.
pub struct ResolutionStats {
    pub occurrences: usize,
    pub resolved: usize,
    /// Count per reason label, ascending by label.
    pub unresolved: Vec<(String, usize)>,
}

/// Name of the built-in resolver.
pub const HEURISTIC: &'static str = "heuristic";

/// Name-based resolution from imports, module paths and identifier
/// occurrences. An ambiguous name resolves to nothing.
#[derive(Debug, Clone, Copy, Default)]
pub struct Heuristic;

/// The label a reason is counted under.
pub open spec fn spec_label(reason: Unresolved) -> Seq<char> {
    match reason {
        Unresolved::NoCandidate => "no_candidate"@,
        Unresolved::Ambiguous => "ambiguous"@,
        Unresolved::NoReferrer => "no_referrer"@,
    }
}

/// The label a reason is counted under.
pub fn label(reason: Unresolved) -> (r: String)
    ensures
        r@ == spec_label(reason),
{
    match reason {
        Unresolved::NoCandidate => "no_candidate".to_owned(),
        Unresolved::Ambiguous => "ambiguous".to_owned(),
        Unresolved::NoReferrer => "no_referrer".to_owned(),
    }
}

/// The qualified-path separator of a language, `::` when none is known.
pub fn separator_for(language: Option<&LanguageDef>) -> (r: &str)
    ensures
        r@ == match language {
            Some(l) => l.path_separator@,
            None => "::"@,
        },
{
    match language {
        Some(l) => l.path_separator.as_str(),
        None => "::",
    }
}

/// `i` is the position of the rightmost occurrence of `t` in `s`.
pub open spec fn is_rightmost(s: Seq<char>, t: Seq<char>, i: int) -> bool {
    occurs_at(s, t, i) && forall|j: int| i < j ==> !#[trigger] occurs_at(s, t, j)
}

/// The last segment of a qualified path: what follows the rightmost
/// separator, all of it when there is none, nothing for an empty separator.
pub open spec fn spec_last_segment(s: Seq<char>, sep: Seq<char>) -> Seq<char> {
    if sep.len() == 0 {
        Seq::empty()
    } else if exists|i: int| #[trigger] is_rightmost(s, sep, i) {
        s.skip((choose|i: int| #[trigger] is_rightmost(s, sep, i)) + sep.len())
    } else {
        s
    }
}

/// Position of the rightmost occurrence of `ts` in `cs`.
fn rightmost(cs: &Vec<char>, ts: &Vec<char>) -> (r: Option<usize>)
    requires
        ts@.len() > 0,
    ensures
        match r {
            Some(i) => is_rightmost(cs@, ts@, i as int),
            None => forall|j: int| !#[trigger] occurs_at(cs@, ts@, j),
        },
{
    let n = cs.len();
    let m = ts.len();
    if m > n {
        proof {
            assert forall|j: int| !#[trigger] occurs_at(cs@, ts@, j) by {}
        }
        return None;
    }
    let mut i = n - m + 1;
    while i > 0
        invariant
            i <= n - m + 1,
            n == cs@.len(),
            m == ts@.len(),
            m <= n,
            forall|j: int| i <= j ==> !#[trigger] occurs_at(cs@, ts@, j),
        decreases i,
    {
        let k = i - 1;
        let mut ok = true;
        let mut q: usize = 0;
        while q < m
            invariant
                q <= m,
                k + m <= n,
                n == cs@.len(),
                m == ts@.len(),
                ok ==> forall|p: int| 0 <= p < q ==> cs@[k + p] == ts@[p],
                !ok ==> !occurs_at(cs@, ts@, k as int),
            decreases m - q,
        {
            if cs[k + q] != ts[q] {
                proof {
                    assert(cs@.subrange(k as int, k + m)[q as int] != ts@[q as int]);
                }
                ok = false;
            }
            q = q + 1;
        }
        if ok {
            proof {
                assert(cs@.subrange(k as int, k + m) =~= ts@);
            }
            return Some(k);
        }
        i = k;
    }
    None
}

/// The last segment of a qualified path.
pub fn last_segment(qualified_path: &str, separator: &str) -> (r: String)
    ensures
        r@ == spec_last_segment(qualified_path@, separator@),
{
    let cs = chars_of(qualified_path);
    let ts = chars_of(separator);
    let n = cs.len();
    if ts.len() == 0 {
        return String::new();
    }
    match rightmost(&cs, &ts) {
        Some(i) => {
            proof {
                let c = choose|j: int| #[trigger] is_rightmost(qualified_path@, separator@, j);
                if c != i {
                    if c < i {
                        assert(!occurs_at(qualified_path@, separator@, i as int));
                    } else {
                        assert(!occurs_at(qualified_path@, separator@, c));
                    }
                }
            }
            string_of_range(cs.as_slice(), i + ts.len(), cs.len())
        },
        None => {
            proof {
                if exists|j: int| #[trigger] is_rightmost(qualified_path@, separator@, j) {
                    let j = choose|j: int| #[trigger] is_rightmost(qualified_path@, separator@, j);
                    assert(occurs_at(cs@, ts@, j));
                }
            }
            string_of_range(cs.as_slice(), 0, cs.len())
        },
    }
}

/// Whether `char::is_alphanumeric` holds of a character.
pub uninterp spec fn alphanumeric(c: char) -> bool;

/// Calls `char::is_alphanumeric` (alphabetic or numeric, in Unicode's
/// sense); the result is the named property of the character and nothing
/// more is claimed.
#[verifier::external_body]
fn is_alphanumeric(c: char) -> (r: bool)
    ensures
        r == alphanumeric(c),
{
    c.is_alphanumeric()
}

/// A character that can be part of an identifier word.
pub open spec fn word_char(c: char) -> bool {
    alphanumeric(c) || c == '_'
}

/// The words of `s`: the pieces between characters that cannot be part of an
/// identifier, empty pieces included.
pub open spec fn words(s: Seq<char>) -> Seq<Seq<char>>
    decreases s.len(),
{
    if s.len() == 0 {
        seq![Seq::empty()]
    } else {
        let r = words(s.drop_last());
        if !word_char(s.last()) {
            r.push(Seq::empty())
        } else {
            r.update(r.len() - 1, r.last().push(s.last()))
        }
    }
}

proof fn lemma_words_nonempty(s: Seq<char>)
    ensures
        words(s).len() >= 1,
    decreases s.len(),
{
    if s.len() > 0 {
        lemma_words_nonempty(s.drop_last());
    }
}

/// Does the scope part of a qualified path — all but its last segment —
/// hold `name` as one of its words?
pub open spec fn spec_scope_mentions(qualified_path: Seq<char>, separator: Seq<char>, name: Seq<char>) -> bool {
    let scope = qualified_path.take(qualified_path.len() - spec_last_segment(qualified_path, separator).len());
    exists|k: int| 0 <= k < words(scope).len() && #[trigger] words(scope)[k] == name
}

proof fn lemma_last_segment_suffix(s: Seq<char>, sep: Seq<char>)
    ensures
        spec_last_segment(s, sep).len() <= s.len(),
        s.skip(s.len() - spec_last_segment(s, sep).len()) == spec_last_segment(s, sep),
{
    if sep.len() == 0 {
        assert(s.skip(s.len() as int) =~= Seq::<char>::empty());
    } else if exists|i: int| #[trigger] is_rightmost(s, sep, i) {
        let i = choose|i: int| #[trigger] is_rightmost(s, sep, i);
        assert(s.skip(s.len() - s.skip(i + sep.len()).len()) =~= s.skip(i + sep.len()));
    } else {
        assert(s.skip(0) =~= s);
    }
}

/// Does the scope part of a qualified path mention this name?
///
/// Splitting on characters that cannot be part of an identifier is what makes
/// `<Canvas as Paint>` answer to both `Canvas` and `Paint` without parsing how
/// an impl block is spelled.
pub fn scope_mentions(qualified_path: &str, separator: &str, name: &str) -> (r: bool)
    ensures
        r == spec_scope_mentions(qualified_path@, separator@, name@),
{
    let last = last_segment(qualified_path, separator);
    let cs = chars_of(qualified_path);
    let lc = chars_of(last.as_str());
    proof {
        lemma_last_segment_suffix(qualified_path@, separator@);
    }
    let end = cs.len() - lc.len();
    let ghost scope = qualified_path@.take(end as int);
    let target = chars_of(name);
    let mut current: Vec<char> = Vec::new();
    let mut found = false;
    let mut i: usize = 0;
    proof {
        assert(cs@.take(0) =~= Seq::<char>::empty());
    }
    while i < end
        invariant
            i <= end,
            end <= cs@.len(),
            cs@ == qualified_path@,
            scope == cs@.take(end as int),
            target@ == name@,
            current@ == words(cs@.take(i as int)).last(),
            words(cs@.take(i as int)).len() >= 1,
            found <==> exists|k: int|
                0 <= k < words(cs@.take(i as int)).len() - 1 && #[trigger] words(cs@.take(i as int))[k] == name@,
        decreases end - i,
    {
        let ch = cs[i];
        let ghost before = words(cs@.take(i as int));
        proof {
            let t = cs@.take(i + 1);
            assert(t.drop_last() =~= cs@.take(i as int));
            assert(t.last() == ch);
            lemma_words_nonempty(cs@.take(i + 1));
        }
        if !(is_alphanumeric(ch) || ch == '_') {
            if crate::order::chars_lt(current.as_slice(), target.as_slice()) == false && crate::order::chars_lt(
                target.as_slice(),
                current.as_slice(),
            ) == false {
                proof {
                    crate::order::lemma_seq_lt_total(current@, target@);
                }
                found = true;
            } else {
                proof {
                    if current@ == target@ {
                        crate::order::lemma_seq_lt_irreflexive(current@);
                    }
                }
            }
            let ghost was_current = current@;
            current = Vec::new();
            proof {
                let after = words(cs@.take(i + 1));
                assert(was_current == before[before.len() - 1]);
                assert(after =~= before.push(Seq::<char>::empty()));
                assert forall|k: int| 0 <= k < after.len() - 1 implies #[trigger] after[k] == before[k] by {}
                if found {
                    if exists|k: int| 0 <= k < before.len() - 1 && #[trigger] before[k] == name@ {
                        let k = choose|k: int| 0 <= k < before.len() - 1 && #[trigger] before[k] == name@;
                        assert(after[k] == name@);
                    } else {
                        assert(after[before.len() - 1] == name@);
                    }
                }
                if exists|k: int| 0 <= k < after.len() - 1 && #[trigger] after[k] == name@ {
                    let k = choose|k: int| 0 <= k < after.len() - 1 && #[trigger] after[k] == name@;
                    assert(before[k] == name@);
                }
            }
        } else {
            current.push(ch);
            proof {
                let after = words(cs@.take(i + 1));
                assert(after =~= before.update(before.len() - 1, before.last().push(ch)));
                assert forall|k: int| 0 <= k < after.len() - 1 implies #[trigger] after[k] == before[k] by {}
                if found {
                    let k = choose|k: int| 0 <= k < before.len() - 1 && #[trigger] before[k] == name@;
                    assert(after[k] == name@);
                }
                if exists|k: int| 0 <= k < after.len() - 1 && #[trigger] after[k] == name@ {
                    let k = choose|k: int| 0 <= k < after.len() - 1 && #[trigger] after[k] == name@;
                    assert(before[k] == name@);
                }
            }
        }
        i = i + 1;
    }
    let last_word_matches = !crate::order::chars_lt(current.as_slice(), target.as_slice()) && !crate::order::chars_lt(
        target.as_slice(),
        current.as_slice(),
    );
    proof {
        crate::order::lemma_seq_lt_total(current@, target@);
        if current@ == target@ {
            crate::order::lemma_seq_lt_irreflexive(current@);
        }
        let ws = words(scope);
        assert(cs@.take(end as int) == scope);
        if last_word_matches {
            assert(ws[ws.len() - 1] == name@);
        }
        if exists|k: int| 0 <= k < ws.len() && #[trigger] ws[k] == name@ {
            let k = choose|k: int| 0 <= k < ws.len() && #[trigger] ws[k] == name@;
            if k < ws.len() - 1 {
                assert(found);
            }
        }
    }
    found || last_word_matches
}

/// Every symbol position of a file set, file by file, in symbol order.
pub open spec fn positions(files: Seq<FileAnalysis>) -> Seq<(int, int)>
    decreases files.len(),
{
    if files.len() == 0 {
        Seq::empty()
    } else {
        positions(files.drop_last()) + Seq::new(
            files.last().symbols@.len(),
            |i: int| ((files.len() - 1) as int, i),
        )
    }
}

/// The symbol at a position.
pub open spec fn sym_at(files: Seq<FileAnalysis>, p: (int, int)) -> Symbol {
    files[p.0].symbols@[p.1]
}

/// The separator of the file at `f`.
pub open spec fn sep_at(files: Seq<FileAnalysis>, table: Seq<LanguageDef>, f: int) -> Seq<char> {
    separator_of(files[f], table)
}

/// The module-qualified name of the symbol at `p`: its file's module path,
/// then its qualified path.
pub open spec fn module_key(files: Seq<FileAnalysis>, table: Seq<LanguageDef>, p: (int, int)) -> Seq<char> {
    let sep = sep_at(files, table, p.0);
    let module = join(views(files[p.0].module_segments@), sep);
    if module.len() == 0 {
        sym_at(files, p).qualified_path@
    } else {
        module + sep + sym_at(files, p).qualified_path@
    }
}

/// The last segment of the qualified path of the symbol at `p`.
pub open spec fn name_key(files: Seq<FileAnalysis>, table: Seq<LanguageDef>, p: (int, int)) -> Seq<char> {
    spec_last_segment(sym_at(files, p).qualified_path@, sep_at(files, table, p.0))
}

/// What a lookup asks of a symbol.
pub enum NameQuery {
    /// Its module-qualified name is this.
    Module(Seq<char>),
    /// Its last segment is this.
    Name(Seq<char>),
    /// It sits in a file with this path, and its last segment is this.
    FileName(Seq<char>, Seq<char>),
    /// Its last segment is the first, and its scope mentions the second under
    /// the third as separator.
    Scoped(Seq<char>, Seq<char>, Seq<char>),
}

/// Does the symbol at `p` answer the query?
pub open spec fn answers(files: Seq<FileAnalysis>, table: Seq<LanguageDef>, p: (int, int), q: NameQuery) -> bool {
    match q {
        NameQuery::Module(key) => module_key(files, table, p) == key,
        NameQuery::Name(name) => name_key(files, table, p) == name,
        NameQuery::FileName(path, name) => files[p.0].path@ == path && name_key(files, table, p) == name,
        NameQuery::Scoped(name, qualifier, sep) => name_key(files, table, p) == name && spec_scope_mentions(
            sym_at(files, p).qualified_path@,
            sep,
            qualifier,
        ),
    }
}

/// The positions among `ps` that answer the query, in order.
pub open spec fn select(files: Seq<FileAnalysis>, table: Seq<LanguageDef>, ps: Seq<(int, int)>, q: NameQuery) -> Seq<(int, int)>
    decreases ps.len(),
{
    if ps.len() == 0 {
        Seq::empty()
    } else {
        let rest = select(files, table, ps.drop_last(), q);
        if answers(files, table, ps.last(), q) {
            rest.push(ps.last())
        } else {
            rest
        }
    }
}

/// The symbols of the file set that answer the query.
pub open spec fn lookup(files: Seq<FileAnalysis>, table: Seq<LanguageDef>, q: NameQuery) -> Seq<(int, int)> {
    select(files, table, positions(files), q)
}

/// The view of a position pair.
pub open spec fn pos_views(v: Seq<(usize, usize)>) -> Seq<(int, int)> {
    v.map_values(|p: (usize, usize)| (p.0 as int, p.1 as int))
}

/// One symbol of the file set with the names it is looked up by.
struct Entry {
    file: usize,
    symbol: usize,
    module_key: String,
    name: String,
}

/// The views of entries.
spec fn entry_positions(es: Seq<Entry>) -> Seq<(int, int)> {
    es.map_values(|e: Entry| (e.file as int, e.symbol as int))
}

/// Every entry carries the names of its position.
spec fn entries_ok(files: Seq<FileAnalysis>, table: Seq<LanguageDef>, es: Seq<Entry>) -> bool {
    forall|k: int|
        0 <= k < es.len() ==> {
            &&& (#[trigger] es[k]).file < files.len()
            &&& es[k].symbol < files[es[k].file as int].symbols@.len()
            &&& es[k].module_key@ == module_key(files, table, (es[k].file as int, es[k].symbol as int))
            &&& es[k].name@ == name_key(files, table, (es[k].file as int, es[k].symbol as int))
        }
}

fn file_separator<'a>(file: &FileAnalysis, table: &'a Vec<LanguageDef>) -> (r: &'a str)
    ensures
        r@ == separator_of(*file, table@),
{
    proof {
        reveal_strlit("::");
    }
    match &file.language {
        Some(id) => separator_for(by_id(table, id.as_str())),
        None => "::",
    }
}

/// The names every symbol of the file set is looked up by.
fn index_entries(files: &Vec<FileAnalysis>, table: &Vec<LanguageDef>) -> (r: Vec<Entry>)
    ensures
        entry_positions(r@) == positions(files@),
        entries_ok(files@, table@, r@),
{
    let mut out: Vec<Entry> = Vec::new();
    let mut f: usize = 0;
    while f < files.len()
        invariant
            f <= files@.len(),
            entry_positions(out@) == positions(files@.take(f as int)),
            entries_ok(files@, table@, out@),
        decreases files@.len() - f,
    {
        let file = &files[f];
        let separator = file_separator(file, table);
        let module = join_with(&file.module_segments, separator);
        let ghost start = out@;
        let mut i: usize = 0;
        while i < file.symbols.len()
            invariant
                f < files@.len(),
                file == &files@[f as int],
                i <= file.symbols@.len(),
                separator@ == sep_at(files@, table@, f as int),
                module@ == join(views(file.module_segments@), separator@),
                entry_positions(out@) == entry_positions(start) + Seq::new(i as nat, |k: int| (f as int, k)),
                entries_ok(files@, table@, out@),
            decreases file.symbols@.len() - i,
        {
            let symbol = &file.symbols[i];
            let key = if module.as_str().unicode_len() == 0 {
                symbol.qualified_path.clone()
            } else {
                let mut k = module.clone();
                push_str(&mut k, separator);
                push_str(&mut k, symbol.qualified_path.as_str());
                k
            };
            let name = last_segment(symbol.qualified_path.as_str(), separator);
            let ghost before = out@;
            out.push(Entry { file: f, symbol: i, module_key: key, name });
            proof {
                assert(entry_positions(out@) =~= entry_positions(before).push((f as int, i as int)));
                assert(Seq::new((i + 1) as nat, |k: int| (f as int, k)) =~= Seq::new(i as nat, |k: int| (f as int, k)).push(
                    (f as int, i as int),
                ));
                assert(entry_positions(start) + Seq::new((i + 1) as nat, |k: int| (f as int, k)) =~= (entry_positions(start)
                    + Seq::new(i as nat, |k: int| (f as int, k))).push((f as int, i as int)));
            }
            i = i + 1;
        }
        proof {
            let taken = files@.take(f + 1);
            assert(taken.drop_last() =~= files@.take(f as int));
            assert(taken.last() == files@[f as int]);
            assert(Seq::new(taken.last().symbols@.len(), |k: int| ((taken.len() - 1) as int, k)) =~= Seq::new(
                i as nat,
                |k: int| (f as int, k),
            ));
        }
        f = f + 1;
    }
    proof {
        assert(files@.take(files@.len() as int) =~= files@);
    }
    out
}

/// A lookup as the resolver asks it.
enum Ask<'a> {
    Module(&'a str),
    Name(&'a str),
    FileName(&'a str, &'a str),
    Scoped(&'a str, &'a str, &'a str),
}

spec fn ask_view(a: Ask) -> NameQuery {
    match a {
        Ask::Module(k) => NameQuery::Module(k@),
        Ask::Name(n) => NameQuery::Name(n@),
        Ask::FileName(p, n) => NameQuery::FileName(p@, n@),
        Ask::Scoped(n, q, s) => NameQuery::Scoped(n@, q@, s@),
    }
}

/// The symbols of the file set that answer the lookup, as positions.
fn find(files: &Vec<FileAnalysis>, table: &Vec<LanguageDef>, entries: &Vec<Entry>, ask: Ask) -> (r: Vec<(usize, usize)>)
    requires
        entry_positions(entries@) == positions(files@),
        entries_ok(files@, table@, entries@),
    ensures
        pos_views(r@) == lookup(files@, table@, ask_view(ask)),
        forall|j: int|
            0 <= j < r@.len() ==> (#[trigger] r@[j]).0 < files@.len() && r@[j].1 < files@[r@[j].0 as int].symbols@.len(),
{
    let ghost ps = entry_positions(entries@);
    let mut out: Vec<(usize, usize)> = Vec::new();
    let mut k: usize = 0;
    while k < entries.len()
        invariant
            k <= entries@.len(),
            ps == entry_positions(entries@),
            entries_ok(files@, table@, entries@),
            pos_views(out@) == select(files@, table@, ps.take(k as int), ask_view(ask)),
            forall|j: int|
                0 <= j < out@.len() ==> (#[trigger] out@[j]).0 < files@.len() && out@[j].1 < files@[out@[j].0 as int].symbols@.len(),
        decreases entries@.len() - k,
    {
        let e = &entries[k];
        let hit = match ask {
            Ask::Module(key) => str_eq(e.module_key.as_str(), key),
            Ask::Name(name) => str_eq(e.name.as_str(), name),
            Ask::FileName(path, name) => str_eq(files[e.file].path.as_str(), path) && str_eq(e.name.as_str(), name),
            Ask::Scoped(name, qualifier, sep) => str_eq(e.name.as_str(), name) && scope_mentions(
                files[e.file].symbols[e.symbol].qualified_path.as_str(),
                sep,
                qualifier,
            ),
        };
        let ghost before = out@;
        if hit {
            out.push((e.file, e.symbol));
        }
        proof {
            let t = ps.take(k + 1);
            assert(t.drop_last() =~= ps.take(k as int));
            assert(t.last() == (e.file as int, e.symbol as int));
            assert(hit == answers(files@, table@, t.last(), ask_view(ask)));
            if hit {
                assert(pos_views(out@) =~= pos_views(before).push((e.file as int, e.symbol as int)));
            } else {
                assert(pos_views(out@) =~= pos_views(before));
            }
        }
        k = k + 1;
    }
    proof {
        assert(ps.take(ps.len() as int) =~= ps);
    }
    out
}

/// The path of the first plain import in `file` whose local name is `name`.
pub open spec fn import_target(imports: Seq<crate::phase1::Import>, name: Seq<char>) -> Option<Seq<Seq<char>>>
    decreases imports.len(),
{
    if imports.len() == 0 {
        None
    } else if !imports[0].glob && imports[0].local_name@ == name {
        Some(views(imports[0].path@))
    } else {
        import_target(imports.drop_first(), name)
    }
}

/// The symbols a glob import of each of `imports` could bring in under `name`.
pub open spec fn glob_candidates(
    files: Seq<FileAnalysis>,
    table: Seq<LanguageDef>,
    imports: Seq<crate::phase1::Import>,
    name: Seq<char>,
    sep: Seq<char>,
) -> Seq<(int, int)>
    decreases imports.len(),
{
    if imports.len() == 0 {
        Seq::empty()
    } else {
        let rest = glob_candidates(files, table, imports.drop_last(), name, sep);
        let i = imports.last();
        if i.glob {
            rest + lookup(files, table, NameQuery::Module(join(views(i.path@), sep) + sep + name))
        } else {
            rest
        }
    }
}

/// The candidates of each rule, strongest first: a plain import of the
/// name, a qualifier read as a module path or as a scope, the same file, a
/// glob import, and the whole project.
pub open spec fn candidate_lists(
    files: Seq<FileAnalysis>,
    table: Seq<LanguageDef>,
    f: int,
    o: Occurrence,
) -> Seq<Seq<(int, int)>> {
    let file = files[f];
    let sep = sep_at(files, table, f);
    let name = o.name@;
    let imported = match import_target(file.imports@, name) {
        Some(path) => lookup(files, table, NameQuery::Module(join(path, sep))),
        None => Seq::empty(),
    };
    let qualified = match o.qualifier {
        None => Seq::empty(),
        Some(q) => {
            let as_module = lookup(files, table, NameQuery::Module(q@ + sep + name));
            if as_module.len() > 0 {
                as_module
            } else {
                lookup(files, table, NameQuery::Scoped(name, q@, sep))
            }
        },
    };
    seq![
        imported,
        qualified,
        lookup(files, table, NameQuery::FileName(file.path@, name)),
        glob_candidates(files, table, file.imports@, name, sep),
        lookup(files, table, NameQuery::Name(name)),
    ]
}

/// The first rule from `k` on that names exactly one symbol decides; a rule
/// with no candidate steps aside; one with several steps aside too, and
/// makes a final refusal an ambiguity.
pub open spec fn decide(files: Seq<FileAnalysis>, lists: Seq<Seq<(int, int)>>, k: int, saw: bool) -> Result<
    Seq<char>,
    Unresolved,
>
    decreases lists.len() - k,
{
    if k < 0 || k >= lists.len() {
        if saw {
            Err(Unresolved::Ambiguous)
        } else {
            Err(Unresolved::NoCandidate)
        }
    } else if lists[k].len() == 0 {
        decide(files, lists, k + 1, saw)
    } else if lists[k].len() == 1 {
        Ok(sym_at(files, lists[k][0]).id@)
    } else {
        decide(files, lists, k + 1, true)
    }
}

/// How an occurrence in the file at `f` resolves.
pub open spec fn spec_resolve(files: Seq<FileAnalysis>, table: Seq<LanguageDef>, f: int, o: Occurrence) -> Result<
    Seq<char>,
    Unresolved,
> {
    decide(files, candidate_lists(files, table, f, o), 0, false)
}

fn first_plain_import<'a>(imports: &'a Vec<crate::phase1::Import>, name: &str) -> (r: Option<&'a crate::phase1::Import>)
    ensures
        match r {
            Some(i) => import_target(imports@, name@) == Some(views(i.path@)),
            None => import_target(imports@, name@) is None,
        },
{
    let mut i: usize = 0;
    proof {
        assert(imports@.skip(0) =~= imports@);
    }
    while i < imports.len()
        invariant
            i <= imports@.len(),
            import_target(imports@, name@) == import_target(imports@.skip(i as int), name@),
        decreases imports@.len() - i,
    {
        proof {
            assert(imports@.skip(i as int)[0] == imports@[i as int]);
            assert(imports@.skip(i as int).drop_first() =~= imports@.skip(i + 1));
        }
        if !imports[i].glob && str_eq(imports[i].local_name.as_str(), name) {
            return Some(&imports[i]);
        }
        i = i + 1;
    }
    None
}

fn glob_lookup(
    files: &Vec<FileAnalysis>,
    table: &Vec<LanguageDef>,
    entries: &Vec<Entry>,
    imports: &Vec<crate::phase1::Import>,
    name: &str,
    sep: &str,
) -> (r: Vec<(usize, usize)>)
    requires
        entry_positions(entries@) == positions(files@),
        entries_ok(files@, table@, entries@),
    ensures
        pos_views(r@) == glob_candidates(files@, table@, imports@, name@, sep@),
        forall|j: int|
            0 <= j < r@.len() ==> (#[trigger] r@[j]).0 < files@.len() && r@[j].1 < files@[r@[j].0 as int].symbols@.len(),
{
    let mut out: Vec<(usize, usize)> = Vec::new();
    let mut i: usize = 0;
    while i < imports.len()
        invariant
            i <= imports@.len(),
            entry_positions(entries@) == positions(files@),
            entries_ok(files@, table@, entries@),
            pos_views(out@) == glob_candidates(files@, table@, imports@.take(i as int), name@, sep@),
            forall|j: int|
                0 <= j < out@.len() ==> (#[trigger] out@[j]).0 < files@.len() && out@[j].1 < files@[out@[j].0 as int].symbols@.len(),
        decreases imports@.len() - i,
    {
        proof {
            assert(imports@.take(i + 1).drop_last() =~= imports@.take(i as int));
        }
        if imports[i].glob {
            let mut key = join_with(&imports[i].path, sep);
            push_str(&mut key, sep);
            push_str(&mut key, name);
            let found = find(files, table, entries, Ask::Module(key.as_str()));
            let ghost before = out@;
            let mut k: usize = 0;
            while k < found.len()
                invariant
                    k <= found@.len(),
                    pos_views(out@) == pos_views(before) + pos_views(found@.take(k as int)),
                    forall|j: int|
                        0 <= j < found@.len() ==> (#[trigger] found@[j]).0 < files@.len() && found@[j].1 < files@[found@[j].0 as int].symbols@.len(),
                    forall|j: int|
                        0 <= j < out@.len() ==> (#[trigger] out@[j]).0 < files@.len() && out@[j].1 < files@[out@[j].0 as int].symbols@.len(),
                decreases found@.len() - k,
            {
                let ghost prev = out@;
                out.push(found[k]);
                proof {
                    assert(pos_views(out@) =~= pos_views(prev).push((found@[k as int].0 as int, found@[k as int].1 as int)));
                }
                proof {
                    assert(pos_views(found@.take(k + 1)) =~= pos_views(found@.take(k as int)).push(
                        (found@[k as int].0 as int, found@[k as int].1 as int),
                    ));
                    assert(pos_views(out@) =~= pos_views(before) + pos_views(found@.take(k + 1)));
                }
                k = k + 1;
            }
            proof {
                assert(found@.take(found@.len() as int) =~= found@);
            }
        }
        i = i + 1;
    }
    proof {
        assert(imports@.take(imports@.len() as int) =~= imports@);
    }
    out
}

/// Resolve one occurrence in the file at `f` to a single symbol id, or say
/// why not.
fn resolve_occurrence(
    files: &Vec<FileAnalysis>,
    table: &Vec<LanguageDef>,
    entries: &Vec<Entry>,
    f: usize,
    occurrence: &Occurrence,
) -> (r: Result<String, Unresolved>)
    requires
        f < files@.len(),
        entry_positions(entries@) == positions(files@),
        entries_ok(files@, table@, entries@),
    ensures
        match r {
            Ok(id) => spec_resolve(files@, table@, f as int, *occurrence) == Ok::<Seq<char>, Unresolved>(id@),
            Err(reason) => spec_resolve(files@, table@, f as int, *occurrence) == Err::<Seq<char>, Unresolved>(reason),
        },
{
    let file = &files[f];
    let sep = file_separator(file, table);
    let name = occurrence.name.as_str();
    let imported = match first_plain_import(&file.imports, name) {
        Some(import) => {
            let key = join_with(&import.path, sep);
            find(files, table, entries, Ask::Module(key.as_str()))
        },
        None => Vec::new(),
    };
    let qualified = match &occurrence.qualifier {
        None => Vec::new(),
        Some(q) => {
            let mut key = q.clone();
            push_str(&mut key, sep);
            push_str(&mut key, name);
            let as_module = find(files, table, entries, Ask::Module(key.as_str()));
            if as_module.len() > 0 {
                as_module
            } else {
                find(files, table, entries, Ask::Scoped(name, q.as_str(), sep))
            }
        },
    };
    let same_file = find(files, table, entries, Ask::FileName(file.path.as_str(), name));
    let glob = glob_lookup(files, table, entries, &file.imports, name, sep);
    let anywhere = find(files, table, entries, Ask::Name(name));
    let ghost lists = candidate_lists(files@, table@, f as int, *occurrence);
    proof {
        assert(pos_views(imported@) == lists[0]);
        assert(pos_views(qualified@) == lists[1]);
        assert(pos_views(same_file@) == lists[2]);
        assert(pos_views(glob@) == lists[3]);
        assert(pos_views(anywhere@) == lists[4]);
    }
    let rules = [imported, qualified, same_file, glob, anywhere];
    let mut saw = false;
    let mut k: usize = 0;
    while k < 5
        invariant
            k <= 5,
            lists == candidate_lists(files@, table@, f as int, *occurrence),
            lists.len() == 5,
            forall|j: int| 0 <= j < 5 ==> pos_views((#[trigger] rules@[j])@) == lists[j],
            forall|j: int| 0 <= j < 5 ==> #[trigger] lists[j].len() == rules@[j]@.len(),
            forall|j: int, i: int|
                0 <= j < 5 && 0 <= i < rules@[j]@.len() ==> (#[trigger] rules@[j]@[i]).0 < files@.len()
                    && rules@[j]@[i].1 < files@[rules@[j]@[i].0 as int].symbols@.len(),
            decide(files@, lists, 0, false) == decide(files@, lists, k as int, saw),
        decreases 5 - k,
    {
        let n = rules[k].len();
        if n == 1 {
            let (pf, ps) = rules[k][0];
            proof {
                assert(pos_views(rules@[k as int]@)[0] == (pf as int, ps as int));
                assert(lists[k as int][0] == (pf as int, ps as int));
                assert(lists[k as int].len() == 1);
                assert(decide(files@, lists, k as int, saw) == Ok::<Seq<char>, Unresolved>(
                    sym_at(files@, lists[k as int][0]).id@,
                ));
                assert(sym_at(files@, (pf as int, ps as int)) == files@[pf as int].symbols@[ps as int]);
            }
            let id = files[pf].symbols[ps].id.clone();
            proof {
                assert(id@ == files@[pf as int].symbols@[ps as int].id@);
            }
            return Ok(id);
        }
        if n > 1 {
            saw = true;
        }
        k = k + 1;
    }
    if saw {
        Err(Unresolved::Ambiguous)
    } else {
        Err(Unresolved::NoCandidate)
    }
}


/// An edge as three character sequences: from, to, kind.
pub open spec fn edge_view(e: Edge) -> (Seq<char>, Seq<char>, Seq<char>) {
    (e.from@, e.to@, e.kind@)
}

/// The views of a sequence of edges.
pub open spec fn edge_views(es: Seq<Edge>) -> Seq<(Seq<char>, Seq<char>, Seq<char>)> {
    es.map_values(|e: Edge| edge_view(e))
}

/// Strict order on edges: by source, then target, then kind.
pub open spec fn edge_lt(a: (Seq<char>, Seq<char>, Seq<char>), b: (Seq<char>, Seq<char>, Seq<char>)) -> bool {
    ||| seq_lt(a.0, b.0)
    ||| (a.0 == b.0 && seq_lt(a.1, b.1))
    ||| (a.0 == b.0 && a.1 == b.1 && seq_lt(a.2, b.2))
}

/// Strictly ascending edges, hence free of duplicates.
pub open spec fn edges_sorted(s: Seq<(Seq<char>, Seq<char>, Seq<char>)>) -> bool {
    forall|i: int, j: int| 0 <= i < j < s.len() ==> edge_lt(#[trigger] s[i], #[trigger] s[j])
}

proof fn lemma_edge_lt_irreflexive(a: (Seq<char>, Seq<char>, Seq<char>))
    ensures
        !edge_lt(a, a),
{
    lemma_seq_lt_irreflexive(a.0);
    lemma_seq_lt_irreflexive(a.1);
    lemma_seq_lt_irreflexive(a.2);
}

proof fn lemma_edge_lt_transitive(
    a: (Seq<char>, Seq<char>, Seq<char>),
    b: (Seq<char>, Seq<char>, Seq<char>),
    c: (Seq<char>, Seq<char>, Seq<char>),
)
    requires
        edge_lt(a, b),
        edge_lt(b, c),
    ensures
        edge_lt(a, c),
{
    if seq_lt(a.0, b.0) && seq_lt(b.0, c.0) {
        lemma_seq_lt_transitive(a.0, b.0, c.0);
    } else if a.0 == b.0 && b.0 == c.0 {
        if seq_lt(a.1, b.1) && seq_lt(b.1, c.1) {
            lemma_seq_lt_transitive(a.1, b.1, c.1);
        } else if a.1 == b.1 && b.1 == c.1 {
            lemma_seq_lt_transitive(a.2, b.2, c.2);
        }
    }
}

proof fn lemma_edge_lt_total(a: (Seq<char>, Seq<char>, Seq<char>), b: (Seq<char>, Seq<char>, Seq<char>))
    ensures
        a == b || edge_lt(a, b) || edge_lt(b, a),
{
    lemma_seq_lt_total(a.0, b.0);
    lemma_seq_lt_total(a.1, b.1);
    lemma_seq_lt_total(a.2, b.2);
}

/// Is edge `a` strictly before edge `b`?
fn edge_less(a: &Edge, b: &Edge) -> (r: bool)
    ensures
        r == edge_lt(edge_view(*a), edge_view(*b)),
{
    if str_lt(a.from.as_str(), b.from.as_str()) {
        return true;
    }
    if !str_eq(a.from.as_str(), b.from.as_str()) {
        return false;
    }
    if str_lt(a.to.as_str(), b.to.as_str()) {
        return true;
    }
    if !str_eq(a.to.as_str(), b.to.as_str()) {
        return false;
    }
    str_lt(a.kind.as_str(), b.kind.as_str())
}

/// Insert an edge into a strictly sorted vector, keeping it strictly sorted;
/// no change when an equal edge is already present.
fn insert_edge(v: &mut Vec<Edge>, e: Edge)
    requires
        edges_sorted(edge_views(old(v)@)),
    ensures
        edges_sorted(edge_views(final(v)@)),
        forall|t: (Seq<char>, Seq<char>, Seq<char>)|
            edge_views(final(v)@).contains(t) <==> (edge_views(old(v)@).contains(t) || t == edge_view(e)),
{
    let n = v.len();
    let mut i: usize = 0;
    while i < n
        invariant
            i <= n,
            n == v@.len(),
            v@ == old(v)@,
            edges_sorted(edge_views(v@)),
            forall|j: int| 0 <= j < i ==> edge_lt(#[trigger] edge_view(v@[j]), edge_view(e)),
        ensures
            i <= n,
            v@ == old(v)@,
            i < n ==> edge_lt(edge_view(e), edge_view(v@[i as int])),
            forall|j: int| 0 <= j < i ==> edge_lt(#[trigger] edge_view(v@[j]), edge_view(e)),
        decreases n - i,
    {
        if !edge_less(&v[i], &e) {
            if !edge_less(&e, &v[i]) {
                proof {
                    lemma_edge_lt_total(edge_view(v@[i as int]), edge_view(e));
                    assert(edge_views(v@)[i as int] == edge_view(e));
                    assert forall|t: (Seq<char>, Seq<char>, Seq<char>)|
                        edge_views(v@).contains(t) <==> (edge_views(old(v)@).contains(t) || t == edge_view(e)) by {
                        if t == edge_view(e) {
                            assert(edge_views(v@)[i as int] == t);
                        }
                    }
                }
                return;
            }
            break;
        }
        i = i + 1;
    }
    let ghost before = v@;
    let ghost ev = edge_view(e);
    v.insert(i, e);
    proof {
        let w = edge_views(v@);
        let b = edge_views(before);
        assert(w =~= b.subrange(0, i as int).push(ev) + b.subrange(i as int, b.len() as int));
        assert forall|x: int, y: int| 0 <= x < y < w.len() implies edge_lt(#[trigger] w[x], #[trigger] w[y]) by {
            if y < i {
                assert(w[x] == b[x] && w[y] == b[y]);
            } else if y == i {
                assert(w[x] == b[x]);
                assert(edge_lt(edge_view(before[x]), ev));
            } else if x < i {
                assert(w[x] == b[x] && w[y] == b[y - 1]);
                assert(edge_lt(edge_view(before[x]), ev));
                assert(edge_lt(ev, edge_view(before[i as int])));
                if y - 1 > i {
                    assert(edge_lt(b[i as int], b[y - 1]));
                    lemma_edge_lt_transitive(ev, b[i as int], b[y - 1]);
                }
                lemma_edge_lt_transitive(b[x], ev, b[y - 1]);
            } else if x == i {
                assert(w[y] == b[y - 1]);
                assert(edge_lt(ev, edge_view(before[i as int])));
                if y - 1 > i {
                    assert(edge_lt(b[i as int], b[y - 1]));
                    lemma_edge_lt_transitive(ev, b[i as int], b[y - 1]);
                }
            } else {
                assert(w[x] == b[x - 1] && w[y] == b[y - 1]);
            }
        }
        assert forall|t: (Seq<char>, Seq<char>, Seq<char>)| w.contains(t) <==> (b.contains(t) || t == ev) by {
            if w.contains(t) {
                let k = choose|k: int| 0 <= k < w.len() && w[k] == t;
                if k < i {
                    assert(b[k] == t);
                } else if k > i {
                    assert(b[k - 1] == t);
                }
            }
            if b.contains(t) {
                let k = choose|k: int| 0 <= k < b.len() && b[k] == t;
                if k < i {
                    assert(w[k] == t);
                } else {
                    assert(w[k + 1] == t);
                }
            }
            if t == ev {
                assert(w[i as int] == t);
            }
        }
    }
}


/// What resolution reads: the analysed files and the language table.
pub struct ResolveInput<'a> {
    pub files: &'a Vec<FileAnalysis>,
    pub languages: &'a Vec<LanguageDef>,
}

/// Every occurrence position of the first `m` files, file by file, in
/// occurrence order.
pub open spec fn occurrence_positions(files: Seq<FileAnalysis>, m: int) -> Seq<(int, int)>
    decreases m,
{
    if m <= 0 {
        Seq::empty()
    } else {
        occurrence_positions(files, m - 1) + Seq::new(
            files[m - 1].occurrences@.len(),
            |j: int| (m - 1, j),
        )
    }
}

/// The occurrence at a position.
pub open spec fn occurrence_at(files: Seq<FileAnalysis>, p: (int, int)) -> Occurrence {
    files[p.0].occurrences@[p.1]
}

/// What the occurrence at `p` comes to: `None` when it names a referrer the
/// file does not have (it is then only counted), else why it produced no
/// edge or the id it resolved to.
pub open spec fn outcome(files: Seq<FileAnalysis>, table: Seq<LanguageDef>, p: (int, int)) -> Option<
    Result<Seq<char>, Unresolved>,
> {
    let o = occurrence_at(files, p);
    match o.within {
        None => Some(Err(Unresolved::NoReferrer)),
        Some(w) => if w < files[p.0].symbols@.len() {
            Some(spec_resolve(files, table, p.0, o))
        } else {
            None
        },
    }
}

/// The edge the occurrence at `p` contributes: from its referrer to what it
/// resolved to, unless that is the referrer itself.
pub open spec fn edge_at(files: Seq<FileAnalysis>, table: Seq<LanguageDef>, p: (int, int)) -> Option<
    (Seq<char>, Seq<char>, Seq<char>),
> {
    let o = occurrence_at(files, p);
    match o.within {
        Some(w) => match outcome(files, table, p) {
            Some(Ok(to)) => {
                let from = files[p.0].symbols@[w as int].id@;
                if to != from {
                    Some((from, to, o.kind@))
                } else {
                    None
                }
            },
            _ => None,
        },
        None => None,
    }
}

/// How many of the occurrences at `ps` resolved.
pub open spec fn count_resolved(files: Seq<FileAnalysis>, table: Seq<LanguageDef>, ps: Seq<(int, int)>) -> nat
    decreases ps.len(),
{
    if ps.len() == 0 {
        0
    } else {
        count_resolved(files, table, ps.drop_last()) + match outcome(files, table, ps.last()) {
            Some(Ok(_)) => 1nat,
            _ => 0nat,
        }
    }
}

/// How many of the occurrences at `ps` failed for this reason.
pub open spec fn count_failed(
    files: Seq<FileAnalysis>,
    table: Seq<LanguageDef>,
    ps: Seq<(int, int)>,
    reason: Unresolved,
) -> nat
    decreases ps.len(),
{
    if ps.len() == 0 {
        0
    } else {
        count_failed(files, table, ps.drop_last(), reason) + if outcome(files, table, ps.last()) == Some(
            Err::<Seq<char>, Unresolved>(reason),
        ) {
            1nat
        } else {
            0nat
        }
    }
}

/// The edges the occurrences at `ps` contribute, in order, repeats kept.
pub open spec fn edge_list(files: Seq<FileAnalysis>, table: Seq<LanguageDef>, ps: Seq<(int, int)>) -> Seq<
    (Seq<char>, Seq<char>, Seq<char>),
>
    decreases ps.len(),
{
    if ps.len() == 0 {
        Seq::empty()
    } else {
        let rest = edge_list(files, table, ps.drop_last());
        match edge_at(files, table, ps.last()) {
            Some(e) => rest.push(e),
            None => rest,
        }
    }
}

/// A count row, present only when the count is positive.
pub open spec fn row(label: Seq<char>, n: nat) -> Seq<(Seq<char>, nat)> {
    if n > 0 {
        seq![(label, n)]
    } else {
        Seq::empty()
    }
}

/// The per-reason rows, ascending by label: "ambiguous", "no_candidate",
/// "no_referrer".
pub open spec fn unresolved_rows(ambiguous: nat, no_candidate: nat, no_referrer: nat) -> Seq<(Seq<char>, nat)> {
    row(spec_label(Unresolved::Ambiguous), ambiguous) + row(spec_label(Unresolved::NoCandidate), no_candidate) + row(
        spec_label(Unresolved::NoReferrer),
        no_referrer,
    )
}

/// The views of count rows.
pub open spec fn row_views(v: Seq<(String, usize)>) -> Seq<(Seq<char>, nat)> {
    v.map_values(|r: (String, usize)| (r.0@, r.1 as nat))
}

/// What a resolution pass over the files reports.
pub open spec fn resolved_as(
    files: Seq<FileAnalysis>,
    table: Seq<LanguageDef>,
    edges: Seq<Edge>,
    stats: ResolutionStats,
) -> bool {
    let ps = occurrence_positions(files, files.len() as int);
    &&& stats.occurrences == ps.len()
    &&& stats.resolved == count_resolved(files, table, ps)
    &&& row_views(stats.unresolved@) == unresolved_rows(
        count_failed(files, table, ps, Unresolved::Ambiguous),
        count_failed(files, table, ps, Unresolved::NoCandidate),
        count_failed(files, table, ps, Unresolved::NoReferrer),
    )
    &&& edges_sorted(edge_views(edges))
    &&& forall|t: (Seq<char>, Seq<char>, Seq<char>)|
        edge_views(edges).contains(t) <==> edge_list(files, table, ps).contains(t)
}

proof fn lemma_occurrence_positions_grow(files: Seq<FileAnalysis>, m: int, n: int)
    requires
        0 <= m <= n,
    ensures
        occurrence_positions(files, m).len() <= occurrence_positions(files, n).len(),
    decreases n - m,
{
    if m < n {
        lemma_occurrence_positions_grow(files, m, n - 1);
    }
}

fn count_row(rows: &mut Vec<(String, usize)>, reason: Unresolved, n: usize)
    ensures
        row_views(final(rows)@) == row_views(old(rows)@) + row(spec_label(reason), n as nat),
{
    if n > 0 {
        let ghost before = old(rows)@;
        rows.push((label(reason), n));
        proof {
            assert(row_views(rows@) =~= row_views(before) + row(spec_label(reason), n as nat));
        }
    } else {
        proof {
            assert(row_views(rows@) =~= row_views(old(rows)@) + row(spec_label(reason), n as nat));
        }
    }
}

impl Heuristic {
    /// Resolve every occurrence of the file set into edges between symbols.
    ///
    /// Each occurrence is counted; one outside any symbol counts as
    /// "no_referrer"; one whose referrer index the file lacks is only
    /// counted; the rest resolve by [`spec_resolve`], and a resolved
    /// reference from a symbol to another becomes an edge. Edges come out
    /// distinct and sorted by source, target and kind.
    pub fn resolve(&self, input: &ResolveInput) -> (r: (Vec<Edge>, ResolutionStats))
        requires
            occurrence_positions(input.files@, input.files@.len() as int).len() <= usize::MAX,
        ensures
            resolved_as(input.files@, input.languages@, r.0@, r.1),
    {
        let files = input.files;
        let table = input.languages;
        let entries = index_entries(files, table);
        let ghost total = occurrence_positions(files@, files@.len() as int);
        let mut edges: Vec<Edge> = Vec::new();
        let mut occurrences: usize = 0;
        let mut resolved: usize = 0;
        let mut ambiguous: usize = 0;
        let mut no_candidate: usize = 0;
        let mut no_referrer: usize = 0;
        let mut f: usize = 0;
        while f < files.len()
            invariant
                f <= files@.len(),
                total == occurrence_positions(files@, files@.len() as int),
                total.len() <= usize::MAX,
                entry_positions(entries@) == positions(files@),
                entries_ok(files@, table@, entries@),
                occurrences == occurrence_positions(files@, f as int).len(),
                resolved == count_resolved(files@, table@, occurrence_positions(files@, f as int)),
                ambiguous == count_failed(files@, table@, occurrence_positions(files@, f as int), Unresolved::Ambiguous),
                no_candidate == count_failed(files@, table@, occurrence_positions(files@, f as int), Unresolved::NoCandidate),
                no_referrer == count_failed(files@, table@, occurrence_positions(files@, f as int), Unresolved::NoReferrer),
                resolved <= occurrences,
                ambiguous <= occurrences,
                no_candidate <= occurrences,
                no_referrer <= occurrences,
                edges_sorted(edge_views(edges@)),
                forall|t: (Seq<char>, Seq<char>, Seq<char>)|
                    edge_views(edges@).contains(t) <==> edge_list(files@, table@, occurrence_positions(files@, f as int)).contains(t),
            decreases files@.len() - f,
        {
            let file = &files[f];
            let ghost base = occurrence_positions(files@, f as int);
            proof {
                lemma_occurrence_positions_grow(files@, f + 1, files@.len() as int);
                assert(occurrence_positions(files@, f + 1) == base + Seq::new(
                    files@[f as int].occurrences@.len(),
                    |j: int| (f as int, j),
                ));
            }
            let mut j: usize = 0;
            while j < file.occurrences.len()
                invariant
                    f < files@.len(),
                    file == &files@[f as int],
                    j <= file.occurrences@.len(),
                    base == occurrence_positions(files@, f as int),
                    base.len() + file.occurrences@.len() <= usize::MAX,
                    entry_positions(entries@) == positions(files@),
                    entries_ok(files@, table@, entries@),
                    occurrences == (base + Seq::new(j as nat, |k: int| (f as int, k))).len(),
                    resolved == count_resolved(files@, table@, base + Seq::new(j as nat, |k: int| (f as int, k))),
                    ambiguous == count_failed(
                        files@,
                        table@,
                        base + Seq::new(j as nat, |k: int| (f as int, k)),
                        Unresolved::Ambiguous,
                    ),
                    no_candidate == count_failed(
                        files@,
                        table@,
                        base + Seq::new(j as nat, |k: int| (f as int, k)),
                        Unresolved::NoCandidate,
                    ),
                    no_referrer == count_failed(
                        files@,
                        table@,
                        base + Seq::new(j as nat, |k: int| (f as int, k)),
                        Unresolved::NoReferrer,
                    ),
                    resolved <= occurrences,
                    ambiguous <= occurrences,
                    no_candidate <= occurrences,
                    no_referrer <= occurrences,
                    edges_sorted(edge_views(edges@)),
                    forall|t: (Seq<char>, Seq<char>, Seq<char>)|
                        edge_views(edges@).contains(t) <==> edge_list(
                            files@,
                            table@,
                            base + Seq::new(j as nat, |k: int| (f as int, k)),
                        ).contains(t),
                decreases file.occurrences@.len() - j,
            {
                let ghost before = base + Seq::new(j as nat, |k: int| (f as int, k));
                let ghost after = base + Seq::new((j + 1) as nat, |k: int| (f as int, k));
                let ghost p = (f as int, j as int);
                let ghost old_edges = edges@;
                proof {
                    assert(after =~= before.push(p));
                    assert(after.drop_last() =~= before);
                    assert(after.last() == p);
                }
                let o = &file.occurrences[j];
                occurrences = occurrences + 1;
                match o.within {
                    None => {
                        no_referrer = no_referrer + 1;
                    },
                    Some(w) => {
                        if w < file.symbols.len() {
                            let from = &file.symbols[w];
                            match resolve_occurrence(files, table, &entries, f, o) {
                                Ok(to) => {
                                    resolved = resolved + 1;
                                    if !str_eq(to.as_str(), from.id.as_str()) {
                                        let e = Edge { from: from.id.clone(), to, kind: o.kind.clone() };
                                        insert_edge(&mut edges, e);
                                    }
                                },
                                Err(reason) => match reason {
                                    Unresolved::Ambiguous => {
                                        ambiguous = ambiguous + 1;
                                    },
                                    Unresolved::NoCandidate => {
                                        no_candidate = no_candidate + 1;
                                    },
                                    Unresolved::NoReferrer => {
                                        no_referrer = no_referrer + 1;
                                    },
                                },
                            }
                        }
                    },
                }
                proof {
                    let t_new = edge_list(files@, table@, after);
                    let t_old = edge_list(files@, table@, before);
                    match edge_at(files@, table@, p) {
                        Some(e) => {
                            assert(t_new == t_old.push(e));
                            assert forall|t: (Seq<char>, Seq<char>, Seq<char>)|
                                t_new.contains(t) <==> (t_old.contains(t) || t == e) by {
                                if t_new.contains(t) {
                                    let k = choose|k: int| 0 <= k < t_new.len() && t_new[k] == t;
                                    if k < t_old.len() {
                                        assert(t_old[k] == t);
                                    }
                                }
                                if t_old.contains(t) {
                                    let k = choose|k: int| 0 <= k < t_old.len() && t_old[k] == t;
                                    assert(t_new[k] == t);
                                }
                                if t == e {
                                    assert(t_new[t_old.len() as int] == t);
                                }
                            }
                        },
                        None => {
                            assert(t_new == t_old);
                            assert(edges@ == old_edges);
                        },
                    }
                }
                j = j + 1;
            }
            proof {
                assert(occurrence_positions(files@, f + 1) == base + Seq::new(
                    j as nat,
                    |k: int| (f as int, k),
                ));
            }
            f = f + 1;
        }
        let mut unresolved: Vec<(String, usize)> = Vec::new();
        count_row(&mut unresolved, Unresolved::Ambiguous, ambiguous);
        count_row(&mut unresolved, Unresolved::NoCandidate, no_candidate);
        count_row(&mut unresolved, Unresolved::NoReferrer, no_referrer);
        proof {
            assert(row_views(Seq::<(String, usize)>::empty()) =~= Seq::<(Seq<char>, nat)>::empty());
        }
        (edges, ResolutionStats { occurrences, resolved, unresolved })
    }
}


/// Two strictly ascending edge sequences with the same members are equal.
proof fn lemma_edges_same_members(
    s: Seq<(Seq<char>, Seq<char>, Seq<char>)>,
    t: Seq<(Seq<char>, Seq<char>, Seq<char>)>,
)
    requires
        edges_sorted(s),
        edges_sorted(t),
        forall|y: (Seq<char>, Seq<char>, Seq<char>)|
            #![trigger s.contains(y)]
            #![trigger t.contains(y)]
            s.contains(y) <==> t.contains(y),
    ensures
        s == t,
    decreases s.len() + t.len(),
{
    if s.len() == 0 {
        if t.len() > 0 {
            assert(t.contains(t[0]));
        }
        assert(s =~= t);
    } else if t.len() == 0 {
        assert(s.contains(s[0]));
    } else {
        assert(s.contains(s[0]));
        assert(t.contains(t[0]));
        let j = choose|j: int| 0 <= j < s.len() && s[j] == t[0];
        let k = choose|k: int| 0 <= k < t.len() && t[k] == s[0];
        if k > 0 {
            assert(edge_lt(t[0], t[k]));
            if j > 0 {
                assert(edge_lt(s[0], s[j]));
                lemma_edge_lt_transitive(t[0], s[0], t[0]);
                lemma_edge_lt_irreflexive(t[0]);
            } else {
                lemma_edge_lt_irreflexive(t[0]);
            }
        }
        assert(s[0] == t[0]);
        let s1 = s.drop_first();
        let t1 = t.drop_first();
        assert forall|y: (Seq<char>, Seq<char>, Seq<char>)|
            #![trigger s1.contains(y)]
            #![trigger t1.contains(y)]
            s1.contains(y) <==> t1.contains(y) by {
            if s1.contains(y) {
                let a = choose|a: int| 0 <= a < s1.len() && s1[a] == y;
                assert(s[a + 1] == y);
                assert(edge_lt(s[0], s[a + 1]));
                assert(s.contains(y));
                let b = choose|b: int| 0 <= b < t.len() && t[b] == y;
                if b == 0 {
                    lemma_edge_lt_irreflexive(y);
                }
                assert(t1[b - 1] == y);
            }
            if t1.contains(y) {
                let a = choose|a: int| 0 <= a < t1.len() && t1[a] == y;
                assert(t[a + 1] == y);
                assert(edge_lt(t[0], t[a + 1]));
                assert(t.contains(y));
                let b = choose|b: int| 0 <= b < s.len() && s[b] == y;
                if b == 0 {
                    lemma_edge_lt_irreflexive(y);
                }
                assert(s1[b - 1] == y);
            }
        }
        lemma_edges_same_members(s1, t1);
        assert(s =~= seq![s[0]] + s1);
        assert(t =~= seq![t[0]] + t1);
    }
}

/// Resolution is deterministic: two passes over the same files and language
/// table report the same edges, in the same order, and the same counts.
pub proof fn law_resolution_is_deterministic(
    files: Seq<FileAnalysis>,
    table: Seq<LanguageDef>,
    first_edges: Seq<Edge>,
    first_stats: ResolutionStats,
    second_edges: Seq<Edge>,
    second_stats: ResolutionStats,
)
    requires
        resolved_as(files, table, first_edges, first_stats),
        resolved_as(files, table, second_edges, second_stats),
    ensures
        edge_views(first_edges) == edge_views(second_edges),
        first_stats.occurrences == second_stats.occurrences,
        first_stats.resolved == second_stats.resolved,
        row_views(first_stats.unresolved@) == row_views(second_stats.unresolved@),
{
    lemma_edges_same_members(edge_views(first_edges), edge_views(second_edges));
}

/// No symbol is an edge's source and target at once: recursion is not an
/// edge.
pub proof fn law_recursion_is_not_an_edge(
    files: Seq<FileAnalysis>,
    table: Seq<LanguageDef>,
    edges: Seq<Edge>,
    stats: ResolutionStats,
    i: int,
)
    requires
        resolved_as(files, table, edges, stats),
        0 <= i < edges.len(),
    ensures
        edges[i].from@ != edges[i].to@,
{
    let ps = occurrence_positions(files, files.len() as int);
    let t = edge_view(edges[i]);
    assert(edge_views(edges)[i] == t);
    assert(edge_views(edges).contains(t));
    assert(edge_list(files, table, ps).contains(t));
    lemma_edge_list_members(files, table, ps, t);
}

/// Every member of an edge list is the edge of one of the positions.
proof fn lemma_edge_list_members(
    files: Seq<FileAnalysis>,
    table: Seq<LanguageDef>,
    ps: Seq<(int, int)>,
    t: (Seq<char>, Seq<char>, Seq<char>),
)
    requires
        edge_list(files, table, ps).contains(t),
    ensures
        exists|k: int| 0 <= k < ps.len() && edge_at(files, table, #[trigger] ps[k]) == Some(t),
        t.0 != t.1,
    decreases ps.len(),
{
    let rest = edge_list(files, table, ps.drop_last());
    if rest.contains(t) {
        lemma_edge_list_members(files, table, ps.drop_last(), t);
        let k = choose|k: int| 0 <= k < ps.drop_last().len() && edge_at(files, table, #[trigger] ps.drop_last()[k]) == Some(t);
        assert(ps[k] == ps.drop_last()[k]);
    } else {
        let k = ps.len() - 1;
        assert(ps[k] == ps.last());
        match edge_at(files, table, ps.last()) {
            Some(e) => {
                let l = edge_list(files, table, ps);
                let idx = choose|idx: int| 0 <= idx < l.len() && l[idx] == t;
                if idx < rest.len() {
                    assert(rest[idx] == t);
                }
                assert(e == t);
            },
            None => {
                assert(edge_list(files, table, ps) == rest);
            },
        }
    }
}


/// Every symbol position of a file set appears once in `positions`, and
/// nothing else does.
proof fn lemma_positions(files: Seq<FileAnalysis>)
    ensures
        forall|k: int|
            0 <= k < positions(files).len() ==> 0 <= (#[trigger] positions(files)[k]).0 < files.len() && 0
                <= positions(files)[k].1 < files[positions(files)[k].0].symbols@.len(),
        forall|g: int, i: int|
            0 <= g < files.len() && 0 <= i < files[g].symbols@.len() ==> #[trigger] positions(files).contains(
                (g, i),
            ),
        positions(files).no_duplicates(),
    decreases files.len(),
{
    if files.len() > 0 {
        let init = files.drop_last();
        let n = files.len() - 1;
        lemma_positions(init);
        let a = positions(init);
        let b = Seq::new(files.last().symbols@.len(), |i: int| (n, i));
        let ps = positions(files);
        assert(ps == a + b);
        assert forall|k: int| 0 <= k < ps.len() implies 0 <= (#[trigger] ps[k]).0 < files.len() && 0 <= ps[k].1
            < files[ps[k].0].symbols@.len() by {
            if k < a.len() {
                assert(ps[k] == a[k]);
                assert(init[a[k].0] == files[a[k].0]);
            } else {
                assert(ps[k] == b[k - a.len()]);
            }
        }
        assert forall|g: int, i: int| 0 <= g < files.len() && 0 <= i < files[g].symbols@.len() implies #[trigger] ps.contains(
            (g, i),
        ) by {
            if g < n {
                assert(init[g] == files[g]);
                assert(a.contains((g, i)));
                let k = choose|k: int| 0 <= k < a.len() && a[k] == (g, i);
                assert(ps[k] == (g, i));
            } else {
                assert(ps[a.len() + i] == (g, i));
            }
        }
        assert forall|x: int, y: int| 0 <= x < ps.len() && 0 <= y < ps.len() && x != y implies ps[x] != ps[y] by {
            if x < a.len() && y < a.len() {
                assert(ps[x] == a[x] && ps[y] == a[y]);
            } else if x >= a.len() && y >= a.len() {
                assert(ps[x] == b[x - a.len()] && ps[y] == b[y - a.len()]);
            } else if x < a.len() {
                assert(ps[x] == a[x] && ps[y] == b[y - a.len()]);
            } else {
                assert(ps[y] == a[y] && ps[x] == b[x - a.len()]);
            }
        }
    }
}

/// A selection among positions none of which answers is empty.
proof fn lemma_select_none(files: Seq<FileAnalysis>, table: Seq<LanguageDef>, ps: Seq<(int, int)>, q: NameQuery)
    requires
        forall|k: int| 0 <= k < ps.len() ==> !answers(files, table, #[trigger] ps[k], q),
    ensures
        select(files, table, ps, q) == Seq::<(int, int)>::empty(),
    decreases ps.len(),
{
    if ps.len() > 0 {
        let init = ps.drop_last();
        assert forall|k: int| 0 <= k < init.len() implies !answers(files, table, #[trigger] init[k], q) by {
            assert(init[k] == ps[k]);
        }
        lemma_select_none(files, table, init, q);
        assert(!answers(files, table, ps[ps.len() - 1], q));
    }
}

/// A selection among distinct positions only one of which answers is that
/// one.
proof fn lemma_select_one(
    files: Seq<FileAnalysis>,
    table: Seq<LanguageDef>,
    ps: Seq<(int, int)>,
    q: NameQuery,
    p: (int, int),
)
    requires
        ps.no_duplicates(),
        ps.contains(p),
        answers(files, table, p, q),
        forall|k: int| 0 <= k < ps.len() && answers(files, table, #[trigger] ps[k], q) ==> ps[k] == p,
    ensures
        select(files, table, ps, q) == seq![p],
    decreases ps.len(),
{
    let init = ps.drop_last();
    let last = ps[ps.len() - 1];
    if last == p {
        assert forall|k: int| 0 <= k < init.len() implies !answers(files, table, #[trigger] init[k], q) by {
            assert(init[k] == ps[k]);
            if answers(files, table, ps[k], q) {
                assert(ps[k] == p);
                assert(ps[k] == ps[ps.len() - 1]);
            }
        }
        lemma_select_none(files, table, init, q);
        assert(select(files, table, ps, q) =~= seq![p]);
    } else {
        let j = choose|j: int| 0 <= j < ps.len() && ps[j] == p;
        assert(init[j] == p);
        assert forall|x: int, y: int| 0 <= x < init.len() && 0 <= y < init.len() && x != y implies init[x]
            != init[y] by {
            assert(init[x] == ps[x] && init[y] == ps[y]);
        }
        assert forall|k: int| 0 <= k < init.len() && answers(files, table, #[trigger] init[k], q) implies init[k]
            == p by {
            assert(init[k] == ps[k]);
        }
        lemma_select_one(files, table, init, q, p);
    }
}

/// A qualifier that names no module path is read as a scope on the symbol
/// itself: when the occurrence's name is not brought in by a plain import,
/// no symbol's module-qualified name is the qualifier, the separator and the
/// name, and exactly one symbol has the name as its last segment and a
/// qualified path that mentions the qualifier, the occurrence resolves to
/// that symbol.
pub proof fn law_qualifier_reads_as_scope(
    files: Seq<FileAnalysis>,
    table: Seq<LanguageDef>,
    f: int,
    o: Occurrence,
    p: (int, int),
)
    requires
        0 <= f < files.len(),
        o.qualifier is Some,
        import_target(files[f].imports@, o.name@) is None,
        forall|g: int, i: int|
            0 <= g < files.len() && 0 <= i < files[g].symbols@.len() ==> #[trigger] module_key(files, table, (g, i))
                != o.qualifier->0@ + sep_at(files, table, f) + o.name@,
        0 <= p.0 < files.len(),
        0 <= p.1 < files[p.0].symbols@.len(),
        name_key(files, table, p) == o.name@,
        spec_scope_mentions(sym_at(files, p).qualified_path@, sep_at(files, table, f), o.qualifier->0@),
        forall|g: int, i: int|
            0 <= g < files.len() && 0 <= i < files[g].symbols@.len() && name_key(files, table, (g, i)) == o.name@
                && spec_scope_mentions(#[trigger] sym_at(files, (g, i)).qualified_path@, sep_at(files, table, f), o.qualifier->0@)
                ==> (g, i) == p,
    ensures
        spec_resolve(files, table, f, o) == Ok::<Seq<char>, Unresolved>(sym_at(files, p).id@),
{
    let sep = sep_at(files, table, f);
    let q = o.qualifier->0@;
    let name = o.name@;
    let ps = positions(files);
    lemma_positions(files);
    let module_query = NameQuery::Module(q + sep + name);
    let scoped_query = NameQuery::Scoped(name, q, sep);
    assert forall|k: int| 0 <= k < ps.len() implies !answers(files, table, #[trigger] ps[k], module_query) by {
        assert(module_key(files, table, (ps[k].0, ps[k].1)) != q + sep + name);
    }
    lemma_select_none(files, table, ps, module_query);
    assert(ps.contains(p));
    assert forall|k: int| 0 <= k < ps.len() && answers(files, table, #[trigger] ps[k], scoped_query) implies ps[k]
        == p by {
        let x = ps[k];
        assert(spec_scope_mentions(sym_at(files, (x.0, x.1)).qualified_path@, sep, q));
    }
    lemma_select_one(files, table, ps, scoped_query, p);
    let lists = candidate_lists(files, table, f, o);
    assert(lists[0].len() == 0);
    assert(lists[1] == seq![p]);
    assert(lists.len() == 5);
    assert(decide(files, lists, 1, false) == Ok::<Seq<char>, Unresolved>(sym_at(files, lists[1][0]).id@));
    assert(decide(files, lists, 0, false) == decide(files, lists, 1, false));
}


/// A plain import decides first: when the file imports the occurrence's
/// name from a path, and exactly one symbol's module-qualified name is that
/// path, the occurrence resolves to that symbol, whatever else shares the
/// name.
pub proof fn law_plain_import_decides(
    files: Seq<FileAnalysis>,
    table: Seq<LanguageDef>,
    f: int,
    o: Occurrence,
    p: (int, int),
)
    requires
        0 <= f < files.len(),
        import_target(files[f].imports@, o.name@) is Some,
        0 <= p.0 < files.len(),
        0 <= p.1 < files[p.0].symbols@.len(),
        module_key(files, table, p) == join(import_target(files[f].imports@, o.name@)->0, sep_at(files, table, f)),
        forall|g: int, i: int|
            0 <= g < files.len() && 0 <= i < files[g].symbols@.len() && #[trigger] module_key(files, table, (g, i))
                == join(import_target(files[f].imports@, o.name@)->0, sep_at(files, table, f)) ==> (g, i) == p,
    ensures
        spec_resolve(files, table, f, o) == Ok::<Seq<char>, Unresolved>(sym_at(files, p).id@),
{
    let key = join(import_target(files[f].imports@, o.name@)->0, sep_at(files, table, f));
    let ps = positions(files);
    lemma_positions(files);
    let query = NameQuery::Module(key);
    assert(ps.contains(p));
    assert forall|k: int| 0 <= k < ps.len() && answers(files, table, #[trigger] ps[k], query) implies ps[k] == p by {
        let x = ps[k];
        assert(module_key(files, table, (x.0, x.1)) == key);
    }
    lemma_select_one(files, table, ps, query, p);
    let lists = candidate_lists(files, table, f, o);
    assert(lists[0] == seq![p]);
    assert(decide(files, lists, 0, false) == Ok::<Seq<char>, Unresolved>(sym_at(files, lists[0][0]).id@));
}

/// Without an import or a qualifier, the file's own symbols come before the
/// rest of the project: when exactly one symbol of a file with the
/// occurrence's path has the occurrence's name as its last segment, the
/// occurrence resolves to it, however many other files define the name.
pub proof fn law_same_file_comes_first(
    files: Seq<FileAnalysis>,
    table: Seq<LanguageDef>,
    f: int,
    o: Occurrence,
    p: (int, int),
)
    requires
        0 <= f < files.len(),
        o.qualifier is None,
        import_target(files[f].imports@, o.name@) is None,
        0 <= p.0 < files.len(),
        0 <= p.1 < files[p.0].symbols@.len(),
        files[p.0].path@ == files[f].path@,
        name_key(files, table, p) == o.name@,
        forall|g: int, i: int|
            0 <= g < files.len() && 0 <= i < files[g].symbols@.len() && files[g].path@ == files[f].path@
                && #[trigger] name_key(files, table, (g, i)) == o.name@ ==> (g, i) == p,
    ensures
        spec_resolve(files, table, f, o) == Ok::<Seq<char>, Unresolved>(sym_at(files, p).id@),
{
    let ps = positions(files);
    lemma_positions(files);
    let query = NameQuery::FileName(files[f].path@, o.name@);
    assert(ps.contains(p));
    assert forall|k: int| 0 <= k < ps.len() && answers(files, table, #[trigger] ps[k], query) implies ps[k] == p by {
        let x = ps[k];
        assert(name_key(files, table, (x.0, x.1)) == o.name@);
    }
    lemma_select_one(files, table, ps, query, p);
    let lists = candidate_lists(files, table, f, o);
    assert(lists[0].len() == 0);
    assert(lists[1].len() == 0);
    assert(lists[2] == seq![p]);
    assert(lists.len() == 5);
    assert(decide(files, lists, 2, false) == Ok::<Seq<char>, Unresolved>(sym_at(files, lists[2][0]).id@));
    assert(decide(files, lists, 1, false) == decide(files, lists, 2, false));
    assert(decide(files, lists, 0, false) == decide(files, lists, 1, false));
}

} // verus!
