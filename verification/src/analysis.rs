//! What must match before a stored analysis may be reused, and the path
//! spelling stored records use.

use crate::order::str_eq;
use crate::phase1::FileAnalysis;
use crate::symbol::Symbol;
use crate::text::{split_on, split_str};
use vstd::prelude::*;

verus! {

/// Everything that must match before a stored result may be reused.
///
/// Every component is a function of the tool and its configuration. None of
/// it is machine-local.
pub struct Fingerprint {
    pub schema_version: u32,
    pub tool_version: String,
    pub config: String,
    pub language_table: String,
    /// How paths in stored records are spelled.
    pub path_rules: String,
}

/// The only path spelling beholder stores or accepts.
pub const PATH_RULES: &'static str = "repo-relative-posix";

impl Fingerprint {
    /// The fingerprint of this schema version, the given tool version, the
    /// given configuration fingerprint and language table fingerprint, and
    /// the stored path rules.
    pub fn new(tool_version: &str, config: &str, language_table: &str) -> (r: Fingerprint)
        ensures
            r.schema_version == crate::SCHEMA_VERSION,
            r.tool_version@ == tool_version@,
            r.config@ == config@,
            r.language_table@ == language_table@,
            r.path_rules@ == PATH_RULES@,
    {
        Fingerprint {
            schema_version: crate::SCHEMA_VERSION,
            tool_version: tool_version.to_owned(),
            config: config.to_owned(),
            language_table: language_table.to_owned(),
            path_rules: PATH_RULES.to_owned(),
        }
    }
}

/// A component that repo-relative POSIX paths never hold.
pub open spec fn bad_component(c: Seq<char>) -> bool {
    c == seq!['.', '.'] || c == seq!['.'] || c.len() == 0
}

/// Does this path obey the stored-path rules: non-empty, not absolute, no
/// backslash, and no empty, `.` or `..` component?
pub open spec fn spec_is_repo_relative(path: Seq<char>) -> bool {
    &&& path.len() > 0
    &&& path[0] != '/'
    &&& !path.contains('\\')
    &&& forall|i: int| 0 <= i < split_on(path, '/').len() ==> !bad_component(#[trigger] split_on(path, '/')[i])
}

/// Does this path obey the stored-path rules?
pub fn is_repo_relative(path: &str) -> (r: bool)
    ensures
        r == spec_is_repo_relative(path@),
{
    let cs = crate::text::chars_of(path);
    if cs.len() == 0 || cs[0] == '/' {
        return false;
    }
    let mut i: usize = 0;
    while i < cs.len()
        invariant
            i <= cs@.len(),
            cs@ == path@,
            forall|k: int| 0 <= k < i ==> cs@[k] != '\\',
        decreases cs@.len() - i,
    {
        if cs[i] == '\\' {
            proof {
                assert(path@[i as int] == '\\');
            }
            return false;
        }
        i = i + 1;
    }
    let parts = split_str(path, '/');
    let ghost ps = parts@.map_values(|p: String| p@);
    let mut j: usize = 0;
    while j < parts.len()
        invariant
            j <= parts@.len(),
            ps == parts@.map_values(|p: String| p@),
            ps == split_on(path@, '/'),
            forall|k: int| 0 <= k < j ==> !bad_component(#[trigger] ps[k]),
        decreases parts@.len() - j,
    {
        let p = crate::text::chars_of(parts[j].as_str());
        proof {
            assert(ps[j as int] == p@);
        }
        let bad = p.len() == 0 || (p.len() == 1 && p[0] == '.') || (p.len() == 2 && p[0] == '.' && p[1] == '.');
        proof {
            if p@.len() == 1 && p@[0] == '.' {
                assert(p@ =~= seq!['.']);
            }
            if p@.len() == 2 && p@[0] == '.' && p@[1] == '.' {
                assert(p@ =~= seq!['.', '.']);
            }
        }
        if bad {
            return false;
        }
        j = j + 1;
    }
    true
}

/// A phase 1 cache that never hits.
pub struct NoCache;

/// How much of phase 1 was reused rather than recomputed.
#[derive(Debug, Clone, Copy, PartialEq, Eq, Default)]
pub struct CacheStats {
    pub reused: usize,
    pub computed: usize,
}


/// Every symbol of the first `m` files, file by file.
pub open spec fn symbols_upto(files: Seq<FileAnalysis>, m: int) -> Seq<Symbol>
    decreases m,
{
    if m <= 0 {
        Seq::empty()
    } else {
        symbols_upto(files, m - 1) + files[m - 1].symbols@
    }
}

/// Every symbol of the file set, file by file.
pub open spec fn all_symbols(files: Seq<FileAnalysis>) -> Seq<Symbol> {
    symbols_upto(files, files.len() as int)
}

/// How many of the first `n` symbols share `s`'s language and, when
/// `at_or_below`, have a complexity no greater than `s`'s.
pub open spec fn peers(all: Seq<Symbol>, n: int, s: Symbol, at_or_below: bool) -> nat
    decreases n,
{
    if n <= 0 {
        0
    } else {
        let t = all[n - 1];
        peers(all, n - 1, s, at_or_below) + if t.language@ == s.language@ && (!at_or_below
            || t.cognitive_complexity <= s.cognitive_complexity) {
            1nat
        } else {
            0nat
        }
    }
}

/// The integer side of a symbol's within-language percentile rank: the rank
/// is `at_or_below * 100 / of`.
pub struct PercentileCount {
    pub id: String,
    /// Symbols of the same language whose complexity is at or below this one's.
    pub at_or_below: usize,
    /// Symbols of the same language.
    pub of: usize,
}

proof fn lemma_peers_bounded(all: Seq<Symbol>, n: int, s: Symbol, flag: bool)
    requires
        0 <= n,
    ensures
        peers(all, n, s, flag) <= n,
    decreases n,
{
    if n > 0 {
        lemma_peers_bounded(all, n - 1, s, flag);
    }
}

/// The symbols of the file set, with each one's language as a position in a
/// list of the distinct languages.
fn flatten(files: &Vec<FileAnalysis>) -> (r: (Vec<&Symbol>, Vec<usize>, Vec<&String>))
    ensures
        r.0@.len() == all_symbols(files@).len(),
        forall|i: int| 0 <= i < r.0@.len() ==> *r.0@[i] == #[trigger] all_symbols(files@)[i],
        r.1@.len() == r.0@.len(),
        forall|i: int| 0 <= i < r.1@.len() ==> (#[trigger] r.1@[i]) < r.2@.len() && r.2@[r.1@[i] as int]@ == r.0@[i].language@,
        forall|i: int, j: int|
            0 <= i < r.2@.len() && 0 <= j < r.2@.len() && i != j ==> (#[trigger] r.2@[i])@ != (#[trigger] r.2@[j])@,
{
    let mut symbols: Vec<&Symbol> = Vec::new();
    let mut language_of: Vec<usize> = Vec::new();
    let mut languages: Vec<&String> = Vec::new();
    let mut f: usize = 0;
    while f < files.len()
        invariant
            f <= files@.len(),
            symbols@.len() == symbols_upto(files@, f as int).len(),
            forall|i: int| 0 <= i < symbols@.len() ==> *symbols@[i] == #[trigger] symbols_upto(files@, f as int)[i],
            language_of@.len() == symbols@.len(),
            forall|i: int|
                0 <= i < language_of@.len() ==> (#[trigger] language_of@[i]) < languages@.len()
                    && languages@[language_of@[i] as int]@ == symbols@[i].language@,
            forall|i: int, j: int|
                0 <= i < languages@.len() && 0 <= j < languages@.len() && i != j ==> (#[trigger] languages@[i])@
                    != (#[trigger] languages@[j])@,
        decreases files@.len() - f,
    {
        let file = &files[f];
        let ghost base = symbols_upto(files@, f as int);
        let mut k: usize = 0;
        while k < file.symbols.len()
            invariant
                f < files@.len(),
                file == &files@[f as int],
                k <= file.symbols@.len(),
                base == symbols_upto(files@, f as int),
                symbols@.len() == base.len() + k,
                forall|i: int| 0 <= i < symbols@.len() ==> *symbols@[i] == #[trigger] (base + file.symbols@)[i],
                language_of@.len() == symbols@.len(),
                forall|i: int|
                    0 <= i < language_of@.len() ==> (#[trigger] language_of@[i]) < languages@.len()
                        && languages@[language_of@[i] as int]@ == symbols@[i].language@,
                forall|i: int, j: int|
                    0 <= i < languages@.len() && 0 <= j < languages@.len() && i != j ==> (#[trigger] languages@[i])@
                        != (#[trigger] languages@[j])@,
            decreases file.symbols@.len() - k,
        {
            let s = &file.symbols[k];
            let mut l: usize = 0;
            while l < languages.len()
                invariant
                    l <= languages@.len(),
                    forall|j: int| 0 <= j < l ==> (#[trigger] languages@[j])@ != s.language@,
                ensures
                    l <= languages@.len(),
                    l < languages@.len() ==> languages@[l as int]@ == s.language@,
                    forall|j: int| 0 <= j < l ==> (#[trigger] languages@[j])@ != s.language@,
                decreases languages@.len() - l,
            {
                if str_eq(languages[l].as_str(), s.language.as_str()) {
                    break;
                }
                l = l + 1;
            }
            if l == languages.len() {
                languages.push(&s.language);
            }
            proof {
                assert(languages@[l as int]@ == s.language@);
            }
            symbols.push(s);
            language_of.push(l);
            proof {
                assert((base + file.symbols@)[symbols@.len() - 1] == file.symbols@[k as int]);
            }
            k = k + 1;
        }
        proof {
            assert(symbols_upto(files@, f + 1) == base + file.symbols@);
        }
        f = f + 1;
    }
    (symbols, language_of, languages)
}

/// The integer side of every symbol's percentile rank within its own
/// language, in symbol order. Raw complexity is never compared across
/// languages.
pub fn percentile_counts(files: &Vec<FileAnalysis>) -> (r: Vec<PercentileCount>)
    ensures
        r@.len() == all_symbols(files@).len(),
        forall|i: int|
            0 <= i < r@.len() ==> {
                let s = all_symbols(files@)[i];
                let n = all_symbols(files@).len() as int;
                &&& (#[trigger] r@[i]).id@ == s.id@
                &&& r@[i].at_or_below == peers(all_symbols(files@), n, s, true)
                &&& r@[i].of == peers(all_symbols(files@), n, s, false)
            },
{
    let (symbols, language_of, languages) = flatten(files);
    let ghost all = all_symbols(files@);
    let n = symbols.len();
    let mut out: Vec<PercentileCount> = Vec::new();
    let mut i: usize = 0;
    while i < n
        invariant
            i <= n,
            n == symbols@.len(),
            n == all.len(),
            all == all_symbols(files@),
            forall|k: int| 0 <= k < n ==> *symbols@[k] == #[trigger] all[k],
            language_of@.len() == n,
            forall|k: int|
                0 <= k < n ==> (#[trigger] language_of@[k]) < languages@.len()
                    && languages@[language_of@[k] as int]@ == symbols@[k].language@,
            forall|a: int, b: int|
                0 <= a < languages@.len() && 0 <= b < languages@.len() && a != b ==> (#[trigger] languages@[a])@
                    != (#[trigger] languages@[b])@,
            out@.len() == i,
            forall|k: int|
                0 <= k < i ==> {
                    &&& (#[trigger] out@[k]).id@ == all[k].id@
                    &&& out@[k].at_or_below == peers(all, n as int, all[k], true)
                    &&& out@[k].of == peers(all, n as int, all[k], false)
                },
        decreases n - i,
    {
        let s = symbols[i];
        let lang = language_of[i];
        let mut below: usize = 0;
        let mut same: usize = 0;
        let mut j: usize = 0;
        while j < n
            invariant
                j <= n,
                i < n,
                n == symbols@.len(),
                n == all.len(),
                s == symbols@[i as int],
                lang == language_of@[i as int],
                forall|k: int| 0 <= k < n ==> *symbols@[k] == #[trigger] all[k],
                language_of@.len() == n,
                forall|k: int|
                    0 <= k < n ==> (#[trigger] language_of@[k]) < languages@.len()
                        && languages@[language_of@[k] as int]@ == symbols@[k].language@,
                forall|a: int, b: int|
                    0 <= a < languages@.len() && 0 <= b < languages@.len() && a != b ==> (#[trigger] languages@[a])@
                        != (#[trigger] languages@[b])@,
                below == peers(all, j as int, *s, true),
                same == peers(all, j as int, *s, false),
            decreases n - j,
        {
            proof {
                lemma_peers_bounded(all, j as int, *s, true);
                lemma_peers_bounded(all, j as int, *s, false);
                let a = language_of@[j as int] as int;
                let b = lang as int;
                if a != b {
                    assert(languages@[a]@ != languages@[b]@);
                }
            }
            if language_of[j] == lang {
                same = same + 1;
                if symbols[j].cognitive_complexity <= s.cognitive_complexity {
                    below = below + 1;
                }
            }
            j = j + 1;
        }
        proof {
            assert(*s == all[i as int]);
        }
        out.push(PercentileCount { id: s.id.clone(), at_or_below: below, of: same });
        i = i + 1;
    }
    out
}

/// A stored phase 1 result may stand for a file only when it was made for
/// the same path and the same content address: phase 1 is a function of the
/// content alone, so reusing it gives what analyzing again would.
pub fn stored_is_current(stored: &FileAnalysis, path: &str, content_hash: &str) -> (r: bool)
    ensures
        r == (stored.content_hash@ == content_hash@ && stored.path@ == path@),
{
    str_eq(stored.content_hash.as_str(), content_hash) && str_eq(stored.path.as_str(), path)
}

/// Phase 1 results stably sorted by path.
pub fn sort_by_path(files: Vec<FileAnalysis>) -> (r: Vec<FileAnalysis>)
    ensures
        r@.len() == files@.len(),
        forall|i: int, j: int| 0 <= i < j < r@.len() ==> !crate::order::seq_lt(#[trigger] r@[j].path@, #[trigger] r@[i].path@),
        forall|j: int| 0 <= j < files@.len() ==> r@.contains(#[trigger] files@[j]),
        forall|k: int| 0 <= k < r@.len() ==> files@.contains(#[trigger] r@[k]),
{
    let mut rest = files;
    let mut out: Vec<FileAnalysis> = Vec::new();
    let ghost total = rest@.len();
    let ghost orig = rest@;
    let ghost mut done: int = 0;
    while rest.len() > 0
        invariant
            out@.len() + rest@.len() == total,
            total == orig.len(),
            orig == files@,
            0 <= done <= total,
            rest@ == orig.skip(done),
            forall|j: int| 0 <= j < done ==> out@.contains(#[trigger] orig[j]),
            forall|k: int| 0 <= k < out@.len() ==> orig.contains(#[trigger] out@[k]),
            forall|i: int, j: int| 0 <= i < j < out@.len() ==> !crate::order::seq_lt(#[trigger] out@[j].path@, #[trigger] out@[i].path@),
        decreases rest@.len(),
    {
        let file = rest.remove(0);
        proof {
            assert(file == orig[done]);
            assert(rest@ =~= orig.skip(done + 1));
        }
        let mut p = out.len();
        while p > 0 && crate::order::str_lt(file.path.as_str(), out[p - 1].path.as_str())
            invariant
                p <= out@.len(),
                forall|k: int| p <= k < out@.len() ==> crate::order::seq_lt(file.path@, #[trigger] out@[k].path@),
            decreases p,
        {
            p = p - 1;
        }
        proof {
            if p > 0 {
                crate::order::lemma_seq_lt_total(file.path@, out@[p - 1].path@);
            }
            assert forall|k: int| 0 <= k < p implies !crate::order::seq_lt(file.path@, #[trigger] out@[k].path@) by {
                if crate::order::seq_lt(file.path@, out@[k].path@) {
                    if k < p - 1 {
                        assert(!crate::order::seq_lt(out@[p - 1].path@, out@[k].path@));
                        crate::order::lemma_seq_lt_total(out@[p - 1].path@, out@[k].path@);
                        if out@[p - 1].path@ != out@[k].path@ {
                            crate::order::lemma_seq_lt_transitive(file.path@, out@[k].path@, out@[p - 1].path@);
                        }
                    }
                    crate::order::lemma_seq_lt_asymmetric(file.path@, out@[p - 1].path@);
                }
            }
        }
        let ghost before = out@;
        out.insert(p, file);
        proof {
            assert forall|j: int| 0 <= j < done + 1 implies out@.contains(#[trigger] orig[j]) by {
                if j < done {
                    let k = choose|k: int| 0 <= k < before.len() && before[k] == orig[j];
                    if k < p {
                        assert(out@[k] == orig[j]);
                    } else {
                        assert(out@[k + 1] == orig[j]);
                    }
                } else {
                    assert(out@[p as int] == orig[j]);
                }
            }
            assert forall|k: int| 0 <= k < out@.len() implies orig.contains(#[trigger] out@[k]) by {
                if k < p {
                    assert(out@[k] == before[k]);
                } else if k > p {
                    assert(out@[k] == before[k - 1]);
                } else {
                    assert(orig[done] == out@[k]);
                }
            }
            assert forall|i: int, j: int| 0 <= i < j < out@.len() implies !crate::order::seq_lt(
                #[trigger] out@[j].path@,
                #[trigger] out@[i].path@,
            ) by {
                if i < p && j == p {
                } else if i == p && j > p {
                    assert(out@[j] == before[j - 1]);
                    crate::order::lemma_seq_lt_asymmetric(out@[i].path@, out@[j].path@);
                } else {
                    let bi = if i < p { i } else { i - 1 };
                    let bj = if j < p { j } else { j - 1 };
                    assert(out@[i] == before[bi]);
                    assert(out@[j] == before[bj]);
                }
            }
            done = done + 1;
        }
    }
    out
}

} // verus!
