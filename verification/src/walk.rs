//! Which files analysis sees, and in what order.
//!
//! Both sources of files — the working tree and a git revision — yield the
//! same shape: repo-relative path plus contents, stably sorted by path, with
//! the same rules deciding which paths are selected.

use crate::config::Config;
use crate::hash::{blob_header, content_hash, sha256};
use crate::order::{contains_view, seq_lt, sorted_strict, str_eq, str_lt, views, lemma_seq_lt_total, lemma_seq_lt_irreflexive, lemma_seq_lt_transitive};
use crate::store::keys;
use crate::text::{hex_lower, starts_with};
use vstd::prelude::*;
use vstd::utf8::encode_utf8;

verus! {

/// One file offered to analysis.
pub struct SourceFile {
    /// Repo-relative, forward-slash separated. Never absolute.
    pub path: String,
    pub contents: String,
}

/// `s` ends with `t`.
pub open spec fn ends_with(s: Seq<char>, t: Seq<char>) -> bool {
    s.len() >= t.len() && s.subrange(s.len() - t.len(), s.len() as int) == t
}

/// A path relative to a directory: all of it for the empty directory, else
/// what follows `directory/`; `None` when the path is not inside it.
pub open spec fn spec_strip_directory(path: Seq<char>, directory: Seq<char>) -> Option<Seq<char>> {
    if directory.len() == 0 {
        Some(path)
    } else if starts_with(path, directory.push('/')) {
        Some(path.skip(directory.len() as int + 1))
    } else {
        None
    }
}

/// Does `s` begin with `t`?
pub(crate) fn begins_with(s: &str, t: &str) -> (r: bool)
    ensures
        r == starts_with(s@, t@),
{
    let cs = crate::text::chars_of(s);
    let ts = crate::text::chars_of(t);
    if ts.len() > cs.len() {
        return false;
    }
    let mut k: usize = 0;
    while k < ts.len()
        invariant
            k <= ts@.len(),
            ts@.len() <= cs@.len(),
            cs@ == s@,
            ts@ == t@,
            forall|j: int| 0 <= j < k ==> cs@[j] == ts@[j],
        decreases ts@.len() - k,
    {
        if cs[k] != ts[k] {
            proof {
                assert(s@.subrange(0, t@.len() as int)[k as int] != t@[k as int]);
            }
            return false;
        }
        k = k + 1;
    }
    proof {
        assert(s@.subrange(0, t@.len() as int) =~= t@);
    }
    true
}

/// Does `s` end with `t`?
fn finishes_with(s: &str, t: &str) -> (r: bool)
    ensures
        r == ends_with(s@, t@),
{
    let cs = crate::text::chars_of(s);
    let ts = crate::text::chars_of(t);
    if ts.len() > cs.len() {
        return false;
    }
    let ncs = cs.len();
    let off = ncs - ts.len();
    let mut k: usize = 0;
    while k < ts.len()
        invariant
            k <= ts@.len(),
            ncs == cs@.len(),
            off + ts@.len() == cs@.len(),
            cs@ == s@,
            ts@ == t@,
            forall|j: int| 0 <= j < k ==> cs@[off + j] == ts@[j],
        decreases ts@.len() - k,
    {
        if cs[off + k] != ts[k] {
            proof {
                assert(s@.subrange(off as int, s@.len() as int)[k as int] != t@[k as int]);
            }
            return false;
        }
        k = k + 1;
    }
    proof {
        assert(s@.subrange(off as int, s@.len() as int) =~= t@);
    }
    true
}

/// A path relative to a directory, or `None` when it is not inside it.
pub fn strip_directory<'p>(path: &'p str, directory: &str) -> (r: Option<&'p str>)
    ensures
        match r {
            Some(rest) => spec_strip_directory(path@, directory@) == Some(rest@),
            None => spec_strip_directory(path@, directory@) is None,
        },
{
    let dlen = directory.unicode_len();
    if dlen == 0 {
        return Some(path);
    }
    let mut prefix = directory.to_owned();
    crate::text::push_char(&mut prefix, '/');
    if !begins_with(path, prefix.as_str()) {
        return None;
    }
    let plen = path.unicode_len();
    Some(path.substring_char(dlen + 1, plen))
}

/// Files that describe the repository or that beholder itself produced.
pub open spec fn spec_is_infrastructure(path: Seq<char>) -> bool {
    ||| path == ".gitignore"@
    ||| ends_with(path, "/.gitignore"@)
    ||| starts_with(path, ".git/"@)
    ||| path == "symbols.jsonl"@
    ||| path == "files.jsonl"@
}

/// Files that describe the repository or that beholder itself produced.
///
/// Indexing beholder's own output would make a second run over an unchanged
/// working tree report new files.
pub fn is_infrastructure(path: &str) -> (r: bool)
    ensures
        r == spec_is_infrastructure(path@),
{
    str_eq(path, ".gitignore") || finishes_with(path, "/.gitignore") || begins_with(path, ".git/") || str_eq(
        path,
        "symbols.jsonl",
    ) || str_eq(path, "files.jsonl")
}

/// A git tree entry's mode names a regular file: a blob, executable or not.
/// Symlinks and submodules are not source.
pub fn is_regular_mode(is_blob: bool, filemode: i32) -> (r: bool)
    ensures
        r == (is_blob && (filemode == 0o100644 || filemode == 0o100755)),
{
    is_blob && (filemode == 0o100644 || filemode == 0o100755)
}

/// Would `path` be analyzed under `config`, leaving `.gitignore` aside?
pub fn selects_by_config(config: &Config, path: &str) -> (r: bool)
    ensures
        r == (!spec_is_infrastructure(path@) && config.spec_extension_allowed(path@) && config.spec_path_allowed(path@)
            && config.spec_only_path_allowed(path@)),
{
    !is_infrastructure(path) && config.accepts(path)
}

/// `output` is `input` stably sorted by path, with `idx[k]` the position in
/// `input` of `output[k]`.
pub open spec fn sorted_by_path(input: Seq<SourceFile>, output: Seq<SourceFile>, idx: Seq<int>) -> bool {
    &&& output.len() == input.len()
    &&& idx.len() == input.len()
    &&& forall|k: int| 0 <= k < idx.len() ==> 0 <= #[trigger] idx[k] < input.len() && output[k] == input[idx[k]]
    &&& forall|k: int, l: int| 0 <= k < l < idx.len() ==> #[trigger] idx[k] != #[trigger] idx[l]
    &&& forall|k: int, l: int| 0 <= k < l < output.len() ==> !seq_lt((#[trigger] output[l]).path@, (#[trigger] output[k]).path@)
    &&& forall|k: int, l: int|
        0 <= k < l < output.len() && (#[trigger] output[k]).path@ == (#[trigger] output[l]).path@ ==> idx[k] < idx[l]
}

/// Deterministic order: by repo-relative path, equal paths kept in the order
/// they came.
pub fn sort_stably(files: Vec<SourceFile>) -> (r: Vec<SourceFile>)
    ensures
        exists|idx: Seq<int>| #[trigger] sorted_by_path(files@, r@, idx),
{
    let ghost input = files@;
    let mut rest = files;
    let mut out: Vec<SourceFile> = Vec::new();
    let ghost mut idx: Seq<int> = Seq::empty();
    let n = rest.len();
    let mut i: usize = 0;
    proof {
        assert(input.skip(0) =~= input);
    }
    while i < n
        invariant
            i <= n,
            n == input.len(),
            rest@ == input.skip(i as int),
            sorted_by_path(input.take(i as int), out@, idx),
        decreases n - i,
    {
        let x = rest.remove(0);
        proof {
            assert(x == input[i as int]);
            assert(rest@ =~= input.skip(i as int + 1));
        }
        let mut p: usize = 0;
        while p < out.len() && !str_lt(x.path.as_str(), out[p].path.as_str())
            invariant
                p <= out@.len(),
                forall|k: int| 0 <= k < p ==> !seq_lt(x.path@, (#[trigger] out@[k]).path@),
            decreases out@.len() - p,
        {
            p = p + 1;
        }
        let ghost old_out = out@;
        let ghost old_idx = idx;
        out.insert(p, x);
        proof {
            idx = old_idx.insert(p as int, i as int);
            lemma_insert_by_path(input, i as int, old_out, old_idx, out@, idx, p as int, x);
        }
        i = i + 1;
    }
    proof {
        assert(input.take(n as int) =~= input);
    }
    out
}

proof fn lemma_insert_by_path(
    input: Seq<SourceFile>,
    i: int,
    old_out: Seq<SourceFile>,
    old_idx: Seq<int>,
    out: Seq<SourceFile>,
    idx: Seq<int>,
    p: int,
    x: SourceFile,
)
    requires
        0 <= i < input.len(),
        x == input[i],
        sorted_by_path(input.take(i), old_out, old_idx),
        0 <= p <= old_out.len(),
        forall|k: int| 0 <= k < p ==> !seq_lt(x.path@, (#[trigger] old_out[k]).path@),
        p < old_out.len() ==> seq_lt(x.path@, old_out[p].path@),
        out == old_out.insert(p, x),
        idx == old_idx.insert(p, i),
    ensures
        sorted_by_path(input.take(i + 1), out, idx),
{
    let t = input.take(i + 1);
    assert forall|k: int| 0 <= k < idx.len() implies 0 <= #[trigger] idx[k] < t.len() && out[k] == t[idx[k]] by {
        if k < p {
            assert(idx[k] == old_idx[k] && out[k] == old_out[k]);
        } else if k > p {
            assert(idx[k] == old_idx[k - 1] && out[k] == old_out[k - 1]);
        }
    }
    assert forall|k: int, l: int| 0 <= k < l < idx.len() implies #[trigger] idx[k] != #[trigger] idx[l] by {
        if k < p && l < p {
            assert(idx[k] == old_idx[k] && idx[l] == old_idx[l]);
        } else if k < p && l == p {
            assert(idx[k] == old_idx[k]);
        } else if k < p {
            assert(idx[k] == old_idx[k] && idx[l] == old_idx[l - 1]);
        } else if k == p {
            assert(idx[l] == old_idx[l - 1]);
        } else {
            assert(idx[k] == old_idx[k - 1] && idx[l] == old_idx[l - 1]);
        }
    }
    assert forall|m: int| p <= m < old_out.len() implies seq_lt(x.path@, (#[trigger] old_out[m]).path@) by {
        if m > p {
            assert(!seq_lt(old_out[m].path@, old_out[p].path@));
            lemma_seq_lt_total(old_out[m].path@, old_out[p].path@);
            if seq_lt(old_out[p].path@, old_out[m].path@) {
                lemma_seq_lt_transitive(x.path@, old_out[p].path@, old_out[m].path@);
            }
        }
    }
    assert forall|k: int, l: int| 0 <= k < l < out.len() implies !seq_lt(
        (#[trigger] out[l]).path@,
        (#[trigger] out[k]).path@,
    ) by {
        if k < p && l < p {
            assert(out[k] == old_out[k] && out[l] == old_out[l]);
        } else if k < p && l == p {
            assert(out[k] == old_out[k]);
        } else if k < p {
            assert(out[k] == old_out[k] && out[l] == old_out[l - 1]);
            lemma_seq_lt_total(out[l].path@, out[k].path@);
            if seq_lt(out[l].path@, out[k].path@) {
                assert(seq_lt(x.path@, old_out[l - 1].path@));
                lemma_seq_lt_transitive(x.path@, out[l].path@, out[k].path@);
            }
        } else if k == p {
            assert(out[l] == old_out[l - 1]);
            assert(seq_lt(x.path@, old_out[l - 1].path@));
            if seq_lt(out[l].path@, x.path@) {
                lemma_seq_lt_transitive(x.path@, out[l].path@, x.path@);
                lemma_seq_lt_irreflexive(x.path@);
            }
        } else {
            assert(out[k] == old_out[k - 1] && out[l] == old_out[l - 1]);
        }
    }
    assert forall|k: int, l: int|
        0 <= k < l < out.len() && (#[trigger] out[k]).path@ == (#[trigger] out[l]).path@ implies idx[k] < idx[l] by {
        if k < p && l < p {
            assert(out[k] == old_out[k] && out[l] == old_out[l]);
            assert(idx[k] == old_idx[k] && idx[l] == old_idx[l]);
        } else if k < p && l == p {
            assert(idx[k] == old_idx[k]);
        } else if k < p {
            assert(out[k] == old_out[k] && out[l] == old_out[l - 1]);
            assert(idx[k] == old_idx[k] && idx[l] == old_idx[l - 1]);
        } else if k == p {
            assert(out[l] == old_out[l - 1]);
            assert(seq_lt(x.path@, old_out[l - 1].path@));
            lemma_seq_lt_irreflexive(x.path@);
        } else {
            assert(out[k] == old_out[k - 1] && out[l] == old_out[l - 1]);
            assert(idx[k] == old_idx[k - 1] && idx[l] == old_idx[l - 1]);
        }
    }
}

/// The content address of a file's text.
pub open spec fn text_hash(contents: Seq<char>) -> Seq<char> {
    hex_lower(sha256(blob_header(encode_utf8(contents).len()) + encode_utf8(contents)))
}

/// The contents of the last file with path `path`, if any.
pub open spec fn last_contents(files: Seq<SourceFile>, path: Seq<char>) -> Option<Seq<char>>
    decreases files.len(),
{
    if files.len() == 0 {
        None
    } else if files.last().path@ == path {
        Some(files.last().contents@)
    } else {
        last_contents(files.drop_last(), path)
    }
}

/// `m` maps each path of `files`, ascending, to the content address of the
/// last file with that path.
pub open spec fn is_manifest_of(m: Seq<(String, String)>, files: Seq<SourceFile>) -> bool {
    &&& sorted_strict(keys(m))
    &&& forall|y: Seq<char>|
        #[trigger] contains_view(keys(m), y) <==> last_contents(files, y) is Some
    &&& forall|i: int| 0 <= i < m.len() ==> last_contents(files, (#[trigger] m[i]).0@) == Some(
        last_contents(files, m[i].0@)->0,
    ) && m[i].1@ == text_hash(last_contents(files, m[i].0@)->0)
}

/// Path to content address for every file, ascending by path.
pub fn manifest_of(files: &Vec<SourceFile>) -> (r: Vec<(String, String)>)
    ensures
        is_manifest_of(r@, files@),
{
    let mut m: Vec<(String, String)> = Vec::new();
    let n = files.len();
    let mut i: usize = 0;
    while i < n
        invariant
            i <= n,
            n == files@.len(),
            is_manifest_of(m@, files@.take(i as int)),
        decreases n - i,
    {
        let file = &files[i];
        let hash = content_hash(file.contents.as_str().as_bytes());
        proof {
            let t = files@.take(i + 1);
            assert(t.drop_last() =~= files@.take(i as int));
            assert(t.last() == *file);
        }
        upsert(&mut m, file.path.as_str(), hash, Ghost(files@.take(i as int)), Ghost(files@.take(i + 1)));
        i = i + 1;
    }
    proof {
        assert(files@.take(n as int) =~= files@);
    }
    m
}

/// Record `hash` for `path`, replacing any earlier entry for it.
fn upsert(
    m: &mut Vec<(String, String)>,
    path: &str,
    hash: String,
    Ghost(before): Ghost<Seq<SourceFile>>,
    Ghost(after): Ghost<Seq<SourceFile>>,
)
    requires
        is_manifest_of(old(m)@, before),
        after.len() == before.len() + 1,
        after.drop_last() == before,
        after.last().path@ == path@,
        hash@ == text_hash(after.last().contents@),
    ensures
        is_manifest_of(final(m)@, after),
{
    let ghost ks = keys(old(m)@);
    let n = m.len();
    let mut p: usize = 0;
    while p < n && str_lt(m[p].0.as_str(), path)
        invariant
            p <= n,
            n == m@.len(),
            m@ == old(m)@,
            forall|k: int| 0 <= k < p ==> seq_lt((#[trigger] m@[k]).0@, path@),
        decreases n - p,
    {
        p = p + 1;
    }
    let ghost old_m = m@;
    if p < n && str_eq(m[p].0.as_str(), path) {
        let key = m[p].0.clone();
        m.set(p, (key, hash));
        proof {
            let nk = keys(m@);
            assert(nk =~= ks);
            assert forall|i: int| 0 <= i < m@.len() implies last_contents(after, (#[trigger] m@[i]).0@) == Some(
                last_contents(after, m@[i].0@)->0,
            ) && m@[i].1@ == text_hash(last_contents(after, m@[i].0@)->0) by {
                if i != p {
                    assert(m@[i] == old_m[i]);
                    assert(ks[i] != path@) by {
                        lemma_seq_lt_irreflexive(path@);
                        if i < p {
                        } else {
                            assert(seq_lt(ks[p as int], ks[i]));
                        }
                    }
                }
            }
            assert forall|y: Seq<char>| #[trigger] contains_view(nk, y) <==> last_contents(after, y) is Some by {
                if y == path@ {
                    assert(nk[p as int] == y);
                }
            }
        }
    } else {
        let ghost ok = p < n ==> !seq_lt(old_m[p as int].0@, path@);
        proof {
            if p < n {
                lemma_seq_lt_total(old_m[p as int].0@, path@);
                assert(seq_lt(path@, old_m[p as int].0@));
            }
        }
        m.insert(p, (path.to_owned(), hash));
        proof {
            let nk = keys(m@);
            assert(nk =~= ks.insert(p as int, path@));
            assert forall|a: int, b: int| 0 <= a < b < nk.len() implies seq_lt(#[trigger] nk[a], #[trigger] nk[b]) by {
                if a < p && b < p {
                } else if a < p && b == p {
                    assert(nk[a] == ks[a]);
                } else if a < p {
                    assert(nk[a] == ks[a] && nk[b] == ks[b - 1]);
                } else if a == p {
                    assert(nk[b] == ks[b - 1]);
                    if b - 1 > p {
                        lemma_seq_lt_transitive(path@, ks[p as int], ks[b - 1]);
                    }
                } else {
                    assert(nk[a] == ks[a - 1] && nk[b] == ks[b - 1]);
                }
            }
            assert(!contains_view(ks, path@)) by {
                if contains_view(ks, path@) {
                    let k = choose|k: int| 0 <= k < ks.len() && #[trigger] ks[k] == path@;
                    lemma_seq_lt_irreflexive(path@);
                    if k >= p {
                        if k > p {
                            lemma_seq_lt_transitive(path@, ks[p as int], ks[k]);
                        }
                    }
                }
            }
            assert forall|y: Seq<char>| #[trigger] contains_view(nk, y) <==> last_contents(after, y) is Some by {
                if y == path@ {
                    assert(nk[p as int] == y);
                } else {
                    if contains_view(nk, y) {
                        let k = choose|k: int| 0 <= k < nk.len() && #[trigger] nk[k] == y;
                        if k < p {
                            assert(ks[k] == y);
                        } else {
                            assert(ks[k - 1] == y);
                        }
                    }
                    if contains_view(ks, y) {
                        let k = choose|k: int| 0 <= k < ks.len() && #[trigger] ks[k] == y;
                        if k < p {
                            assert(nk[k] == y);
                        } else {
                            assert(nk[k + 1] == y);
                        }
                    }
                }
            }
            assert forall|i: int| 0 <= i < m@.len() implies last_contents(after, (#[trigger] m@[i]).0@) == Some(
                last_contents(after, m@[i].0@)->0,
            ) && m@[i].1@ == text_hash(last_contents(after, m@[i].0@)->0) by {
                if i < p {
                    assert(m@[i] == old_m[i]);
                } else if i > p {
                    assert(m@[i] == old_m[i - 1]);
                    assert(ks[i - 1] != path@);
                }
            }
        }
    }
}

/// What one `.gitignore` says of a path.
#[derive(Debug, Clone, Copy, PartialEq, Eq, Structural)]
pub enum IgnoreVerdict {
    /// No pattern matched.
    Unmatched,
    /// The deciding pattern ignores the path.
    Ignore,
    /// The deciding pattern re-includes the path.
    Whitelist,
}

/// Whether the path is ignored after the first `k` verdicts, shallowest
/// first: the last verdict that matched decides.
pub open spec fn ignored_after(verdicts: Seq<IgnoreVerdict>, k: int) -> bool
    decreases k,
{
    if k <= 0 {
        false
    } else {
        match verdicts[k - 1] {
            IgnoreVerdict::Ignore => true,
            IgnoreVerdict::Whitelist => false,
            IgnoreVerdict::Unmatched => ignored_after(verdicts, k - 1),
        }
    }
}

/// Deepest applicable `.gitignore` wins, as git resolves it, so a nested
/// negation can re-include what a shallower rule excluded. `verdicts` holds
/// what each applicable `.gitignore` says of the path, shallowest first.
pub fn ignored_by(verdicts: &Vec<IgnoreVerdict>) -> (r: bool)
    ensures
        r == ignored_after(verdicts@, verdicts@.len() as int),
{
    let mut ignored = false;
    let mut i: usize = 0;
    while i < verdicts.len()
        invariant
            i <= verdicts@.len(),
            ignored == ignored_after(verdicts@, i as int),
        decreases verdicts@.len() - i,
    {
        match verdicts[i] {
            IgnoreVerdict::Ignore => ignored = true,
            IgnoreVerdict::Whitelist => ignored = false,
            IgnoreVerdict::Unmatched => {},
        }
        i = i + 1;
    }
    ignored
}

} // verus!
