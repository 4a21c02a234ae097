//! When a stored analysis may be reused.
//!
//! Nothing stored is authoritative. A stored result is reused only after its
//! header agrees on the source commit, schema version, tool version, analysis
//! configuration, language table and path rules, and only when its payload
//! covers exactly the files of the source, each analyzed from the content that
//! is actually there.

use crate::analysis::{is_repo_relative, spec_is_repo_relative, Fingerprint};
use crate::delta::last_hash;
use crate::order::{contains_view, insert_sorted, sorted_strict, str_eq, views};
use crate::text::{decimal, push_decimal, push_str};
use vstd::prelude::*;

verus! {

/// The ref beholder writes by default.
pub const DEFAULT_REF: &'static str = "refs/beholder/index";

/// Refspec that moves beholder's results through ordinary fetch and push.
pub const REFSPEC: &'static str = "+refs/beholder/*:refs/beholder/*";

/// The header of an index commit.
pub struct Meta {
    pub fingerprint: Fingerprint,
    /// Hex id of the analyzed source commit.
    pub source_commit: String,
}

/// Why a stored result could not be reused.
#[allow(inconsistent_fields)]
pub enum Invalid {
    SourceCommit { expected: String, found: String },
    SchemaVersion { expected: u32, found: u32 },
    ToolVersion { expected: String, found: String },
    Config,
    LanguageTable,
    PathRules { found: String },
    Path { path: String },
    /// The stored analysis covers a different set of files than the source.
    FileSet { missing: Vec<String>, extra: Vec<String> },
    /// A stored file's content hash does not match the source blob.
    ContentHash { path: String },
}

/// The first header field on which `stored` and `expected` disagree, as the
/// refusal it gives; `None` when they agree.
pub open spec fn fingerprint_refusal(stored: Fingerprint, expected: Fingerprint, r: Option<Invalid>) -> bool {
    if stored.schema_version != expected.schema_version {
        r matches Some(Invalid::SchemaVersion { expected: e, found: f }) && e == expected.schema_version && f
            == stored.schema_version
    } else if stored.tool_version@ != expected.tool_version@ {
        r matches Some(Invalid::ToolVersion { expected: e, found: f }) && e@ == expected.tool_version@ && f@
            == stored.tool_version@
    } else if stored.config@ != expected.config@ {
        r matches Some(Invalid::Config)
    } else if stored.language_table@ != expected.language_table@ {
        r matches Some(Invalid::LanguageTable)
    } else if stored.path_rules@ != expected.path_rules@ {
        r matches Some(Invalid::PathRules { found: f }) && f@ == stored.path_rules@
    } else {
        r is None
    }
}

/// The outcome of a check, as an optional refusal.
pub open spec fn refusal_of(r: Result<(), Invalid>) -> Option<Invalid> {
    match r {
        Ok(_) => None,
        Err(e) => Some(e),
    }
}

impl Meta {
    /// Check every rule that must hold before a stored result may be reused:
    /// the source commit, given as hex, then the fingerprint.
    pub fn validate(&self, source_commit: &str, expected: &Fingerprint) -> (r: Result<(), Invalid>)
        ensures
            if self.source_commit@ != source_commit@ {
                r matches Err(Invalid::SourceCommit { expected: e, found: f }) && e@ == source_commit@ && f@
                    == self.source_commit@
            } else {
                fingerprint_refusal(self.fingerprint, *expected, refusal_of(r))
            },
    {
        if !str_eq(self.source_commit.as_str(), source_commit) {
            return Err(
                Invalid::SourceCommit { expected: source_commit.to_owned(), found: self.source_commit.clone() },
            );
        }
        self.validate_fingerprint(expected)
    }

    /// The part of validation that does not depend on which source commit
    /// is being asked about.
    pub fn validate_fingerprint(&self, expected: &Fingerprint) -> (r: Result<(), Invalid>)
        ensures
            fingerprint_refusal(self.fingerprint, *expected, refusal_of(r)),
    {
        let stored = &self.fingerprint;
        if stored.schema_version != expected.schema_version {
            return Err(
                Invalid::SchemaVersion { expected: expected.schema_version, found: stored.schema_version },
            );
        }
        if !str_eq(stored.tool_version.as_str(), expected.tool_version.as_str()) {
            return Err(
                Invalid::ToolVersion {
                    expected: expected.tool_version.clone(),
                    found: stored.tool_version.clone(),
                },
            );
        }
        if !str_eq(stored.config.as_str(), expected.config.as_str()) {
            return Err(Invalid::Config);
        }
        if !str_eq(stored.language_table.as_str(), expected.language_table.as_str()) {
            return Err(Invalid::LanguageTable);
        }
        if !str_eq(stored.path_rules.as_str(), expected.path_rules.as_str()) {
            return Err(Invalid::PathRules { found: stored.path_rules.clone() });
        }
        Ok(())
    }
}

/// The keys of a list of pairs.
pub open spec fn keys(ps: Seq<(String, String)>) -> Seq<Seq<char>> {
    ps.map_values(|p: (String, String)| p.0@)
}

/// The keys of `manifest` that `files` does not cover, in manifest order.
pub open spec fn missing_keys(manifest: Seq<(String, String)>, files: Seq<(String, String)>) -> Seq<Seq<char>>
    decreases manifest.len(),
{
    if manifest.len() == 0 {
        Seq::empty()
    } else {
        let rest = missing_keys(manifest.drop_last(), files);
        if contains_view(keys(files), manifest.last().0@) {
            rest
        } else {
            rest.push(manifest.last().0@)
        }
    }
}

/// Every stored path is repo-relative.
pub open spec fn paths_repo_relative(files: Seq<(String, String)>) -> bool {
    forall|i: int| 0 <= i < files.len() ==> spec_is_repo_relative(#[trigger] files[i].0@)
}

/// Every manifest entry is stored with its hash.
pub open spec fn hashes_match(manifest: Seq<(String, String)>, files: Seq<(String, String)>) -> bool {
    forall|i: int| 0 <= i < manifest.len() ==> last_hash(files, #[trigger] manifest[i].0@) == Some(manifest[i].1@)
}

/// `extra` lists, ascending, the stored paths that the manifest lacks.
pub open spec fn is_extra(extra: Seq<Seq<char>>, files: Seq<(String, String)>, manifest: Seq<(String, String)>) -> bool {
    &&& sorted_strict(extra)
    &&& forall|y: Seq<char>|
        #[trigger] contains_view(extra, y) <==> (contains_view(keys(files), y) && !contains_view(keys(manifest), y))
}

/// A stored payload that may stand for the manifest: every stored path is
/// repo-relative, the stored paths and the manifest paths are the same set,
/// and every manifest entry is stored with its hash.
pub open spec fn payload_valid(files: Seq<(String, String)>, manifest: Seq<(String, String)>) -> bool {
    &&& paths_repo_relative(files)
    &&& forall|y: Seq<char>|
        #![trigger contains_view(keys(files), y)]
        #![trigger contains_view(keys(manifest), y)]
        contains_view(keys(files), y) <==> contains_view(keys(manifest), y)
    &&& hashes_match(manifest, files)
}

/// No manifest key is missing exactly when each is stored.
proof fn lemma_missing_keys_empty(manifest: Seq<(String, String)>, files: Seq<(String, String)>)
    ensures
        missing_keys(manifest, files).len() == 0 <==> forall|i: int|
            0 <= i < manifest.len() ==> contains_view(keys(files), #[trigger] manifest[i].0@),
    decreases manifest.len(),
{
    if manifest.len() > 0 {
        let init = manifest.drop_last();
        lemma_missing_keys_empty(init, files);
        if missing_keys(manifest, files).len() == 0 {
            assert forall|i: int| 0 <= i < manifest.len() implies contains_view(
                keys(files),
                #[trigger] manifest[i].0@,
            ) by {
                if i < manifest.len() - 1 {
                    assert(init[i] == manifest[i]);
                }
            }
        } else if forall|i: int| 0 <= i < manifest.len() ==> contains_view(keys(files), #[trigger] manifest[i].0@) {
            assert(contains_view(keys(files), manifest[manifest.len() - 1].0@));
            assert forall|i: int| 0 <= i < init.len() implies contains_view(keys(files), #[trigger] init[i].0@) by {
                assert(init[i] == manifest[i]);
            }
        }
    }
}

/// Is `x` one of the keys of `ps`?
fn has_key(ps: &Vec<(String, String)>, x: &str) -> (r: bool)
    ensures
        r == contains_view(keys(ps@), x@),
{
    let n = ps.len();
    let mut i: usize = 0;
    while i < n
        invariant
            i <= n,
            n == ps@.len(),
            forall|k: int| 0 <= k < i ==> (#[trigger] ps@[k]).0@ != x@,
        decreases n - i,
    {
        if str_eq(ps[i].0.as_str(), x) {
            proof {
                assert(keys(ps@)[i as int] == x@);
            }
            return true;
        }
        i = i + 1;
    }
    proof {
        if contains_view(keys(ps@), x@) {
            let k = choose|k: int| 0 <= k < keys(ps@).len() && #[trigger] keys(ps@)[k] == x@;
            assert(ps@[k].0@ == x@);
        }
    }
    false
}

/// Check a stored analysis, given as the path and content hash of each stored
/// file, against the manifest of the source it claims to describe, given as
/// path and blob hash ascending by path.
///
/// Refused, in this order: the first stored path that is not repo-relative;
/// a different file set, with the missing manifest paths in manifest order
/// and the unexpected stored paths ascending; the first manifest path whose
/// stored hash differs.
pub fn validate_payload(files: &Vec<(String, String)>, manifest: &Vec<(String, String)>) -> (r: Result<(), Invalid>)
    ensures
        match r {
            Ok(_) => {
                &&& paths_repo_relative(files@)
                &&& missing_keys(manifest@, files@).len() == 0
                &&& forall|y: Seq<char>|
                    contains_view(keys(files@), y) ==> #[trigger] contains_view(keys(manifest@), y)
                &&& hashes_match(manifest@, files@)
            },
            Err(Invalid::Path { path }) => exists|i: int|
                0 <= i < files@.len() && #[trigger] files@[i].0@ == path@ && !spec_is_repo_relative(path@)
                    && forall|k: int| 0 <= k < i ==> spec_is_repo_relative(#[trigger] files@[k].0@),
            Err(Invalid::FileSet { missing, extra }) => {
                &&& paths_repo_relative(files@)
                &&& views(missing@) == missing_keys(manifest@, files@)
                &&& is_extra(views(extra@), files@, manifest@)
                &&& (missing@.len() > 0 || extra@.len() > 0)
            },
            Err(Invalid::ContentHash { path }) => {
                &&& paths_repo_relative(files@)
                &&& missing_keys(manifest@, files@).len() == 0
                &&& forall|y: Seq<char>|
                    contains_view(keys(files@), y) ==> #[trigger] contains_view(keys(manifest@), y)
                &&& exists|i: int|
                    0 <= i < manifest@.len() && #[trigger] manifest@[i].0@ == path@ && last_hash(files@, path@)
                        != Some(manifest@[i].1@) && forall|k: int|
                        0 <= k < i ==> last_hash(files@, #[trigger] manifest@[k].0@) == Some(manifest@[k].1@)
            },
            Err(_) => false,
        },
        r is Ok <==> payload_valid(files@, manifest@),
{
    proof {
        lemma_missing_keys_empty(manifest@, files@);
    }
    let nf = files.len();
    let mut i: usize = 0;
    while i < nf
        invariant
            i <= nf,
            nf == files@.len(),
            forall|k: int| 0 <= k < i ==> spec_is_repo_relative(#[trigger] files@[k].0@),
        decreases nf - i,
    {
        if !is_repo_relative(files[i].0.as_str()) {
            return Err(Invalid::Path { path: files[i].0.clone() });
        }
        i = i + 1;
    }
    let nm = manifest.len();
    let mut missing: Vec<String> = Vec::new();
    let mut j: usize = 0;
    while j < nm
        invariant
            j <= nm,
            nm == manifest@.len(),
            views(missing@) == missing_keys(manifest@.take(j as int), files@),
        decreases nm - j,
    {
        proof {
            let t = manifest@.take(j + 1);
            assert(t.drop_last() =~= manifest@.take(j as int));
            assert(t.last() == manifest@[j as int]);
        }
        if !has_key(files, manifest[j].0.as_str()) {
            let ghost before = views(missing@);
            let key = manifest[j].0.clone();
            missing.push(key);
            proof {
                assert(views(missing@) =~= before.push(manifest@[j as int].0@));
            }
        }
        j = j + 1;
    }
    proof {
        assert(manifest@.take(nm as int) =~= manifest@);
    }
    let mut extra: Vec<String> = Vec::new();
    let mut k: usize = 0;
    while k < nf
        invariant
            k <= nf,
            nf == files@.len(),
            sorted_strict(views(extra@)),
            forall|y: Seq<char>|
                #[trigger] contains_view(views(extra@), y) <==> (exists|m: int|
                    0 <= m < k && #[trigger] files@[m].0@ == y) && !contains_view(keys(manifest@), y),
        decreases nf - k,
    {
        let path = files[k].0.as_str();
        if !has_key(manifest, path) {
            insert_sorted(&mut extra, path);
        }
        proof {
            assert forall|y: Seq<char>| #[trigger] contains_view(views(extra@), y) <==> (exists|m: int|
                0 <= m < k + 1 && #[trigger] files@[m].0@ == y) && !contains_view(keys(manifest@), y) by {
                if y == path@ {
                    assert(files@[k as int].0@ == y);
                }
            }
        }
        k = k + 1;
    }
    proof {
        assert forall|y: Seq<char>| #[trigger] contains_view(views(extra@), y) <==> (contains_view(keys(files@), y)
            && !contains_view(keys(manifest@), y)) by {
            if contains_view(keys(files@), y) {
                let m = choose|m: int| 0 <= m < keys(files@).len() && #[trigger] keys(files@)[m] == y;
                assert(files@[m].0@ == y);
            }
            if exists|m: int| 0 <= m < nf && #[trigger] files@[m].0@ == y {
                let m = choose|m: int| 0 <= m < nf && #[trigger] files@[m].0@ == y;
                assert(keys(files@)[m] == y);
            }
        }
    }
    if missing.len() > 0 || extra.len() > 0 {
        proof {
            if missing@.len() > 0 {
                let i = choose|i: int|
                    0 <= i < manifest@.len() && !contains_view(keys(files@), #[trigger] manifest@[i].0@);
                assert(keys(manifest@)[i] == manifest@[i].0@);
            } else {
                assert(views(extra@)[0] == extra@[0]@);
                assert(contains_view(views(extra@), extra@[0]@));
            }
        }
        return Err(Invalid::FileSet { missing, extra });
    }
    proof {
        assert forall|y: Seq<char>| contains_view(keys(files@), y) implies #[trigger] contains_view(keys(manifest@), y) by {
            if !contains_view(keys(manifest@), y) {
                assert(contains_view(views(extra@), y));
                let m = choose|m: int| 0 <= m < views(extra@).len() && #[trigger] views(extra@)[m] == y;
            }
        }
    }
    let mut m: usize = 0;
    while m < nm
        invariant
            m <= nm,
            nm == manifest@.len(),
            paths_repo_relative(files@),
            missing_keys(manifest@, files@).len() == 0,
            forall|y: Seq<char>| contains_view(keys(files@), y) ==> #[trigger] contains_view(keys(manifest@), y),
            forall|q: int| 0 <= q < m ==> last_hash(files@, #[trigger] manifest@[q].0@) == Some(manifest@[q].1@),
        decreases nm - m,
    {
        let path = manifest[m].0.as_str();
        let same = match crate::delta::last_hash_of(files, path) {
            Some(h) => str_eq(h, manifest[m].1.as_str()),
            None => false,
        };
        if !same {
            return Err(Invalid::ContentHash { path: manifest[m].0.clone() });
        }
        m = m + 1;
    }
    proof {
        assert forall|y: Seq<char>| contains_view(keys(manifest@), y) implies contains_view(keys(files@), y) by {
            let i = choose|i: int| 0 <= i < keys(manifest@).len() && #[trigger] keys(manifest@)[i] == y;
            assert(manifest@[i].0@ == y);
        }
    }
    Ok(())
}


impl Invalid {
    /// What the refusal says.
    pub open spec fn spec_message(&self) -> Seq<char> {
        match self {
            Invalid::SourceCommit { expected, found } => "stored analysis is of "@ + found@ + ", not "@ + expected@,
            Invalid::SchemaVersion { expected, found } => "stored schema version "@ + decimal(*found as nat)
                + ", expected "@ + decimal(*expected as nat),
            Invalid::ToolVersion { expected, found } => "stored by beholder "@ + found@ + ", running "@ + expected@,
            Invalid::Config => "stored under a different analysis configuration"@,
            Invalid::LanguageTable => "stored under a different language table"@,
            Invalid::PathRules { found } => "stored under path rules "@ + found@,
            Invalid::Path { path } => "stored path "@ + path@ + " is not repo-relative"@,
            Invalid::FileSet { missing, extra } => "stored analysis covers a different file set: "@ + decimal(
                missing@.len(),
            ) + " missing, "@ + decimal(extra@.len()) + " unexpected"@,
            Invalid::ContentHash { path } => "stored result for "@ + path@ + " was computed from other content"@,
        }
    }

    /// What the refusal says.
    pub fn message(&self) -> (r: String)
        ensures
            r@ == self.spec_message(),
    {
        let mut out = String::new();
        match self {
            Invalid::SourceCommit { expected, found } => {
                push_str(&mut out, "stored analysis is of ");
                push_str(&mut out, found.as_str());
                push_str(&mut out, ", not ");
                push_str(&mut out, expected.as_str());
            },
            Invalid::SchemaVersion { expected, found } => {
                push_str(&mut out, "stored schema version ");
                push_decimal(&mut out, *found as usize);
                push_str(&mut out, ", expected ");
                push_decimal(&mut out, *expected as usize);
            },
            Invalid::ToolVersion { expected, found } => {
                push_str(&mut out, "stored by beholder ");
                push_str(&mut out, found.as_str());
                push_str(&mut out, ", running ");
                push_str(&mut out, expected.as_str());
            },
            Invalid::Config => {
                push_str(&mut out, "stored under a different analysis configuration");
            },
            Invalid::LanguageTable => {
                push_str(&mut out, "stored under a different language table");
            },
            Invalid::PathRules { found } => {
                push_str(&mut out, "stored under path rules ");
                push_str(&mut out, found.as_str());
            },
            Invalid::Path { path } => {
                push_str(&mut out, "stored path ");
                push_str(&mut out, path.as_str());
                push_str(&mut out, " is not repo-relative");
            },
            Invalid::FileSet { missing, extra } => {
                push_str(&mut out, "stored analysis covers a different file set: ");
                push_decimal(&mut out, missing.len());
                push_str(&mut out, " missing, ");
                push_decimal(&mut out, extra.len());
                push_str(&mut out, " unexpected");
            },
            Invalid::ContentHash { path } => {
                push_str(&mut out, "stored result for ");
                push_str(&mut out, path.as_str());
                push_str(&mut out, " was computed from other content");
            },
        }
        proof {
            assert(out@ =~= self.spec_message());
        }
        out
    }
}

} // verus!
