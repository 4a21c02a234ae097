//! Analysis configuration.
//!
//! Configuration is part of the analysis fingerprint: a stored phase result is
//! only reusable when it was produced under the same configuration, so the
//! lists are kept sorted and free of duplicates.

use crate::order::{contains_view, insert_sorted, lemma_sorted_same_members, sorted_strict, views};
use crate::text::{contains_sub, str_contains};
use vstd::prelude::*;

verus! {

/// File name looked up at the repository root.
pub const CONFIG_FILE: &'static str = "beholder.toml";

/// The extension of a path: what `std::path::Path::extension` gives, as text.
pub uninterp spec fn path_extension(path: Seq<char>) -> Option<Seq<char>>;

/// The extension of the last component of `path`, without the leading dot.
///
/// Calls `std::path::Path::extension`. Its documentation says the extension
/// is the part of the file name after its final `.`, so it holds neither a
/// `.` nor a `/`; which paths have one is left to the named result.
#[verifier::external_body]
pub(crate) fn extension_of(path: &str) -> (r: Option<&str>)
    ensures
        match r {
            Some(e) => path_extension(path@) == Some(e@) && !e@.contains('.') && !e@.contains('/'),
            None => path_extension(path@) is None,
        },
{
    std::path::Path::new(path).extension().and_then(|e| e.to_str())
}

/// Configured ignores, layered on top of `.gitignore`.
pub struct Config {
    /// File extensions to skip, without the leading dot.
    pub ignored_extensions: Vec<String>,
    /// Substrings of repo-relative paths to skip.
    pub ignored_paths: Vec<String>,
    /// When non-empty, only repo-relative paths containing one of these
    /// substrings are analyzed.
    pub only_paths: Vec<String>,
}

/// Some entry of `list` occurs in `path`.
pub open spec fn mentions_any(path: Seq<char>, list: Seq<String>) -> bool {
    exists|i: int| 0 <= i < list.len() && contains_sub(path, #[trigger] list[i]@)
}

impl Config {
    /// The extension of `path` is not an ignored one.
    pub open spec fn spec_extension_allowed(&self, path: Seq<char>) -> bool {
        match path_extension(path) {
            Some(e) => !contains_view(views(self.ignored_extensions@), e),
            None => true,
        }
    }

    /// `path` holds no ignored path fragment.
    pub open spec fn spec_path_allowed(&self, path: Seq<char>) -> bool {
        !mentions_any(path, self.ignored_paths@)
    }

    /// No restriction is configured, or `path` holds one of the allowed fragments.
    pub open spec fn spec_only_path_allowed(&self, path: Seq<char>) -> bool {
        self.only_paths@.len() == 0 || mentions_any(path, self.only_paths@)
    }

    /// Every list is strictly ascending.
    pub open spec fn is_normal(&self) -> bool {
        &&& sorted_strict(views(self.ignored_extensions@))
        &&& sorted_strict(views(self.ignored_paths@))
        &&& sorted_strict(views(self.only_paths@))
    }

    /// `self` and `other` list the same entries, in whatever order.
    pub open spec fn same_entries(&self, other: &Config) -> bool {
        &&& forall|y: Seq<char>|
            #[trigger] contains_view(views(self.ignored_extensions@), y) <==> contains_view(
                views(other.ignored_extensions@),
                y,
            )
        &&& forall|y: Seq<char>|
            #[trigger] contains_view(views(self.ignored_paths@), y) <==> contains_view(views(other.ignored_paths@), y)
        &&& forall|y: Seq<char>|
            #[trigger] contains_view(views(self.only_paths@), y) <==> contains_view(views(other.only_paths@), y)
    }

    /// Sort and dedupe so the fingerprint does not depend on authoring order.
    pub fn normalize(&mut self)
        ensures
            final(self).is_normal(),
            forall|y: Seq<char>|
                #[trigger] contains_view(views(final(self).ignored_extensions@), y) <==> contains_view(
                    views(old(self).ignored_extensions@),
                    y,
                ),
            forall|y: Seq<char>|
                #[trigger] contains_view(views(final(self).ignored_paths@), y) <==> contains_view(
                    views(old(self).ignored_paths@),
                    y,
                ),
            forall|y: Seq<char>|
                #[trigger] contains_view(views(final(self).only_paths@), y) <==> contains_view(
                    views(old(self).only_paths@),
                    y,
                ),
    {
        self.ignored_extensions = sorted_distinct(&self.ignored_extensions);
        self.ignored_paths = sorted_distinct(&self.ignored_paths);
        self.only_paths = sorted_distinct(&self.only_paths);
    }

    /// Should this repo-relative path be analyzed?
    pub fn accepts(&self, path: &str) -> (r: bool)
        ensures
            r == (self.spec_extension_allowed(path@) && self.spec_path_allowed(path@)
                && self.spec_only_path_allowed(path@)),
    {
        self.extension_allowed(path) && self.path_allowed(path) && self.only_path_allowed(path)
    }

    fn extension_allowed(&self, path: &str) -> (r: bool)
        ensures
            r == self.spec_extension_allowed(path@),
    {
        match extension_of(path) {
            Some(ext) => !contains_str(&self.ignored_extensions, ext),
            None => true,
        }
    }

    fn path_allowed(&self, path: &str) -> (r: bool)
        ensures
            r == self.spec_path_allowed(path@),
    {
        !any_occurs(&self.ignored_paths, path)
    }

    fn only_path_allowed(&self, path: &str) -> (r: bool)
        ensures
            r == self.spec_only_path_allowed(path@),
    {
        self.only_paths.len() == 0 || any_occurs(&self.only_paths, path)
    }
}

impl Default for Config {
    /// A configuration that ignores nothing.
    fn default() -> (r: Config)
        ensures
            r.ignored_extensions@.len() == 0,
            r.ignored_paths@.len() == 0,
            r.only_paths@.len() == 0,
    {
        Config { ignored_extensions: Vec::new(), ignored_paths: Vec::new(), only_paths: Vec::new() }
    }
}

/// Does some entry of `list` occur in `path`?
fn any_occurs(list: &Vec<String>, path: &str) -> (r: bool)
    ensures
        r == mentions_any(path@, list@),
{
    let n = list.len();
    let mut i: usize = 0;
    while i < n
        invariant
            i <= n,
            n == list@.len(),
            forall|k: int| 0 <= k < i ==> !contains_sub(path@, #[trigger] list@[k]@),
        decreases n - i,
    {
        if str_contains(path, list[i].as_str()) {
            return true;
        }
        i = i + 1;
    }
    false
}

/// Is `x` one of `v`?
fn contains_str(v: &Vec<String>, x: &str) -> (r: bool)
    ensures
        r == contains_view(views(v@), x@),
{
    let n = v.len();
    let mut i: usize = 0;
    while i < n
        invariant
            i <= n,
            n == v@.len(),
            forall|k: int| 0 <= k < i ==> (#[trigger] v@[k])@ != x@,
        decreases n - i,
    {
        if crate::order::str_eq(v[i].as_str(), x) {
            proof {
                assert(views(v@)[i as int] == x@);
            }
            return true;
        }
        i = i + 1;
    }
    proof {
        if contains_view(views(v@), x@) {
            let k = choose|k: int| 0 <= k < views(v@).len() && #[trigger] views(v@)[k] == x@;
            assert(v@[k]@ == x@);
        }
    }
    false
}

/// The distinct entries of `v`, ascending.
pub fn sorted_distinct(v: &Vec<String>) -> (r: Vec<String>)
    ensures
        sorted_strict(views(r@)),
        forall|y: Seq<char>| #[trigger] contains_view(views(r@), y) <==> contains_view(views(v@), y),
{
    let mut out: Vec<String> = Vec::new();
    let n = v.len();
    let mut i: usize = 0;
    while i < n
        invariant
            i <= n,
            n == v@.len(),
            sorted_strict(views(out@)),
            forall|y: Seq<char>|
                #[trigger] contains_view(views(out@), y) <==> exists|k: int| 0 <= k < i && #[trigger] v@[k]@ == y,
        decreases n - i,
    {
        insert_sorted(&mut out, v[i].as_str());
        proof {
            assert forall|y: Seq<char>| #[trigger] contains_view(views(out@), y) <==> exists|k: int|
                0 <= k < i + 1 && #[trigger] v@[k]@ == y by {
                if y == v@[i as int]@ {
                    assert(v@[i as int]@ == y);
                }
            }
        }
        i = i + 1;
    }
    proof {
        assert forall|y: Seq<char>| #[trigger] contains_view(views(out@), y) <==> contains_view(views(v@), y) by {
            if contains_view(views(v@), y) {
                let k = choose|k: int| 0 <= k < views(v@).len() && #[trigger] views(v@)[k] == y;
                assert(v@[k]@ == y);
            }
            if contains_view(views(out@), y) {
                let k = choose|k: int| 0 <= k < n && #[trigger] v@[k]@ == y;
                assert(views(v@)[k] == y);
            }
        }
    }
    out
}

/// Authoring order does not reach a configuration: two normalized
/// configurations that list the same entries hold the same lists, entry for
/// entry, so whatever is derived from them (their fingerprint) agrees.
pub proof fn law_normalized_configurations_ignore_authoring_order(a: Config, b: Config)
    requires
        a.is_normal(),
        b.is_normal(),
        a.same_entries(&b),
    ensures
        views(a.ignored_extensions@) == views(b.ignored_extensions@),
        views(a.ignored_paths@) == views(b.ignored_paths@),
        views(a.only_paths@) == views(b.only_paths@),
{
    lemma_sorted_same_members(views(a.ignored_extensions@), views(b.ignored_extensions@));
    lemma_sorted_same_members(views(a.ignored_paths@), views(b.ignored_paths@));
    lemma_sorted_same_members(views(a.only_paths@), views(b.only_paths@));
}

} // verus!
