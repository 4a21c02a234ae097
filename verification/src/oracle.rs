//! Measuring the heuristic reference graph against an externally resolved
//! index.
//!
//! An index's occurrences are projected onto beholder's symbols by line
//! containment; an edge exists where both ends land on symbols. The two edge
//! sets are then compared, and every disagreement is classified by the shape
//! of the symbol it points at.

use crate::code_graph::scip_provider::ScipDocument;
use crate::order::{
    lemma_seq_lt_asymmetric, lemma_seq_lt_irreflexive, lemma_seq_lt_total, lemma_seq_lt_transitive, seq_lt,
    sorted_strict, str_eq, str_lt,
};
use crate::phase1::FileAnalysis;
use crate::resolve::{last_segment, spec_last_segment, Edge};
use crate::text::{contains_sub, push_str, starts_with, str_contains};
use crate::walk::begins_with;
use vstd::prelude::*;

verus! {

/// A pair as two character sequences: from, to.
pub open spec fn pair_view(p: (String, String)) -> (Seq<char>, Seq<char>) {
    (p.0@, p.1@)
}

/// The views of a sequence of pairs.
pub open spec fn pair_views(s: Seq<(String, String)>) -> Seq<(Seq<char>, Seq<char>)> {
    s.map_values(|p: (String, String)| pair_view(p))
}

/// Strict order on pairs: by source, then target.
pub open spec fn pair_lt(a: (Seq<char>, Seq<char>), b: (Seq<char>, Seq<char>)) -> bool {
    seq_lt(a.0, b.0) || (a.0 == b.0 && seq_lt(a.1, b.1))
}

/// Strictly ascending pairs, hence free of duplicates.
pub open spec fn pairs_sorted(s: Seq<(Seq<char>, Seq<char>)>) -> bool {
    forall|i: int, j: int| 0 <= i < j < s.len() ==> pair_lt(#[trigger] s[i], #[trigger] s[j])
}

proof fn lemma_pair_lt_transitive(a: (Seq<char>, Seq<char>), b: (Seq<char>, Seq<char>), c: (Seq<char>, Seq<char>))
    requires
        pair_lt(a, b),
        pair_lt(b, c),
    ensures
        pair_lt(a, c),
{
    if seq_lt(a.0, b.0) && seq_lt(b.0, c.0) {
        lemma_seq_lt_transitive(a.0, b.0, c.0);
    } else if a.0 == b.0 && b.0 == c.0 {
        lemma_seq_lt_transitive(a.1, b.1, c.1);
    }
}

proof fn lemma_pair_lt_irreflexive(a: (Seq<char>, Seq<char>))
    ensures
        !pair_lt(a, a),
{
    lemma_seq_lt_irreflexive(a.0);
    lemma_seq_lt_irreflexive(a.1);
}

/// Is pair `a` strictly before pair `b`?
fn pair_less(a: &(String, String), b: &(String, String)) -> (r: bool)
    ensures
        r == pair_lt(pair_view(*a), pair_view(*b)),
{
    if str_lt(a.0.as_str(), b.0.as_str()) {
        return true;
    }
    if !str_eq(a.0.as_str(), b.0.as_str()) {
        return false;
    }
    str_lt(a.1.as_str(), b.1.as_str())
}

/// Insert a pair into a strictly sorted vector, keeping it strictly sorted;
/// no change when an equal pair is already present.
fn insert_pair(v: &mut Vec<(String, String)>, p: (String, String))
    requires
        pairs_sorted(pair_views(old(v)@)),
    ensures
        pairs_sorted(pair_views(final(v)@)),
        forall|t: (Seq<char>, Seq<char>)|
            pair_views(final(v)@).contains(t) <==> (pair_views(old(v)@).contains(t) || t == pair_view(p)),
{
    let n = v.len();
    let mut i: usize = 0;
    while i < n
        invariant
            i <= n,
            n == v@.len(),
            v@ == old(v)@,
            pairs_sorted(pair_views(v@)),
            forall|j: int| 0 <= j < i ==> pair_lt(#[trigger] pair_view(v@[j]), pair_view(p)),
        ensures
            i <= n,
            v@ == old(v)@,
            i < n ==> pair_lt(pair_view(p), pair_view(v@[i as int])),
            forall|j: int| 0 <= j < i ==> pair_lt(#[trigger] pair_view(v@[j]), pair_view(p)),
        decreases n - i,
    {
        if !pair_less(&v[i], &p) {
            if !pair_less(&p, &v[i]) {
                proof {
                    lemma_seq_lt_total(v@[i as int].0@, p.0@);
                    lemma_seq_lt_total(v@[i as int].1@, p.1@);
                    assert(pair_views(v@)[i as int] == pair_view(p));
                    assert forall|t: (Seq<char>, Seq<char>)|
                        pair_views(v@).contains(t) <==> (pair_views(old(v)@).contains(t) || t == pair_view(p)) by {
                        if t == pair_view(p) {
                            assert(pair_views(v@)[i as int] == t);
                        }
                    }
                }
                return;
            }
            break;
        }
        i = i + 1;
    }
    let ghost before = v@;
    let ghost pv = pair_view(p);
    v.insert(i, p);
    proof {
        let w = pair_views(v@);
        let b = pair_views(before);
        assert(w =~= b.subrange(0, i as int).push(pv) + b.subrange(i as int, b.len() as int));
        assert forall|x: int, y: int| 0 <= x < y < w.len() implies pair_lt(#[trigger] w[x], #[trigger] w[y]) by {
            if y < i {
                assert(w[x] == b[x] && w[y] == b[y]);
            } else if y == i {
                assert(w[x] == b[x]);
                assert(pair_lt(pair_view(before[x]), pv));
            } else if x < i {
                assert(w[x] == b[x] && w[y] == b[y - 1]);
                assert(pair_lt(pair_view(before[x]), pv));
                assert(pair_lt(pv, pair_view(before[i as int])));
                if y - 1 > i {
                    assert(pair_lt(b[i as int], b[y - 1]));
                    lemma_pair_lt_transitive(pv, b[i as int], b[y - 1]);
                }
                lemma_pair_lt_transitive(b[x], pv, b[y - 1]);
            } else if x == i {
                assert(w[y] == b[y - 1]);
                assert(pair_lt(pv, pair_view(before[i as int])));
                if y - 1 > i {
                    assert(pair_lt(b[i as int], b[y - 1]));
                    lemma_pair_lt_transitive(pv, b[i as int], b[y - 1]);
                }
            } else {
                assert(w[x] == b[x - 1] && w[y] == b[y - 1]);
            }
        }
        assert forall|t: (Seq<char>, Seq<char>)| w.contains(t) <==> (b.contains(t) || t == pv) by {
            if w.contains(t) {
                let k = choose|k: int| 0 <= k < w.len() && w[k] == t;
                if k < i {
                    assert(b[k] == t);
                } else if k > i {
                    assert(b[k - 1] == t);
                }
            }
            if b.contains(t) {
                let k = choose|k: int| 0 <= k < b.len() && b[k] == t;
                if k < i {
                    assert(w[k] == t);
                } else {
                    assert(w[k + 1] == t);
                }
            }
            if t == pv {
                assert(w[i as int] == t);
            }
        }
    }
}

/// The reference pairs of an edge list, source and target only, distinct and
/// sorted.
pub fn pairs_of(edges: &Vec<Edge>) -> (r: Vec<(String, String)>)
    ensures
        pairs_sorted(pair_views(r@)),
        forall|t: (Seq<char>, Seq<char>)|
            pair_views(r@).contains(t) <==> exists|i: int|
                0 <= i < edges@.len() && t == (#[trigger] edges@[i].from@, edges@[i].to@),
{
    let mut out: Vec<(String, String)> = Vec::new();
    let mut i: usize = 0;
    while i < edges.len()
        invariant
            i <= edges@.len(),
            pairs_sorted(pair_views(out@)),
            forall|t: (Seq<char>, Seq<char>)|
                pair_views(out@).contains(t) <==> exists|k: int|
                    0 <= k < i && t == (#[trigger] edges@[k].from@, edges@[k].to@),
        decreases edges@.len() - i,
    {
        let ghost before = out@;
        insert_pair(&mut out, (edges[i].from.clone(), edges[i].to.clone()));
        proof {
            assert forall|t: (Seq<char>, Seq<char>)|
                pair_views(out@).contains(t) <==> exists|k: int|
                    0 <= k < i + 1 && t == (#[trigger] edges@[k].from@, edges@[k].to@) by {
                if t == (edges@[i as int].from@, edges@[i as int].to@) {
                    assert(0 <= i < i + 1);
                }
                if pair_views(before).contains(t) {
                    let k = choose|k: int| 0 <= k < i && t == (#[trigger] edges@[k].from@, edges@[k].to@);
                    assert(0 <= k < i + 1);
                }
                if exists|k: int| 0 <= k < i + 1 && t == (#[trigger] edges@[k].from@, edges@[k].to@) {
                    let k = choose|k: int| 0 <= k < i + 1 && t == (#[trigger] edges@[k].from@, edges@[k].to@);
                    if k < i {
                        assert(pair_views(before).contains(t));
                    }
                }
            }
        }
        i = i + 1;
    }
    out
}

/// One beholder symbol, where it lives.
pub struct Located {
    pub path: String,
    pub id: String,
    pub qualified_path: String,
    pub start_line: usize,
    pub end_line: usize,
}

/// Beholder's symbols, file by file in symbol order, so that a position can
/// be resolved back to the symbol that contains it.
pub struct SymbolTable {
    pub located: Vec<Located>,
}

/// The symbols of the first `m` files, as located entries.
pub open spec fn located_upto(files: Seq<FileAnalysis>, m: int) -> Seq<(Seq<char>, Seq<char>, Seq<char>, int, int)>
    decreases m,
{
    if m <= 0 {
        Seq::empty()
    } else {
        let f = files[m - 1];
        located_upto(files, m - 1) + f.symbols@.map_values(
            |s: crate::symbol::Symbol|
                (f.path@, s.id@, s.qualified_path@, s.start_line as int, s.end_line as int),
        )
    }
}

/// The view of located entries.
pub open spec fn located_view(ls: Seq<Located>) -> Seq<(Seq<char>, Seq<char>, Seq<char>, int, int)> {
    ls.map_values(|l: Located| (l.path@, l.id@, l.qualified_path@, l.start_line as int, l.end_line as int))
}

/// Does the entry lie in this file and span this 1-based line?
pub open spec fn spans(l: (Seq<char>, Seq<char>, Seq<char>, int, int), path: Seq<char>, line: int) -> bool {
    l.0 == path && l.3 <= line <= l.4
}

/// The innermost entry of `ls` spanning the line: the one that starts
/// latest, the later one of equals.
pub open spec fn innermost(ls: Seq<(Seq<char>, Seq<char>, Seq<char>, int, int)>, path: Seq<char>, line: int) -> Option<
    int,
>
    decreases ls.len(),
{
    if ls.len() == 0 {
        None
    } else {
        let rest = innermost(ls.drop_last(), path, line);
        if spans(ls.last(), path, line) && (rest is None || ls[rest->0].3 <= ls.last().3) {
            Some(ls.len() - 1)
        } else {
            rest
        }
    }
}

/// The last entry carrying this id.
pub open spec fn last_with_id(ls: Seq<(Seq<char>, Seq<char>, Seq<char>, int, int)>, id: Seq<char>) -> Option<int>
    decreases ls.len(),
{
    if ls.len() == 0 {
        None
    } else if ls.last().1 == id {
        Some(ls.len() - 1)
    } else {
        last_with_id(ls.drop_last(), id)
    }
}

/// The simple name of a qualified path.
pub open spec fn simple_name(qualified_path: Seq<char>) -> Seq<char> {
    spec_last_segment(qualified_path, "::"@)
}

/// How many entries share this simple name.
pub open spec fn name_count(ls: Seq<(Seq<char>, Seq<char>, Seq<char>, int, int)>, name: Seq<char>) -> nat
    decreases ls.len(),
{
    if ls.len() == 0 {
        0
    } else {
        name_count(ls.drop_last(), name) + if simple_name(ls.last().2) == name {
            1nat
        } else {
            0nat
        }
    }
}

/// How a symbol is described when reporting a disagreement.
pub open spec fn spec_class(ls: Seq<(Seq<char>, Seq<char>, Seq<char>, int, int)>, id: Seq<char>) -> Seq<char> {
    match last_with_id(ls, id) {
        None => "unknown"@,
        Some(k) => if contains_sub(ls[k].2, " as "@) {
            "trait_impl_method"@
        } else if contains_sub(ls[k].2, "::"@) {
            "associated_item"@
        } else {
            "free_item"@
        },
    }
}

/// Does another symbol share this one's simple name?
pub open spec fn spec_name_is_ambiguous(ls: Seq<(Seq<char>, Seq<char>, Seq<char>, int, int)>, id: Seq<char>) -> bool {
    match last_with_id(ls, id) {
        None => false,
        Some(k) => name_count(ls, simple_name(ls[k].2)) > 1,
    }
}

impl SymbolTable {
    /// The symbols of every file, file by file in symbol order.
    pub fn build(files: &Vec<FileAnalysis>) -> (t: SymbolTable)
        ensures
            located_view(t.located@) == located_upto(files@, files@.len() as int),
    {
        let mut located: Vec<Located> = Vec::new();
        let mut f: usize = 0;
        while f < files.len()
            invariant
                f <= files@.len(),
                located_view(located@) == located_upto(files@, f as int),
            decreases files@.len() - f,
        {
            let file = &files[f];
            let ghost start = located@;
            let mut i: usize = 0;
            while i < file.symbols.len()
                invariant
                    f < files@.len(),
                    file == &files@[f as int],
                    i <= file.symbols@.len(),
                    located_view(located@) == located_view(start) + file.symbols@.take(i as int).map_values(
                        |s: crate::symbol::Symbol|
                            (file.path@, s.id@, s.qualified_path@, s.start_line as int, s.end_line as int),
                    ),
                decreases file.symbols@.len() - i,
            {
                let s = &file.symbols[i];
                let ghost before = located@;
                located.push(
                    Located {
                        path: file.path.clone(),
                        id: s.id.clone(),
                        qualified_path: s.qualified_path.clone(),
                        start_line: s.start_line,
                        end_line: s.end_line,
                    },
                );
                proof {
                    assert(file.symbols@.take(i + 1) =~= file.symbols@.take(i as int).push(file.symbols@[i as int]));
                    assert(located_view(located@) =~= located_view(before).push(
                        (file.path@, s.id@, s.qualified_path@, s.start_line as int, s.end_line as int),
                    ));
                    assert(located_view(located@) =~= located_view(start) + file.symbols@.take(i + 1).map_values(
                        |s: crate::symbol::Symbol|
                            (file.path@, s.id@, s.qualified_path@, s.start_line as int, s.end_line as int),
                    ));
                }
                i = i + 1;
            }
            proof {
                assert(file.symbols@.take(i as int) =~= file.symbols@);
            }
            f = f + 1;
        }
        SymbolTable { located }
    }

    /// The innermost symbol containing a 1-based line in a file.
    pub fn at(&self, path: &str, line: usize) -> (r: Option<&String>)
        ensures
            match innermost(located_view(self.located@), path@, line as int) {
                Some(k) => 0 <= k < self.located@.len() && r is Some && r->0@ == self.located@[k].id@,
                None => r is None,
            },
    {
        let ghost ls = located_view(self.located@);
        let mut best: Option<usize> = None;
        let mut k: usize = 0;
        while k < self.located.len()
            invariant
                k <= self.located@.len(),
                ls == located_view(self.located@),
                match best {
                    Some(b) => innermost(ls.take(k as int), path@, line as int) == Some(b as int) && b < k,
                    None => innermost(ls.take(k as int), path@, line as int) is None,
                },
            decreases self.located@.len() - k,
        {
            let l = &self.located[k];
            let spans_line = str_eq(l.path.as_str(), path) && l.start_line <= line && line <= l.end_line;
            proof {
                let t = ls.take(k + 1);
                assert(t.drop_last() =~= ls.take(k as int));
                assert(t.last() == ls[k as int]);
                if let Some(b) = best {
                    assert(t[b as int] == ls[b as int]);
                }
            }
            let take = match best {
                None => spans_line,
                Some(b) => spans_line && self.located[b].start_line <= l.start_line,
            };
            if take {
                best = Some(k);
            }
            k = k + 1;
        }
        proof {
            assert(ls.take(ls.len() as int) =~= ls);
        }
        match best {
            Some(b) => Some(&self.located[b].id),
            None => None,
        }
    }

    /// The last entry carrying this id, as a position.
    fn last_with_id(&self, id: &str) -> (r: Option<usize>)
        ensures
            match r {
                Some(k) => k < self.located@.len() && last_with_id(located_view(self.located@), id@) == Some(k as int),
                None => last_with_id(located_view(self.located@), id@) is None,
            },
    {
        let ghost ls = located_view(self.located@);
        let mut k: usize = self.located.len();
        proof {
            assert(ls.take(self.located@.len() as int) =~= ls);
        }
        while k > 0
            invariant
                k <= self.located@.len(),
                ls == located_view(self.located@),
                last_with_id(ls, id@) == last_with_id(ls.take(k as int), id@),
            decreases k,
        {
            proof {
                let t = ls.take(k as int);
                assert(t.drop_last() =~= ls.take(k - 1));
                assert(t.last() == ls[k - 1]);
            }
            if str_eq(self.located[k - 1].id.as_str(), id) {
                return Some(k - 1);
            }
            k = k - 1;
        }
        proof {
            assert(ls.take(self.located@.len() as int) =~= ls);
        }
        None
    }

    /// How to describe a symbol when reporting a disagreement.
    pub fn class(&self, id: &str) -> (r: &'static str)
        ensures
            r@ == spec_class(located_view(self.located@), id@),
    {
        proof {
            reveal_strlit("unknown");
            reveal_strlit("trait_impl_method");
            reveal_strlit("associated_item");
            reveal_strlit("free_item");
        }
        match self.last_with_id(id) {
            None => "unknown",
            Some(k) => {
                let q = self.located[k].qualified_path.as_str();
                if str_contains(q, " as ") {
                    "trait_impl_method"
                } else if str_contains(q, "::") {
                    "associated_item"
                } else {
                    "free_item"
                }
            },
        }
    }

    /// How many symbols carry this simple name.
    fn name_count(&self, name: &str) -> (r: usize)
        ensures
            r == name_count(located_view(self.located@), name@),
    {
        let ghost ls = located_view(self.located@);
        let mut n: usize = 0;
        let mut k: usize = 0;
        while k < self.located.len()
            invariant
                k <= self.located@.len(),
                ls == located_view(self.located@),
                n == name_count(ls.take(k as int), name@),
                n <= k,
            decreases self.located@.len() - k,
        {
            proof {
                let t = ls.take(k + 1);
                assert(t.drop_last() =~= ls.take(k as int));
                assert(t.last() == ls[k as int]);
                reveal_strlit("::");
            }
            let simple = last_segment(self.located[k].qualified_path.as_str(), "::");
            if str_eq(simple.as_str(), name) {
                n = n + 1;
            }
            k = k + 1;
        }
        proof {
            assert(ls.take(ls.len() as int) =~= ls);
        }
        n
    }

    /// Does another symbol share this one's simple name?
    pub fn name_is_ambiguous(&self, id: &str) -> (r: bool)
        ensures
            r == spec_name_is_ambiguous(located_view(self.located@), id@),
    {
        match self.last_with_id(id) {
            None => false,
            Some(k) => {
                proof {
                    reveal_strlit("::");
                }
                let name = last_segment(self.located[k].qualified_path.as_str(), "::");
                self.name_count(name.as_str()) > 1
            },
        }
    }
}


/// Does an occurrence's role bitset mark a definition?
pub open spec fn is_definition(roles: i32) -> bool {
    roles & 1i32 != 0
}

/// Function-local bindings are named `local N`; they are never symbols.
pub open spec fn spec_is_local(symbol: Seq<char>) -> bool {
    starts_with(symbol, "local "@)
}

/// Is this a function-local binding?
pub fn is_local(symbol: &str) -> (r: bool)
    ensures
        r == spec_is_local(symbol@),
{
    begins_with(symbol, "local ")
}

/// The 1-based line a range starts on: ranges are 0-based and begin with
/// their start line; a missing or negative start counts as the first line.
pub open spec fn spec_start_line(range: Seq<i32>) -> int {
    if range.len() == 0 || range[0] < 0 {
        1
    } else {
        range[0] + 1
    }
}

/// The 1-based line a range starts on.
pub fn start_line(range: &Vec<i32>) -> (r: usize)
    ensures
        r == spec_start_line(range@),
{
    if range.len() == 0 || range[0] < 0 {
        1
    } else {
        let first: i32 = range[0];
        let line: usize = first as usize;
        line + 1
    }
}

/// Every occurrence position of the first `m` documents, in order.
pub open spec fn document_positions(docs: Seq<ScipDocument>, m: int) -> Seq<(int, int)>
    decreases m,
{
    if m <= 0 {
        Seq::empty()
    } else {
        document_positions(docs, m - 1) + Seq::new(docs[m - 1].occurrences@.len(), |j: int| (m - 1, j))
    }
}

/// The symbol an occurrence names, its roles, and the beholder entry its
/// start line lands in.
pub open spec fn landing(
    docs: Seq<ScipDocument>,
    ls: Seq<(Seq<char>, Seq<char>, Seq<char>, int, int)>,
    p: (int, int),
) -> Option<Seq<char>> {
    let o = docs[p.0].occurrences@[p.1];
    match innermost(ls, docs[p.0].relative_path@, spec_start_line(o.range@)) {
        Some(k) => Some(ls[k].1),
        None => None,
    }
}

/// A definition of a symbol that is not local.
pub open spec fn defines(docs: Seq<ScipDocument>, p: (int, int)) -> bool {
    let o = docs[p.0].occurrences@[p.1];
    is_definition(o.symbol_roles) && !spec_is_local(o.symbol@)
}

/// A reference to a symbol that is not local.
pub open spec fn refers(docs: Seq<ScipDocument>, p: (int, int)) -> bool {
    let o = docs[p.0].occurrences@[p.1];
    !is_definition(o.symbol_roles) && !spec_is_local(o.symbol@)
}

/// Where each defined symbol lives, in occurrence order: a definition whose
/// line lands in a beholder symbol maps the index's symbol to it.
pub open spec fn definitions(
    docs: Seq<ScipDocument>,
    ls: Seq<(Seq<char>, Seq<char>, Seq<char>, int, int)>,
    ps: Seq<(int, int)>,
) -> Seq<(Seq<char>, Seq<char>)>
    decreases ps.len(),
{
    if ps.len() == 0 {
        Seq::empty()
    } else {
        let rest = definitions(docs, ls, ps.drop_last());
        let p = ps.last();
        if defines(docs, p) && landing(docs, ls, p) is Some {
            rest.push((docs[p.0].occurrences@[p.1].symbol@, landing(docs, ls, p)->0))
        } else {
            rest
        }
    }
}

/// The value of the last entry with this key.
pub open spec fn last_value(m: Seq<(Seq<char>, Seq<char>)>, key: Seq<char>) -> Option<Seq<char>>
    decreases m.len(),
{
    if m.len() == 0 {
        None
    } else if m.last().0 == key {
        Some(m.last().1)
    } else {
        last_value(m.drop_last(), key)
    }
}

/// The edge a reference at `p` stands for, given where symbols are defined.
pub open spec fn oracle_pair(
    docs: Seq<ScipDocument>,
    ls: Seq<(Seq<char>, Seq<char>, Seq<char>, int, int)>,
    defs: Seq<(Seq<char>, Seq<char>)>,
    p: (int, int),
) -> Option<(Seq<char>, Seq<char>)> {
    match (landing(docs, ls, p), last_value(defs, docs[p.0].occurrences@[p.1].symbol@)) {
        (Some(from), Some(to)) => if from != to {
            Some((from, to))
        } else {
            None
        },
        _ => None,
    }
}

/// Does the reference at `p` fall outside the model: its referrer or its
/// referent is not a beholder symbol?
pub open spec fn outside(
    docs: Seq<ScipDocument>,
    ls: Seq<(Seq<char>, Seq<char>, Seq<char>, int, int)>,
    defs: Seq<(Seq<char>, Seq<char>)>,
    p: (int, int),
) -> bool {
    landing(docs, ls, p) is None || last_value(defs, docs[p.0].occurrences@[p.1].symbol@) is None
}

/// How many of the positions are references.
pub open spec fn count_references(docs: Seq<ScipDocument>, ps: Seq<(int, int)>) -> nat
    decreases ps.len(),
{
    if ps.len() == 0 {
        0
    } else {
        count_references(docs, ps.drop_last()) + if refers(docs, ps.last()) {
            1nat
        } else {
            0nat
        }
    }
}

/// How many of the positions are references outside the model.
pub open spec fn count_outside(
    docs: Seq<ScipDocument>,
    ls: Seq<(Seq<char>, Seq<char>, Seq<char>, int, int)>,
    defs: Seq<(Seq<char>, Seq<char>)>,
    ps: Seq<(int, int)>,
) -> nat
    decreases ps.len(),
{
    if ps.len() == 0 {
        0
    } else {
        count_outside(docs, ls, defs, ps.drop_last()) + if refers(docs, ps.last()) && outside(
            docs,
            ls,
            defs,
            ps.last(),
        ) {
            1nat
        } else {
            0nat
        }
    }
}

/// The edges the references at the positions stand for, repeats kept.
pub open spec fn oracle_pairs(
    docs: Seq<ScipDocument>,
    ls: Seq<(Seq<char>, Seq<char>, Seq<char>, int, int)>,
    defs: Seq<(Seq<char>, Seq<char>)>,
    ps: Seq<(int, int)>,
) -> Seq<(Seq<char>, Seq<char>)>
    decreases ps.len(),
{
    if ps.len() == 0 {
        Seq::empty()
    } else {
        let rest = oracle_pairs(docs, ls, defs, ps.drop_last());
        let p = ps.last();
        if refers(docs, p) && oracle_pair(docs, ls, defs, p) is Some {
            rest.push(oracle_pair(docs, ls, defs, p)->0)
        } else {
            rest
        }
    }
}

/// The index's view of the references, projected onto beholder's symbols.
pub struct Oracle {
    /// Distinct edges, sorted.
    pub edges: Vec<(String, String)>,
    /// References dropped because an end is not a beholder symbol.
    pub outside_model: usize,
    pub documents: usize,
    /// References to symbols that are not local.
    pub occurrences: usize,
}

/// The value of the last entry with this key.
fn lookup_last<'a>(m: &'a Vec<(String, String)>, key: &str) -> (r: Option<&'a String>)
    ensures
        match last_value(pair_views(m@), key@) {
            Some(v) => r is Some && r->0@ == v,
            None => r is None,
        },
{
    let ghost mv = pair_views(m@);
    let mut k: usize = m.len();
    proof {
        assert(mv.take(m@.len() as int) =~= mv);
    }
    while k > 0
        invariant
            k <= m@.len(),
            mv == pair_views(m@),
            last_value(mv, key@) == last_value(mv.take(k as int), key@),
        decreases k,
    {
        proof {
            let t = mv.take(k as int);
            assert(t.drop_last() =~= mv.take(k - 1));
            assert(t.last() == mv[k - 1]);
        }
        if str_eq(m[k - 1].0.as_str(), key) {
            return Some(&m[k - 1].1);
        }
        k = k - 1;
    }
    None
}

/// What a document position range comes to for pass one, stepped.
proof fn lemma_document_positions_step(docs: Seq<ScipDocument>, d: int)
    requires
        0 <= d < docs.len(),
    ensures
        document_positions(docs, d + 1) == document_positions(docs, d) + Seq::new(
            docs[d].occurrences@.len(),
            |j: int| (d, j),
        ),
{
}

proof fn lemma_document_positions_grow(docs: Seq<ScipDocument>, m: int, n: int)
    requires
        0 <= m <= n,
    ensures
        document_positions(docs, m).len() <= document_positions(docs, n).len(),
    decreases n - m,
{
    if m < n {
        lemma_document_positions_grow(docs, m, n - 1);
    }
}

/// Pass one: where each of the index's symbols is defined.
fn collect_definitions(documents: &Vec<ScipDocument>, symbols: &SymbolTable) -> (r: Vec<(String, String)>)
    ensures
        pair_views(r@) == definitions(
            documents@,
            located_view(symbols.located@),
            document_positions(documents@, documents@.len() as int),
        ),
{
    let ghost ls = located_view(symbols.located@);
    let mut defs: Vec<(String, String)> = Vec::new();
    let mut d: usize = 0;
    while d < documents.len()
        invariant
            d <= documents@.len(),
            ls == located_view(symbols.located@),
            pair_views(defs@) == definitions(documents@, ls, document_positions(documents@, d as int)),
        decreases documents@.len() - d,
    {
        let doc = &documents[d];
        let ghost base = document_positions(documents@, d as int);
        let mut j: usize = 0;
        while j < doc.occurrences.len()
            invariant
                d < documents@.len(),
                doc == &documents@[d as int],
                j <= doc.occurrences@.len(),
                ls == located_view(symbols.located@),
                base == document_positions(documents@, d as int),
                pair_views(defs@) == definitions(documents@, ls, base + Seq::new(j as nat, |k: int| (d as int, k))),
            decreases doc.occurrences@.len() - j,
        {
            let ghost before = base + Seq::new(j as nat, |k: int| (d as int, k));
            let ghost after = base + Seq::new((j + 1) as nat, |k: int| (d as int, k));
            proof {
                assert(after.drop_last() =~= before);
                assert(after.last() == (d as int, j as int));
            }
            let o = &doc.occurrences[j];
            let roles: i32 = o.symbol_roles;
            let ghost prev = defs@;
            proof {
                assert(documents@[d as int].occurrences@[j as int] == *o);
            }
            if roles & 1i32 != 0 && !is_local(o.symbol.as_str()) {
                let line = start_line(&o.range);
                match symbols.at(doc.relative_path.as_str(), line) {
                    Some(id) => {
                        let ghost before_push = defs@;
                        defs.push((o.symbol.clone(), id.clone()));
                        proof {
                            let p = (d as int, j as int);
                            assert(landing(documents@, ls, p) is Some);
                            assert(id@ == landing(documents@, ls, p)->0);
                            assert(defines(documents@, p));
                            assert(pair_views(defs@) =~= pair_views(before_push).push((o.symbol@, id@)));
                        }
                    },
                    None => {},
                }
            }
            proof {
                let p = (d as int, j as int);
                if defines(documents@, p) && landing(documents@, ls, p) is Some {
                    assert(definitions(documents@, ls, after) == definitions(documents@, ls, before).push(
                        (o.symbol@, landing(documents@, ls, p)->0),
                    ));
                } else {
                    assert(definitions(documents@, ls, after) == definitions(documents@, ls, before));
                    assert(defs@ == prev);
                }
            }
            j = j + 1;
        }
        proof {
            lemma_document_positions_step(documents@, d as int);
        }
        d = d + 1;
    }
    defs
}

/// Project an index's references onto beholder's symbols.
///
/// A definition maps the index's symbol to the beholder symbol whose line
/// range holds its start, the innermost one; the last such definition wins.
/// A reference maps to the symbol it was written inside, the same way. An
/// edge exists where both ends land on beholder symbols and differ; a
/// reference to itself is no edge, and anything else is outside the model.
pub fn project(documents: &Vec<ScipDocument>, symbols: &SymbolTable) -> (o: Oracle)
    requires
        document_positions(documents@, documents@.len() as int).len() <= usize::MAX,
    ensures
        ({
            let ps = document_positions(documents@, documents@.len() as int);
            let ls = located_view(symbols.located@);
            let defs = definitions(documents@, ls, ps);
            &&& o.documents == documents@.len()
            &&& o.occurrences == count_references(documents@, ps)
            &&& o.outside_model == count_outside(documents@, ls, defs, ps)
            &&& pairs_sorted(pair_views(o.edges@))
            &&& forall|t: (Seq<char>, Seq<char>)|
                pair_views(o.edges@).contains(t) <==> oracle_pairs(documents@, ls, defs, ps).contains(t)
        }),
{
    let ghost ls = located_view(symbols.located@);
    let ghost total = document_positions(documents@, documents@.len() as int);
    let defs = collect_definitions(documents, symbols);
    let ghost dv = pair_views(defs@);
    let mut edges: Vec<(String, String)> = Vec::new();
    let mut outside_model: usize = 0;
    let mut occurrences: usize = 0;
    let mut seen: usize = 0;
    let mut d: usize = 0;
    while d < documents.len()
        invariant
            d <= documents@.len(),
            ls == located_view(symbols.located@),
            dv == pair_views(defs@),
            total == document_positions(documents@, documents@.len() as int),
            total.len() <= usize::MAX,
            seen == document_positions(documents@, d as int).len(),
            occurrences == count_references(documents@, document_positions(documents@, d as int)),
            outside_model == count_outside(documents@, ls, dv, document_positions(documents@, d as int)),
            occurrences <= seen,
            outside_model <= seen,
            pairs_sorted(pair_views(edges@)),
            forall|t: (Seq<char>, Seq<char>)|
                pair_views(edges@).contains(t) <==> oracle_pairs(
                    documents@,
                    ls,
                    dv,
                    document_positions(documents@, d as int),
                ).contains(t),
        decreases documents@.len() - d,
    {
        let doc = &documents[d];
        let ghost base = document_positions(documents@, d as int);
        proof {
            lemma_document_positions_step(documents@, d as int);
            lemma_document_positions_grow(documents@, d + 1, documents@.len() as int);
        }
        let mut j: usize = 0;
        while j < doc.occurrences.len()
            invariant
                d < documents@.len(),
                doc == &documents@[d as int],
                j <= doc.occurrences@.len(),
                ls == located_view(symbols.located@),
                dv == pair_views(defs@),
                base == document_positions(documents@, d as int),
                base.len() + doc.occurrences@.len() <= usize::MAX,
                seen == (base + Seq::new(j as nat, |k: int| (d as int, k))).len(),
                occurrences == count_references(documents@, base + Seq::new(j as nat, |k: int| (d as int, k))),
                outside_model == count_outside(
                    documents@,
                    ls,
                    dv,
                    base + Seq::new(j as nat, |k: int| (d as int, k)),
                ),
                occurrences <= seen,
                outside_model <= seen,
                pairs_sorted(pair_views(edges@)),
                forall|t: (Seq<char>, Seq<char>)|
                    pair_views(edges@).contains(t) <==> oracle_pairs(
                        documents@,
                        ls,
                        dv,
                        base + Seq::new(j as nat, |k: int| (d as int, k)),
                    ).contains(t),
            decreases doc.occurrences@.len() - j,
        {
            let ghost before = base + Seq::new(j as nat, |k: int| (d as int, k));
            let ghost after = base + Seq::new((j + 1) as nat, |k: int| (d as int, k));
            let ghost p = (d as int, j as int);
            let ghost old_edges = edges@;
            proof {
                assert(after =~= before.push(p));
                assert(after.drop_last() =~= before);
                assert(after.last() == p);
            }
            let o = &doc.occurrences[j];
            let roles: i32 = o.symbol_roles;
            proof {
                assert(documents@[d as int].occurrences@[j as int] == *o);
            }
            seen = seen + 1;
            if roles & 1i32 == 0 && !is_local(o.symbol.as_str()) {
                occurrences = occurrences + 1;
                let line = start_line(&o.range);
                let referrer = symbols.at(doc.relative_path.as_str(), line);
                let referent = lookup_last(&defs, o.symbol.as_str());
                match (referrer, referent) {
                    (Some(from), Some(to)) => {
                        if !str_eq(from.as_str(), to.as_str()) {
                            insert_pair(&mut edges, (from.clone(), to.clone()));
                        }
                    },
                    _ => {
                        outside_model = outside_model + 1;
                    },
                }
            }
            proof {
                let t_new = oracle_pairs(documents@, ls, dv, after);
                let t_old = oracle_pairs(documents@, ls, dv, before);
                if refers(documents@, p) && oracle_pair(documents@, ls, dv, p) is Some {
                    let e = oracle_pair(documents@, ls, dv, p)->0;
                    assert(t_new == t_old.push(e));
                    assert forall|t: (Seq<char>, Seq<char>)| t_new.contains(t) <==> (t_old.contains(t) || t == e) by {
                        if t_new.contains(t) {
                            let k = choose|k: int| 0 <= k < t_new.len() && t_new[k] == t;
                            if k < t_old.len() {
                                assert(t_old[k] == t);
                            }
                        }
                        if t_old.contains(t) {
                            let k = choose|k: int| 0 <= k < t_old.len() && t_old[k] == t;
                            assert(t_new[k] == t);
                        }
                        if t == e {
                            assert(t_new[t_old.len() as int] == t);
                        }
                    }
                } else {
                    assert(t_new == t_old);
                    assert(edges@ == old_edges);
                }
            }
            j = j + 1;
        }
        proof {
            assert(document_positions(documents@, d + 1) == base + Seq::new(j as nat, |k: int| (d as int, k)));
        }
        d = d + 1;
    }
    Oracle { edges, outside_model, documents: documents.len(), occurrences }
}


/// The pairs of `a` that `b` lacks, in `a`'s order.
pub open spec fn minus(a: Seq<(Seq<char>, Seq<char>)>, b: Seq<(Seq<char>, Seq<char>)>) -> Seq<(Seq<char>, Seq<char>)>
    decreases a.len(),
{
    if a.len() == 0 {
        Seq::empty()
    } else if b.contains(a.last()) {
        minus(a.drop_last(), b)
    } else {
        minus(a.drop_last(), b).push(a.last())
    }
}

/// How a disagreement about an edge to `to` is classified: the class of the
/// target, then whether its simple name is shared.
pub open spec fn class_label(ls: Seq<(Seq<char>, Seq<char>, Seq<char>, int, int)>, to: Seq<char>) -> Seq<char> {
    spec_class(ls, to) + "/"@ + if spec_name_is_ambiguous(ls, to) {
        "shared_name"@
    } else {
        "unique_name"@
    }
}

/// How many of the pairs carry this label.
pub open spec fn label_count(
    ls: Seq<(Seq<char>, Seq<char>, Seq<char>, int, int)>,
    ps: Seq<(Seq<char>, Seq<char>)>,
    l: Seq<char>,
) -> nat
    decreases ps.len(),
{
    if ps.len() == 0 {
        0
    } else {
        label_count(ls, ps.drop_last(), l) + if class_label(ls, ps.last().1) == l {
            1nat
        } else {
            0nat
        }
    }
}

/// The views of count rows.
pub open spec fn tally_views(v: Seq<(String, usize)>) -> Seq<(Seq<char>, nat)> {
    v.map_values(|r: (String, usize)| (r.0@, r.1 as nat))
}

/// The rows are the per-label counts of the pairs: ascending by label, one
/// row for each label that occurs, none for any other.
pub open spec fn tallies(
    ls: Seq<(Seq<char>, Seq<char>, Seq<char>, int, int)>,
    ps: Seq<(Seq<char>, Seq<char>)>,
    rows: Seq<(Seq<char>, nat)>,
) -> bool {
    &&& sorted_strict(row_keys(rows))
    &&& forall|i: int| 0 <= i < rows.len() ==> #[trigger] rows[i].1 == label_count(ls, ps, rows[i].0) && rows[i].1 > 0
    &&& forall|l: Seq<char>| label_count(ls, ps, l) > 0 ==> exists|i: int| 0 <= i < rows.len() && #[trigger] rows[i].0 == l
}

/// The keys of count rows.
pub open spec fn row_keys(rows: Seq<(Seq<char>, nat)>) -> Seq<Seq<char>> {
    rows.map_values(|r: (Seq<char>, nat)| r.0)
}

/// Count the label of one more pair into rows that tally the pairs before it.
fn count_label(
    rows: &mut Vec<(String, usize)>,
    label: String,
    Ghost(ls): Ghost<Seq<(Seq<char>, Seq<char>, Seq<char>, int, int)>>,
    Ghost(ps): Ghost<Seq<(Seq<char>, Seq<char>)>>,
    Ghost(p): Ghost<(Seq<char>, Seq<char>)>,
)
    requires
        tallies(ls, ps, tally_views(old(rows)@)),
        forall|i: int| 0 <= i < old(rows)@.len() ==> (#[trigger] old(rows)@[i]).1 <= ps.len(),
        ps.len() < usize::MAX,
        label@ == class_label(ls, p.1),
    ensures
        tallies(ls, ps.push(p), tally_views(final(rows)@)),
        forall|i: int| 0 <= i < final(rows)@.len() ==> (#[trigger] final(rows)@[i]).1 <= ps.len() + 1,
{
    let ghost old_rows = tally_views(rows@);
    let ghost qs = ps.push(p);
    proof {
        assert(qs.drop_last() =~= ps);
        assert(qs.last() == p);
        assert forall|l: Seq<char>| #[trigger] label_count(ls, qs, l) == label_count(ls, ps, l) + if l == label@ {
            1nat
        } else {
            0nat
        } by {}
    }
    let n = rows.len();
    let mut i: usize = 0;
    while i < n
        invariant
            i <= n,
            n == rows@.len(),
            rows@ == old(rows)@,
            forall|j: int| 0 <= j < i ==> seq_lt(#[trigger] rows@[j].0@, label@),
        ensures
            i <= n,
            rows@ == old(rows)@,
            i < n ==> !seq_lt(rows@[i as int].0@, label@),
            forall|j: int| 0 <= j < i ==> seq_lt(#[trigger] rows@[j].0@, label@),
        decreases n - i,
    {
        if !str_lt(rows[i].0.as_str(), label.as_str()) {
            break;
        }
        i = i + 1;
    }
    proof {
        assert forall|j: int| 0 <= j < old_rows.len() implies #[trigger] old_rows[j].0 == rows@[j].0@ && old_rows[j].1 == rows@[j].1 by {}
    }
    if i < n && str_eq(rows[i].0.as_str(), label.as_str()) {
        let name = rows[i].0.clone();
        let c = rows[i].1;
        rows.set(i, (name, c + 1));
        proof {
            let w = tally_views(rows@);
            assert(row_keys(w) =~= row_keys(old_rows));
            assert forall|j: int| 0 <= j < w.len() implies #[trigger] w[j].1 == label_count(ls, qs, w[j].0) && w[j].1 > 0 by {
                if j != i {
                    assert(row_keys(old_rows)[j] == w[j].0);
                    if j < i {
                        assert(seq_lt(row_keys(old_rows)[j], row_keys(old_rows)[i as int]));
                    } else {
                        assert(seq_lt(row_keys(old_rows)[i as int], row_keys(old_rows)[j]));
                    }
                    lemma_seq_lt_irreflexive(label@);
                    assert(w[j] == old_rows[j]);
                }
            }
            assert forall|l: Seq<char>| label_count(ls, qs, l) > 0 implies exists|j: int|
                0 <= j < w.len() && #[trigger] w[j].0 == l by {
                if l == label@ {
                    assert(w[i as int].0 == l);
                } else {
                    let j = choose|j: int| 0 <= j < old_rows.len() && #[trigger] old_rows[j].0 == l;
                    assert(w[j].0 == l);
                }
            }
        }
    } else {
        let ghost before = rows@;
        rows.insert(i, (label, 1));
        proof {
            let w = tally_views(rows@);
            let b = tally_views(before);
            assert(w =~= b.subrange(0, i as int).push((label@, 1nat)) + b.subrange(i as int, b.len() as int));
            if i < n {
                lemma_seq_lt_total(before[i as int].0@, label@);
            }
            assert forall|j: int| 0 <= j < b.len() implies #[trigger] b[j].0 != label@ by {
                if j < i {
                    lemma_seq_lt_irreflexive(label@);
                } else if j > i {
                    assert(seq_lt(row_keys(b)[i as int], row_keys(b)[j]));
                    lemma_seq_lt_asymmetric(label@, b[i as int].0);
                    if b[j].0 == label@ {
                        assert(seq_lt(label@, b[i as int].0) || b[i as int].0 == label@);
                        lemma_seq_lt_asymmetric(b[i as int].0, label@);
                    }
                } else {
                }
            }
            assert(label_count(ls, ps, label@) == 0) by {
                if label_count(ls, ps, label@) > 0 {
                    let j = choose|j: int| 0 <= j < old_rows.len() && #[trigger] old_rows[j].0 == label@;
                    assert(b[j].0 == label@);
                }
            }
            assert forall|x: int, y: int| 0 <= x < y < w.len() implies seq_lt(
                #[trigger] row_keys(w)[x],
                #[trigger] row_keys(w)[y],
            ) by {
                if y < i {
                    assert(row_keys(w)[x] == row_keys(b)[x] && row_keys(w)[y] == row_keys(b)[y]);
                } else if y == i {
                    assert(row_keys(w)[x] == before[x].0@);
                } else if x < i {
                    assert(row_keys(w)[x] == row_keys(b)[x] && row_keys(w)[y] == row_keys(b)[y - 1]);
                    assert(seq_lt(before[x].0@, label@));
                    assert(b[i as int].0 != label@);
                    assert(seq_lt(label@, row_keys(b)[i as int]));
                    if y - 1 > i {
                        assert(seq_lt(row_keys(b)[i as int], row_keys(b)[y - 1]));
                        lemma_seq_lt_transitive(label@, row_keys(b)[i as int], row_keys(b)[y - 1]);
                    }
                    lemma_seq_lt_transitive(row_keys(b)[x], label@, row_keys(b)[y - 1]);
                } else if x == i {
                    assert(row_keys(w)[y] == row_keys(b)[y - 1]);
                    assert(b[i as int].0 != label@);
                    assert(seq_lt(label@, row_keys(b)[i as int]));
                    if y - 1 > i {
                        assert(seq_lt(row_keys(b)[i as int], row_keys(b)[y - 1]));
                        lemma_seq_lt_transitive(label@, row_keys(b)[i as int], row_keys(b)[y - 1]);
                    }
                } else {
                    assert(row_keys(w)[x] == row_keys(b)[x - 1] && row_keys(w)[y] == row_keys(b)[y - 1]);
                }
            }
            assert forall|j: int| 0 <= j < w.len() implies #[trigger] w[j].1 == label_count(ls, qs, w[j].0) && w[j].1 > 0 by {
                if j < i {
                    assert(w[j] == b[j]);
                } else if j > i {
                    assert(w[j] == b[j - 1]);
                }
            }
            assert forall|l: Seq<char>| label_count(ls, qs, l) > 0 implies exists|j: int|
                0 <= j < w.len() && #[trigger] w[j].0 == l by {
                if l == label@ {
                    assert(w[i as int].0 == l);
                } else {
                    let j = choose|j: int| 0 <= j < old_rows.len() && #[trigger] old_rows[j].0 == l;
                    if j < i {
                        assert(w[j].0 == l);
                    } else {
                        assert(w[j + 1].0 == l);
                    }
                }
            }
        }
    }
}


/// The classification label of a disagreement about an edge to `to`.
fn label_for(symbols: &SymbolTable, to: &str) -> (r: String)
    ensures
        r@ == class_label(located_view(symbols.located@), to@),
{
    let mut label = symbols.class(to).to_owned();
    push_str(&mut label, "/");
    if symbols.name_is_ambiguous(to) {
        push_str(&mut label, "shared_name");
    } else {
        push_str(&mut label, "unique_name");
    }
    label
}

/// The per-label counts of disagreements, ascending by label.
pub fn classify(pairs: &Vec<(String, String)>, symbols: &SymbolTable) -> (rows: Vec<(String, usize)>)
    ensures
        tallies(located_view(symbols.located@), pair_views(pairs@), tally_views(rows@)),
{
    let ghost ls = located_view(symbols.located@);
    let ghost pv = pair_views(pairs@);
    let mut rows: Vec<(String, usize)> = Vec::new();
    let mut k: usize = 0;
    proof {
        assert(row_keys(tally_views(rows@)) =~= Seq::<Seq<char>>::empty());
    }
    while k < pairs.len()
        invariant
            k <= pairs@.len(),
            ls == located_view(symbols.located@),
            pv == pair_views(pairs@),
            tallies(ls, pv.take(k as int), tally_views(rows@)),
            forall|i: int| 0 <= i < rows@.len() ==> (#[trigger] rows@[i]).1 <= k,
        decreases pairs@.len() - k,
    {
        let label = label_for(symbols, pairs[k].1.as_str());
        proof {
            assert(pv.take(k + 1) =~= pv.take(k as int).push(pv[k as int]));
        }
        count_label(&mut rows, label, Ghost(ls), Ghost(pv.take(k as int)), Ghost(pv[k as int]));
        k = k + 1;
    }
    proof {
        assert(pv.take(pv.len() as int) =~= pv);
    }
    rows
}

/// Does `v` hold this pair?
fn holds_pair(v: &Vec<(String, String)>, p: &(String, String)) -> (r: bool)
    ensures
        r == pair_views(v@).contains(pair_view(*p)),
{
    let mut k: usize = 0;
    while k < v.len()
        invariant
            k <= v@.len(),
            forall|j: int| 0 <= j < k ==> pair_views(v@)[j] != pair_view(*p),
        decreases v@.len() - k,
    {
        if str_eq(v[k].0.as_str(), p.0.as_str()) && str_eq(v[k].1.as_str(), p.1.as_str()) {
            proof {
                assert(pair_views(v@)[k as int] == pair_view(*p));
            }
            return true;
        }
        k = k + 1;
    }
    false
}

/// The pairs of `a` that `b` lacks, in `a`'s order.
pub fn difference(a: &Vec<(String, String)>, b: &Vec<(String, String)>) -> (r: Vec<(String, String)>)
    ensures
        pair_views(r@) == minus(pair_views(a@), pair_views(b@)),
{
    let ghost av = pair_views(a@);
    let mut out: Vec<(String, String)> = Vec::new();
    let mut k: usize = 0;
    while k < a.len()
        invariant
            k <= a@.len(),
            av == pair_views(a@),
            pair_views(out@) == minus(av.take(k as int), pair_views(b@)),
        decreases a@.len() - k,
    {
        proof {
            let t = av.take(k + 1);
            assert(t.drop_last() =~= av.take(k as int));
            assert(t.last() == av[k as int]);
        }
        if !holds_pair(b, &a[k]) {
            let ghost before = out@;
            out.push((a[k].0.clone(), a[k].1.clone()));
            proof {
                assert(pair_views(out@) =~= pair_views(before).push(av[k as int]));
            }
        }
        k = k + 1;
    }
    proof {
        assert(av.take(av.len() as int) =~= av);
    }
    out
}

proof fn lemma_minus_len(a: Seq<(Seq<char>, Seq<char>)>, b: Seq<(Seq<char>, Seq<char>)>)
    ensures
        minus(a, b).len() <= a.len(),
    decreases a.len(),
{
    if a.len() > 0 {
        lemma_minus_len(a.drop_last(), b);
    }
}

/// How beholder's edges compare with the oracle's.
pub struct Comparison {
    pub beholder_edges: usize,
    pub oracle_edges: usize,
    /// Edges both sides have.
    pub agreed: usize,
    /// Beholder saw an edge that is not there.
    pub false_positives: Vec<(String, String)>,
    /// Beholder missed a real edge.
    pub false_negatives: Vec<(String, String)>,
    /// Per-label counts, ascending by label.
    pub false_positives_by_class: Vec<(String, usize)>,
    pub false_negatives_by_class: Vec<(String, usize)>,
}

/// Compare beholder's edges with the oracle's: what both have, what only
/// one has, and how the disagreements are classified by their target.
pub fn compare(ours: &Vec<(String, String)>, theirs: &Vec<(String, String)>, symbols: &SymbolTable) -> (c: Comparison)
    ensures
        c.beholder_edges == ours@.len(),
        c.oracle_edges == theirs@.len(),
        pair_views(c.false_positives@) == minus(pair_views(ours@), pair_views(theirs@)),
        pair_views(c.false_negatives@) == minus(pair_views(theirs@), pair_views(ours@)),
        c.agreed == ours@.len() - c.false_positives@.len(),
        tallies(
            located_view(symbols.located@),
            minus(pair_views(ours@), pair_views(theirs@)),
            tally_views(c.false_positives_by_class@),
        ),
        tallies(
            located_view(symbols.located@),
            minus(pair_views(theirs@), pair_views(ours@)),
            tally_views(c.false_negatives_by_class@),
        ),
{
    let false_positives = difference(ours, theirs);
    let false_negatives = difference(theirs, ours);
    proof {
        lemma_minus_len(pair_views(ours@), pair_views(theirs@));
    }
    let agreed = ours.len() - false_positives.len();
    let false_positives_by_class = classify(&false_positives, symbols);
    let false_negatives_by_class = classify(&false_negatives, symbols);
    Comparison {
        beholder_edges: ours.len(),
        oracle_edges: theirs.len(),
        agreed,
        false_positives,
        false_negatives,
        false_positives_by_class,
        false_negatives_by_class,
    }
}

} // verus!
