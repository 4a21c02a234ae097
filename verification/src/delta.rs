//! Delta mode — two symbol sets in, changed symbols out.
//!
//! Matching is by symbol identity, never by line number. A symbol that only
//! moved down the file is not a change, which is what makes a reformat quiet.
//!
//! Identity cannot survive a rename or a move between files by construction:
//! the path and the name are what identity is made of. Those are real changes,
//! and delta names them as moves and renames rather than emitting a delete and
//! an unrelated add.

use crate::order::{
    lemma_seq_lt_irreflexive, lemma_seq_lt_total, lemma_seq_lt_transitive, seq_lt, str_eq, str_lt,
};
use crate::order::{contains_view, insert_sorted, sorted_strict, views};
use crate::symbol::Symbol;
use vstd::prelude::*;

verus! {

/// What happened to a symbol between two revisions.
#[derive(Debug, Clone, Copy, PartialEq, Eq, Structural)]
pub enum ChangeKind {
    Added,
    Removed,
    /// Same identity, different structure or different complexity.
    Modified,
    /// Same code, different file.
    Moved,
    /// Same body, different name.
    Renamed,
}

/// The metrics a report compares.
pub struct Metrics {
    pub id: String,
    pub path: String,
    pub qualified_path: String,
    pub start_line: usize,
    pub end_line: usize,
    pub cognitive_complexity: u32,
}

/// The metrics of a symbol.
pub open spec fn metrics_of(s: Symbol) -> Metrics {
    Metrics {
        id: s.id,
        path: s.path,
        qualified_path: s.qualified_path,
        start_line: s.start_line,
        end_line: s.end_line,
        cognitive_complexity: s.cognitive_complexity,
    }
}

impl Metrics {
    /// The metrics of a symbol.
    pub fn of(symbol: &Symbol) -> (r: Metrics)
        ensures
            r == metrics_of(*symbol),
    {
        Metrics {
            id: symbol.id.clone(),
            path: symbol.path.clone(),
            qualified_path: symbol.qualified_path.clone(),
            start_line: symbol.start_line,
            end_line: symbol.end_line,
            cognitive_complexity: symbol.cognitive_complexity,
        }
    }
}

/// One changed symbol, with before and after metrics.
pub struct SymbolChange {
    pub change: ChangeKind,
    pub language: String,
    pub kind: String,
    pub before: Option<Metrics>,
    pub after: Option<Metrics>,
    /// After minus before, when both sides exist.
    pub complexity_delta: Option<i64>,
}

/// The result of comparing two revisions.
pub struct Delta {
    /// Changed symbols only.
    pub changes: Vec<SymbolChange>,
}

impl Delta {
    /// No changes.
    pub fn empty() -> (r: Delta)
        ensures
            r.changes@.len() == 0,
    {
        Delta { changes: Vec::new() }
    }
}

/// The change record for a symbol on either or both sides.
pub open spec fn change_of(kind: ChangeKind, before: Option<Symbol>, after: Option<Symbol>) -> SymbolChange {
    let rep = if after is Some {
        after->0
    } else {
        before->0
    };
    SymbolChange {
        change: kind,
        language: rep.language,
        kind: rep.kind,
        before: match before {
            Some(b) => Some(metrics_of(b)),
            None => None,
        },
        after: match after {
            Some(a) => Some(metrics_of(a)),
            None => None,
        },
        complexity_delta: match (before, after) {
            (Some(b), Some(a)) => Some((a.cognitive_complexity - b.cognitive_complexity) as i64),
            _ => None,
        },
    }
}

/// Build the change record for a symbol on either or both sides.
fn change(kind: ChangeKind, before: Option<&Symbol>, after: Option<&Symbol>) -> (r: SymbolChange)
    requires
        before is Some || after is Some,
    ensures
        r == change_of(
            kind,
            match before {
                Some(b) => Some(*b),
                None => None,
            },
            match after {
                Some(a) => Some(*a),
                None => None,
            },
        ),
{
    let complexity_delta = match (before, after) {
        (Some(b), Some(a)) => Some(a.cognitive_complexity as i64 - b.cognitive_complexity as i64),
        _ => None,
    };
    let rep = match after {
        Some(a) => a,
        None => before.unwrap(),
    };
    let before_metrics = match before {
        Some(b) => Some(Metrics::of(b)),
        None => None,
    };
    let after_metrics = match after {
        Some(a) => Some(Metrics::of(a)),
        None => None,
    };
    SymbolChange {
        change: kind,
        language: rep.language.clone(),
        kind: rep.kind.clone(),
        before: before_metrics,
        after: after_metrics,
        complexity_delta,
    }
}

/// What must agree for two unmatched symbols to be the same symbol.
#[derive(Clone, Copy, PartialEq, Eq, Structural)]
enum Key {
    /// Identical code, so only its location can have changed.
    Content,
    /// Identical body under a different name, in the same file.
    Body,
}

/// When `key` pairs `old` with `new`.
pub open spec fn key_matches(content: bool, old: Symbol, new: Symbol) -> bool {
    if content {
        old.content_fingerprint@ == new.content_fingerprint@ && old.path@ != new.path@
    } else {
        old.body_fingerprint@ == new.body_fingerprint@ && old.path@ == new.path@
    }
}

impl Key {
    spec fn is_content(self) -> bool {
        self == Key::Content
    }

    fn matches(self, old: &Symbol, new: &Symbol) -> (r: bool)
        ensures
            r == key_matches(self.is_content(), *old, *new),
    {
        match self {
            Key::Content => str_eq(old.content_fingerprint.as_str(), new.content_fingerprint.as_str())
                && !str_eq(old.path.as_str(), new.path.as_str()),
            Key::Body => str_eq(old.body_fingerprint.as_str(), new.body_fingerprint.as_str()) && str_eq(
                old.path.as_str(),
                new.path.as_str(),
            ),
        }
    }
}

/// Position of the last symbol with id `id`, or -1.
pub open spec fn last_index(s: Seq<Symbol>, id: Seq<char>) -> int
    decreases s.len(),
{
    if s.len() == 0 {
        -1
    } else if s.last().id@ == id {
        s.len() - 1
    } else {
        last_index(s.drop_last(), id)
    }
}

proof fn lemma_last_index(s: Seq<Symbol>, id: Seq<char>)
    ensures
        -1 <= last_index(s, id) < s.len(),
        last_index(s, id) >= 0 ==> s[last_index(s, id)].id@ == id,
        last_index(s, id) < 0 <==> forall|k: int| 0 <= k < s.len() ==> (#[trigger] s[k]).id@ != id,
        forall|k: int| last_index(s, id) < k < s.len() ==> (#[trigger] s[k]).id@ != id,
    decreases s.len(),
{
    if s.len() > 0 {
        lemma_last_index(s.drop_last(), id);
        assert forall|k: int| 0 <= k < s.len() - 1 implies s.drop_last()[k] == #[trigger] s[k] by {}
    }
}

/// The last symbol with id `id`, by position.
fn find_last(s: &Vec<Symbol>, id: &str) -> (r: Option<usize>)
    ensures
        match r {
            Some(k) => k as int == last_index(s@, id@),
            None => last_index(s@, id@) < 0,
        },
{
    let mut i = s.len();
    proof {
        assert(s@.take(i as int) =~= s@);
    }
    while i > 0
        invariant
            i <= s@.len(),
            last_index(s@, id@) == last_index(s@.take(i as int), id@),
        decreases i,
    {
        proof {
            let t = s@.take(i as int);
            assert(t.drop_last() =~= s@.take(i - 1));
            assert(t.last() == s@[i - 1]);
        }
        if str_eq(s[i - 1].id.as_str(), id) {
            return Some(i - 1);
        }
        i = i - 1;
    }
    None
}

/// Symbols the same identity finds on both sides, reported where their
/// structure or their score differs.
pub open spec fn modified_changes(before: Seq<Symbol>, after: Seq<Symbol>) -> Seq<SymbolChange>
    decreases before.len(),
{
    if before.len() == 0 {
        Seq::empty()
    } else {
        let rest = modified_changes(before.drop_last(), after);
        let b = before.last();
        let k = last_index(after, b.id@);
        if k >= 0 && (after[k].content_fingerprint@ != b.content_fingerprint@ || after[k].cognitive_complexity
            != b.cognitive_complexity) {
            rest.push(change_of(ChangeKind::Modified, Some(b), Some(after[k])))
        } else {
            rest
        }
    }
}

/// The symbols of `s` whose identity `other` does not have, in order.
pub open spec fn missing_from(s: Seq<Symbol>, other: Seq<Symbol>) -> Seq<Symbol>
    decreases s.len(),
{
    if s.len() == 0 {
        Seq::empty()
    } else {
        let rest = missing_from(s.drop_last(), other);
        if last_index(other, s.last().id@) < 0 {
            rest.push(s.last())
        } else {
            rest
        }
    }
}

/// The symbols at the given positions.
pub open spec fn at_positions(s: Seq<Symbol>, ps: Seq<usize>) -> Seq<Symbol> {
    ps.map_values(|p: usize| s[p as int])
}

/// Every position is below `n`.
pub open spec fn positions_below(ps: Seq<usize>, n: int) -> bool {
    forall|i: int| 0 <= i < ps.len() ==> #[trigger] ps[i] < n
}

/// Modified symbols, and the positions of the symbols only one side has.
fn split_by_identity(before: &Vec<Symbol>, after: &Vec<Symbol>) -> (r: (Vec<SymbolChange>, Vec<usize>, Vec<usize>))
    ensures
        r.0@ == modified_changes(before@, after@),
        positions_below(r.1@, before@.len() as int),
        at_positions(before@, r.1@) == missing_from(before@, after@),
        positions_below(r.2@, after@.len() as int),
        at_positions(after@, r.2@) == missing_from(after@, before@),
{
    let mut changes: Vec<SymbolChange> = Vec::new();
    let mut removed: Vec<usize> = Vec::new();
    let nb = before.len();
    let mut i: usize = 0;
    while i < nb
        invariant
            i <= nb,
            nb == before@.len(),
            changes@ == modified_changes(before@.take(i as int), after@),
            positions_below(removed@, nb as int),
            at_positions(before@, removed@) == missing_from(before@.take(i as int), after@),
        decreases nb - i,
    {
        let b = &before[i];
        proof {
            let t = before@.take(i as int + 1);
            assert(t.drop_last() =~= before@.take(i as int));
            assert(t.last() == before@[i as int]);
            lemma_last_index(after@, b.id@);
        }
        match find_last(after, b.id.as_str()) {
            None => {
                let ghost old_removed = removed@;
                removed.push(i);
                proof {
                    assert(at_positions(before@, removed@) =~= at_positions(before@, old_removed).push(before@[i as int]));
                }
            },
            Some(k) => {
                let current = &after[k];
                let structural = !str_eq(b.content_fingerprint.as_str(), current.content_fingerprint.as_str());
                let scored = b.cognitive_complexity != current.cognitive_complexity;
                if structural || scored {
                    let c = change(ChangeKind::Modified, Some(b), Some(current));
                    changes.push(c);
                }
            },
        }
        i = i + 1;
    }
    proof {
        assert(before@.take(nb as int) =~= before@);
    }
    let mut added: Vec<usize> = Vec::new();
    let na = after.len();
    let mut j: usize = 0;
    while j < na
        invariant
            j <= na,
            na == after@.len(),
            positions_below(added@, na as int),
            at_positions(after@, added@) == missing_from(after@.take(j as int), before@),
        decreases na - j,
    {
        let a = &after[j];
        proof {
            let t = after@.take(j as int + 1);
            assert(t.drop_last() =~= after@.take(j as int));
            assert(t.last() == after@[j as int]);
        }
        if find_last(before, a.id.as_str()).is_none() {
            let ghost old_added = added@;
            added.push(j);
            proof {
                assert(at_positions(after@, added@) =~= at_positions(after@, old_added).push(after@[j as int]));
            }
        }
        j = j + 1;
    }
    proof {
        assert(after@.take(na as int) =~= after@);
    }
    (changes, removed, added)
}

/// `key` pairs `old` with `new`, and they are of one kind.
pub open spec fn pairs(content: bool, old: Symbol, new: Symbol) -> bool {
    key_matches(content, old, new) && old.kind@ == new.kind@
}

/// `j` is the first position in `add` that pairs with `old`.
pub open spec fn is_first_match(content: bool, old: Symbol, add: Seq<Symbol>, j: int) -> bool {
    &&& 0 <= j < add.len()
    &&& pairs(content, old, add[j])
    &&& forall|k: int| 0 <= k < j ==> !pairs(content, old, #[trigger] add[k])
}

/// The first position in `add` that pairs with `old`, or -1.
pub open spec fn first_match(content: bool, old: Symbol, add: Seq<Symbol>) -> int {
    if exists|j: int| is_first_match(content, old, add, j) {
        choose|j: int| is_first_match(content, old, add, j)
    } else {
        -1
    }
}

proof fn lemma_first_match(content: bool, old: Symbol, add: Seq<Symbol>, j: int)
    requires
        -1 <= j < add.len(),
        j >= 0 ==> is_first_match(content, old, add, j),
        j < 0 ==> forall|k: int| 0 <= k < add.len() ==> !pairs(content, old, #[trigger] add[k]),
    ensures
        first_match(content, old, add) == j,
{
    if j >= 0 {
        let c = choose|c: int| is_first_match(content, old, add, c);
        if c < j {
            assert(!pairs(content, old, add[c]));
        } else if c > j {
            assert(!pairs(content, old, add[j]));
        }
    } else {
        if exists|c: int| is_first_match(content, old, add, c) {
            let c = choose|c: int| is_first_match(content, old, add, c);
            assert(pairs(content, old, add[c]));
        }
    }
}

/// One matching pass: each of `rem` in turn takes the first of `add` it pairs
/// with, which is then no longer available. Gives the changes, the symbols of
/// `rem` left unpaired, and what is left of `add`.
pub open spec fn pass(kind: ChangeKind, content: bool, rem: Seq<Symbol>, add: Seq<Symbol>) -> (
    Seq<SymbolChange>,
    Seq<Symbol>,
    Seq<Symbol>,
)
    decreases rem.len(),
{
    if rem.len() == 0 {
        (Seq::empty(), Seq::empty(), add)
    } else {
        let old = rem[0];
        let j = first_match(content, old, add);
        if j >= 0 {
            let r = pass(kind, content, rem.drop_first(), add.remove(j));
            (seq![change_of(kind, Some(old), Some(add[j]))] + r.0, r.1, r.2)
        } else {
            let r = pass(kind, content, rem.drop_first(), add);
            (r.0, seq![old] + r.1, r.2)
        }
    }
}

/// Run one matching pass over positions into `before` and `after`.
fn pass_over(
    before: &Vec<Symbol>,
    after: &Vec<Symbol>,
    kind: ChangeKind,
    key: Key,
    removed: &Vec<usize>,
    added: &mut Vec<usize>,
) -> (r: (Vec<SymbolChange>, Vec<usize>))
    requires
        positions_below(removed@, before@.len() as int),
        positions_below(old(added)@, after@.len() as int),
    ensures
        positions_below(r.1@, before@.len() as int),
        positions_below(final(added)@, after@.len() as int),
        (r.0@, at_positions(before@, r.1@), at_positions(after@, final(added)@)) == pass(
            kind,
            key.is_content(),
            at_positions(before@, removed@),
            at_positions(after@, old(added)@),
        ),
{
    let ghost c = key.is_content();
    let ghost rem = at_positions(before@, removed@);
    let ghost whole = pass(kind, c, rem, at_positions(after@, added@));
    let mut changes: Vec<SymbolChange> = Vec::new();
    let mut unmatched: Vec<usize> = Vec::new();
    let n = removed.len();
    let mut i: usize = 0;
    proof {
        assert(rem.skip(0) =~= rem);
        let rest = pass(kind, c, rem, at_positions(after@, added@));
        assert(changes@ + rest.0 =~= rest.0);
        assert(at_positions(before@, unmatched@) + rest.1 =~= rest.1);
    }
    while i < n
        invariant
            i <= n,
            n == removed@.len(),
            c == key.is_content(),
            rem == at_positions(before@, removed@),
            positions_below(removed@, before@.len() as int),
            positions_below(added@, after@.len() as int),
            positions_below(unmatched@, before@.len() as int),
            whole == {
                let rest = pass(kind, c, rem.skip(i as int), at_positions(after@, added@));
                (changes@ + rest.0, at_positions(before@, unmatched@) + rest.1, rest.2)
            },
        decreases n - i,
    {
        let old = &before[removed[i]];
        let ghost add_syms = at_positions(after@, added@);
        proof {
            assert(rem.skip(i as int)[0] == *old);
            assert(rem.skip(i as int).drop_first() =~= rem.skip(i as int + 1));
        }
        let m = added.len();
        let mut pos: usize = 0;
        let mut found = false;
        while pos < m
            invariant_except_break
                !found,
            invariant
                pos <= m,
                m == added@.len(),
                add_syms == at_positions(after@, added@),
                positions_below(added@, after@.len() as int),
                c == key.is_content(),
                forall|k: int| 0 <= k < pos ==> !pairs(c, *old, #[trigger] add_syms[k]),
            ensures
                pos <= m,
                forall|k: int| 0 <= k < pos ==> !pairs(c, *old, #[trigger] add_syms[k]),
                found ==> pos < m && pairs(c, *old, add_syms[pos as int]),
                !found ==> pos == m,
            decreases m - pos,
        {
            let new = &after[added[pos]];
            proof {
                assert(add_syms[pos as int] == *new);
            }
            if key.matches(old, new) && str_eq(old.kind.as_str(), new.kind.as_str()) {
                found = true;
                break;
            }
            pos = pos + 1;
        }
        if found {
            proof {
                lemma_first_match(c, *old, add_syms, pos as int);
            }
            let taken = added.remove(pos);
            let made = change(kind, Some(old), Some(&after[taken]));
            let ghost old_changes = changes@;
            changes.push(made);
            proof {
                assert(at_positions(after@, added@) =~= add_syms.remove(pos as int));
                let rest = pass(kind, c, rem.skip(i as int + 1), at_positions(after@, added@));
                assert(changes@ + rest.0 =~= old_changes + (seq![made] + rest.0));
            }
        } else {
            proof {
                lemma_first_match(c, *old, add_syms, -1);
            }
            let ghost old_unmatched = unmatched@;
            unmatched.push(removed[i]);
            proof {
                let rest = pass(kind, c, rem.skip(i as int + 1), at_positions(after@, added@));
                assert(at_positions(before@, unmatched@) =~= at_positions(before@, old_unmatched).push(*old));
                assert(at_positions(before@, unmatched@) + rest.1 =~= at_positions(before@, old_unmatched) + (
                seq![*old] + rest.1));
            }
        }
        i = i + 1;
    }
    proof {
        assert(rem.skip(n as int) =~= Seq::<Symbol>::empty());
        assert(changes@ + Seq::<SymbolChange>::empty() =~= changes@);
        assert(at_positions(before@, unmatched@) + Seq::<Symbol>::empty() =~= at_positions(before@, unmatched@));
    }
    (changes, unmatched)
}

/// Output order of a change: by path, then start line, then id, of its
/// after side when it has one, else of its before side.
pub open spec fn order_key(c: SymbolChange) -> (Seq<char>, usize, Seq<char>) {
    match (c.after, c.before) {
        (Some(m), _) => (m.path@, m.start_line, m.id@),
        (None, Some(m)) => (m.path@, m.start_line, m.id@),
        (None, None) => (Seq::empty(), 0, Seq::empty()),
    }
}

/// Is key `a` strictly before key `b`?
pub open spec fn key_lt(a: (Seq<char>, usize, Seq<char>), b: (Seq<char>, usize, Seq<char>)) -> bool {
    seq_lt(a.0, b.0) || (a.0 == b.0 && (a.1 < b.1 || (a.1 == b.1 && seq_lt(a.2, b.2))))
}

pub proof fn lemma_key_lt_irreflexive(a: (Seq<char>, usize, Seq<char>))
    ensures
        !key_lt(a, a),
{
    lemma_seq_lt_irreflexive(a.0);
    lemma_seq_lt_irreflexive(a.2);
}

pub proof fn lemma_key_lt_transitive(a: (Seq<char>, usize, Seq<char>), b: (Seq<char>, usize, Seq<char>), c: (Seq<char>, usize, Seq<char>))
    requires
        key_lt(a, b),
        key_lt(b, c),
    ensures
        key_lt(a, c),
{
    lemma_seq_lt_irreflexive(a.0);
    lemma_seq_lt_irreflexive(b.0);
    lemma_seq_lt_irreflexive(c.0);
    if seq_lt(a.0, b.0) && seq_lt(b.0, c.0) {
        lemma_seq_lt_transitive(a.0, b.0, c.0);
    }
    if a.0 == b.0 && b.0 == c.0 && a.1 == b.1 && b.1 == c.1 {
        lemma_seq_lt_transitive(a.2, b.2, c.2);
    }
}

pub proof fn lemma_key_lt_total(a: (Seq<char>, usize, Seq<char>), b: (Seq<char>, usize, Seq<char>))
    ensures
        key_lt(a, b) || key_lt(b, a) || a == b,
{
    lemma_seq_lt_total(a.0, b.0);
    lemma_seq_lt_total(a.2, b.2);
}

/// `output` is `input` stably sorted by `order_key`, with `idx[k]` the
/// position in `input` of `output[k]`.
pub open spec fn sorted_by(input: Seq<SymbolChange>, output: Seq<SymbolChange>, idx: Seq<int>) -> bool {
    &&& output.len() == input.len()
    &&& idx.len() == input.len()
    &&& forall|k: int| 0 <= k < idx.len() ==> 0 <= #[trigger] idx[k] < input.len() && output[k] == input[idx[k]]
    &&& forall|k: int, l: int| 0 <= k < l < idx.len() ==> #[trigger] idx[k] != #[trigger] idx[l]
    &&& forall|k: int, l: int|
        0 <= k < l < output.len() ==> !key_lt(order_key(#[trigger] output[l]), order_key(#[trigger] output[k]))
    &&& forall|k: int, l: int|
        0 <= k < l < output.len() && order_key(#[trigger] output[k]) == order_key(#[trigger] output[l]) ==> idx[k]
            < idx[l]
}

/// `output` is `input` stably sorted by `order_key`.
pub open spec fn stably_sorted(input: Seq<SymbolChange>, output: Seq<SymbolChange>) -> bool {
    exists|idx: Seq<int>| #[trigger] sorted_by(input, output, idx)
}

/// The order key of a change, computed.
fn key_of(c: &SymbolChange) -> (r: (&str, usize, &str))
    ensures
        (r.0@, r.1, r.2@) == order_key(*c),
{
    proof {
        reveal_strlit("");
    }
    match (&c.after, &c.before) {
        (Some(m), _) => (m.path.as_str(), m.start_line, m.id.as_str()),
        (None, Some(m)) => (m.path.as_str(), m.start_line, m.id.as_str()),
        (None, None) => ("", 0, ""),
    }
}

/// Is `a` strictly before `b` in output order?
fn before_in_order(a: &SymbolChange, b: &SymbolChange) -> (r: bool)
    ensures
        r == key_lt(order_key(*a), order_key(*b)),
{
    let (pa, la, ia) = key_of(a);
    let (pb, lb, ib) = key_of(b);
    if str_lt(pa, pb) {
        true
    } else if !str_eq(pa, pb) {
        false
    } else if la != lb {
        la < lb
    } else {
        str_lt(ia, ib)
    }
}

/// Sort changes stably into output order.
fn sort_changes(changes: Vec<SymbolChange>) -> (r: Vec<SymbolChange>)
    ensures
        stably_sorted(changes@, r@),
{
    let ghost input = changes@;
    let mut rest = changes;
    let mut out: Vec<SymbolChange> = Vec::new();
    let ghost mut idx: Seq<int> = Seq::empty();
    let n = rest.len();
    let mut i: usize = 0;
    proof {
        assert(input.skip(0) =~= input);
    }
    while i < n
        invariant
            i <= n,
            n == input.len(),
            rest@ == input.skip(i as int),
            sorted_by(input.take(i as int), out@, idx),
        decreases n - i,
    {
        let x = rest.remove(0);
        proof {
            assert(x == input[i as int]);
            assert(rest@ =~= input.skip(i as int + 1));
        }
        let mut p: usize = 0;
        while p < out.len() && !before_in_order(&x, &out[p])
            invariant
                p <= out@.len(),
                forall|k: int| 0 <= k < p ==> !key_lt(order_key(x), order_key(#[trigger] out@[k])),
            decreases out@.len() - p,
        {
            p = p + 1;
        }
        let ghost old_out = out@;
        let ghost old_idx = idx;
        out.insert(p, x);
        proof {
            idx = old_idx.insert(p as int, i as int);
            lemma_insert_sorted(input, i as int, old_out, old_idx, out@, idx, p as int, x);
        }
        i = i + 1;
    }
    proof {
        assert(input.take(n as int) =~= input);
    }
    out
}

proof fn lemma_insert_sorted(
    input: Seq<SymbolChange>,
    i: int,
    old_out: Seq<SymbolChange>,
    old_idx: Seq<int>,
    out: Seq<SymbolChange>,
    idx: Seq<int>,
    p: int,
    x: SymbolChange,
)
    requires
        0 <= i < input.len(),
        x == input[i],
        sorted_by(input.take(i), old_out, old_idx),
        0 <= p <= old_out.len(),
        forall|k: int| 0 <= k < p ==> !key_lt(order_key(x), order_key(#[trigger] old_out[k])),
        p < old_out.len() ==> key_lt(order_key(x), order_key(old_out[p])),
        out == old_out.insert(p, x),
        idx == old_idx.insert(p, i),
    ensures
        sorted_by(input.take(i + 1), out, idx),
{
    let t = input.take(i + 1);
    assert forall|k: int| 0 <= k < idx.len() implies 0 <= #[trigger] idx[k] < t.len() && out[k] == t[idx[k]] by {
        if k < p {
            assert(idx[k] == old_idx[k] && out[k] == old_out[k]);
        } else if k > p {
            assert(idx[k] == old_idx[k - 1] && out[k] == old_out[k - 1]);
        }
    }
    assert forall|k: int, l: int| 0 <= k < l < idx.len() implies #[trigger] idx[k] != #[trigger] idx[l] by {
        if k < p && l < p {
            assert(idx[k] == old_idx[k] && idx[l] == old_idx[l]);
        } else if k < p && l == p {
            assert(idx[k] == old_idx[k]);
        } else if k < p {
            assert(idx[k] == old_idx[k] && idx[l] == old_idx[l - 1]);
        } else if k == p {
            assert(idx[l] == old_idx[l - 1]);
        } else {
            assert(idx[k] == old_idx[k - 1] && idx[l] == old_idx[l - 1]);
        }
    }
    // Everything at or after `p` in the old order comes strictly after `x`.
    assert forall|m: int| p <= m < old_out.len() implies key_lt(order_key(x), order_key(#[trigger] old_out[m])) by {
        if m > p {
            assert(!key_lt(order_key(old_out[m]), order_key(old_out[p])));
            lemma_key_lt_total(order_key(old_out[m]), order_key(old_out[p]));
            if key_lt(order_key(old_out[p]), order_key(old_out[m])) {
                lemma_key_lt_transitive(order_key(x), order_key(old_out[p]), order_key(old_out[m]));
            }
        }
    }
    assert forall|k: int, l: int| 0 <= k < l < out.len() implies !key_lt(
        order_key(#[trigger] out[l]),
        order_key(#[trigger] out[k]),
    ) by {
        if k < p && l < p {
            assert(out[k] == old_out[k] && out[l] == old_out[l]);
        } else if k < p && l == p {
            assert(out[k] == old_out[k]);
        } else if k < p {
            assert(out[k] == old_out[k] && out[l] == old_out[l - 1]);
            lemma_key_lt_total(order_key(out[l]), order_key(out[k]));
            if key_lt(order_key(out[l]), order_key(out[k])) {
                assert(key_lt(order_key(x), order_key(old_out[l - 1])));
                lemma_key_lt_transitive(order_key(x), order_key(out[l]), order_key(out[k]));
            }
        } else if k == p {
            assert(out[l] == old_out[l - 1]);
            assert(key_lt(order_key(x), order_key(old_out[l - 1])));
            if key_lt(order_key(out[l]), order_key(x)) {
                lemma_key_lt_transitive(order_key(x), order_key(out[l]), order_key(x));
                lemma_key_lt_irreflexive(order_key(x));
            }
        } else {
            assert(out[k] == old_out[k - 1] && out[l] == old_out[l - 1]);
        }
    }
    assert forall|k: int, l: int|
        0 <= k < l < out.len() && order_key(#[trigger] out[k]) == order_key(#[trigger] out[l]) implies idx[k]
        < idx[l] by {
        if k < p && l < p {
            assert(out[k] == old_out[k] && out[l] == old_out[l]);
            assert(idx[k] == old_idx[k] && idx[l] == old_idx[l]);
        } else if k < p && l == p {
            assert(idx[k] == old_idx[k]);
        } else if k < p {
            assert(out[k] == old_out[k] && out[l] == old_out[l - 1]);
            assert(idx[k] == old_idx[k] && idx[l] == old_idx[l - 1]);
        } else if k == p {
            assert(out[l] == old_out[l - 1]);
            assert(key_lt(order_key(x), order_key(old_out[l - 1])));
            lemma_key_lt_irreflexive(order_key(x));
        } else {
            assert(out[k] == old_out[k - 1] && out[l] == old_out[l - 1]);
            assert(idx[k] == old_idx[k - 1] && idx[l] == old_idx[l - 1]);
        }
    }
}

/// Removal records for symbols only the earlier side has.
pub open spec fn removed_changes(s: Seq<Symbol>) -> Seq<SymbolChange> {
    s.map_values(|b: Symbol| change_of(ChangeKind::Removed, Some(b), None))
}

/// Addition records for symbols only the later side has.
pub open spec fn added_changes(s: Seq<Symbol>) -> Seq<SymbolChange> {
    s.map_values(|a: Symbol| change_of(ChangeKind::Added, None, Some(a)))
}

/// Every change between two symbol sets before ordering: modifications in
/// `before` order, then moves, then renames, then what is left removed, then
/// what is left added. Moves are paired before renames, and each pairing
/// consumes both sides.
pub open spec fn unsorted_changes(before: Seq<Symbol>, after: Seq<Symbol>) -> Seq<SymbolChange> {
    let moved = pass(ChangeKind::Moved, true, missing_from(before, after), missing_from(after, before));
    let renamed = pass(ChangeKind::Renamed, false, moved.1, moved.2);
    modified_changes(before, after) + moved.0 + renamed.0 + removed_changes(renamed.1) + added_changes(renamed.2)
}

/// One record per symbol at the given positions, of the given kind.
fn one_sided(s: &Vec<Symbol>, ps: &Vec<usize>, removed: bool) -> (r: Vec<SymbolChange>)
    requires
        positions_below(ps@, s@.len() as int),
    ensures
        r@ == if removed {
            removed_changes(at_positions(s@, ps@))
        } else {
            added_changes(at_positions(s@, ps@))
        },
{
    let mut out: Vec<SymbolChange> = Vec::new();
    let mut i: usize = 0;
    while i < ps.len()
        invariant
            i <= ps@.len(),
            positions_below(ps@, s@.len() as int),
            out@ == if removed {
                removed_changes(at_positions(s@, ps@).take(i as int))
            } else {
                added_changes(at_positions(s@, ps@).take(i as int))
            },
        decreases ps@.len() - i,
    {
        let sym = &s[ps[i]];
        let c = if removed {
            change(ChangeKind::Removed, Some(sym), None)
        } else {
            change(ChangeKind::Added, None, Some(sym))
        };
        let ghost old_out = out@;
        out.push(c);
        proof {
            let t = at_positions(s@, ps@);
            assert(t[i as int] == *sym);
            if removed {
                assert(removed_changes(t.take(i as int + 1)) =~= removed_changes(t.take(i as int)).push(c));
            } else {
                assert(added_changes(t.take(i as int + 1)) =~= added_changes(t.take(i as int)).push(c));
            }
        }
        i = i + 1;
    }
    proof {
        assert(at_positions(s@, ps@).take(ps@.len() as int) =~= at_positions(s@, ps@));
    }
    out
}

/// Compare two symbol sets by symbol identity.
///
/// `before` and `after` list every symbol of each revision, in analysis
/// order. A symbol whose identity both sides have is reported only when its
/// token stream or its score changed; symbols only one side has are paired as
/// moves (identical code, other file), then as renames (identical body, same
/// file); the rest are removals and additions. The result is ordered by path,
/// start line and id.
pub fn compare(before: &Vec<Symbol>, after: &Vec<Symbol>) -> (r: Delta)
    ensures
        stably_sorted(unsorted_changes(before@, after@), r.changes@),
{
    let (mut changes, removed, mut added) = split_by_identity(before, after);
    let (mut moved, removed) = pass_over(before, after, ChangeKind::Moved, Key::Content, &removed, &mut added);
    let (mut renamed, removed) = pass_over(before, after, ChangeKind::Renamed, Key::Body, &removed, &mut added);
    let mut gone = one_sided(before, &removed, true);
    let mut new = one_sided(after, &added, false);
    changes.append(&mut moved);
    changes.append(&mut renamed);
    changes.append(&mut gone);
    changes.append(&mut new);
    let sorted = sort_changes(changes);
    Delta { changes: sorted }
}

/// No two symbols share an identity.
pub open spec fn ids_distinct(s: Seq<Symbol>) -> bool {
    forall|i: int, j: int| 0 <= i < j < s.len() ==> (#[trigger] s[i]).id@ != (#[trigger] s[j]).id@
}

proof fn lemma_last_index_distinct(s: Seq<Symbol>, i: int)
    requires
        ids_distinct(s),
        0 <= i < s.len(),
    ensures
        last_index(s, s[i].id@) == i,
{
    lemma_last_index(s, s[i].id@);
    let k = last_index(s, s[i].id@);
    if k < i {
        assert(s[i].id@ == s[i].id@);
    } else if k > i {
        assert(s[k].id@ == s[i].id@);
    }
}

proof fn lemma_self_compare_prefix(s: Seq<Symbol>, j: int)
    requires
        ids_distinct(s),
        0 <= j <= s.len(),
    ensures
        modified_changes(s.take(j), s) == Seq::<SymbolChange>::empty(),
        missing_from(s.take(j), s) == Seq::<Symbol>::empty(),
    decreases j,
{
    if j > 0 {
        let t = s.take(j);
        assert(t.drop_last() =~= s.take(j - 1));
        assert(t.last() == s[j - 1]);
        lemma_self_compare_prefix(s, j - 1);
        lemma_last_index_distinct(s, j - 1);
    }
}

/// Comparing a symbol set with itself reports no change, when no two of its
/// symbols share an identity: identical revisions report nothing.
pub proof fn law_identical_revisions_report_nothing(s: Seq<Symbol>, out: Seq<SymbolChange>)
    requires
        ids_distinct(s),
        stably_sorted(unsorted_changes(s, s), out),
    ensures
        unsorted_changes(s, s) == Seq::<SymbolChange>::empty(),
        out == Seq::<SymbolChange>::empty(),
{
    lemma_self_compare_prefix(s, s.len() as int);
    assert(s.take(s.len() as int) =~= s);
    let moved = pass(ChangeKind::Moved, true, missing_from(s, s), missing_from(s, s));
    assert(moved == (Seq::<SymbolChange>::empty(), Seq::<Symbol>::empty(), Seq::<Symbol>::empty()));
    let renamed = pass(ChangeKind::Renamed, false, moved.1, moved.2);
    assert(renamed == (Seq::<SymbolChange>::empty(), Seq::<Symbol>::empty(), Seq::<Symbol>::empty()));
    assert(unsorted_changes(s, s) =~= Seq::<SymbolChange>::empty());
    let idx = choose|idx: Seq<int>| #[trigger] sorted_by(unsorted_changes(s, s), out, idx);
    assert(out =~= Seq::<SymbolChange>::empty());
}

/// The symbol with `b`'s identity on the other side has `b`'s token stream
/// and `b`'s score.
pub open spec fn unchanged_in(b: Symbol, other: Seq<Symbol>) -> bool {
    let k = last_index(other, b.id@);
    &&& k >= 0
    &&& other[k].content_fingerprint@ == b.content_fingerprint@
    &&& other[k].cognitive_complexity == b.cognitive_complexity
}

/// Some symbol of `other` has `b`'s identity.
pub open spec fn has_identity(b: Symbol, other: Seq<Symbol>) -> bool {
    last_index(other, b.id@) >= 0
}

proof fn lemma_nothing_modified(before: Seq<Symbol>, after: Seq<Symbol>)
    requires
        forall|i: int| 0 <= i < before.len() ==> unchanged_in(#[trigger] before[i], after),
    ensures
        modified_changes(before, after) == Seq::<SymbolChange>::empty(),
    decreases before.len(),
{
    if before.len() > 0 {
        let rest = before.drop_last();
        assert forall|i: int| 0 <= i < rest.len() implies unchanged_in(#[trigger] rest[i], after) by {
            assert(rest[i] == before[i]);
        }
        lemma_nothing_modified(rest, after);
        assert(unchanged_in(before[before.len() - 1], after));
    }
}

proof fn lemma_nothing_missing(s: Seq<Symbol>, other: Seq<Symbol>)
    requires
        forall|i: int| 0 <= i < s.len() ==> has_identity(#[trigger] s[i], other),
    ensures
        missing_from(s, other) == Seq::<Symbol>::empty(),
    decreases s.len(),
{
    if s.len() > 0 {
        let rest = s.drop_last();
        assert forall|i: int| 0 <= i < rest.len() implies has_identity(#[trigger] rest[i], other) by {
            assert(rest[i] == s[i]);
        }
        lemma_nothing_missing(rest, other);
        assert(has_identity(s[s.len() - 1], other));
    }
}

/// Matching is by identity, never by position: when both sides have the same
/// identities, and each symbol's identity finds the same token stream and the
/// same score on the other side, nothing is reported, however far the symbols
/// moved within their files and in whatever order they were listed.
pub proof fn law_only_code_and_scores_are_changes(
    before: Seq<Symbol>,
    after: Seq<Symbol>,
    out: Seq<SymbolChange>,
)
    requires
        forall|i: int| 0 <= i < before.len() ==> unchanged_in(#[trigger] before[i], after),
        forall|j: int| 0 <= j < after.len() ==> has_identity(#[trigger] after[j], before),
        stably_sorted(unsorted_changes(before, after), out),
    ensures
        unsorted_changes(before, after) == Seq::<SymbolChange>::empty(),
        out == Seq::<SymbolChange>::empty(),
{
    lemma_nothing_modified(before, after);
    assert forall|i: int| 0 <= i < before.len() implies has_identity(#[trigger] before[i], after) by {
        assert(unchanged_in(before[i], after));
    }
    lemma_nothing_missing(before, after);
    lemma_nothing_missing(after, before);
    let moved = pass(ChangeKind::Moved, true, missing_from(before, after), missing_from(after, before));
    assert(moved == (Seq::<SymbolChange>::empty(), Seq::<Symbol>::empty(), Seq::<Symbol>::empty()));
    let renamed = pass(ChangeKind::Renamed, false, moved.1, moved.2);
    assert(renamed == (Seq::<SymbolChange>::empty(), Seq::<Symbol>::empty(), Seq::<Symbol>::empty()));
    assert(unsorted_changes(before, after) =~= Seq::<SymbolChange>::empty());
    let idx = choose|idx: Seq<int>| #[trigger] sorted_by(unsorted_changes(before, after), out, idx);
    assert(out =~= Seq::<SymbolChange>::empty());
}

/// A change record whose sides fit its kind: a removal has only its before
/// side, an addition only its after side, every other change both; the
/// complexity delta is present exactly when both sides are, and is then the
/// after score minus the before score.
pub open spec fn change_consistent(c: SymbolChange) -> bool {
    &&& (c.change == ChangeKind::Removed ==> c.before is Some && c.after is None)
    &&& (c.change == ChangeKind::Added ==> c.before is None && c.after is Some)
    &&& (c.change != ChangeKind::Removed && c.change != ChangeKind::Added ==> c.before is Some && c.after is Some)
    &&& (c.complexity_delta is Some <==> c.before is Some && c.after is Some)
    &&& (c.complexity_delta matches Some(d) ==> d == (c.after->0.cognitive_complexity
        - c.before->0.cognitive_complexity) as i64)
}

proof fn lemma_modified_consistent(before: Seq<Symbol>, after: Seq<Symbol>)
    ensures
        forall|k: int| 0 <= k < modified_changes(before, after).len() ==> {
            let c = #[trigger] modified_changes(before, after)[k];
            change_consistent(c) && c.change == ChangeKind::Modified
        },
    decreases before.len(),
{
    if before.len() > 0 {
        lemma_modified_consistent(before.drop_last(), after);
    }
}

proof fn lemma_pass_consistent(kind: ChangeKind, content: bool, rem: Seq<Symbol>, add: Seq<Symbol>)
    requires
        kind == ChangeKind::Moved || kind == ChangeKind::Renamed,
    ensures
        forall|k: int| 0 <= k < pass(kind, content, rem, add).0.len() ==> {
            let c = #[trigger] pass(kind, content, rem, add).0[k];
            change_consistent(c) && c.change == kind
        },
    decreases rem.len(),
{
    if rem.len() > 0 {
        let j = first_match(content, rem[0], add);
        if j >= 0 {
            lemma_pass_consistent(kind, content, rem.drop_first(), add.remove(j));
        } else {
            lemma_pass_consistent(kind, content, rem.drop_first(), add);
        }
    }
}

/// Every change that a comparison reports has the sides its kind calls for,
/// and a complexity delta exactly when it has both sides: the after score
/// minus the before score.
pub proof fn law_changes_fit_their_kind(before: Seq<Symbol>, after: Seq<Symbol>, out: Seq<SymbolChange>)
    requires
        stably_sorted(unsorted_changes(before, after), out),
    ensures
        forall|k: int| 0 <= k < out.len() ==> change_consistent(#[trigger] out[k]),
{
    let moved = pass(ChangeKind::Moved, true, missing_from(before, after), missing_from(after, before));
    let renamed = pass(ChangeKind::Renamed, false, moved.1, moved.2);
    lemma_modified_consistent(before, after);
    lemma_pass_consistent(ChangeKind::Moved, true, missing_from(before, after), missing_from(after, before));
    lemma_pass_consistent(ChangeKind::Renamed, false, moved.1, moved.2);
    let m = modified_changes(before, after);
    let all = unsorted_changes(before, after);
    let rm = removed_changes(renamed.1);
    let ad = added_changes(renamed.2);
    assert(all == m + moved.0 + renamed.0 + rm + ad);
    assert forall|k: int| 0 <= k < all.len() implies change_consistent(#[trigger] all[k]) by {
        if k < m.len() {
            assert(all[k] == m[k]);
        } else if k < m.len() + moved.0.len() {
            assert(all[k] == moved.0[k - m.len()]);
        } else if k < m.len() + moved.0.len() + renamed.0.len() {
            assert(all[k] == renamed.0[k - m.len() - moved.0.len()]);
        } else if k < m.len() + moved.0.len() + renamed.0.len() + rm.len() {
            assert(all[k] == rm[k - m.len() - moved.0.len() - renamed.0.len()]);
        } else {
            assert(all[k] == ad[k - m.len() - moved.0.len() - renamed.0.len() - rm.len()]);
        }
    }
    let idx = choose|idx: Seq<int>| #[trigger] sorted_by(all, out, idx);
    assert forall|k: int| 0 <= k < out.len() implies change_consistent(#[trigger] out[k]) by {
        assert(out[k] == all[idx[k]]);
    }
}

proof fn lemma_pass_paths(kind: ChangeKind, content: bool, rem: Seq<Symbol>, add: Seq<Symbol>)
    ensures
        forall|k: int| 0 <= k < pass(kind, content, rem, add).0.len() ==> {
            let c = #[trigger] pass(kind, content, rem, add).0[k];
            &&& c.change == kind
            &&& c.before is Some
            &&& c.after is Some
            &&& content ==> c.before->0.path@ != c.after->0.path@
            &&& !content ==> c.before->0.path@ == c.after->0.path@
        },
    decreases rem.len(),
{
    if rem.len() > 0 {
        let old = rem[0];
        let j = first_match(content, old, add);
        if j >= 0 {
            let w = choose|w: int| is_first_match(content, old, add, w);
            assert(is_first_match(content, old, add, w));
            assert(pairs(content, old, add[j]));
            lemma_pass_paths(kind, content, rem.drop_first(), add.remove(j));
        } else {
            lemma_pass_paths(kind, content, rem.drop_first(), add);
        }
    }
}

/// A rename pairs symbols of one file, and a move symbols of two different
/// files: every renamed change has the same path on both sides, every moved
/// change different paths.
pub proof fn law_renames_stay_in_their_file(before: Seq<Symbol>, after: Seq<Symbol>, out: Seq<SymbolChange>)
    requires
        stably_sorted(unsorted_changes(before, after), out),
    ensures
        forall|k: int|
            0 <= k < out.len() && (#[trigger] out[k]).change == ChangeKind::Renamed ==> out[k].before is Some
                && out[k].after is Some && out[k].before->0.path@ == out[k].after->0.path@,
        forall|k: int|
            0 <= k < out.len() && (#[trigger] out[k]).change == ChangeKind::Moved ==> out[k].before is Some
                && out[k].after is Some && out[k].before->0.path@ != out[k].after->0.path@,
{
    let moved = pass(ChangeKind::Moved, true, missing_from(before, after), missing_from(after, before));
    let renamed = pass(ChangeKind::Renamed, false, moved.1, moved.2);
    lemma_modified_consistent(before, after);
    lemma_pass_paths(ChangeKind::Moved, true, missing_from(before, after), missing_from(after, before));
    lemma_pass_paths(ChangeKind::Renamed, false, moved.1, moved.2);
    let m = modified_changes(before, after);
    let all = unsorted_changes(before, after);
    let rm = removed_changes(renamed.1);
    let ad = added_changes(renamed.2);
    assert(all == m + moved.0 + renamed.0 + rm + ad);
    let n1 = m.len();
    let n2 = n1 + moved.0.len();
    let n3 = n2 + renamed.0.len();
    let n4 = n3 + rm.len();
    assert forall|p: int| 0 <= p < all.len() implies {
        &&& (#[trigger] all[p]).change == ChangeKind::Renamed ==> all[p].before is Some && all[p].after is Some
            && all[p].before->0.path@ == all[p].after->0.path@
        &&& all[p].change == ChangeKind::Moved ==> all[p].before is Some && all[p].after is Some
            && all[p].before->0.path@ != all[p].after->0.path@
    } by {
        if p < n1 {
            assert(all[p] == m[p]);
        } else if p < n2 {
            assert(all[p] == moved.0[p - n1]);
        } else if p < n3 {
            assert(all[p] == renamed.0[p - n2]);
        } else if p < n4 {
            assert(all[p] == rm[p - n3]);
        } else {
            assert(all[p] == ad[p - n4]);
        }
    }
    let idx = choose|idx: Seq<int>| #[trigger] sorted_by(all, out, idx);
    assert forall|k: int| 0 <= k < out.len() implies out[k] == all[idx[k]] by {}
}

/// `b`'s identity finds a symbol on the other side whose token stream or
/// score differs from `b`'s.
pub open spec fn modified_at(b: Symbol, after: Seq<Symbol>) -> bool {
    has_identity(b, after) && !unchanged_in(b, after)
}

/// The modification record of `b` against the symbol its identity finds in
/// `after`.
#[verifier::opaque]
pub open spec fn modified_record(b: Symbol, after: Seq<Symbol>) -> SymbolChange {
    change_of(ChangeKind::Modified, Some(b), Some(after[last_index(after, b.id@)]))
}

proof fn lemma_modified_record(b: Symbol, after: Seq<Symbol>)
    ensures
        modified_record(b, after).before == Some(metrics_of(b)),
        modified_record(b, after) == change_of(
            ChangeKind::Modified,
            Some(b),
            Some(after[last_index(after, b.id@)]),
        ),
{
    reveal(modified_record);
}

/// One step of `modified_changes`: the last symbol adds its record exactly
/// when it is modified.
proof fn lemma_modified_step(s: Seq<Symbol>, after: Seq<Symbol>)
    requires
        s.len() > 0,
    ensures
        modified_at(s.last(), after) ==> modified_changes(s, after) == modified_changes(s.drop_last(), after).push(
            modified_record(s.last(), after),
        ),
        !modified_at(s.last(), after) ==> modified_changes(s, after) == modified_changes(s.drop_last(), after),
{
    lemma_modified_record(s.last(), after);
}

proof fn lemma_modified_members(s: Seq<Symbol>, after: Seq<Symbol>)
    ensures
        forall|k: int|
            0 <= k < modified_changes(s, after).len() ==> exists|j: int|
                0 <= j < s.len() && modified_at(s[j], after) && #[trigger] modified_changes(s, after)[k]
                    == modified_record(s[j], after),
    decreases s.len(),
{
    if s.len() > 0 {
        let rest = s.drop_last();
        lemma_modified_members(rest, after);
        lemma_modified_step(s, after);
        let m = modified_changes(s, after);
        let mr = modified_changes(rest, after);
        assert forall|k: int| 0 <= k < m.len() implies exists|j: int|
            0 <= j < s.len() && modified_at(s[j], after) && #[trigger] m[k] == modified_record(s[j], after) by {
            if k < mr.len() {
                assert(m[k] == mr[k]);
                let j = choose|j: int|
                    0 <= j < rest.len() && modified_at(rest[j], after) && #[trigger] mr[k] == modified_record(
                        rest[j],
                        after,
                    );
                assert(rest[j] == s[j]);
            } else {
                assert(s[s.len() - 1] == s.last());
            }
        }
    }
}

proof fn lemma_modified_found(s: Seq<Symbol>, after: Seq<Symbol>, j: int)
    requires
        0 <= j < s.len(),
        modified_at(s[j], after),
    ensures
        exists|k: int|
            0 <= k < modified_changes(s, after).len() && #[trigger] modified_changes(s, after)[k] == modified_record(
                s[j],
                after,
            ),
    decreases s.len(),
{
    let rest = s.drop_last();
    lemma_modified_step(s, after);
    let m = modified_changes(s, after);
    let mr = modified_changes(rest, after);
    if j < s.len() - 1 {
        assert(rest[j] == s[j]);
        lemma_modified_found(rest, after, j);
        let k = choose|k: int| 0 <= k < mr.len() && #[trigger] mr[k] == modified_record(rest[j], after);
        assert(m[k] == mr[k]);
    } else {
        assert(m[mr.len() as int] == modified_record(s[j], after));
    }
}

proof fn lemma_missing_members(s: Seq<Symbol>, other: Seq<Symbol>)
    ensures
        forall|k: int|
            0 <= k < missing_from(s, other).len() ==> !has_identity(#[trigger] missing_from(s, other)[k], other),
    decreases s.len(),
{
    if s.len() > 0 {
        let rest = s.drop_last();
        lemma_missing_members(rest, other);
        let ms = missing_from(s, other);
        let mr = missing_from(rest, other);
        assert forall|k: int| 0 <= k < ms.len() implies !has_identity(#[trigger] ms[k], other) by {
            if k < mr.len() {
                assert(ms[k] == mr[k]);
            }
        }
    }
}

/// The changes of a pass carry, on their earlier side, only symbols whose
/// identity `after` lacks, and so do the symbols it leaves unpaired, when
/// every symbol it starts from does.
proof fn lemma_pass_unpaired(kind: ChangeKind, content: bool, rem: Seq<Symbol>, add: Seq<Symbol>, after: Seq<Symbol>)
    requires
        forall|j: int| 0 <= j < rem.len() ==> !has_identity(#[trigger] rem[j], after),
    ensures
        forall|k: int|
            0 <= k < pass(kind, content, rem, add).0.len() ==> (#[trigger] pass(kind, content, rem, add).0[k]).before
                is Some && last_index(after, pass(kind, content, rem, add).0[k].before->0.id@) < 0,
        forall|k: int|
            0 <= k < pass(kind, content, rem, add).1.len() ==> !has_identity(
                #[trigger] pass(kind, content, rem, add).1[k],
                after,
            ),
    decreases rem.len(),
{
    if rem.len() > 0 {
        let old = rem[0];
        let tail = rem.drop_first();
        assert forall|j: int| 0 <= j < tail.len() implies !has_identity(#[trigger] tail[j], after) by {
            assert(tail[j] == rem[j + 1]);
        }
        let j0 = first_match(content, old, add);
        let r = if j0 >= 0 {
            pass(kind, content, tail, add.remove(j0))
        } else {
            pass(kind, content, tail, add)
        };
        if j0 >= 0 {
            lemma_pass_unpaired(kind, content, tail, add.remove(j0), after);
        } else {
            lemma_pass_unpaired(kind, content, tail, add, after);
        }
        let p = pass(kind, content, rem, add);
        assert(!has_identity(rem[0], after));
        assert forall|k: int| 0 <= k < p.0.len() implies (#[trigger] p.0[k]).before is Some && last_index(
            after,
            p.0[k].before->0.id@,
        ) < 0 by {
            if j0 >= 0 {
                if k > 0 {
                    assert(p.0[k] == r.0[k - 1]);
                }
            } else {
                assert(p.0[k] == r.0[k]);
            }
        }
        assert forall|k: int| 0 <= k < p.1.len() implies !has_identity(#[trigger] p.1[k], after) by {
            if j0 >= 0 {
                assert(p.1[k] == r.1[k]);
            } else if k > 0 {
                assert(p.1[k] == r.1[k - 1]);
            }
        }
    }
}

/// Past the modifications, no change carries on its earlier side a symbol
/// whose identity the later side has.
proof fn lemma_tail_unpaired(before: Seq<Symbol>, after: Seq<Symbol>)
    ensures
        forall|p: int|
            modified_changes(before, after).len() <= p < unsorted_changes(before, after).len() && (
            #[trigger] unsorted_changes(before, after)[p]).before is Some ==> last_index(
                after,
                unsorted_changes(before, after)[p].before->0.id@,
            ) < 0,
{
    let rem0 = missing_from(before, after);
    let moved = pass(ChangeKind::Moved, true, rem0, missing_from(after, before));
    let renamed = pass(ChangeKind::Renamed, false, moved.1, moved.2);
    let m = modified_changes(before, after);
    let all = unsorted_changes(before, after);
    let rm = removed_changes(renamed.1);
    let ad = added_changes(renamed.2);
    lemma_missing_members(before, after);
    lemma_pass_unpaired(ChangeKind::Moved, true, rem0, missing_from(after, before), after);
    lemma_pass_unpaired(ChangeKind::Renamed, false, moved.1, moved.2, after);
    assert(all == m + moved.0 + renamed.0 + rm + ad);
    let n1 = m.len();
    let n2 = n1 + moved.0.len();
    let n3 = n2 + renamed.0.len();
    let n4 = n3 + rm.len();
    assert forall|p: int| n1 <= p < all.len() && (#[trigger] all[p]).before is Some implies last_index(
        after,
        all[p].before->0.id@,
    ) < 0 by {
        if p < n2 {
            assert(all[p] == moved.0[p - n1]);
        } else if p < n3 {
            assert(all[p] == renamed.0[p - n2]);
        } else if p < n4 {
            assert(all[p] == rm[p - n3]);
            assert(!has_identity(renamed.1[p - n3], after));
        } else {
            assert(all[p] == ad[p - n4]);
        }
    }
}

/// A stable sort leaves out no position of its input.
proof fn lemma_sorted_covers(input: Seq<SymbolChange>, output: Seq<SymbolChange>, idx: Seq<int>, p: int)
    requires
        sorted_by(input, output, idx),
        0 <= p < input.len(),
    ensures
        exists|k: int| 0 <= k < output.len() && #[trigger] idx[k] == p,
{
    broadcast use vstd::set::group_set_axioms, vstd::seq_lib::seq_to_set_is_finite;

    assert(idx.no_duplicates()) by {
        assert forall|a: int, b: int| 0 <= a < idx.len() && 0 <= b < idx.len() && a != b implies idx[a]
            != idx[b] by {
            if a < b {
                assert(idx[a] != idx[b]);
            } else {
                assert(idx[b] != idx[a]);
            }
        }
    }
    idx.unique_seq_to_set();
    let range = vstd::set_lib::set_int_range(0, input.len() as int);
    vstd::set_lib::lemma_int_range(0, input.len() as int);
    assert forall|x: int| idx.to_set().contains(x) implies range.contains(x) by {
        let k = choose|k: int| 0 <= k < idx.len() && idx[k] == x;
        assert(0 <= idx[k] < input.len());
    }
    vstd::set_lib::lemma_subset_equality(idx.to_set(), range);
    assert(range.contains(p));
    assert(idx.to_set().contains(p));
    assert(idx.contains(p));
}

/// Among the changes before ordering, only `before[i]`'s modification can
/// carry its metrics on the earlier side.
proof fn lemma_only_modification_carries(before: Seq<Symbol>, after: Seq<Symbol>, i: int, p: int)
    requires
        ids_distinct(before),
        0 <= i < before.len(),
        has_identity(before[i], after),
        0 <= p < unsorted_changes(before, after).len(),
        unsorted_changes(before, after)[p].before == Some(metrics_of(before[i])),
    ensures
        unsorted_changes(before, after)[p] == modified_record(before[i], after),
        modified_at(before[i], after),
{
    let b = before[i];
    let m = modified_changes(before, after);
    let all = unsorted_changes(before, after);
    lemma_tail_unpaired(before, after);
    lemma_modified_members(before, after);
    if p >= m.len() {
        assert(last_index(after, all[p].before->0.id@) < 0);
        assert(all[p].before->0.id@ == b.id@);
    } else {
        assert(all[p] == m[p]) by {
            let moved = pass(ChangeKind::Moved, true, missing_from(before, after), missing_from(after, before));
            let renamed = pass(ChangeKind::Renamed, false, moved.1, moved.2);
            assert(all == m + moved.0 + renamed.0 + removed_changes(renamed.1) + added_changes(renamed.2));
        }
        let j = choose|j: int|
            0 <= j < before.len() && modified_at(before[j], after) && #[trigger] m[p] == modified_record(
                before[j],
                after,
            );
        lemma_modified_record(before[j], after);
        assert(before[j].id@ == b.id@);
        if j < i {
            assert(before[j].id@ != before[i].id@);
        } else if j > i {
            assert(before[i].id@ != before[j].id@);
        }
    }
}

/// Where both revisions have a symbol's identity, the comparison reports it
/// exactly when its token stream or its score changed, and then only as a
/// modification that pairs it with the symbol its identity finds: never as
/// a move, a rename, a removal or an addition. Identities are distinct on
/// the earlier side.
pub proof fn law_shared_identities_change_only_when_modified(
    before: Seq<Symbol>,
    after: Seq<Symbol>,
    out: Seq<SymbolChange>,
    i: int,
)
    requires
        ids_distinct(before),
        stably_sorted(unsorted_changes(before, after), out),
        0 <= i < before.len(),
        has_identity(before[i], after),
    ensures
        (exists|k: int| 0 <= k < out.len() && #[trigger] out[k].before == Some(metrics_of(before[i])))
            <==> !unchanged_in(before[i], after),
        forall|k: int|
            0 <= k < out.len() && #[trigger] out[k].before == Some(metrics_of(before[i])) ==> out[k]
                == modified_record(before[i], after),
{
    let b = before[i];
    let all = unsorted_changes(before, after);
    let idx = choose|idx: Seq<int>| #[trigger] sorted_by(all, out, idx);
    assert forall|k: int| 0 <= k < out.len() && #[trigger] out[k].before == Some(metrics_of(b)) implies out[k]
        == modified_record(b, after) by {
        assert(out[k] == all[idx[k]]);
        lemma_only_modification_carries(before, after, i, idx[k]);
    }
    if exists|k: int| 0 <= k < out.len() && #[trigger] out[k].before == Some(metrics_of(b)) {
        let k = choose|k: int| 0 <= k < out.len() && #[trigger] out[k].before == Some(metrics_of(b));
        assert(out[k] == all[idx[k]]);
        lemma_only_modification_carries(before, after, i, idx[k]);
    }
    if !unchanged_in(b, after) {
        let m = modified_changes(before, after);
        lemma_modified_found(before, after, i);
        let p = choose|p: int| 0 <= p < m.len() && #[trigger] m[p] == modified_record(before[i], after);
        assert(all[p] == m[p]) by {
            let moved = pass(ChangeKind::Moved, true, missing_from(before, after), missing_from(after, before));
            let renamed = pass(ChangeKind::Renamed, false, moved.1, moved.2);
            assert(all == m + moved.0 + renamed.0 + removed_changes(renamed.1) + added_changes(renamed.2));
        }
        lemma_sorted_covers(all, out, idx, p);
        let k = choose|k: int| 0 <= k < out.len() && #[trigger] idx[k] == p;
        assert(out[k] == all[p]);
        lemma_modified_record(b, after);
        assert(out[k].before == Some(metrics_of(b)));
    }
}

/// The character views of string slices.
pub open spec fn str_views(v: Seq<&str>) -> Seq<Seq<char>> {
    v.map_values(|s: &str| s@)
}

/// `y` is the path of a side of `c`.
pub open spec fn touches_path(c: SymbolChange, y: Seq<char>) -> bool {
    (c.before is Some && c.before->0.path@ == y) || (c.after is Some && c.after->0.path@ == y)
}

impl SymbolChange {
    /// Every repo-relative path this change touches, ascending, each once.
    pub fn paths(&self) -> (r: Vec<&str>)
        ensures
            sorted_strict(str_views(r@)),
            forall|y: Seq<char>| #[trigger] contains_view(str_views(r@), y) <==> touches_path(*self, y),
    {
        let mut out: Vec<&str> = Vec::new();
        match (&self.before, &self.after) {
            (Some(b), Some(a)) => {
                let pb = b.path.as_str();
                let pa = a.path.as_str();
                if str_eq(pb, pa) {
                    out.push(pb);
                    proof {
                        assert(str_views(out@)[0] == pb@);
                    }
                } else if str_lt(pb, pa) {
                    out.push(pb);
                    out.push(pa);
                    proof {
                        assert(str_views(out@)[0] == pb@);
                        assert(str_views(out@)[1] == pa@);
                    }
                } else {
                    proof {
                        lemma_seq_lt_total(pb@, pa@);
                    }
                    out.push(pa);
                    out.push(pb);
                    proof {
                        assert(str_views(out@)[0] == pa@);
                        assert(str_views(out@)[1] == pb@);
                    }
                }
            },
            (Some(b), None) => {
                out.push(b.path.as_str());
                proof {
                    assert(str_views(out@)[0] == b.path@);
                }
            },
            (None, Some(a)) => {
                out.push(a.path.as_str());
                proof {
                    assert(str_views(out@)[0] == a.path@);
                }
            },
            (None, None) => {},
        }
        out
    }
}

/// Why a change says more about identity than about the code.
#[derive(Debug, Clone, Copy, PartialEq, Eq, Structural)]
pub enum PhantomReason {
    /// Every file this change touches is unchanged.
    UnchangedFile,
    /// Identity moved while the qualified name stayed put.
    StableNameNewIdentity,
}

/// A change that says more about identity than about the code.
pub struct Phantom {
    pub before_revision: String,
    pub after_revision: String,
    pub reason: PhantomReason,
    pub change: SymbolChange,
}

/// The reason `c` is a phantom, given the paths whose content did not change.
pub open spec fn phantom_reason_of(c: SymbolChange, unchanged: Seq<Seq<char>>) -> Option<PhantomReason> {
    if forall|y: Seq<char>| #[trigger] touches_path(c, y) ==> contains_view(unchanged, y) {
        Some(PhantomReason::UnchangedFile)
    } else if c.change == ChangeKind::Renamed && c.before is Some && c.after is Some
        && c.before->0.qualified_path@ == c.after->0.qualified_path@ {
        Some(PhantomReason::StableNameNewIdentity)
    } else {
        None
    }
}

/// Is `x` one of `v`?
fn contains_str(v: &Vec<String>, x: &str) -> (r: bool)
    ensures
        r == contains_view(views(v@), x@),
{
    let n = v.len();
    let mut i: usize = 0;
    while i < n
        invariant
            i <= n,
            n == v@.len(),
            forall|k: int| 0 <= k < i ==> (#[trigger] v@[k])@ != x@,
        decreases n - i,
    {
        if str_eq(v[i].as_str(), x) {
            proof {
                assert(views(v@)[i as int] == x@);
            }
            return true;
        }
        i = i + 1;
    }
    proof {
        if contains_view(views(v@), x@) {
            let k = choose|k: int| 0 <= k < views(v@).len() && #[trigger] views(v@)[k] == x@;
            assert(v@[k]@ == x@);
        }
    }
    false
}

/// Whether a change is a phantom, and why.
pub fn phantom_reason(change: &SymbolChange, unchanged_files: &Vec<String>) -> (r: Option<PhantomReason>)
    ensures
        r == phantom_reason_of(*change, views(unchanged_files@)),
{
    let paths = change.paths();
    let mut all = true;
    let mut i: usize = 0;
    while i < paths.len()
        invariant
            i <= paths@.len(),
            all <==> forall|k: int| 0 <= k < i ==> contains_view(views(unchanged_files@), #[trigger] paths@[k]@),
        decreases paths@.len() - i,
    {
        if !contains_str(unchanged_files, paths[i]) {
            all = false;
        }
        i = i + 1;
    }
    proof {
        let v = str_views(paths@);
        if all {
            assert forall|y: Seq<char>| #[trigger] touches_path(*change, y) implies contains_view(
                views(unchanged_files@),
                y,
            ) by {
                assert(contains_view(v, y));
                let k = choose|k: int| 0 <= k < v.len() && #[trigger] v[k] == y;
                assert(paths@[k]@ == y);
            }
        } else {
            let k = choose|k: int| 0 <= k < paths@.len() && !contains_view(views(unchanged_files@), #[trigger] paths@[k]@);
            assert(v[k] == paths@[k]@);
            assert(contains_view(v, paths@[k]@));
            assert(touches_path(*change, paths@[k]@));
        }
    }
    if all {
        return Some(PhantomReason::UnchangedFile);
    }
    if matches!(change.change, ChangeKind::Renamed) {
        if let (Some(before), Some(after)) = (&change.before, &change.after) {
            if str_eq(before.qualified_path.as_str(), after.qualified_path.as_str()) {
                return Some(PhantomReason::StableNameNewIdentity);
            }
        }
    }
    None
}

/// The content hash recorded last for `path`, if any.
pub open spec fn last_hash(files: Seq<(String, String)>, path: Seq<char>) -> Option<Seq<char>>
    decreases files.len(),
{
    if files.len() == 0 {
        None
    } else if files.last().0@ == path {
        Some(files.last().1@)
    } else {
        last_hash(files.drop_last(), path)
    }
}

/// Paths whose content is byte-for-byte identical on both sides, each given
/// as path and content hash; ascending, each once.
pub fn unchanged(before: &Vec<(String, String)>, after: &Vec<(String, String)>) -> (r: Vec<String>)
    ensures
        sorted_strict(views(r@)),
        forall|y: Seq<char>|
            #[trigger] contains_view(views(r@), y) <==> exists|k: int|
                0 <= k < after@.len() && #[trigger] after@[k].0@ == y && last_hash(before@, y) == Some(after@[k].1@),
{
    let mut out: Vec<String> = Vec::new();
    let na = after.len();
    let mut j: usize = 0;
    while j < na
        invariant
            j <= na,
            na == after@.len(),
            sorted_strict(views(out@)),
            forall|y: Seq<char>|
                #[trigger] contains_view(views(out@), y) <==> exists|k: int|
                    0 <= k < j && #[trigger] after@[k].0@ == y && last_hash(before@, y) == Some(after@[k].1@),
        decreases na - j,
    {
        let path = after[j].0.as_str();
        let hash = after[j].1.as_str();
        let found = last_hash_of(before, path);
        let same = match found {
            Some(h) => str_eq(h, hash),
            None => false,
        };
        if same {
            insert_sorted(&mut out, path);
        }
        proof {
            assert forall|y: Seq<char>| #[trigger] contains_view(views(out@), y) <==> exists|k: int|
                0 <= k < j + 1 && #[trigger] after@[k].0@ == y && last_hash(before@, y) == Some(after@[k].1@) by {
                if exists|k: int|
                    0 <= k < j + 1 && #[trigger] after@[k].0@ == y && last_hash(before@, y) == Some(after@[k].1@) {
                    let k = choose|k: int|
                        0 <= k < j + 1 && #[trigger] after@[k].0@ == y && last_hash(before@, y) == Some(after@[k].1@);
                    if k < j {
                    }
                }
            }
        }
        j = j + 1;
    }
    out
}

/// The content hash recorded last for `path`.
pub fn last_hash_of<'a>(files: &'a Vec<(String, String)>, path: &str) -> (r: Option<&'a str>)
    ensures
        match r {
            Some(h) => last_hash(files@, path@) == Some(h@),
            None => last_hash(files@, path@) is None,
        },
{
    let mut i = files.len();
    proof {
        assert(files@.take(i as int) =~= files@);
    }
    while i > 0
        invariant
            i <= files@.len(),
            last_hash(files@, path@) == last_hash(files@.take(i as int), path@),
        decreases i,
    {
        proof {
            let t = files@.take(i as int);
            assert(t.drop_last() =~= files@.take(i - 1));
            assert(t.last() == files@[i - 1]);
        }
        if str_eq(files[i - 1].0.as_str(), path) {
            return Some(files[i - 1].1.as_str());
        }
        i = i - 1;
    }
    None
}

/// Number of changes of kind `k`.
pub open spec fn count_kind(cs: Seq<SymbolChange>, k: ChangeKind) -> nat
    decreases cs.len(),
{
    if cs.len() == 0 {
        0
    } else {
        count_kind(cs.drop_last(), k) + if cs.last().change == k {
            1nat
        } else {
            0nat
        }
    }
}

proof fn lemma_count_kind_bound(cs: Seq<SymbolChange>, k: ChangeKind)
    ensures
        count_kind(cs, k) <= cs.len(),
    decreases cs.len(),
{
    if cs.len() > 0 {
        lemma_count_kind_bound(cs.drop_last(), k);
    }
}

/// The phantoms among `cs`, each with its reason, in order.
pub open spec fn phantoms_among(cs: Seq<SymbolChange>, unchanged: Seq<Seq<char>>) -> Seq<(PhantomReason, SymbolChange)>
    decreases cs.len(),
{
    if cs.len() == 0 {
        Seq::empty()
    } else {
        let rest = phantoms_among(cs.drop_last(), unchanged);
        match phantom_reason_of(cs.last(), unchanged) {
            Some(r) => rest.push((r, cs.last())),
            None => rest,
        }
    }
}

/// What the audit found across a run of revisions.
pub struct IdentityAudit {
    pub comparisons: usize,
    pub symbols_seen: usize,
    pub changes: usize,
    pub added: usize,
    pub removed: usize,
    pub modified: usize,
    pub moved: usize,
    pub renamed: usize,
    pub phantoms: Vec<Phantom>,
}

impl IdentityAudit {
    /// An audit of no revisions.
    pub fn new() -> (r: IdentityAudit)
        ensures
            r.comparisons == 0 && r.symbols_seen == 0 && r.changes == 0,
            r.added == 0 && r.removed == 0 && r.modified == 0 && r.moved == 0 && r.renamed == 0,
            r.phantoms@.len() == 0,
    {
        IdentityAudit {
            comparisons: 0,
            symbols_seen: 0,
            changes: 0,
            added: 0,
            removed: 0,
            modified: 0,
            moved: 0,
            renamed: 0,
            phantoms: Vec::new(),
        }
    }

    /// The audit passes when it found no phantom.
    pub fn passed(&self) -> (r: bool)
        ensures
            r == (self.phantoms@.len() == 0),
    {
        self.phantoms.len() == 0
    }

    /// Count the symbols of one more revision.
    pub fn record_symbols(&mut self, n: usize)
        requires
            old(self).symbols_seen + n <= usize::MAX,
        ensures
            final(self).symbols_seen == old(self).symbols_seen + n,
            final(self).comparisons == old(self).comparisons,
            final(self).changes == old(self).changes,
            final(self).added == old(self).added,
            final(self).removed == old(self).removed,
            final(self).modified == old(self).modified,
            final(self).moved == old(self).moved,
            final(self).renamed == old(self).renamed,
            final(self).phantoms@ == old(self).phantoms@,
    {
        self.symbols_seen = self.symbols_seen + n;
    }

    /// Record the comparison of two adjacent revisions: count its changes by
    /// kind and keep every phantom, given the paths whose content did not
    /// change between them.
    pub fn record(&mut self, before_revision: &str, after_revision: &str, delta: Delta, unchanged_files: &Vec<String>)
        requires
            old(self).comparisons < usize::MAX,
            old(self).changes + delta.changes@.len() <= usize::MAX,
            old(self).added + delta.changes@.len() <= usize::MAX,
            old(self).removed + delta.changes@.len() <= usize::MAX,
            old(self).modified + delta.changes@.len() <= usize::MAX,
            old(self).moved + delta.changes@.len() <= usize::MAX,
            old(self).renamed + delta.changes@.len() <= usize::MAX,
        ensures
            final(self).comparisons == old(self).comparisons + 1,
            final(self).symbols_seen == old(self).symbols_seen,
            final(self).changes == old(self).changes + delta.changes@.len(),
            final(self).added == old(self).added + count_kind(delta.changes@, ChangeKind::Added),
            final(self).removed == old(self).removed + count_kind(delta.changes@, ChangeKind::Removed),
            final(self).modified == old(self).modified + count_kind(delta.changes@, ChangeKind::Modified),
            final(self).moved == old(self).moved + count_kind(delta.changes@, ChangeKind::Moved),
            final(self).renamed == old(self).renamed + count_kind(delta.changes@, ChangeKind::Renamed),
            final(self).phantoms@.len() == old(self).phantoms@.len() + phantoms_among(
                delta.changes@,
                views(unchanged_files@),
            ).len(),
            forall|k: int| 0 <= k < old(self).phantoms@.len() ==> #[trigger] final(self).phantoms@[k] == old(self).phantoms@[k],
            forall|k: int|
                0 <= k < phantoms_among(delta.changes@, views(unchanged_files@)).len() ==> {
                    let p = #[trigger] final(self).phantoms@[old(self).phantoms@.len() + k];
                    &&& p.before_revision@ == before_revision@
                    &&& p.after_revision@ == after_revision@
                    &&& (p.reason, p.change) == phantoms_among(delta.changes@, views(unchanged_files@))[k]
                },
    {
        let ghost cs = delta.changes@;
        let ghost un = views(unchanged_files@);
        let ghost start = *self;
        self.comparisons = self.comparisons + 1;
        self.changes = self.changes + delta.changes.len();
        let mut rest = delta.changes;
        let n = rest.len();
        let mut i: usize = 0;
        proof {
            assert(cs.skip(0) =~= cs);
            lemma_count_kind_bound(cs, ChangeKind::Added);
        }
        while i < n
            invariant
                i <= n,
                n == cs.len(),
                rest@ == cs.skip(i as int),
                un == views(unchanged_files@),
                self.comparisons == start.comparisons + 1,
                self.symbols_seen == start.symbols_seen,
                self.changes == start.changes + cs.len(),
                start.added + cs.len() <= usize::MAX,
                start.removed + cs.len() <= usize::MAX,
                start.modified + cs.len() <= usize::MAX,
                start.moved + cs.len() <= usize::MAX,
                start.renamed + cs.len() <= usize::MAX,
                self.added == start.added + count_kind(cs.take(i as int), ChangeKind::Added),
                self.removed == start.removed + count_kind(cs.take(i as int), ChangeKind::Removed),
                self.modified == start.modified + count_kind(cs.take(i as int), ChangeKind::Modified),
                self.moved == start.moved + count_kind(cs.take(i as int), ChangeKind::Moved),
                self.renamed == start.renamed + count_kind(cs.take(i as int), ChangeKind::Renamed),
                self.phantoms@.len() == start.phantoms@.len() + phantoms_among(cs.take(i as int), un).len(),
                forall|k: int| 0 <= k < start.phantoms@.len() ==> #[trigger] self.phantoms@[k] == start.phantoms@[k],
                forall|k: int|
                    0 <= k < phantoms_among(cs.take(i as int), un).len() ==> {
                        let p = #[trigger] self.phantoms@[start.phantoms@.len() + k];
                        &&& p.before_revision@ == before_revision@
                        &&& p.after_revision@ == after_revision@
                        &&& (p.reason, p.change) == phantoms_among(cs.take(i as int), un)[k]
                    },
            decreases n - i,
        {
            let c = rest.remove(0);
            proof {
                assert(c == cs[i as int]);
                assert(rest@ =~= cs.skip(i as int + 1));
                let t = cs.take(i as int + 1);
                assert(t.drop_last() =~= cs.take(i as int));
                assert(t.last() == c);
                lemma_count_kind_bound(cs.take(i as int), ChangeKind::Added);
                lemma_count_kind_bound(cs.take(i as int), ChangeKind::Removed);
                lemma_count_kind_bound(cs.take(i as int), ChangeKind::Modified);
                lemma_count_kind_bound(cs.take(i as int), ChangeKind::Moved);
                lemma_count_kind_bound(cs.take(i as int), ChangeKind::Renamed);
            }
            match c.change {
                ChangeKind::Added => self.added = self.added + 1,
                ChangeKind::Removed => self.removed = self.removed + 1,
                ChangeKind::Modified => self.modified = self.modified + 1,
                ChangeKind::Moved => self.moved = self.moved + 1,
                ChangeKind::Renamed => self.renamed = self.renamed + 1,
            }
            let reason = phantom_reason(&c, unchanged_files);
            let ghost before_phantoms = self.phantoms@;
            if let Some(reason) = reason {
                self.phantoms.push(
                    Phantom {
                        before_revision: before_revision.to_owned(),
                        after_revision: after_revision.to_owned(),
                        reason,
                        change: c,
                    },
                );
            }
            proof {
                let t = cs.take(i as int + 1);
                assert forall|k: int| 0 <= k < start.phantoms@.len() implies #[trigger] self.phantoms@[k]
                    == start.phantoms@[k] by {
                    assert(self.phantoms@[k] == before_phantoms[k]);
                }
                assert forall|k: int| 0 <= k < phantoms_among(t, un).len() implies {
                    let p = #[trigger] self.phantoms@[start.phantoms@.len() + k];
                    &&& p.before_revision@ == before_revision@
                    &&& p.after_revision@ == after_revision@
                    &&& (p.reason, p.change) == phantoms_among(t, un)[k]
                } by {
                    if k < phantoms_among(cs.take(i as int), un).len() {
                        assert(self.phantoms@[start.phantoms@.len() + k] == before_phantoms[start.phantoms@.len() + k]);
                    }
                }
            }
            i = i + 1;
        }
        proof {
            assert(cs.take(n as int) =~= cs);
        }
    }
}

} // verus!
