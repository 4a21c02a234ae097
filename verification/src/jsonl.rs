//! The order records are written in.
//!
//! Output is deterministic: symbol records come by path, then by position
//! within the file, then by id, equal keys in the order analysis produced
//! them.

use crate::delta::{key_lt, lemma_key_lt_irreflexive, lemma_key_lt_total, lemma_key_lt_transitive};
use crate::order::{str_eq, str_lt};
use crate::symbol::Symbol;
use vstd::prelude::*;

verus! {

/// Record order of a symbol: by path, then start line, then id.
pub open spec fn record_key(s: Symbol) -> (Seq<char>, usize, Seq<char>) {
    (s.path@, s.start_line, s.id@)
}

/// `output` is `input` stably sorted by `record_key`, with `idx[k]` the
/// position in `input` of `output[k]`.
pub open spec fn records_sorted_by(input: Seq<Symbol>, output: Seq<Symbol>, idx: Seq<int>) -> bool {
    &&& output.len() == input.len()
    &&& idx.len() == input.len()
    &&& forall|k: int| 0 <= k < idx.len() ==> 0 <= #[trigger] idx[k] < input.len() && output[k] == input[idx[k]]
    &&& forall|k: int, l: int| 0 <= k < l < idx.len() ==> #[trigger] idx[k] != #[trigger] idx[l]
    &&& forall|k: int, l: int|
        0 <= k < l < output.len() ==> !key_lt(record_key(#[trigger] output[l]), record_key(#[trigger] output[k]))
    &&& forall|k: int, l: int|
        0 <= k < l < output.len() && record_key(#[trigger] output[k]) == record_key(#[trigger] output[l]) ==> idx[k]
            < idx[l]
}

/// `output` is `input` stably sorted into record order.
pub open spec fn records_sorted(input: Seq<Symbol>, output: Seq<Symbol>) -> bool {
    exists|idx: Seq<int>| #[trigger] records_sorted_by(input, output, idx)
}

/// Is `a` strictly before `b` in record order?
fn record_before(a: &Symbol, b: &Symbol) -> (r: bool)
    ensures
        r == key_lt(record_key(*a), record_key(*b)),
{
    if str_lt(a.path.as_str(), b.path.as_str()) {
        true
    } else if !str_eq(a.path.as_str(), b.path.as_str()) {
        false
    } else if a.start_line != b.start_line {
        a.start_line < b.start_line
    } else {
        str_lt(a.id.as_str(), b.id.as_str())
    }
}

/// Sort symbols stably into record order: by path, then start line, then
/// id.
pub fn sort_records(symbols: Vec<Symbol>) -> (r: Vec<Symbol>)
    ensures
        records_sorted(symbols@, r@),
{
    let ghost input = symbols@;
    let mut rest = symbols;
    let mut out: Vec<Symbol> = Vec::new();
    let ghost mut idx: Seq<int> = Seq::empty();
    let n = rest.len();
    let mut i: usize = 0;
    proof {
        assert(input.skip(0) =~= input);
    }
    while i < n
        invariant
            i <= n,
            n == input.len(),
            rest@ == input.skip(i as int),
            records_sorted_by(input.take(i as int), out@, idx),
        decreases n - i,
    {
        let x = rest.remove(0);
        proof {
            assert(x == input[i as int]);
            assert(rest@ =~= input.skip(i as int + 1));
        }
        let mut p: usize = 0;
        while p < out.len() && !record_before(&x, &out[p])
            invariant
                p <= out@.len(),
                forall|k: int| 0 <= k < p ==> !key_lt(record_key(x), record_key(#[trigger] out@[k])),
            decreases out@.len() - p,
        {
            p = p + 1;
        }
        let ghost old_out = out@;
        let ghost old_idx = idx;
        out.insert(p, x);
        proof {
            idx = old_idx.insert(p as int, i as int);
            lemma_insert_record(input, i as int, old_out, old_idx, out@, idx, p as int, x);
        }
        i = i + 1;
    }
    proof {
        assert(input.take(n as int) =~= input);
    }
    out
}

proof fn lemma_insert_record(
    input: Seq<Symbol>,
    i: int,
    old_out: Seq<Symbol>,
    old_idx: Seq<int>,
    out: Seq<Symbol>,
    idx: Seq<int>,
    p: int,
    x: Symbol,
)
    requires
        0 <= i < input.len(),
        x == input[i],
        records_sorted_by(input.take(i), old_out, old_idx),
        0 <= p <= old_out.len(),
        forall|k: int| 0 <= k < p ==> !key_lt(record_key(x), record_key(#[trigger] old_out[k])),
        p < old_out.len() ==> key_lt(record_key(x), record_key(old_out[p])),
        out == old_out.insert(p, x),
        idx == old_idx.insert(p, i),
    ensures
        records_sorted_by(input.take(i + 1), out, idx),
{
    let t = input.take(i + 1);
    assert forall|k: int| 0 <= k < idx.len() implies 0 <= #[trigger] idx[k] < t.len() && out[k] == t[idx[k]] by {
        if k < p {
            assert(idx[k] == old_idx[k] && out[k] == old_out[k]);
        } else if k > p {
            assert(idx[k] == old_idx[k - 1] && out[k] == old_out[k - 1]);
        }
    }
    assert forall|k: int, l: int| 0 <= k < l < idx.len() implies #[trigger] idx[k] != #[trigger] idx[l] by {
        if k < p && l < p {
            assert(idx[k] == old_idx[k] && idx[l] == old_idx[l]);
        } else if k < p && l == p {
            assert(idx[k] == old_idx[k]);
        } else if k < p {
            assert(idx[k] == old_idx[k] && idx[l] == old_idx[l - 1]);
        } else if k == p {
            assert(idx[l] == old_idx[l - 1]);
        } else {
            assert(idx[k] == old_idx[k - 1] && idx[l] == old_idx[l - 1]);
        }
    }
    // Everything at or after `p` in the old order comes strictly after `x`.
    assert forall|m: int| p <= m < old_out.len() implies key_lt(record_key(x), record_key(#[trigger] old_out[m])) by {
        if m > p {
            assert(!key_lt(record_key(old_out[m]), record_key(old_out[p])));
            lemma_key_lt_total(record_key(old_out[m]), record_key(old_out[p]));
            if key_lt(record_key(old_out[p]), record_key(old_out[m])) {
                lemma_key_lt_transitive(record_key(x), record_key(old_out[p]), record_key(old_out[m]));
            }
        }
    }
    assert forall|k: int, l: int| 0 <= k < l < out.len() implies !key_lt(
        record_key(#[trigger] out[l]),
        record_key(#[trigger] out[k]),
    ) by {
        if k < p && l < p {
            assert(out[k] == old_out[k] && out[l] == old_out[l]);
        } else if k < p && l == p {
            assert(out[k] == old_out[k]);
        } else if k < p {
            assert(out[k] == old_out[k] && out[l] == old_out[l - 1]);
            lemma_key_lt_total(record_key(out[l]), record_key(out[k]));
            if key_lt(record_key(out[l]), record_key(out[k])) {
                assert(key_lt(record_key(x), record_key(old_out[l - 1])));
                lemma_key_lt_transitive(record_key(x), record_key(out[l]), record_key(out[k]));
            }
        } else if k == p {
            assert(out[l] == old_out[l - 1]);
            assert(key_lt(record_key(x), record_key(old_out[l - 1])));
            if key_lt(record_key(out[l]), record_key(x)) {
                lemma_key_lt_transitive(record_key(x), record_key(out[l]), record_key(x));
                lemma_key_lt_irreflexive(record_key(x));
            }
        } else {
            assert(out[k] == old_out[k - 1] && out[l] == old_out[l - 1]);
        }
    }
    assert forall|k: int, l: int|
        0 <= k < l < out.len() && record_key(#[trigger] out[k]) == record_key(#[trigger] out[l]) implies idx[k]
        < idx[l] by {
        if k < p && l < p {
            assert(out[k] == old_out[k] && out[l] == old_out[l]);
            assert(idx[k] == old_idx[k] && idx[l] == old_idx[l]);
        } else if k < p && l == p {
            assert(idx[k] == old_idx[k]);
        } else if k < p {
            assert(out[k] == old_out[k] && out[l] == old_out[l - 1]);
            assert(idx[k] == old_idx[k] && idx[l] == old_idx[l - 1]);
        } else if k == p {
            assert(out[l] == old_out[l - 1]);
            assert(key_lt(record_key(x), record_key(old_out[l - 1])));
            lemma_key_lt_irreflexive(record_key(x));
        } else {
            assert(out[k] == old_out[k - 1] && out[l] == old_out[l - 1]);
            assert(idx[k] == old_idx[k - 1] && idx[l] == old_idx[l - 1]);
        }
    }
}

} // verus!
