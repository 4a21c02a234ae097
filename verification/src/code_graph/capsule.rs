//! The machine-independent form of a build capsule.
//!
//! A snapshot's identity is the hash of its capsule: the build identity
//! without its own id, the producer, and the requested roots. Before hashing,
//! every list whose order or repetition is an accident of authoring is put
//! in one order: roots and features sorted and deduplicated, units sorted by
//! id, language, name and kind.

use crate::code_graph::model::{BuildIdentity, CompilationUnit, Knowledge, KnowledgeState};
use crate::config::sorted_distinct;
use crate::order::{
    contains_view, lemma_seq_lt_irreflexive, lemma_sorted_same_members, lemma_seq_lt_total, lemma_seq_lt_transitive, seq_lt, sorted_strict, str_eq,
    str_lt, views,
};
use vstd::prelude::*;

verus! {

/// A text known to some degree, as plain values.
pub open spec fn text_view(k: Knowledge<String>) -> (KnowledgeState, Option<Seq<char>>) {
    (
        k.state,
        match k.value {
            Some(s) => Some(s@),
            None => None,
        },
    )
}

/// `b` holds the members of `a`, ascending, each once.
pub open spec fn normal_list(a: Seq<String>, b: Seq<String>) -> bool {
    &&& sorted_strict(views(b))
    &&& forall|y: Seq<char>| #[trigger] contains_view(views(b), y) <==> contains_view(views(a), y)
}

/// `v` is `u` with its roots and features in normal form.
pub open spec fn normal_unit(u: CompilationUnit, v: CompilationUnit) -> bool {
    &&& v.id@ == u.id@
    &&& v.language@ == u.language@
    &&& v.name@ == u.name@
    &&& v.kind@ == u.kind@
    &&& normal_list(u.source_roots@, v.source_roots@)
    &&& text_view(v.target) == text_view(u.target)
    &&& v.features.state == u.features.state
    &&& (v.features.value is Some <==> u.features.value is Some)
    &&& (u.features.value is Some ==> normal_list(u.features.value->0@, v.features.value->0@))
}

/// Order of units in a capsule: by id, language, name, kind.
pub open spec fn unit_key(u: CompilationUnit) -> (Seq<char>, Seq<char>, Seq<char>, Seq<char>) {
    (u.id@, u.language@, u.name@, u.kind@)
}

/// Is key `a` strictly before key `b`?
pub open spec fn unit_key_lt(
    a: (Seq<char>, Seq<char>, Seq<char>, Seq<char>),
    b: (Seq<char>, Seq<char>, Seq<char>, Seq<char>),
) -> bool {
    ||| seq_lt(a.0, b.0)
    ||| (a.0 == b.0 && seq_lt(a.1, b.1))
    ||| (a.0 == b.0 && a.1 == b.1 && seq_lt(a.2, b.2))
    ||| (a.0 == b.0 && a.1 == b.1 && a.2 == b.2 && seq_lt(a.3, b.3))
}

proof fn lemma_unit_key_lt_irreflexive(a: (Seq<char>, Seq<char>, Seq<char>, Seq<char>))
    ensures
        !unit_key_lt(a, a),
{
    lemma_seq_lt_irreflexive(a.0);
    lemma_seq_lt_irreflexive(a.1);
    lemma_seq_lt_irreflexive(a.2);
    lemma_seq_lt_irreflexive(a.3);
}

proof fn lemma_unit_key_lt_transitive(
    a: (Seq<char>, Seq<char>, Seq<char>, Seq<char>),
    b: (Seq<char>, Seq<char>, Seq<char>, Seq<char>),
    c: (Seq<char>, Seq<char>, Seq<char>, Seq<char>),
)
    requires
        unit_key_lt(a, b),
        unit_key_lt(b, c),
    ensures
        unit_key_lt(a, c),
{
    if seq_lt(a.0, b.0) && seq_lt(b.0, c.0) {
        lemma_seq_lt_transitive(a.0, b.0, c.0);
    } else if a.0 == b.0 && b.0 == c.0 {
        if seq_lt(a.1, b.1) && seq_lt(b.1, c.1) {
            lemma_seq_lt_transitive(a.1, b.1, c.1);
        } else if a.1 == b.1 && b.1 == c.1 {
            if seq_lt(a.2, b.2) && seq_lt(b.2, c.2) {
                lemma_seq_lt_transitive(a.2, b.2, c.2);
            } else if a.2 == b.2 && b.2 == c.2 {
                lemma_seq_lt_transitive(a.3, b.3, c.3);
            }
        }
    }
}

proof fn lemma_unit_key_lt_total(
    a: (Seq<char>, Seq<char>, Seq<char>, Seq<char>),
    b: (Seq<char>, Seq<char>, Seq<char>, Seq<char>),
)
    ensures
        unit_key_lt(a, b) || unit_key_lt(b, a) || a == b,
{
    lemma_seq_lt_total(a.0, b.0);
    lemma_seq_lt_total(a.1, b.1);
    lemma_seq_lt_total(a.2, b.2);
    lemma_seq_lt_total(a.3, b.3);
}

/// `output` is `input` stably sorted by `unit_key`, with `idx[k]` the
/// position in `input` of `output[k]`.
pub open spec fn units_sorted_by(input: Seq<CompilationUnit>, output: Seq<CompilationUnit>, idx: Seq<int>) -> bool {
    &&& output.len() == input.len()
    &&& idx.len() == input.len()
    &&& forall|k: int| 0 <= k < idx.len() ==> 0 <= #[trigger] idx[k] < input.len() && output[k] == input[idx[k]]
    &&& forall|k: int, l: int| 0 <= k < l < idx.len() ==> #[trigger] idx[k] != #[trigger] idx[l]
    &&& forall|k: int, l: int|
        0 <= k < l < output.len() ==> !unit_key_lt(unit_key(#[trigger] output[l]), unit_key(#[trigger] output[k]))
    &&& forall|k: int, l: int|
        0 <= k < l < output.len() && unit_key(#[trigger] output[k]) == unit_key(#[trigger] output[l]) ==> idx[k]
            < idx[l]
}

/// `v` holds the units of `u`, each in normal form, stably sorted by key.
pub open spec fn normal_units(u: Seq<CompilationUnit>, v: Seq<CompilationUnit>) -> bool {
    exists|w: Seq<CompilationUnit>, idx: Seq<int>|
        {
            &&& w.len() == u.len()
            &&& forall|k: int| 0 <= k < u.len() ==> normal_unit(#[trigger] u[k], w[k])
            &&& #[trigger] units_sorted_by(w, v, idx)
        }
}

/// `b` is the capsule form of build identity `a`: no id, every other text
/// the same, and the units, when known, in normal form and order.
pub open spec fn normal_build(a: BuildIdentity, b: BuildIdentity) -> bool {
    &&& b.id@.len() == 0
    &&& text_view(b.repository) == text_view(a.repository)
    &&& text_view(b.revision) == text_view(a.revision)
    &&& b.dirty == a.dirty
    &&& text_view(b.source_digest) == text_view(a.source_digest)
    &&& text_view(b.configuration_digest) == text_view(a.configuration_digest)
    &&& b.provider_input_digest@ == a.provider_input_digest@
    &&& b.units.state == a.units.state
    &&& (b.units.value is Some <==> a.units.value is Some)
    &&& (a.units.value is Some ==> normal_units(a.units.value->0@, b.units.value->0@))
}

fn copy_text(k: &Knowledge<String>) -> (r: Knowledge<String>)
    ensures
        text_view(r) == text_view(*k),
{
    Knowledge {
        state: k.state,
        value: match &k.value {
            Some(s) => Some(s.clone()),
            None => None,
        },
    }
}

fn normal_unit_of(u: &CompilationUnit) -> (r: CompilationUnit)
    ensures
        normal_unit(*u, r),
{
    CompilationUnit {
        id: u.id.clone(),
        language: u.language.clone(),
        name: u.name.clone(),
        kind: u.kind.clone(),
        source_roots: sorted_distinct(&u.source_roots),
        target: copy_text(&u.target),
        features: Knowledge {
            state: u.features.state,
            value: match &u.features.value {
                Some(list) => Some(sorted_distinct(list)),
                None => None,
            },
        },
    }
}

/// Is `a` strictly before `b` in unit order?
fn unit_before(a: &CompilationUnit, b: &CompilationUnit) -> (r: bool)
    ensures
        r == unit_key_lt(unit_key(*a), unit_key(*b)),
{
    if str_lt(a.id.as_str(), b.id.as_str()) {
        return true;
    }
    if !str_eq(a.id.as_str(), b.id.as_str()) {
        return false;
    }
    if str_lt(a.language.as_str(), b.language.as_str()) {
        return true;
    }
    if !str_eq(a.language.as_str(), b.language.as_str()) {
        return false;
    }
    if str_lt(a.name.as_str(), b.name.as_str()) {
        return true;
    }
    if !str_eq(a.name.as_str(), b.name.as_str()) {
        return false;
    }
    str_lt(a.kind.as_str(), b.kind.as_str())
}

proof fn lemma_insert_unit(
    input: Seq<CompilationUnit>,
    i: int,
    old_out: Seq<CompilationUnit>,
    old_idx: Seq<int>,
    out: Seq<CompilationUnit>,
    idx: Seq<int>,
    p: int,
    x: CompilationUnit,
)
    requires
        0 <= i < input.len(),
        x == input[i],
        units_sorted_by(input.take(i), old_out, old_idx),
        0 <= p <= old_out.len(),
        forall|k: int| 0 <= k < p ==> !unit_key_lt(unit_key(x), unit_key(#[trigger] old_out[k])),
        p < old_out.len() ==> unit_key_lt(unit_key(x), unit_key(old_out[p])),
        out == old_out.insert(p, x),
        idx == old_idx.insert(p, i),
    ensures
        units_sorted_by(input.take(i + 1), out, idx),
{
    let t = input.take(i + 1);
    assert forall|k: int| 0 <= k < idx.len() implies 0 <= #[trigger] idx[k] < t.len() && out[k] == t[idx[k]] by {
        if k < p {
            assert(idx[k] == old_idx[k] && out[k] == old_out[k]);
        } else if k > p {
            assert(idx[k] == old_idx[k - 1] && out[k] == old_out[k - 1]);
        }
    }
    assert forall|k: int, l: int| 0 <= k < l < idx.len() implies #[trigger] idx[k] != #[trigger] idx[l] by {
        if k < p && l < p {
            assert(idx[k] == old_idx[k] && idx[l] == old_idx[l]);
        } else if k < p && l == p {
            assert(idx[k] == old_idx[k]);
        } else if k < p {
            assert(idx[k] == old_idx[k] && idx[l] == old_idx[l - 1]);
        } else if k == p {
            assert(idx[l] == old_idx[l - 1]);
        } else {
            assert(idx[k] == old_idx[k - 1] && idx[l] == old_idx[l - 1]);
        }
    }
    assert forall|m: int| p <= m < old_out.len() implies unit_key_lt(unit_key(x), unit_key(#[trigger] old_out[m])) by {
        if m > p {
            assert(!unit_key_lt(unit_key(old_out[m]), unit_key(old_out[p])));
            lemma_unit_key_lt_total(unit_key(old_out[m]), unit_key(old_out[p]));
            if unit_key_lt(unit_key(old_out[p]), unit_key(old_out[m])) {
                lemma_unit_key_lt_transitive(unit_key(x), unit_key(old_out[p]), unit_key(old_out[m]));
            }
        }
    }
    assert forall|k: int, l: int| 0 <= k < l < out.len() implies !unit_key_lt(
        unit_key(#[trigger] out[l]),
        unit_key(#[trigger] out[k]),
    ) by {
        if k < p && l < p {
            assert(out[k] == old_out[k] && out[l] == old_out[l]);
        } else if k < p && l == p {
            assert(out[k] == old_out[k]);
        } else if k < p {
            assert(out[k] == old_out[k] && out[l] == old_out[l - 1]);
            lemma_unit_key_lt_total(unit_key(out[l]), unit_key(out[k]));
            if unit_key_lt(unit_key(out[l]), unit_key(out[k])) {
                assert(unit_key_lt(unit_key(x), unit_key(old_out[l - 1])));
                lemma_unit_key_lt_transitive(unit_key(x), unit_key(out[l]), unit_key(out[k]));
            }
        } else if k == p {
            assert(out[l] == old_out[l - 1]);
            assert(unit_key_lt(unit_key(x), unit_key(old_out[l - 1])));
            if unit_key_lt(unit_key(out[l]), unit_key(x)) {
                lemma_unit_key_lt_transitive(unit_key(x), unit_key(out[l]), unit_key(x));
                lemma_unit_key_lt_irreflexive(unit_key(x));
            }
        } else {
            assert(out[k] == old_out[k - 1] && out[l] == old_out[l - 1]);
        }
    }
    assert forall|k: int, l: int|
        0 <= k < l < out.len() && unit_key(#[trigger] out[k]) == unit_key(#[trigger] out[l]) implies idx[k]
        < idx[l] by {
        if k < p && l < p {
            assert(out[k] == old_out[k] && out[l] == old_out[l]);
            assert(idx[k] == old_idx[k] && idx[l] == old_idx[l]);
        } else if k < p && l == p {
            assert(idx[k] == old_idx[k]);
        } else if k < p {
            assert(out[k] == old_out[k] && out[l] == old_out[l - 1]);
            assert(idx[k] == old_idx[k] && idx[l] == old_idx[l - 1]);
        } else if k == p {
            assert(out[l] == old_out[l - 1]);
            assert(unit_key_lt(unit_key(x), unit_key(old_out[l - 1])));
            lemma_unit_key_lt_irreflexive(unit_key(x));
        } else {
            assert(out[k] == old_out[k - 1] && out[l] == old_out[l - 1]);
            assert(idx[k] == old_idx[k - 1] && idx[l] == old_idx[l - 1]);
        }
    }
}

/// The units in normal form, stably sorted by key.
fn normal_units_of(units: &Vec<CompilationUnit>) -> (r: Vec<CompilationUnit>)
    ensures
        normal_units(units@, r@),
{
    let mut normal: Vec<CompilationUnit> = Vec::new();
    let mut j: usize = 0;
    while j < units.len()
        invariant
            j <= units@.len(),
            normal@.len() == j,
            forall|k: int| 0 <= k < j ==> normal_unit(#[trigger] units@[k], normal@[k]),
        decreases units@.len() - j,
    {
        normal.push(normal_unit_of(&units[j]));
        j = j + 1;
    }
    let ghost input = normal@;
    let mut rest = normal;
    let mut out: Vec<CompilationUnit> = Vec::new();
    let ghost mut idx: Seq<int> = Seq::empty();
    let n = rest.len();
    let mut i: usize = 0;
    proof {
        assert(input.skip(0) =~= input);
    }
    while i < n
        invariant
            i <= n,
            n == input.len(),
            rest@ == input.skip(i as int),
            units_sorted_by(input.take(i as int), out@, idx),
        decreases n - i,
    {
        let x = rest.remove(0);
        proof {
            assert(x == input[i as int]);
            assert(rest@ =~= input.skip(i as int + 1));
        }
        let mut p: usize = 0;
        while p < out.len() && !unit_before(&x, &out[p])
            invariant
                p <= out@.len(),
                forall|k: int| 0 <= k < p ==> !unit_key_lt(unit_key(x), unit_key(#[trigger] out@[k])),
            decreases out@.len() - p,
        {
            p = p + 1;
        }
        let ghost old_out = out@;
        let ghost old_idx = idx;
        out.insert(p, x);
        proof {
            idx = old_idx.insert(p as int, i as int);
            lemma_insert_unit(input, i as int, old_out, old_idx, out@, idx, p as int, x);
        }
        i = i + 1;
    }
    proof {
        assert(input.take(n as int) =~= input);
        assert(units_sorted_by(input, out@, idx));
    }
    out
}

/// The capsule form of a build identity and of the requested roots: the id
/// cleared, the units in normal form and order, the roots sorted and
/// deduplicated. Two capsules that differ only in authoring order have the
/// same form.
pub fn normalize_capsule(build: &BuildIdentity, requested_roots: &Vec<String>) -> (r: (BuildIdentity, Vec<String>))
    ensures
        normal_build(*build, r.0),
        normal_list(requested_roots@, r.1@),
{
    let units = Knowledge {
        state: build.units.state,
        value: match &build.units.value {
            Some(list) => Some(normal_units_of(list)),
            None => None,
        },
    };
    let normalized = BuildIdentity {
        id: String::new(),
        repository: copy_text(&build.repository),
        revision: copy_text(&build.revision),
        dirty: Knowledge { state: build.dirty.state, value: build.dirty.value },
        source_digest: copy_text(&build.source_digest),
        configuration_digest: copy_text(&build.configuration_digest),
        provider_input_digest: build.provider_input_digest.clone(),
        units,
    };
    (normalized, sorted_distinct(requested_roots))
}

/// The requested roots reach a capsule only as a set: two root lists that
/// name the same roots, in any order and with any repetition, have the same
/// capsule form, so the snapshot identity does not depend on how they were
/// listed.
pub proof fn law_capsule_ignores_root_order(
    a: Seq<String>,
    b: Seq<String>,
    a_form: Seq<String>,
    b_form: Seq<String>,
)
    requires
        forall|y: Seq<char>| #[trigger] contains_view(views(a), y) <==> contains_view(views(b), y),
        normal_list(a, a_form),
        normal_list(b, b_form),
    ensures
        views(a_form) == views(b_form),
{
    assert forall|y: Seq<char>| #[trigger] contains_view(views(a_form), y) <==> contains_view(views(b_form), y) by {
        assert(contains_view(views(a_form), y) <==> contains_view(views(a), y));
        assert(contains_view(views(b_form), y) <==> contains_view(views(b), y));
    }
    lemma_sorted_same_members(views(a_form), views(b_form));
}

} // verus!
