//! Lexicographic order on character sequences, and sorted sets of strings.
//!
//! `String`'s own ordering compares UTF-8 bytes, which orders strings exactly
//! as comparing their characters by code point does; the spec below states
//! the character form.

use crate::text::chars_of;
use vstd::prelude::*;

verus! {

/// Strict lexicographic order on character sequences by code point.
pub open spec fn seq_lt(a: Seq<char>, b: Seq<char>) -> bool
    decreases a.len(),
{
    if a.len() == 0 {
        b.len() > 0
    } else if b.len() == 0 {
        false
    } else if a[0] != b[0] {
        (a[0] as u32) < (b[0] as u32)
    } else {
        seq_lt(a.drop_first(), b.drop_first())
    }
}

pub proof fn lemma_seq_lt_irreflexive(a: Seq<char>)
    ensures
        !seq_lt(a, a),
    decreases a.len(),
{
    if a.len() > 0 {
        lemma_seq_lt_irreflexive(a.drop_first());
    }
}

pub proof fn lemma_seq_lt_transitive(a: Seq<char>, b: Seq<char>, c: Seq<char>)
    requires
        seq_lt(a, b),
        seq_lt(b, c),
    ensures
        seq_lt(a, c),
    decreases a.len(),
{
    if a.len() > 0 && b.len() > 0 && c.len() > 0 {
        if a[0] == b[0] && b[0] == c[0] {
            lemma_seq_lt_transitive(a.drop_first(), b.drop_first(), c.drop_first());
        }
    }
}

pub proof fn lemma_seq_lt_total(a: Seq<char>, b: Seq<char>)
    ensures
        a =~= b || seq_lt(a, b) || seq_lt(b, a),
    decreases a.len(),
{
    if a.len() > 0 && b.len() > 0 {
        if a[0] == b[0] {
            lemma_seq_lt_total(a.drop_first(), b.drop_first());
            if a.drop_first() =~= b.drop_first() {
                assert(a =~= seq![a[0]] + a.drop_first());
                assert(b =~= seq![b[0]] + b.drop_first());
            }
        } else {
            lemma_char_u32_injective(a[0], b[0]);
        }
    }
}

/// Distinct characters have distinct code points.
pub proof fn lemma_char_u32_injective(c: char, d: char)
    requires
        c != d,
    ensures
        (c as u32) != (d as u32),
{
    vstd::utf8::char_u32_cast(c, c as u32);
    vstd::utf8::char_u32_cast(d, d as u32);
}

pub proof fn lemma_seq_lt_asymmetric(a: Seq<char>, b: Seq<char>)
    requires
        seq_lt(a, b),
    ensures
        !seq_lt(b, a),
{
    if seq_lt(b, a) {
        lemma_seq_lt_transitive(a, b, a);
        lemma_seq_lt_irreflexive(a);
    }
}

/// Is `a` strictly before `b`?
pub fn chars_lt(a: &[char], b: &[char]) -> (r: bool)
    ensures
        r == seq_lt(a@, b@),
{
    let n = a.len();
    let m = b.len();
    let mut i: usize = 0;
    assert(a@.skip(0) =~= a@);
    assert(b@.skip(0) =~= b@);
    while i < n && i < m
        invariant
            i <= n,
            i <= m,
            n == a@.len(),
            m == b@.len(),
            seq_lt(a@, b@) == seq_lt(a@.skip(i as int), b@.skip(i as int)),
        decreases n - i,
    {
        if a[i] != b[i] {
            proof {
                let sa = a@.skip(i as int);
                let sb = b@.skip(i as int);
                assert(sa[0] == a@[i as int]);
                assert(sb[0] == b@[i as int]);
            }
            let ca: u32 = a[i] as u32;
            let cb: u32 = b[i] as u32;
            return ca < cb;
        }
        proof {
            let sa = a@.skip(i as int);
            let sb = b@.skip(i as int);
            assert(sa.drop_first() =~= a@.skip(i + 1));
            assert(sb.drop_first() =~= b@.skip(i + 1));
        }
        i = i + 1;
    }
    proof {
        let sa = a@.skip(i as int);
        let sb = b@.skip(i as int);
        if i == n {
            assert(sa.len() == 0);
        } else {
            assert(sb.len() == 0);
        }
    }
    i == n && i < m
}

/// Is string `a` strictly before string `b`?
pub fn str_lt(a: &str, b: &str) -> (r: bool)
    ensures
        r == seq_lt(a@, b@),
{
    let ca = chars_of(a);
    let cb = chars_of(b);
    chars_lt(ca.as_slice(), cb.as_slice())
}

/// Do `a` and `b` hold the same characters?
pub fn str_eq(a: &str, b: &str) -> (r: bool)
    ensures
        r == (a@ == b@),
{
    let lt = str_lt(a, b);
    let gt = str_lt(b, a);
    proof {
        lemma_seq_lt_total(a@, b@);
        if a@ == b@ {
            lemma_seq_lt_irreflexive(a@);
        }
    }
    !lt && !gt
}

/// The character views of a sequence of strings.
pub open spec fn views(v: Seq<String>) -> Seq<Seq<char>> {
    v.map_values(|s: String| s@)
}

/// Strictly ascending, hence free of duplicates.
pub open spec fn sorted_strict(s: Seq<Seq<char>>) -> bool {
    forall|i: int, j: int| 0 <= i < j < s.len() ==> seq_lt(#[trigger] s[i], #[trigger] s[j])
}

/// Is this sequence one of the elements of `s`?
pub open spec fn contains_view(s: Seq<Seq<char>>, x: Seq<char>) -> bool {
    exists|i: int| 0 <= i < s.len() && #[trigger] s[i] == x
}

/// Two strictly ascending sequences with the same members are equal.
pub proof fn lemma_sorted_same_members(s: Seq<Seq<char>>, t: Seq<Seq<char>>)
    requires
        sorted_strict(s),
        sorted_strict(t),
        forall|y: Seq<char>| #[trigger] contains_view(s, y) <==> contains_view(t, y),
    ensures
        s == t,
    decreases s.len() + t.len(),
{
    if s.len() == 0 {
        if t.len() > 0 {
            assert(contains_view(t, t[0]));
            assert(contains_view(s, t[0]));
        }
        assert(s =~= t);
    } else if t.len() == 0 {
        assert(contains_view(s, s[0]));
        assert(contains_view(t, s[0]));
    } else {
        assert(contains_view(s, s[0]));
        assert(contains_view(t, s[0]));
        assert(contains_view(t, t[0]));
        assert(contains_view(s, t[0]));
        let j = choose|j: int| 0 <= j < s.len() && #[trigger] s[j] == t[0];
        let k = choose|k: int| 0 <= k < t.len() && #[trigger] t[k] == s[0];
        if k > 0 {
            assert(seq_lt(t[0], t[k]));
            if j > 0 {
                assert(seq_lt(s[0], s[j]));
                lemma_seq_lt_asymmetric(t[0], s[0]);
            } else {
                lemma_seq_lt_irreflexive(t[0]);
            }
        }
        assert(s[0] == t[0]);
        let s1 = s.drop_first();
        let t1 = t.drop_first();
        assert forall|y: Seq<char>| #[trigger] contains_view(s1, y) <==> contains_view(t1, y) by {
            if contains_view(s1, y) {
                let a = choose|a: int| 0 <= a < s1.len() && #[trigger] s1[a] == y;
                assert(s[a + 1] == y);
                assert(seq_lt(s[0], s[a + 1]));
                assert(contains_view(s, y));
                assert(contains_view(t, y));
                let b = choose|b: int| 0 <= b < t.len() && #[trigger] t[b] == y;
                if b == 0 {
                    lemma_seq_lt_irreflexive(y);
                }
                assert(t1[b - 1] == y);
            }
            if contains_view(t1, y) {
                let a = choose|a: int| 0 <= a < t1.len() && #[trigger] t1[a] == y;
                assert(t[a + 1] == y);
                assert(seq_lt(t[0], t[a + 1]));
                assert(contains_view(t, y));
                assert(contains_view(s, y));
                let b = choose|b: int| 0 <= b < s.len() && #[trigger] s[b] == y;
                if b == 0 {
                    lemma_seq_lt_irreflexive(y);
                }
                assert(s1[b - 1] == y);
            }
        }
        lemma_sorted_same_members(s1, t1);
        assert(s =~= seq![s[0]] + s1);
        assert(t =~= seq![t[0]] + t1);
    }
}

/// Position of `x` in a strictly sorted vector of strings, if present.
pub fn find_sorted(v: &Vec<String>, x: &str) -> (r: Option<usize>)
    requires
        sorted_strict(views(v@)),
    ensures
        match r {
            Some(i) => i < v@.len() && v@[i as int]@ == x@,
            None => !contains_view(views(v@), x@),
        },
{
    let n = v.len();
    let mut i: usize = 0;
    while i < n
        invariant
            i <= n,
            n == v@.len(),
            forall|j: int| 0 <= j < i ==> v@[j]@ != x@,
        decreases n - i,
    {
        let s: &str = v[i].as_str();
        if !str_lt(s, x) && !str_lt(x, s) {
            proof {
                lemma_seq_lt_total(v@[i as int]@, x@);
            }
            return Some(i);
        }
        proof {
            lemma_seq_lt_irreflexive(x@);
        }
        i = i + 1;
    }
    proof {
        if contains_view(views(v@), x@) {
            let k = choose|k: int| 0 <= k < views(v@).len() && #[trigger] views(v@)[k] == x@;
            assert(views(v@)[k] == v@[k]@);
        }
    }
    None
}

/// Insert a string into a strictly sorted vector, keeping it strictly
/// sorted; no change when an equal string is already present.
pub fn insert_sorted(v: &mut Vec<String>, x: &str)
    requires
        sorted_strict(views(old(v)@)),
    ensures
        sorted_strict(views(final(v)@)),
        forall|y: Seq<char>|
            contains_view(views(final(v)@), y) <==> (contains_view(views(old(v)@), y) || y == x@),
{
    let n = v.len();
    let mut i: usize = 0;
    while i < n
        invariant
            i <= n,
            n == v@.len(),
            v@ == old(v)@,
            sorted_strict(views(v@)),
            forall|j: int| 0 <= j < i ==> seq_lt(#[trigger] v@[j]@, x@),
        ensures
            i <= n,
            v@ == old(v)@,
            i < n ==> seq_lt(x@, v@[i as int]@),
            forall|j: int| 0 <= j < i ==> seq_lt(#[trigger] v@[j]@, x@),
        decreases n - i,
    {
        let s: &str = v[i].as_str();
        if !str_lt(s, x) {
            if !str_lt(x, s) {
                proof {
                    lemma_seq_lt_total(v@[i as int]@, x@);
                    assert(views(v@)[i as int] == x@);
                }
                return;
            }
            break;
        }
        i = i + 1;
    }
    let ghost before = v@;
    let owned = x.to_owned();
    v.insert(i, owned);
    proof {
        assert(v@ =~= before.take(i as int).push(owned).add(before.skip(i as int)));
        let vs = views(v@);
        let bs = views(before);
        assert forall|a: int, b: int| 0 <= a < b < vs.len() implies seq_lt(
            #[trigger] vs[a],
            #[trigger] vs[b],
        ) by {
            if a < i && b < i {
                assert(vs[a] == bs[a] && vs[b] == bs[b]);
            } else if a < i && b == i {
                assert(vs[a] == bs[a]);
                assert(vs[b] == x@);
            } else if a < i && b > i {
                assert(vs[a] == bs[a] && vs[b] == bs[b - 1]);
                if b - 1 > a {
                } 
            } else if a == i {
                assert(vs[b] == bs[b - 1]);
                assert(vs[a] == x@);
                assert(seq_lt(x@, bs[i as int]));
                if b - 1 > i {
                    lemma_seq_lt_transitive(x@, bs[i as int], bs[b - 1]);
                }
            } else {
                assert(vs[a] == bs[a - 1] && vs[b] == bs[b - 1]);
            }
        }
        assert forall|y: Seq<char>| contains_view(vs, y) <==> (contains_view(bs, y) || y == x@) by {
            if contains_view(vs, y) {
                let k = choose|k: int| 0 <= k < vs.len() && #[trigger] vs[k] == y;
                if k < i {
                    assert(bs[k] == y);
                } else if k > i {
                    assert(bs[k - 1] == y);
                }
            }
            if contains_view(bs, y) {
                let k = choose|k: int| 0 <= k < bs.len() && #[trigger] bs[k] == y;
                if k < i {
                    assert(vs[k] == y);
                } else {
                    assert(vs[k + 1] == y);
                }
            }
            if y == x@ {
                assert(vs[i as int] == y);
            }
        }
    }
}

} // verus!
