//! Reading what a gitpr review snapshot names.
//!
//! `gitpr show` emits YAML whose leading block is flat scalars; only a few
//! are needed, so they are read directly. `gitpr list` prints a header row
//! and then one snapshot per line, whose first column is its id.

use crate::text::{split_on, split_str, starts_with, string_of_range, chars_of};
use crate::walk::begins_with;
use vstd::prelude::*;

verus! {

/// A line without the carriage return that may end it.
pub open spec fn strip_cr(line: Seq<char>) -> Seq<char> {
    if line.len() > 0 && line.last() == '\r' {
        line.drop_last()
    } else {
        line
    }
}

/// The lines of a text: the pieces between newlines, each without a
/// trailing carriage return.
pub open spec fn text_lines(text: Seq<char>) -> Seq<Seq<char>> {
    split_on(text, '\n').map_values(|l: Seq<char>| strip_cr(l))
}

/// The value of the first `key: value` line before the file diffs begin.
pub open spec fn field_in(lines: Seq<Seq<char>>, key: Seq<char>) -> Option<Seq<char>>
    decreases lines.len(),
{
    if lines.len() == 0 || starts_with(lines[0], "file_diffs:"@) {
        None
    } else if starts_with(lines[0], key + ": "@) {
        Some(lines[0].skip(key.len() + 2int))
    } else {
        field_in(lines.drop_first(), key)
    }
}

/// A line without its trailing carriage return.
fn without_cr(line: &str) -> (r: String)
    ensures
        r@ == strip_cr(line@),
{
    let cs = chars_of(line);
    if cs.len() > 0 && cs[cs.len() - 1] == '\r' {
        string_of_range(cs.as_slice(), 0, cs.len() - 1)
    } else {
        string_of_range(cs.as_slice(), 0, cs.len())
    }
}

/// The value a snapshot gives a key.
pub fn snapshot_field(text: &str, key: &str) -> (r: Option<String>)
    ensures
        match field_in(text_lines(text@), key@) {
            Some(v) => r is Some && r->0@ == v,
            None => r is None,
        },
{
    let pieces = split_str(text, '\n');
    let ghost lines = text_lines(text@);
    let mut prefix = key.to_owned();
    crate::text::push_str(&mut prefix, ": ");
    proof {
        assert(pieces@.map_values(|p: String| p@) == split_on(text@, '\n'));
        assert(lines.skip(0) =~= lines);
    }
    let mut k: usize = 0;
    while k < pieces.len()
        invariant
            k <= pieces@.len(),
            pieces@.map_values(|p: String| p@) == split_on(text@, '\n'),
            lines == text_lines(text@),
            lines.len() == pieces@.len(),
            prefix@ == key@ + ": "@,
            field_in(lines, key@) == field_in(lines.skip(k as int), key@),
        decreases pieces@.len() - k,
    {
        let line = without_cr(pieces[k].as_str());
        proof {
            assert(pieces@.map_values(|p: String| p@)[k as int] == pieces@[k as int]@);
            assert(line@ == lines[k as int]);
            assert(lines.skip(k as int)[0] == lines[k as int]);
            assert(lines.skip(k as int).drop_first() =~= lines.skip(k + 1));
            reveal_strlit("file_diffs:");
            reveal_strlit(": ");
        }
        if begins_with(line.as_str(), "file_diffs:") {
            return None;
        }
        if begins_with(line.as_str(), prefix.as_str()) {
            let cs = chars_of(line.as_str());
            let start = prefix.as_str().unicode_len();
            proof {
                assert(cs@.subrange(start as int, cs@.len() as int) =~= line@.skip(key@.len() + 2int));
            }
            return Some(string_of_range(cs.as_slice(), start, cs.len()));
        }
        k = k + 1;
    }
    None
}

/// Unicode's White_Space property, which `char::is_whitespace` tests: tab
/// through carriage return, space, next line, no-break space, Ogham space
/// mark, the spaces from en quad to hair space, line and paragraph
/// separators, narrow no-break space, medium mathematical space and
/// ideographic space.
pub open spec fn whitespace(c: char) -> bool {
    ||| ('\u{9}' <= c && c <= '\u{d}')
    ||| c == ' '
    ||| c == '\u{85}'
    ||| c == '\u{a0}'
    ||| c == '\u{1680}'
    ||| ('\u{2000}' <= c && c <= '\u{200a}')
    ||| c == '\u{2028}'
    ||| c == '\u{2029}'
    ||| c == '\u{202f}'
    ||| c == '\u{205f}'
    ||| c == '\u{3000}'
}

/// Does `c` have Unicode's White_Space property?
fn is_whitespace(c: char) -> (r: bool)
    ensures
        r == whitespace(c),
{
    ('\u{9}' <= c && c <= '\u{d}') || c == ' ' || c == '\u{85}' || c == '\u{a0}' || c == '\u{1680}' || (
    '\u{2000}' <= c && c <= '\u{200a}') || c == '\u{2028}' || c == '\u{2029}' || c == '\u{202f}' || c
        == '\u{205f}' || c == '\u{3000}'
}

/// Where the first whitespace-free run of `line` from `i` on begins.
pub open spec fn word_start(line: Seq<char>, i: int) -> int
    decreases line.len() - i,
{
    if i >= line.len() || !whitespace(line[i]) {
        i
    } else {
        word_start(line, i + 1)
    }
}

/// Where the run of characters that are not whitespace, from `i` on, ends.
pub open spec fn word_end(line: Seq<char>, i: int) -> int
    decreases line.len() - i,
{
    if i >= line.len() || whitespace(line[i]) {
        i
    } else {
        word_end(line, i + 1)
    }
}

/// The first whitespace-separated word of a line, if it has one.
pub open spec fn first_word(line: Seq<char>) -> Option<Seq<char>> {
    let s = word_start(line, 0);
    if s >= line.len() {
        None
    } else {
        Some(line.subrange(s, word_end(line, s)))
    }
}

/// The ids a `gitpr list` output names: the first word of every line after
/// the header, lines without one skipped.
pub open spec fn listed_ids(lines: Seq<Seq<char>>, n: int) -> Seq<Seq<char>>
    decreases n,
{
    if n <= 1 {
        Seq::empty()
    } else {
        let rest = listed_ids(lines, n - 1);
        match first_word(lines[n - 1]) {
            Some(w) => rest.push(w),
            None => rest,
        }
    }
}

proof fn lemma_word_bounds(line: Seq<char>, i: int)
    requires
        0 <= i <= line.len(),
    ensures
        i <= word_start(line, i) <= line.len(),
        i <= word_end(line, i) <= line.len(),
    decreases line.len() - i,
{
    if i < line.len() {
        lemma_word_bounds(line, i + 1);
    }
}

/// The first word of a line.
fn first_word_of(line: &str) -> (r: Option<String>)
    ensures
        match first_word(line@) {
            Some(w) => r is Some && r->0@ == w,
            None => r is None,
        },
{
    let cs = chars_of(line);
    let n = cs.len();
    let mut s: usize = 0;
    while s < n && is_whitespace(cs[s])
        invariant
            s <= n,
            n == line@.len(),
            cs@ == line@,
            word_start(line@, 0) == word_start(line@, s as int),
        decreases n - s,
    {
        s = s + 1;
    }
    if s >= n {
        return None;
    }
    let mut e: usize = s;
    while e < n && !is_whitespace(cs[e])
        invariant
            s <= e <= n,
            n == line@.len(),
            cs@ == line@,
            word_end(line@, s as int) == word_end(line@, e as int),
        decreases n - e,
    {
        e = e + 1;
    }
    Some(string_of_range(cs.as_slice(), s, e))
}

/// The one open snapshot a `gitpr list` output names, or how many it names
/// when that is not exactly one.
pub fn only_open_snapshot(list_output: &str) -> (r: Result<String, usize>)
    ensures
        ({
            let ids = listed_ids(text_lines(list_output@), text_lines(list_output@).len() as int);
            match r {
                Ok(id) => ids.len() == 1 && id@ == ids[0],
                Err(n) => ids.len() != 1 && n == ids.len(),
            }
        }),
{
    let pieces = split_str(list_output, '\n');
    let ghost lines = text_lines(list_output@);
    let mut ids: Vec<String> = Vec::new();
    let mut k: usize = 1;
    proof {
        assert(pieces@.map_values(|p: String| p@) == split_on(list_output@, '\n'));
        crate::text::lemma_split_on_nonempty(list_output@, '\n');
    }
    while k < pieces.len()
        invariant
            1 <= k <= pieces@.len(),
            pieces@.map_values(|p: String| p@) == split_on(list_output@, '\n'),
            lines == text_lines(list_output@),
            lines.len() == pieces@.len(),
            ids@.map_values(|p: String| p@) == listed_ids(lines, k as int),
            ids@.len() <= k,
        decreases pieces@.len() - k,
    {
        let line = without_cr(pieces[k].as_str());
        proof {
            assert(pieces@.map_values(|p: String| p@)[k as int] == pieces@[k as int]@);
            assert(line@ == lines[k as int]);
        }
        let ghost before = ids@;
        match first_word_of(line.as_str()) {
            Some(w) => {
                ids.push(w);
                proof {
                    assert(ids@.map_values(|p: String| p@) =~= before.map_values(|p: String| p@).push(ids@[ids@.len() - 1]@));
                }
            },
            None => {},
        }
        k = k + 1;
    }
    proof {
        assert(ids@.map_values(|p: String| p@).len() == ids@.len());
    }
    if ids.len() == 1 {
        let id = ids.pop().unwrap();
        proof {
            assert(ids@.len() == 0);
        }
        Ok(id)
    } else {
        Err(ids.len())
    }
}

} // verus!
