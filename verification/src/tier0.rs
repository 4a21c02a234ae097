//! Tier 0: indentation density.
//!
//! No grammar required. Applies to every file the walk visits, including
//! formats with no tree-sitter support. The indentation parser here follows
//! `thoughtbot/complexity` (`src/parser.rs`); the floating-point scorer that
//! consumes its output lives outside this verified library.

use crate::text::chars_of;
use vstd::prelude::*;

verus! {

/// Lines of text, split on `'\n'`. A text with `k` newlines has `k + 1`
/// lines; the empty text is one empty line.
pub open spec fn lines(s: Seq<char>) -> Seq<Seq<char>>
    decreases s.len(),
{
    if s.len() == 0 {
        seq![Seq::<char>::empty()]
    } else {
        let init = lines(s.drop_last());
        if s.last() == '\n' {
            init.push(Seq::empty())
        } else {
            init.update(init.len() - 1, init.last().push(s.last()))
        }
    }
}

/// Indentation whitespace: a space or a tab.
pub open spec fn is_indent(c: char) -> bool {
    c == ' ' || c == '\t'
}

/// A line holding nothing but indentation whitespace.
pub open spec fn is_blank(line: Seq<char>) -> bool {
    forall|i: int| 0 <= i < line.len() ==> is_indent(#[trigger] line[i])
}

/// Count of leading spaces and tabs.
pub open spec fn leading_indent(line: Seq<char>) -> nat
    decreases line.len(),
{
    if line.len() == 0 {
        0
    } else if is_indent(line[0]) {
        1 + leading_indent(line.drop_first())
    } else {
        0
    }
}

/// Leading indentation of every non-blank line, in order.
pub open spec fn nonblank_widths(ls: Seq<Seq<char>>) -> Seq<nat>
    decreases ls.len(),
{
    if ls.len() == 0 {
        Seq::empty()
    } else if is_blank(ls.last()) {
        nonblank_widths(ls.drop_last())
    } else {
        nonblank_widths(ls.drop_last()).push(leading_indent(ls.last()))
    }
}

proof fn lemma_lines_nonempty(s: Seq<char>)
    ensures
        lines(s).len() >= 1,
    decreases s.len(),
{
    if s.len() > 0 {
        lemma_lines_nonempty(s.drop_last());
    }
}

proof fn lemma_leading_indent_blank(line: Seq<char>)
    requires
        is_blank(line),
    ensures
        leading_indent(line) == line.len(),
    decreases line.len(),
{
    if line.len() > 0 {
        assert(is_blank(line.drop_first())) by {
            assert forall|i: int| 0 <= i < line.drop_first().len() implies is_indent(
                #[trigger] line.drop_first()[i],
            ) by {
                assert(line.drop_first()[i] == line[i + 1]);
            }
        }
        lemma_leading_indent_blank(line.drop_first());
    }
}

proof fn lemma_leading_indent_push(line: Seq<char>, c: char)
    ensures
        leading_indent(line.push(c)) == if is_blank(line) && is_indent(c) {
            line.len() + 1
        } else if is_blank(line) {
            line.len()
        } else {
            leading_indent(line)
        },
    decreases line.len(),
{
    let pushed = line.push(c);
    if line.len() == 0 {
        assert(pushed.drop_first() =~= Seq::<char>::empty());
        assert(pushed[0] == c);
        assert(leading_indent(Seq::<char>::empty()) == 0);
        assert(is_blank(line));
    } else {
        let rest = line.drop_first();
        assert(pushed.drop_first() =~= rest.push(c));
        assert(pushed[0] == line[0]);
        lemma_leading_indent_push(rest, c);
        if is_blank(line) {
            assert(is_indent(line[0]));
            assert(is_blank(rest)) by {
                assert forall|i: int| 0 <= i < rest.len() implies is_indent(#[trigger] rest[i]) by {
                    assert(rest[i] == line[i + 1]);
                }
            }
            assert(leading_indent(pushed) == 1 + leading_indent(rest.push(c)));
        } else if is_indent(line[0]) {
            assert(!is_blank(rest)) by {
                let k = choose|k: int| 0 <= k < line.len() && !is_indent(#[trigger] line[k]);
                assert(k > 0);
                assert(rest[k - 1] == line[k]);
            }
            assert(leading_indent(pushed) == 1 + leading_indent(rest.push(c)));
            assert(leading_indent(line) == 1 + leading_indent(rest));
        } else {
            assert(leading_indent(pushed) == 0);
            assert(leading_indent(line) == 0);
        }
    }
}

/// Leading-whitespace width of every non-blank line, in order.
pub fn indentation_widths(input: &str) -> (result: Vec<usize>)
    ensures
        result@.map_values(|w: usize| w as nat) == nonblank_widths(lines(input@)),
{
    let cs = chars_of(input);
    let n = cs.len();
    let mut result: Vec<usize> = Vec::new();
    let mut whitespace: usize = 0;
    let mut space = true;
    let mut i: usize = 0;
    proof {
        assert(cs@.take(0) =~= Seq::<char>::empty());
    }
    while i < n
        invariant
            i <= n,
            n == cs@.len(),
            cs@ == input@,
            lines(cs@.take(i as int)).len() >= 1,
            result@.map_values(|w: usize| w as nat) == nonblank_widths(
                lines(cs@.take(i as int)).drop_last(),
            ),
            whitespace == leading_indent(lines(cs@.take(i as int)).last()),
            space == is_blank(lines(cs@.take(i as int)).last()),
            whitespace <= i,
        decreases n - i,
    {
        let c = cs[i];
        let ghost prefix = cs@.take(i as int);
        let ghost next = cs@.take(i + 1);
        proof {
            assert(next.drop_last() =~= prefix);
            assert(next.last() == c);
            lemma_lines_nonempty(prefix);
        }
        if (c == ' ' || c == '\t') && space {
            whitespace = whitespace + 1;
            proof {
                let line = lines(prefix).last();
                lemma_leading_indent_push(line, c);
                assert(lines(next).last() == line.push(c));
                lemma_leading_indent_blank(line);
                assert(lines(next).drop_last() =~= lines(prefix).drop_last());
                assert(is_blank(line.push(c))) by {
                    assert forall|j: int| 0 <= j < line.push(c).len() implies is_indent(
                        #[trigger] line.push(c)[j],
                    ) by {
                        if j < line.len() {
                            assert(line.push(c)[j] == line[j]);
                        }
                    }
                }
            }
        } else if c == '\n' {
            let ghost before = result@.map_values(|w: usize| w as nat);
            if !space {
                result.push(whitespace);
            }
            proof {
                let ls = lines(prefix);
                assert(lines(next) == ls.push(Seq::<char>::empty()));
                assert(lines(next).drop_last() =~= ls);
                assert(ls.drop_last() =~= ls.drop_last());
                assert(is_blank(Seq::<char>::empty()));
                if !space {
                    assert(result@.map_values(|w: usize| w as nat) =~= before.push(
                        whitespace as nat,
                    ));
                } else {
                    assert(result@.map_values(|w: usize| w as nat) =~= before);
                }
            }
            whitespace = 0;
            space = true;
        } else {
            proof {
                let line = lines(prefix).last();
                lemma_leading_indent_push(line, c);
                assert(lines(next).last() == line.push(c));
                assert(lines(next).drop_last() =~= lines(prefix).drop_last());
                if is_blank(line) {
                    lemma_leading_indent_blank(line);
                }
                assert(!is_blank(line.push(c))) by {
                    if is_indent(c) {
                        assert(!is_blank(line));
                        let k = choose|k: int| 0 <= k < line.len() && !is_indent(#[trigger] line[k]);
                        assert(line.push(c)[k] == line[k]);
                    } else {
                        assert(line.push(c)[line.len() as int] == c);
                    }
                }
            }
            space = false;
        }
        i = i + 1;
    }
    proof {
        assert(cs@.take(n as int) =~= input@);
    }
    let ghost before = result@.map_values(|w: usize| w as nat);
    if !space {
        result.push(whitespace);
    }
    proof {
        let ls = lines(input@);
        assert(ls =~= ls.drop_last().push(ls.last()));
        if !space {
            assert(result@.map_values(|w: usize| w as nat) =~= before.push(whitespace as nat));
        } else {
            assert(result@.map_values(|w: usize| w as nat) =~= before);
        }
        assert(ls.drop_last() == ls.drop_last());
        assert(nonblank_widths(ls) == if is_blank(ls.last()) {
            nonblank_widths(ls.drop_last())
        } else {
            nonblank_widths(ls.drop_last()).push(leading_indent(ls.last()))
        });
    }
    result
}

} // verus!
