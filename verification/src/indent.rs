//! The indentation normalizer: from the widths of indentation that a document
//! uses to dense depths.

use crate::line::{line_views, IndentMeasuredString, RawLine};
use vstd::prelude::*;
use vstd::set_lib::{lemma_int_range, set_int_range};

verus! {

/// The indentation widths of the lines, in order.
pub open spec fn indents(lines: Seq<RawLine>) -> Seq<int> {
    Seq::new(lines.len(), |i: int| lines[i].indent as int)
}

/// The rank of width `w` in a document: how many distinct widths that occur in
/// `all` are smaller than `w`.
pub open spec fn rank(all: Seq<int>, w: int) -> nat {
    all.to_set().filter(|x: int| x < w).len()
}

/// The lines with every width replaced by its rank among the widths of the whole
/// document. Names and line numbers stay.
pub open spec fn normalized(lines: Seq<RawLine>) -> Seq<RawLine> {
    Seq::new(
        lines.len(),
        |i: int|
            RawLine {
                indent: rank(indents(lines), lines[i].indent as int),
                name: lines[i].name,
                source_line: lines[i].source_line,
            },
    )
}

/// The widths of the lines are canonical depths already: with a width, every
/// smaller one occurs too, so that the widths in use are 0, 1, 2 and so on
/// without a gap.
pub open spec fn canonical(lines: Seq<RawLine>) -> bool {
    forall|i: int, w: int|
        #![trigger lines[i], indents(lines).contains(w)]
        0 <= i < lines.len() && 0 <= w < lines[i].indent ==> indents(lines).contains(w)
}

/// In a document whose widths are canonical depths, a width is its own rank.
pub proof fn lemma_rank_of_canonical(lines: Seq<RawLine>, i: int)
    requires
        canonical(lines),
        0 <= i < lines.len(),
    ensures
        rank(indents(lines), lines[i].indent as int) == lines[i].indent,
{
    let all = indents(lines);
    let w = lines[i].indent as int;
    let below = all.to_set().filter(|x: int| x < w);
    assert forall|x: int| below.contains(x) implies 0 <= x < w by {
        let j = choose|j: int| 0 <= j < all.len() && all[j] == x;
        assert(x == lines[j].indent);
    }
    assert forall|x: int| 0 <= x < w implies below.contains(x) by {
        assert(indents(lines).contains(x));
    }
    assert(below =~= set_int_range(0, w));
    lemma_int_range(0, w);
}

/// Normalizing is idempotent on canonical depths: lines whose widths are canonical
/// depths already are left as they are.
pub proof fn lemma_normalized_canonical(lines: Seq<RawLine>)
    requires
        canonical(lines),
    ensures
        normalized(lines) == lines,
{
    assert forall|i: int| 0 <= i < lines.len() implies normalized(lines)[i] == lines[i] by {
        lemma_rank_of_canonical(lines, i);
    }
}

/// Each value is smaller than the next.
pub open spec fn increasing(s: Seq<usize>) -> bool {
    forall|p: int, q: int| 0 <= p < q < s.len() ==> s[p] < s[q]
}

/// One of the first `upto` lines has width `w`.
pub open spec fn occurs(lines: Seq<IndentMeasuredString>, upto: int, w: usize) -> bool {
    exists|i: int| 0 <= i < upto && (#[trigger] lines[i]).indent == w
}

/// `w` is a value of `s`.
pub open spec fn listed(s: Seq<usize>, w: usize) -> bool {
    exists|p: int| 0 <= p < s.len() && #[trigger] s[p] == w
}

/// The values of `s` are the widths of the first `upto` lines.
pub open spec fn holds_widths(s: Seq<usize>, lines: Seq<IndentMeasuredString>, upto: int) -> bool {
    &&& forall|p: int| 0 <= p < s.len() ==> occurs(lines, upto, #[trigger] s[p])
    &&& forall|i: int| 0 <= i < upto ==> listed(s, (#[trigger] lines[i]).indent)
}

/// In the increasing sequence of a document's distinct widths, a width stands at
/// the index that is its rank.
pub proof fn lemma_rank_is_index(lines: Seq<IndentMeasuredString>, sorted: Seq<usize>, k: int)
    requires
        increasing(sorted),
        holds_widths(sorted, lines, lines.len() as int),
        0 <= k < sorted.len(),
    ensures
        rank(indents(line_views(lines)), sorted[k] as int) == k,
{
    let all = indents(line_views(lines));
    let w = sorted[k] as int;
    let below = all.to_set().filter(|x: int| x < w);
    let head = Seq::new(k as nat, |p: int| sorted[p] as int);
    assert forall|x: int| below.contains(x) implies head.to_set().contains(x) by {
        let i = choose|i: int| 0 <= i < all.len() && all[i] == x;
        let p = choose|p: int| 0 <= p < sorted.len() && #[trigger] sorted[p] == lines[i].indent;
        assert(head[p] == x);
    }
    assert forall|x: int| head.to_set().contains(x) implies below.contains(x) by {
        let p = choose|p: int| 0 <= p < head.len() && head[p] == x;
        let i = choose|i: int| 0 <= i < lines.len() && (#[trigger] lines[i]).indent == sorted[p];
        assert(all[i] == x);
    }
    assert(below =~= head.to_set());
    head.unique_seq_to_set();
}

/// The first index of `levels` whose value is not below `w`.
fn lower_bound(levels: &Vec<usize>, w: usize) -> (p: usize)
    requires
        increasing(levels@),
    ensures
        p <= levels.len(),
        forall|q: int| 0 <= q < p ==> levels[q] < w,
        p < levels.len() ==> levels[p as int] >= w,
{
    let mut p: usize = 0;
    while p < levels.len() && levels[p] < w
        invariant
            p <= levels.len(),
            forall|q: int| 0 <= q < p ==> levels[q] < w,
        decreases levels.len() - p,
    {
        p += 1;
    }
    p
}

/// The distinct widths of the lines, in increasing order.
fn distinct_widths(lines: &Vec<IndentMeasuredString>) -> (levels: Vec<usize>)
    ensures
        increasing(levels@),
        holds_widths(levels@, lines@, lines.len() as int),
{
    let mut levels: Vec<usize> = Vec::new();
    let mut j: usize = 0;
    while j < lines.len()
        invariant
            j <= lines.len(),
            increasing(levels@),
            holds_widths(levels@, lines@, j as int),
        decreases lines.len() - j,
    {
        let w: usize = lines[j].indent;
        let p: usize = lower_bound(&levels, w);
        let ghost before = levels@;
        if p == levels.len() || levels[p] != w {
            levels.insert(p, w);
            proof {
                assert forall|a: int| 0 <= a < levels.len() implies occurs(
                    lines@,
                    j + 1,
                    #[trigger] levels[a],
                ) by {
                    if a < p {
                        assert(levels[a] == before[a]);
                    } else if a == p {
                        assert(lines[j as int].indent == levels[a]);
                    } else {
                        assert(levels[a] == before[a - 1]);
                    }
                }
                assert forall|i: int| 0 <= i < j + 1 implies listed(
                    levels@,
                    (#[trigger] lines[i]).indent,
                ) by {
                    if i < j {
                        let b = choose|b: int|
                            0 <= b < before.len() && #[trigger] before[b] == lines[i].indent;
                        if b < p {
                            assert(levels[b] == lines[i].indent);
                        } else {
                            assert(levels[b + 1] == lines[i].indent);
                        }
                    } else {
                        assert(levels[p as int] == lines[i].indent);
                    }
                }
            }
        } else {
            proof {
                assert forall|i: int| 0 <= i < j + 1 implies listed(
                    levels@,
                    (#[trigger] lines[i]).indent,
                ) by {
                    if i == j {
                        assert(levels[p as int] == lines[i].indent);
                    }
                }
            }
        }
        j += 1;
    }
    levels
}

/// Rewrites each line's indentation width to its canonical depth.
///
/// The distinct widths that occur anywhere in the document are ranked in
/// increasing order, from 0, and every line gets the rank of its width. One width
/// gives one depth throughout the document, whatever stands around the line.
pub fn normalize_indentation(lines: &mut Vec<IndentMeasuredString>)
    ensures
        final(lines).len() == old(lines).len(),
        line_views(final(lines)@) == normalized(line_views(old(lines)@)),
{
    let levels = distinct_widths(lines);
    let ghost before = lines@;
    let mut j: usize = 0;
    while j < lines.len()
        invariant
            j <= lines.len(),
            lines.len() == before.len(),
            increasing(levels@),
            holds_widths(levels@, before, before.len() as int),
            forall|x: int| j <= x < lines.len() ==> lines[x] == before[x],
            forall|x: int| 0 <= x < j ==> (#[trigger] lines[x])@ == normalized(line_views(before))[x],
        decreases lines.len() - j,
    {
        let k: usize = lower_bound(&levels, lines[j].indent);
        proof {
            let a = choose|a: int|
                0 <= a < levels.len() && #[trigger] levels[a] == before[j as int].indent;
            lemma_rank_is_index(before, levels@, k as int);
        }
        lines[j].indent = k;
        j += 1;
    }
}

} // verus!
