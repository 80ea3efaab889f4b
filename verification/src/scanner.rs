//! The line scanner: from the text of a document to its measured lines.

use crate::line::{line_views, IndentMeasuredString, RawLine};
use crate::text::{
    chars_of, is_space, is_whitespace, leading_spaces, lemma_leading_spaces,
    lemma_trailing_spaces, string_of, trimmed,
};
use vstd::prelude::*;

verus! {

/// Where the first physical line of `s` ends: at the first line feed, or at the
/// end of `s` where there is none.
pub open spec fn first_break(s: Seq<char>) -> int
    decreases s.len(),
{
    if s.len() == 0 || s[0] == '\n' {
        0
    } else {
        1 + first_break(s.drop_first())
    }
}

/// A physical line carries an entry unless it is blank or its first character
/// that is not whitespace is `#`.
pub open spec fn carries_entry(line: Seq<char>) -> bool {
    leading_spaces(line) < line.len() && line[leading_spaces(line) as int] != '#'
}

/// The measured line for the physical line `line`, which is the `number`-th of
/// its document.
pub open spec fn measured(line: Seq<char>, number: nat) -> RawLine {
    RawLine { indent: leading_spaces(line), name: trimmed(line), source_line: number }
}

/// The measured lines of the text `s`, whose first physical line is the
/// `number`-th of the document. A line feed ends a physical line; the last line
/// needs none.
pub open spec fn scanned_from(s: Seq<char>, number: nat) -> Seq<RawLine>
    decreases s.len(),
{
    if s.len() == 0 {
        Seq::empty()
    } else {
        let k = first_break(s);
        let line = s.take(k);
        let here = if carries_entry(line) {
            seq![measured(line, number)]
        } else {
            Seq::empty()
        };
        if 0 <= k < s.len() {
            here + scanned_from(s.skip(k + 1), number + 1)
        } else {
            here
        }
    }
}

/// The measured lines of a document: its physical lines, numbered from 1, without
/// the blank lines and the comments, in order.
pub open spec fn scanned(text: Seq<char>) -> Seq<RawLine> {
    scanned_from(text, 1)
}

/// The first physical line of `s` ends at `k` where no line feed stands before
/// `k` and one stands at `k`, or `s` ends there.
pub proof fn lemma_first_break(s: Seq<char>, k: int)
    requires
        0 <= k <= s.len(),
        forall|q: int| 0 <= q < k ==> s[q] != '\n',
        k < s.len() ==> s[k] == '\n',
    ensures
        first_break(s) == k,
    decreases k,
{
    if k > 0 {
        lemma_first_break(s.drop_first(), k - 1);
    }
}

/// Scans the text of a document into its measured lines.
///
/// Blank lines and lines whose first character that is not whitespace is `#` are
/// dropped. Every other line gives its indentation width (the number of
/// whitespace characters before its text), its text without the whitespace
/// around it, and its number among all the lines of the document.
pub fn scan_lines(text: &str) -> (out: Vec<IndentMeasuredString>)
    ensures
        line_views(out@) == scanned(text@),
{
    let chars = chars_of(text);
    let n: usize = chars.len();
    let mut out: Vec<IndentMeasuredString> = Vec::new();
    let mut pos: usize = 0;
    let mut done: usize = 0;
    proof {
        assert(chars@.skip(0) =~= chars@);
    }
    while pos < n
        invariant
            n == chars.len(),
            pos <= n,
            done <= pos,
            scanned(chars@) == line_views(out@) + scanned_from(
                chars@.skip(pos as int),
                (done + 1) as nat,
            ),
        decreases n - pos,
    {
        let ghost rest = chars@.skip(pos as int);
        let mut end: usize = pos;
        while end < n && chars[end] != '\n'
            invariant
                n == chars.len(),
                pos <= end <= n,
                forall|q: int| pos <= q < end ==> chars[q] != '\n',
            decreases n - end,
        {
            end += 1;
        }
        let ghost line = rest.take(end - pos);
        proof {
            lemma_first_break(rest, end - pos);
        }
        let mut start: usize = pos;
        while start < end && is_whitespace(chars[start])
            invariant
                n == chars.len(),
                pos <= start <= end <= n,
                forall|q: int| pos <= q < start ==> is_space(chars[q]),
            decreases end - start,
        {
            start += 1;
        }
        proof {
            lemma_leading_spaces(line, start - pos);
        }
        let ghost before = line_views(out@);
        if start < end && chars[start] != '#' {
            let mut stop: usize = end;
            while stop > start + 1 && is_whitespace(chars[stop - 1])
                invariant
                    n == chars.len(),
                    start < stop <= end <= n,
                    forall|q: int| stop <= q < end ==> is_space(chars[q]),
                decreases stop,
            {
                stop -= 1;
            }
            proof {
                lemma_trailing_spaces(line, stop - pos);
                assert(trimmed(line) =~= chars@.subrange(start as int, stop as int));
            }
            let name = string_of(&chars, start, stop);
            out.push(IndentMeasuredString { indent: start - pos, name, source_line: done + 1 });
            proof {
                assert(line_views(out@) =~= before + seq![measured(line, (done + 1) as nat)]);
            }
        }
        proof {
            if end < n {
                assert(rest.skip(end - pos + 1) =~= chars@.skip(end + 1));
            } else {
                assert(chars@.skip(end as int) =~= Seq::<char>::empty());
            }
        }
        pos = if end < n {
            end + 1
        } else {
            end
        };
        done += 1;
    }
    out
}

} // verus!
