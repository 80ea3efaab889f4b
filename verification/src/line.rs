//! A measured line of a schema document.

use vstd::prelude::*;

verus! {

/// A line that carries an entry: the width of its indentation, its trimmed text
/// (a trailing `/` marks a directory), and its number in the document, from 1.
#[derive(Debug, Clone, PartialEq, Eq)]
pub struct IndentMeasuredString {
    pub indent: usize,
    pub name: String,
    pub source_line: usize,
}

/// The mathematical model of an [`IndentMeasuredString`].
pub struct RawLine {
    pub indent: nat,
    pub name: Seq<char>,
    pub source_line: nat,
}

impl View for IndentMeasuredString {
    type V = RawLine;

    open spec fn view(&self) -> RawLine {
        RawLine {
            indent: self.indent as nat,
            name: self.name@,
            source_line: self.source_line as nat,
        }
    }
}

/// The models of a sequence of lines.
pub open spec fn line_views(lines: Seq<IndentMeasuredString>) -> Seq<RawLine> {
    Seq::new(lines.len(), |i: int| lines[i]@)
}

} // verus!
