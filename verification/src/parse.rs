//! From the text of a schema document to the tree that it describes.

use crate::builder::{build_tree, built, StructureError};
use crate::indent::{normalize_indentation, normalized};
use crate::scanner::{scan_lines, scanned};
use crate::tree::{Node, Tree};
use vstd::prelude::*;

verus! {

/// What the text of a document describes below a root directory named `root`:
/// its lines are measured, their indentation widths are replaced by their ranks,
/// and the tree is built from the result.
pub open spec fn parsed(root: Seq<char>, text: Seq<char>) -> Result<Tree, StructureError> {
    built(root, normalized(scanned(text)))
}

/// Reads the text of a schema document into the tree that it describes, below a
/// root directory named `root_name`.
///
/// The document is rejected where a line stands deeper than every directory that
/// is open at that point: below a file, or more than one level below the line
/// before it. The error carries the number of the first such line.
pub fn process_dir_file(root_name: &str, text: &str) -> (res: Result<Node, StructureError>)
    ensures
        match res {
            Ok(root) => parsed(root_name@, text@) == Ok::<Tree, StructureError>(root@),
            Err(e) => parsed(root_name@, text@) == Err::<Tree, StructureError>(e),
        },
{
    let mut lines = scan_lines(text);
    normalize_indentation(&mut lines);
    build_tree(root_name, &lines)
}

} // verus!
