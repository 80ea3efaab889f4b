//! Conversion between an indented text schema of a directory tree and the tree
//! itself, in both directions.
//!
//! Forward, the text of a schema document is scanned into measured lines, the
//! widths of their indentation are normalized to depths, and the tree is built
//! from the lines; the materializer then says what to create on disk, and in
//! which order. Backward, the serializer gives the schema lines of a directory's
//! entries. Reading and writing files is left to the caller.

pub mod builder;
pub mod indent;
pub mod line;
pub mod materialize;
pub mod parse;
pub mod round_trip;
pub mod scanner;
pub mod schema;
pub mod text;
pub mod tree;

pub use crate::builder::{build_tree, StructureError};
pub use crate::indent::normalize_indentation;
pub use crate::line::IndentMeasuredString;
pub use crate::materialize::{after, create_node, Action, MaterializeError, Next, Outcome};
pub use crate::parse::process_dir_file;
pub use crate::scanner::scan_lines;
pub use crate::schema::{create_schema, sub_schema};
pub use crate::tree::{Directory, Node};
