use vstd::prelude::*;

verus! {

/// A place in a source file: the file's index in the bundle, a line and a column.
#[derive(Debug, Clone, Copy, PartialEq, Eq, Structural)]
pub struct Location {
    pub source_index: u32,
    pub line: u32,
    pub column: u32,
}

} // verus!
