use vstd::prelude::*;

verus! {

/// A position in a source file: 1-based line and column.
#[derive(Clone, Copy, Debug, PartialEq, Eq, Structural)]
pub struct Span {
    pub line: usize,
    pub column: usize,
}

impl Span {
    pub fn new(line: usize, column: usize) -> (s: Span)
        ensures
            s.line == line,
            s.column == column,
    {
        Span { line, column }
    }
}

} // verus!
