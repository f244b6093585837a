use vstd::prelude::*;

verus! {

/// A 1-based line/column position in a text document.
#[derive(Clone, Copy, Debug, PartialEq, Eq, Structural)]
pub struct Loc {
    pub line: u64,
    pub column: u64,
}

impl Loc {
    /// Both coordinates are 1-based; 0 never denotes a position.
    pub open spec fn wf(self) -> bool {
        self.line >= 1 && self.column >= 1
    }

    pub fn new(line: u64, column: u64) -> (r: Loc)
        ensures
            r == (Loc { line, column }),
    {
        Loc { line, column }
    }
}

/// The extent of a symbol: a start and an end location in document order.
/// Degenerate spans (start == end) stand for point symbols.
#[derive(Clone, Copy, Debug, PartialEq, Eq, Structural)]
pub struct Span {
    pub start: Loc,
    pub end: Loc,
}

impl Span {
    /// Start does not come after end, and both locations are 1-based.
    pub open spec fn wf(self) -> bool {
        &&& self.start.wf()
        &&& self.end.wf()
        &&& (self.start.line < self.end.line || (self.start.line == self.end.line
            && self.start.column <= self.end.column))
    }

    pub fn new(start: Loc, end: Loc) -> (r: Span)
        ensures
            r == (Span { start, end }),
    {
        Span { start, end }
    }
}

} // verus!
