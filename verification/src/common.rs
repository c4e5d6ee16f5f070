use vstd::prelude::*;

verus! {

/// Position in a text document expressed as zero-based line and character
/// offset. A position sits between two characters, like an insert cursor
/// in an editor.
#[derive(Debug, Eq, PartialEq, Ord, PartialOrd, Copy, Clone, Default, Structural)]
pub struct Position {
    /// Line position in a document (zero-based).
    pub line: u32,
    /// Character offset on a line in a document (zero-based).
    pub character: u32,
}

impl Position {
    pub fn new(line: u32, character: u32) -> (r: Position)
        ensures
            r.line == line,
            r.character == character,
    {
        Position { line, character }
    }
}

/// A range in a text document expressed as (zero-based) start and end
/// positions. A range is comparable to a selection in an editor, so the
/// end position is exclusive.
#[derive(Debug, Eq, PartialEq, Copy, Clone, Default, Structural)]
pub struct Range {
    /// The range's start position.
    pub start: Position,
    /// The range's end position.
    pub end: Position,
}

impl Range {
    pub fn new(start: Position, end: Position) -> (r: Range)
        ensures
            r.start == start,
            r.end == end,
    {
        Range { start, end }
    }
}

} // verus!
