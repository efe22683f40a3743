use vstd::prelude::*;

verus! {

/// A two-dimensional position: a line number and a column number, both
/// counted from zero and measured in codepoints, never bytes.
#[derive(PartialEq, Eq, Structural, Debug, Clone, Copy)]
pub struct Position {
    /// The line number, in the range `[0, line count)`.
    pub line: usize,
    /// The column number, in the range `[0, width of the line]`; a column
    /// equal to the width denotes the slot just past the last character.
    pub column: usize,
}

impl Position {
    /// Creates a new `Position`.
    pub fn new(line: usize, column: usize) -> (p: Position)
        ensures
            p == (Position { line, column }),
    {
        Position { line, column }
    }

    /// Line-major order: positions compare by line first, then by column.
    pub open spec fn cmp_spec(self, other: Position) -> core::cmp::Ordering {
        if self.line != other.line {
            if self.line < other.line {
                core::cmp::Ordering::Less
            } else {
                core::cmp::Ordering::Greater
            }
        } else {
            if self.column < other.column {
                core::cmp::Ordering::Less
            } else if self.column == other.column {
                core::cmp::Ordering::Equal
            } else {
                core::cmp::Ordering::Greater
            }
        }
    }
}

impl PartialOrd for Position {
    fn partial_cmp(&self, other: &Position) -> (r: Option<core::cmp::Ordering>)
        ensures
            r == Some(self.cmp_spec(*other)),
    {
        if self.line < other.line {
            Some(core::cmp::Ordering::Less)
        } else if self.line > other.line {
            Some(core::cmp::Ordering::Greater)
        } else if self.column < other.column {
            Some(core::cmp::Ordering::Less)
        } else if self.column == other.column {
            Some(core::cmp::Ordering::Equal)
        } else {
            Some(core::cmp::Ordering::Greater)
        }
    }
}

impl vstd::std_specs::cmp::PartialOrdSpecImpl for Position {
    open spec fn obeys_partial_cmp_spec() -> bool {
        true
    }

    open spec fn partial_cmp_spec(&self, other: &Position) -> Option<core::cmp::Ordering> {
        Some(self.cmp_spec(*other))
    }
}

/// The error reported when a requested position does not exist in the
/// buffer: either the line number or the column number is out of range.
/// Each variant carries the offending value.
#[derive(PartialEq, Eq, Structural, Debug, Clone, Copy)]
pub enum PositionError {
    /// The requested line number does not name a line of the buffer.
    LineOutOfRange(usize),
    /// The requested column number lies beyond the width of the line.
    ColumnOutOfRange(usize),
}

} // verus!
