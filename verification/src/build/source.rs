//! Positions within source text.
use vstd::prelude::*;

verus! {

/// A line and column in a source text.
#[derive(Debug)]
pub struct Position {
    pub line: u32,
    pub column: u32,
}

impl Default for Position {
    /// The position with line and column zero.
    fn default() -> (p: Self)
        ensures
            p.line == 0 && p.column == 0,
    {
        Position { line: 0, column: 0 }
    }
}

} // verus!
