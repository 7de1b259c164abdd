//! Source positions carried by identifiers and predicates for error reporting.
use vstd::prelude::*;

verus! {

/// A position in the program text: line and column, both starting at 1.
/// `Location::unknown` (line and column zero) marks synthesized items that
/// have no place in the source.
#[derive(Debug, Clone, Copy, PartialEq, Eq, Structural)]
pub struct Location {
    pub line: u32,
    pub col: u32,
}

impl Location {
    /// The position of an item that was synthesized rather than parsed.
    pub fn unknown() -> (loc: Location)
        ensures
            loc.line == 0,
            loc.col == 0,
    {
        Location { line: 0, col: 0 }
    }
}

} // verus!
