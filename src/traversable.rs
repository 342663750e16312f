use vstd::prelude::*;

verus! {

/// Can a visitor move through a tile?
#[derive(Debug, PartialEq, Eq, Clone, Copy, Structural)]
pub enum Traversable {
    /// Obstructed tiles cannot be moved into.
    Obstructed,
    /// Free tiles can be moved through.
    Free,
    /// Halt tiles can be moved into, but not past.
    Halt,
}

} // verus!
