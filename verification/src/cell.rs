use vstd::prelude::*;

verus! {

/// One cell of the puzzle grid.
///
/// `Reachable` is a transient marker: it is written by the reachability
/// flood-fill and means "the tractor can stand here without pushing
/// anything" in the current configuration. Every other tag is persistent
/// grid content.
#[derive(Clone, Copy, Debug, PartialEq, Eq, Hash, Structural)]
pub enum Cell {
    /// An empty cell the tractor has not (yet) been shown to reach.
    Unreachable,
    /// An empty cell the tractor can reach in the current configuration.
    Reachable,
    /// A target cell with no boulder seated in it.
    Hole,
    /// A movable boulder.
    Boulder,
    /// A boulder seated in a hole.
    BoulderInHole,
}

} // verus!
