use vstd::prelude::*;

verus! {

/// Which way a cursor moves its task through the heap.
#[derive(Debug, Clone, Copy, PartialEq, Eq, Structural)]
pub enum Direction {
    /// Towards the root: a new task asks to be compared with its parent.
    Promote,
    /// Away from the root: a task asks to be compared with its children.
    Demote,
    /// Into a gap: the task moved into the place of a removed one is first
    /// compared with its parent and moves up if it ranks above it; where it
    /// stays, it moves down instead.
    Settle,
}

} // verus!
