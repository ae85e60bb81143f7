use vstd::prelude::*;

verus! {

/// The failures that the graph algorithms report to their callers.
#[derive(Clone, Copy, Debug, PartialEq, Eq, Structural)]
pub enum Error {
    /// The graph contains a directed cycle, so no topological order exists.
    FoundCycle,
}

} // verus!
