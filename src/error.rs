use vstd::prelude::*;

verus! {

/// Why a ranking could not be produced.
#[derive(Debug, Clone, Copy, PartialEq, Eq, Structural)]
pub enum RankError {
    /// The collection holds no package: there is nothing to rank.
    EmptyGraph,
    /// The rank vector still moved by more than the threshold after the
    /// largest allowed number of rounds.
    DidNotConverge,
}

} // verus!
