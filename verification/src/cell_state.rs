use vstd::prelude::*;

verus! {

/// The condition of one grid slot, or the answer to a query that missed
/// the grid.
///
/// `Invalid` is only ever returned by an out-of-bounds query; a well-formed
/// grid never stores it (see `LifeGrid::wf`).
#[derive(Copy, Clone, Debug, PartialEq, Eq, Structural)]
pub enum CellState {
    Populated,
    Vacant,
    Invalid,
}

} // verus!
