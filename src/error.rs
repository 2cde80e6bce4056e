use vstd::prelude::*;

verus! {

/// Why a program could not be resolved or a step could not be taken.
#[derive(Debug, Clone, Copy, PartialEq, Eq, Structural)]
pub enum BfError {
    /// Some bracket has no matching partner.
    MalformedProgram,
    /// A left move would take the data pointer below the first cell.
    PointerUnderflow,
    /// A right move would take the data pointer past the largest machine index.
    TapeLimit,
}

} // verus!
