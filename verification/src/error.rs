use vstd::prelude::*;

verus! {

/// Errors returned by the staking instructions.
#[derive(Clone, Copy, Debug, PartialEq, Eq, Structural)]
pub enum ErrorCode {
    /// Any rejected request: a missing attribute plugin, a malformed or
    /// inconsistent stake record, a freeze period not yet over, or an
    /// arithmetic overflow.
    CustomError,
}

} // verus!
