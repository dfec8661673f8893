use vstd::prelude::*;

verus! {

/// Every failure the engine can report. All of them are detected before any
/// buffer is written, so a failing operation never leaves partial mutation.
#[derive(Clone, Copy, Debug, PartialEq, Eq)]
pub enum TensorError {
    /// Operand shapes do not satisfy the operation's requirements.
    ShapeMismatch,
    /// Two extents can not be broadcast against each other; carries both.
    BroadcastIncompatible { dim_a: usize, dim_b: usize },
    /// A descriptor exceeds the fixed rank cap of the dispatch protocol.
    RankTooLarge,
    /// Rank decrease was requested while the leading extent is not 1.
    InvalidRankChange,
    /// A slice or index reaches past the extent of a dimension.
    IndexOutOfRange,
    /// The device rejected a host-transfer mapping request.
    TransferFailed,
}

} // verus!
