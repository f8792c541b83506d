use vstd::prelude::*;

verus! {

/// Errors raised by the bin array bitmap extension.
#[derive(Debug, Clone, Copy, PartialEq, Eq, Structural)]
pub enum LBError {
    /// An arithmetic operation overflowed.
    MathOverflow,
    /// No bin array with liquidity lies in the searched direction.
    CannotFindNonZeroLiquidityBinArrayId,
}

} // verus!
