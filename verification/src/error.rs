//! What can go wrong.
use vstd::prelude::*;

verus! {

/// Why a computation gives no result.
#[derive(Clone, Copy, Debug, PartialEq, Eq, Structural)]
pub enum Error {
    /// No point meets all constraints.
    Infeasible,
    /// The objective grows without limit.
    Unbounded,
    /// Artificial variables stay in the basis although their sum is zero.
    ArtificialVarsLeft,
    /// The basis has no factorization with acceptable pivots.
    SingularMatrix,
    /// The number of iterations has no successor.
    IterationLimit,
}

} // verus!
