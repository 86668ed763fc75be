//! Failure conditions of the analysis core. All propagation is by
//! explicit `Result` values; verified functions never panic.

use vstd::prelude::*;

verus! {

/// Why an engine operation failed.
#[derive(Clone, Copy, PartialEq, Eq, Structural, Debug)]
pub enum Error {
    /// An address or analysis location could not be resolved in the
    /// current control-flow graph.
    LocationNotFound,
    /// An expression was malformed for evaluation: a unary operator was
    /// applied to a value outside its width domain.
    EvaluationWidth,
    /// A memory access whose address did not evaluate to a single
    /// concrete value.
    AddressUnresolved,
    /// The fixed-point solver did not converge within its iteration cap.
    DidNotConverge,
}

} // verus!
