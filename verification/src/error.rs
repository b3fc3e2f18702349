use vstd::prelude::*;

verus! {

/// The failure kinds a numerical routine can report.
///
/// Every algorithm in this library returns its failures explicitly
/// instead of clamping, defaulting, or looping forever.
#[derive(Clone, Copy, Debug, PartialEq, Eq, Structural)]
pub enum NumError {
    /// A bracketing method was handed two endpoints whose function
    /// values do not have opposite signs.
    InvalidBracket,
    /// An iteration step would divide by an exactly zero difference.
    DivergentIteration,
    /// The iteration matrix has norm at least one, so the fixed-point
    /// scheme is not guaranteed to converge.
    NotConvergent,
    /// An assembled linear system could not be solved exactly.
    SingularSystem,
    /// A query lies outside the domain an object is defined on.
    DomainError,
    /// The iteration cap was reached before the stopping rule held.
    DidNotConverge,
    /// An exact rational value no longer fits the machine representation.
    Overflow,
}

} // verus!
