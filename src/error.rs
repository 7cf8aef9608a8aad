use vstd::prelude::*;

verus! {

/// Why a sum-check operation could not be carried out. A rejected proof is
/// not an error: the verifier reports it as `accepted == false`.
#[derive(Clone, Copy, Debug, PartialEq, Eq)]
pub enum SumcheckError {
    /// An evaluation table whose length is not 2^n for the stated n.
    LengthMismatch,
    /// A field element given in a non-canonical form.
    NonCanonical,
    /// Folding a polynomial that has no variables left.
    EmptyDomain,
    /// Proving over zero variables.
    EmptyPolynomial,
    /// A term refers to an operand that does not exist, or operands
    /// disagree on the number of variables.
    MalformedPolynomial,
    /// A term of higher arity than the supported maximum, or a round
    /// polynomial of the wrong size.
    DegreeMismatch,
    /// A proof whose number of rounds is not the number of variables.
    WrongProofLength,
}

} // verus!
