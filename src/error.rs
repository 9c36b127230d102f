use vstd::prelude::*;

verus! {

/// Why a lookup proof could not be set up, produced, opened or accepted.
#[derive(Clone, Copy, Debug, PartialEq, Eq, Structural)]
pub enum BalooError {
    /// The table length is not a power of two, or exceeds what the field's domains allow.
    Setup,
    /// A lookup value occurs nowhere in the table.
    Witness,
    /// An identity that holds for every valid witness failed: a remainder was not zero.
    ProofGeneration,
    /// A claimed evaluation does not match the committed polynomial.
    Opening,
    /// A commitment or pairing check failed.
    Verification,
    /// Proof bytes are malformed.
    Serialization,
}

} // verus!
