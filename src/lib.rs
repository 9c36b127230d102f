//! The prover-side polynomial core of the Baloo lookup argument over the
//! scalar field of BN254: the index set and column map of a lookup, the
//! vanishing and interpolating polynomials over the table's domain and its
//! sub-domain, and the second-round polynomials with their quotient
//! identities. Commitments, the transcript and pairings are left to the
//! commitment scheme that the caller pairs with this crate.
use vstd::prelude::*;

pub mod baloo;
pub mod domain;
pub mod error;
pub mod index;
pub mod lagrange;
pub mod pcs;
pub mod poly;
pub mod prover;
pub mod round;
pub mod scalar;

verus! {

} // verus!
