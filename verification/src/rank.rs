//! How many coefficients a polynomial has.
use vstd::prelude::*;

verus! {

/// The size of the polynomials of a proof system: four wires for each of `n`
/// gates.
pub trait Rank {
    /// The number of gates.
    spec fn gates() -> nat;

    /// Every coefficient of a polynomial has an index.
    proof fn lemma_gates()
        ensures
            0 < Self::gates(),
            4 * Self::gates() <= usize::MAX,
    ;

    /// The number of gates.
    fn n() -> (r: usize)
        ensures
            r == Self::gates(),
    ;

    /// The number of coefficients: four for each gate.
    fn num_coeffs() -> (r: usize)
        ensures
            r == 4 * Self::gates(),
    ;
}

/// The rank that tests run at.
#[derive(Clone, Copy, Debug)]
pub struct TestRank;

/// The rank that proofs are made at.
#[derive(Clone, Copy, Debug)]
pub struct ProductionRank;

impl Rank for TestRank {
    open spec fn gates() -> nat {
        32
    }

    proof fn lemma_gates() {
    }

    fn n() -> (r: usize) {
        32
    }

    fn num_coeffs() -> (r: usize) {
        128
    }
}

impl Rank for ProductionRank {
    open spec fn gates() -> nat {
        2048
    }

    proof fn lemma_gates() {
    }

    fn n() -> (r: usize) {
        2048
    }

    fn num_coeffs() -> (r: usize) {
        8192
    }
}

} // verus!
