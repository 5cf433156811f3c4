//! What can go wrong.

use vstd::prelude::*;

verus! {

/// An error of the polynomial arithmetic.
#[derive(Clone, Debug, PartialEq, Eq)]
pub enum ArithErrors {
    InvalidParameters(String),
}

/// An error of an interactive oracle proof.
#[derive(Clone, Debug, PartialEq, Eq)]
pub enum PolyIOPErrors {
    /// The prover was called out of turn.
    InvalidProver(String),
    InvalidParameters(String),
}

/// An error of a polynomial commitment scheme.
#[derive(Clone, Debug, PartialEq, Eq)]
pub enum PCSError {
    /// The prover or the proof failed.
    InvalidProver(String),
    InvalidParameters(String),
    ArithErrors(ArithErrors),
}

impl ArithErrors {
    pub open spec fn is_invalid_parameters(self, message: Seq<char>) -> bool {
        match self {
            ArithErrors::InvalidParameters(m) => m@ == message,
        }
    }
}

impl PolyIOPErrors {
    pub open spec fn is_invalid_prover(self, message: Seq<char>) -> bool {
        match self {
            PolyIOPErrors::InvalidProver(m) => m@ == message,
            _ => false,
        }
    }

    pub open spec fn is_invalid_parameters(self, message: Seq<char>) -> bool {
        match self {
            PolyIOPErrors::InvalidParameters(m) => m@ == message,
            _ => false,
        }
    }
}

impl PCSError {
    pub open spec fn is_invalid_prover(self, message: Seq<char>) -> bool {
        match self {
            PCSError::InvalidProver(m) => m@ == message,
            _ => false,
        }
    }

    pub open spec fn is_invalid_parameters(self, message: Seq<char>) -> bool {
        match self {
            PCSError::InvalidParameters(m) => m@ == message,
            _ => false,
        }
    }

    pub open spec fn is_arith_error(self, message: Seq<char>) -> bool {
        match self {
            PCSError::ArithErrors(e) => e.is_invalid_parameters(message),
            _ => false,
        }
    }
}

} // verus!
