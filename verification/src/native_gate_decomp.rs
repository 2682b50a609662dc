//! Errors of the native decomposition of single-qubit gates.

use vstd::prelude::*;

verus! {

/// A single-qubit gate without a native decomposition.
#[derive(Clone, Debug, PartialEq, Eq)]
pub enum NaDecompError {
    /// No decomposition for the named gate (unrecognized name or angle).
    Unrecognized(String),
}

} // verus!
