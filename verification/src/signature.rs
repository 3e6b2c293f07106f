//! Function signatures.

use vstd::prelude::*;

use crate::types::Type;

verus! {

/// A function signature (parameter and return types).
#[derive(Debug, Clone, PartialEq, Eq)]
pub struct Signature {
    /// Parameter types.
    pub params: Vec<Type>,
    /// Return types.
    pub returns: Vec<Type>,
}

impl Signature {
    /// Create a new signature with the given parameters and returns.
    pub fn new(params: Vec<Type>, returns: Vec<Type>) -> (r: Self)
        ensures
            r.params@ == params@,
            r.returns@ == returns@,
    {
        Self { params, returns }
    }

    /// Create a signature with no parameters and no returns.
    pub fn empty() -> (r: Self)
        ensures
            r.params@.len() == 0,
            r.returns@.len() == 0,
    {
        Self { params: Vec::new(), returns: Vec::new() }
    }

    /// Get the number of parameters.
    pub fn param_count(&self) -> (r: usize)
        ensures
            r == self.params@.len(),
    {
        self.params.len()
    }

    /// Get the number of return values.
    pub fn return_count(&self) -> (r: usize)
        ensures
            r == self.returns@.len(),
    {
        self.returns.len()
    }
}

} // verus!
