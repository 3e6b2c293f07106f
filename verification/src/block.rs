//! Block data (parameters).

use vstd::prelude::*;

use crate::{types::Type, value::Value};

verus! {

/// Block data: the parameters of a block and their types.
///
/// Where the block appears is stored in the layout; which instructions it
/// holds is stored there too.
#[derive(Debug, Clone)]
pub struct BlockData {
    /// Block parameters (for phi nodes)
    pub params: Vec<Value>,
    /// Parameter types (parallel to params)
    pub param_types: Vec<Type>,
}

impl BlockData {
    /// Create a new empty block data
    pub fn new() -> (r: Self)
        ensures
            r.params@.len() == 0,
            r.param_types@.len() == 0,
    {
        Self { params: Vec::new(), param_types: Vec::new() }
    }

    /// Create a new block data with the given parameters; every parameter
    /// has type `I32`.
    pub fn with_params(params: Vec<Value>) -> (r: Self)
        ensures
            r.params@ == params@,
            r.param_types@ == Seq::new(params@.len(), |i: int| Type::I32),
    {
        let mut param_types: Vec<Type> = Vec::new();
        let mut i: usize = 0;
        while i < params.len()
            invariant
                i <= params@.len(),
                param_types@ == Seq::new(i as nat, |j: int| Type::I32),
            decreases params@.len() - i,
        {
            param_types.push(Type::I32);
            i = i + 1;
        }
        Self { params, param_types }
    }

    /// Create a new block data with the given parameters and types.
    pub fn with_params_and_types(params: Vec<Value>, param_types: Vec<Type>) -> (r: Self)
        requires
            params@.len() == param_types@.len(),
        ensures
            r.params@ == params@,
            r.param_types@ == param_types@,
    {
        Self { params, param_types }
    }

    /// Get the number of parameters for this block
    pub fn param_count(&self) -> (r: usize)
        ensures
            r == self.params@.len(),
    {
        self.params.len()
    }

    /// Get the type of a parameter by index
    pub fn param_type(&self, index: usize) -> (r: Option<Type>)
        ensures
            index < self.param_types@.len() ==> r == Some(self.param_types@[index as int]),
            index >= self.param_types@.len() ==> r is None,
    {
        if index < self.param_types.len() {
            Some(self.param_types[index])
        } else {
            None
        }
    }
}

impl Default for BlockData {
    fn default() -> (r: Self)
        ensures
            r.params@.len() == 0,
            r.param_types@.len() == 0,
    {
        Self::new()
    }
}

} // verus!
