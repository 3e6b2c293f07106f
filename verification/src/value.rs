//! SSA values.

use vstd::prelude::*;
use crate::entity::EntityRef;

verus! {

/// An SSA value identifier (`v0`, `v1`, ...).
#[derive(Debug, Clone, Copy, PartialEq, Eq, Hash, PartialOrd, Ord, Structural)]
pub struct Value(pub u32);

impl Value {
    /// Create a value with the given index.
    pub fn new(index: u32) -> (r: Self)
        ensures
            r.0 == index,
    {
        Value(index)
    }

    /// Get the index of this value.
    pub fn index(self) -> (r: u32)
        ensures
            r == self.0,
    {
        self.0
    }
}

impl EntityRef for Value {
    open spec fn ent_index(self) -> nat {
        self.0 as nat
    }

    fn index(self) -> (r: usize) {
        self.0 as usize
    }

    fn from_index(index: usize) -> (r: Self) {
        Value(index as u32)
    }
}

/// A copy of a list of values.
pub fn copy_values(v: &Vec<Value>) -> (r: Vec<Value>)
    ensures
        r@ == v@,
{
    let mut out: Vec<Value> = Vec::new();
    let mut i: usize = 0;
    while i < v.len()
        invariant
            i <= v@.len(),
            out@ == v@.subrange(0, i as int),
        decreases v@.len() - i,
    {
        out.push(v[i]);
        i = i + 1;
    }
    proof {
        assert(v@.subrange(0, v@.len() as int) =~= v@);
    }
    out
}

/// A condition value followed by two lists of values.
pub fn cond_and_args(condition: Value, a: &Vec<Value>, b: &Vec<Value>) -> (r: Vec<Value>)
    ensures
        r@ == seq![condition] + a@ + b@,
{
    let mut v: Vec<Value> = Vec::new();
    v.push(condition);
    let mut i: usize = 0;
    while i < a.len()
        invariant
            i <= a@.len(),
            v@ == seq![condition] + a@.subrange(0, i as int),
        decreases a@.len() - i,
    {
        v.push(a[i]);
        proof {
            assert(v@ =~= seq![condition] + a@.subrange(0, i + 1));
        }
        i = i + 1;
    }
    let mut j: usize = 0;
    while j < b.len()
        invariant
            i == a@.len(),
            j <= b@.len(),
            v@ == seq![condition] + a@ + b@.subrange(0, j as int),
        decreases b@.len() - j,
    {
        v.push(b[j]);
        proof {
            assert(v@ =~= seq![condition] + a@ + b@.subrange(0, j + 1));
        }
        j = j + 1;
    }
    proof {
        assert(a@.subrange(0, i as int) =~= a@);
        assert(b@.subrange(0, j as int) =~= b@);
    }
    v
}

} // verus!
