//! Operand classification for register allocation.

use vstd::prelude::*;

verus! {

/// Operand kind for register allocation
#[derive(Debug, Clone, Copy, PartialEq, Eq, Structural)]
pub enum OperandKind {
    /// Use: read-only operand (input)
    Use,
    /// Def: write-only operand (output)
    Def,
    /// Modify: read-write operand (input and output)
    Modify,
}

} // verus!
