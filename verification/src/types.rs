//! Type system for the IR.

use vstd::prelude::*;

verus! {

/// A type in the IR.
#[derive(Debug, Clone, Copy, PartialEq, Eq, Hash, Structural)]
pub enum Type {
    /// 32-bit signed integer
    I32,
    /// 32-bit unsigned integer
    U32,
    /// 32-bit floating point
    F32,
}

impl Type {
    /// Get the size of this type in bytes.
    pub fn size_bytes(&self) -> (r: usize)
        ensures
            r == 4,
    {
        match self {
            Type::I32 => 4,
            Type::U32 => 4,
            Type::F32 => 4,
        }
    }

    /// Check if this is an integer type.
    pub fn is_integer(&self) -> (r: bool)
        ensures
            r == (*self is I32 || *self is U32),
    {
        match self {
            Type::I32 | Type::U32 => true,
            Type::F32 => false,
        }
    }

    /// Check if this is a floating point type.
    pub fn is_float(&self) -> (r: bool)
        ensures
            r == (*self is F32),
    {
        match self {
            Type::F32 => true,
            _ => false,
        }
    }

    /// Check if this is an unsigned integer type.
    pub fn is_unsigned(&self) -> (r: bool)
        ensures
            r == (*self is U32),
    {
        match self {
            Type::U32 => true,
            _ => false,
        }
    }
}

} // verus!
