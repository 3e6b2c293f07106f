//! Entity references: type-safe identifiers for IR elements.
//!
//! An entity is a thin wrapper around a `u32` index. Entities of different
//! kinds (blocks, instructions, values) cannot be mixed up.

use vstd::prelude::*;

verus! {

/// Base trait for entity references.
///
/// Entities convert to and from indices in O(1); the conversion is lossless
/// for every index that fits in a `u32`.
pub trait EntityRef: Copy + Sized {
    /// The index this entity stands for.
    spec fn ent_index(self) -> nat;

    /// Get the index of this entity.
    fn index(self) -> (r: usize)
        ensures
            r as nat == self.ent_index(),
    ;

    /// Create an entity from an index.
    fn from_index(index: usize) -> (r: Self)
        requires
            index <= u32::MAX,
        ensures
            r.ent_index() == index as nat,
    ;

    /// Get the entity with the next index.
    fn next_index(self) -> (r: Self)
        requires
            self.ent_index() < u32::MAX,
        ensures
            r.ent_index() == self.ent_index() + 1,
    {
        Self::from_index(self.index() + 1)
    }
}

/// Block entity reference: a type-safe identifier for a basic block.
#[derive(Debug, Clone, Copy, PartialEq, Eq, Hash, PartialOrd, Ord, Structural)]
pub struct Block(pub u32);

impl Block {
    /// Create a new block entity with the given index
    pub fn new(index: u32) -> (r: Self)
        ensures
            r.0 == index,
    {
        Block(index)
    }

    /// Get the index of this block
    pub fn index(self) -> (r: u32)
        ensures
            r == self.0,
    {
        self.0
    }

    /// The text form of this block: `block<n>`.
    pub fn to_string(&self) -> (r: String)
        ensures
            r@ == crate::text::block_name(self.0 as nat),
    {
        let mut s = String::new();
        crate::text::push_block_name(&mut s, self.0);
        s
    }
}

impl EntityRef for Block {
    open spec fn ent_index(self) -> nat {
        self.0 as nat
    }

    fn index(self) -> (r: usize) {
        self.0 as usize
    }

    fn from_index(index: usize) -> (r: Self) {
        Block(index as u32)
    }
}

/// Instruction entity reference: a type-safe identifier for an instruction.
#[derive(Debug, Clone, Copy, PartialEq, Eq, Hash, PartialOrd, Ord, Structural)]
pub struct Inst(pub u32);

impl Inst {
    /// Create a new instruction entity with the given index
    pub fn new(index: u32) -> (r: Self)
        ensures
            r.0 == index,
    {
        Inst(index)
    }

    /// Get the index of this instruction
    pub fn index(self) -> (r: u32)
        ensures
            r == self.0,
    {
        self.0
    }

    /// The text form of this instruction: `inst<n>`.
    pub fn to_string(&self) -> (r: String)
        ensures
            r@ == "inst"@ + crate::text::dec(self.0 as nat),
    {
        let mut s = String::new();
        crate::text::push_str(&mut s, "inst");
        crate::text::push_dec(&mut s, self.0 as u64);
        s
    }
}

impl EntityRef for Inst {
    open spec fn ent_index(self) -> nat {
        self.0 as nat
    }

    fn index(self) -> (r: usize) {
        self.0 as usize
    }

    fn from_index(index: usize) -> (r: Self) {
        Inst(index as u32)
    }
}

/// Converting an index to an entity and back gives the index again.
pub proof fn lemma_block_index_roundtrip(b: Block)
    ensures
        Block(b.ent_index() as u32) == b,
{
}

} // verus!
