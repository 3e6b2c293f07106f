//! Linked list node for blocks.

use vstd::prelude::*;

use crate::{
    entity::{Block, Inst},
    layout::packed_option::PackedOption,
};

verus! {

/// A node in the block linked list: the block's neighbours in layout order,
/// its first and last instruction, and whether it is cold.
#[derive(Clone, Copy, Debug)]
pub struct BlockNode {
    /// Previous block in layout order
    pub prev: PackedOption<Block>,
    /// Next block in layout order
    pub next: PackedOption<Block>,
    /// First instruction in this block
    pub first_inst: PackedOption<Inst>,
    /// Last instruction in this block
    pub last_inst: PackedOption<Inst>,
    /// Is this block marked as "cold" (rarely executed)?
    pub cold: bool,
}

impl BlockNode {
    /// Create a new empty block node
    pub fn new() -> (r: Self)
        ensures
            r.prev@ is None,
            r.next@ is None,
            r.first_inst@ is None,
            r.last_inst@ is None,
            !r.cold,
    {
        BlockNode {
            prev: PackedOption::none(),
            next: PackedOption::none(),
            first_inst: PackedOption::none(),
            last_inst: PackedOption::none(),
            cold: false,
        }
    }

    /// Check if this block has any instructions
    pub fn has_insts(&self) -> (r: bool)
        ensures
            r == (self.first_inst@ is Some),
    {
        self.first_inst.is_some()
    }

    /// Check if this block is empty (no instructions)
    pub fn is_empty(&self) -> (r: bool)
        ensures
            r == (self.first_inst@ is None),
    {
        !self.has_insts()
    }
}

impl Default for BlockNode {
    fn default() -> (r: Self)
        ensures
            r.prev@ is None,
            r.next@ is None,
            r.first_inst@ is None,
            r.last_inst@ is None,
            !r.cold,
    {
        Self::new()
    }
}

} // verus!
