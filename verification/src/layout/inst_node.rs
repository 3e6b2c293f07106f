//! Linked list node for instructions.

use vstd::prelude::*;

use crate::{
    entity::{Block, Inst},
    layout::packed_option::PackedOption,
};

verus! {

/// A node in the instruction linked list: the block holding the
/// instruction, its neighbours there, and its sequence number.
#[derive(Clone, Copy, Debug)]
pub struct InstNode {
    /// Block containing this instruction
    pub block: PackedOption<Block>,
    /// Previous instruction in the block
    pub prev: PackedOption<Inst>,
    /// Next instruction in the block
    pub next: PackedOption<Inst>,
    /// Sequence number for program order comparison
    pub seq: u32,
}

impl InstNode {
    /// Create a new instruction node
    pub fn new() -> (r: Self)
        ensures
            r.block@ is None,
            r.prev@ is None,
            r.next@ is None,
            r.seq == 0,
    {
        InstNode {
            block: PackedOption::none(),
            prev: PackedOption::none(),
            next: PackedOption::none(),
            seq: 0,
        }
    }

    /// Check if this instruction is inserted in a block
    pub fn is_inserted(&self) -> (r: bool)
        ensures
            r == (self.block@ is Some),
    {
        self.block.is_some()
    }
}

impl Default for InstNode {
    fn default() -> (r: Self)
        ensures
            r.block@ is None,
            r.prev@ is None,
            r.next@ is None,
            r.seq == 0,
    {
        Self::new()
    }
}

} // verus!
