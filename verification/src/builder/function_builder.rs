//! Function builder: creates blocks and values and hands out block builders.

use vstd::prelude::*;

use crate::{
    builder::block_builder::BlockBuilder,
    dfg::{inst_data::InstDataView, InstData},
    entity::{Block, Inst},
    function::Function,
    layout::{LayoutView, MAX_INSTS},
    signature::Signature,
    value::Value,
};

verus! {

/// `new` is `old` with one more instruction, of data `d`, appended to
/// block `b`.
pub open spec fn appended(old: Function, new: Function, b: usize, d: InstDataView) -> bool {
    let n = old.dfg.insts@.len();
    &&& new.wf()
    &&& new.dfg.insts@.len() == n + 1
    &&& new.dfg.insts@.subrange(0, n as int) == old.dfg.insts@
    &&& new.dfg.insts@[n as int]@ == d
    &&& new.layout@ == (LayoutView { num_insts: old.layout@.num_insts + 1, ..old.layout@ }).with_contents(
        b as nat,
        old.layout@.contents[b as int].push(n),
    )
    &&& new.blocks == old.blocks
    &&& new.signature == old.signature
    &&& new.name == old.name
}

/// Builds a function: blocks are created and appended to the layout in
/// order, values are handed out in order, and instructions are added to
/// blocks through block builders.
pub struct FunctionBuilder {
    /// The function being built
    pub function: Function,
    /// The index of the next value handed out
    pub next_value: u32,
}

impl FunctionBuilder {
    /// Well-formedness: the function is well formed and its layout holds
    /// exactly its blocks, in the order they were created.
    pub open spec fn wf(&self) -> bool {
        &&& self.function.wf()
        &&& self.function.layout@.order == Seq::new(self.function.blocks@.len(), |i: int| i as nat)
    }

    /// Block `b` can take instructions: it exists and there is room for one
    /// more instruction.
    pub open spec fn ready(&self, b: usize) -> bool {
        &&& self.wf()
        &&& b < self.function.blocks@.len()
        &&& self.function.dfg.insts@.len() < MAX_INSTS
    }

    /// Create a builder for a new function with the given signature and name.
    pub fn new(signature: Signature, name: String) -> (r: Self)
        ensures
            r.wf(),
            r.function.signature == signature,
            r.function.name == name,
            r.function.blocks@.len() == 0,
            r.function.dfg.insts@.len() == 0,
            r.next_value == 0,
    {
        let function = Function::new(signature, name);
        proof {
            assert(function.layout@.order =~= Seq::new(function.blocks@.len(), |i: int| i as nat));
        }
        FunctionBuilder { function, next_value: 0 }
    }

    /// Create a block without parameters at the end of the layout; its index.
    pub fn create_block(&mut self) -> (r: usize)
        requires
            old(self).wf(),
            old(self).function.blocks@.len() + 2 < u32::MAX,
        ensures
            final(self).wf(),
            r == old(self).function.blocks@.len(),
            final(self).function.blocks@.len() == r + 1,
            final(self).function.blocks@.subrange(0, r as int) == old(self).function.blocks@,
            final(self).function.blocks@[r as int].params@.len() == 0,
            final(self).function.dfg == old(self).function.dfg,
            final(self).function.layout@.contents == old(self).function.layout@.contents.push(Seq::empty()),
            final(self).next_value == old(self).next_value,
    {
        proof {
            self.function.lemma_fresh();
        }
        let b = self.function.create_block();
        self.function.append_block(b);
        proof {
            assert(self.function.layout@.order =~= Seq::new(self.function.blocks@.len(), |i: int| i as nat));
        }
        b.0 as usize
    }

    /// Create a block with the given parameters at the end of the layout;
    /// its index.
    pub fn block_with_params(&mut self, params: Vec<Value>) -> (r: usize)
        requires
            old(self).wf(),
            old(self).function.blocks@.len() + 2 < u32::MAX,
        ensures
            final(self).wf(),
            r == old(self).function.blocks@.len(),
            final(self).function.blocks@.len() == r + 1,
            final(self).function.blocks@.subrange(0, r as int) == old(self).function.blocks@,
            final(self).function.blocks@[r as int].params@ == params@,
            final(self).function.dfg == old(self).function.dfg,
            final(self).function.layout@.contents == old(self).function.layout@.contents.push(Seq::empty()),
            final(self).next_value == old(self).next_value,
    {
        proof {
            self.function.lemma_fresh();
        }
        let b = self.function.create_block_with_params(params);
        self.function.append_block(b);
        proof {
            assert(self.function.layout@.order =~= Seq::new(self.function.blocks@.len(), |i: int| i as nat));
        }
        b.0 as usize
    }

    /// A new value: the next one in order.
    pub fn new_value(&mut self) -> (r: Value)
        requires
            old(self).next_value < u32::MAX,
        ensures
            r.0 == old(self).next_value,
            final(self).next_value == old(self).next_value + 1,
            final(self).function == old(self).function,
    {
        let v = Value(self.next_value);
        self.next_value = self.next_value + 1;
        v
    }

    /// A builder that appends instructions to block `block`.
    pub fn block_builder(&mut self, block: usize) -> (r: BlockBuilder<'_>)
        requires
            old(self).wf(),
        ensures
            r.block_index == block,
            *r.function_builder == *old(self),
            *final(self) == *final(r.function_builder),
    {
        BlockBuilder::new(self, block)
    }

    /// The function built so far, for changes by hand.
    pub fn function_mut(&mut self) -> (r: &mut Function)
        ensures
            *r == old(self).function,
            final(self).function == *final(r),
            final(self).next_value == old(self).next_value,
    {
        &mut self.function
    }

    /// Append an instruction to block `block`.
    pub fn append(&mut self, block: usize, data: InstData) -> (r: Inst)
        requires
            old(self).ready(block),
        ensures
            final(self).wf(),
            appended(old(self).function, final(self).function, block, data@),
            r.0 == old(self).function.dfg.insts@.len(),
            final(self).next_value == old(self).next_value,
    {
        proof {
            self.function.lemma_fresh();
            self.function.layout.lemma_wf_bounds();
            assert(self.function.layout@.order[block as int] == block as nat);
            assert(self.function.layout@.inserted(block as nat));
        }
        let ghost d = data@;
        let inst = self.function.create_inst(data);
        self.function.append_inst(inst, Block(block as u32));
        proof {
            let n = old(self).function.dfg.insts@.len();
            assert(self.function.dfg.insts@.subrange(0, n as int) =~= old(self).function.dfg.insts@);
            assert(self.function.dfg.insts@[n as int]@ == d);
            assert(inst.0 as nat == n);
            assert(self.function.layout@ == (LayoutView { num_insts: old(self).function.layout@.num_insts + 1, ..old(self).function.layout@ }).with_contents(
                block as nat,
                old(self).function.layout@.contents[block as int].push(n),
            ));
        }
        inst
    }

    /// The function built.
    pub fn finish(self) -> (r: Function)
        ensures
            r == self.function,
    {
        self.function
    }
}

} // verus!
