//! Functions.

use vstd::prelude::*;

use crate::{
    block::BlockData,
    dfg::{assign_result_types, infer_type, InstData, DFG},
    entity::{Block, Inst},
    entity_map::PrimaryMap,
    layout::{Layout, LayoutView, MAX_INSTS},
    signature::Signature,
    types::Type,
    sourceloc::{RelSourceLoc, SourceLoc},
    value::Value,
};

verus! {

/// A function in the IR
///
/// A function consists of:
/// - A signature (parameters and return types)
/// - Block data (what blocks are - parameters)
/// - Layout (where blocks/instructions are)
/// - DFG (what instructions are - opcode + operands)
/// - A name (required, for debugging and module lookup)
/// - Source location tracking (for debugging and correlation)
#[derive(Clone)]
pub struct Function {
    /// Function signature
    pub signature: Signature,
    /// Function name
    pub name: String,
    /// Block data (what blocks are)
    pub blocks: PrimaryMap<Block, BlockData>,
    /// Layout (where blocks/instructions are)
    pub layout: Layout,
    /// Data Flow Graph (what instructions are)
    pub dfg: DFG,
    /// Base source location for this function (used for relative source locations)
    pub base_srcloc: Option<SourceLoc>,
    /// Relative source locations for instructions (offset from base)
    pub srclocs: PrimaryMap<Inst, RelSourceLoc>,
}

impl Function {
    /// Well-formedness: the layout is well formed and registers exactly the
    /// function's blocks and instructions.
    pub open spec fn wf(&self) -> bool {
        &&& self.layout.wf()
        &&& self.layout@.num_blocks() == self.blocks@.len()
        &&& self.layout@.num_insts == self.dfg.insts@.len()
    }

    /// The base source location, if one is set.
    pub open spec fn spec_base(&self) -> Option<SourceLoc> {
        self.base_srcloc
    }

    /// The stored relative source locations, by instruction index.
    pub open spec fn spec_srclocs(&self) -> Seq<RelSourceLoc> {
        self.srclocs@
    }

    /// The base source location, or the unknown location.
    pub open spec fn spec_base_or_default(&self) -> SourceLoc {
        match self.spec_base() {
            Some(b) => b,
            None => SourceLoc(u32::MAX),
        }
    }

    /// The absolute source location of instruction `i`.
    pub open spec fn spec_srcloc(&self, i: nat) -> SourceLoc {
        if i < self.spec_srclocs().len() {
            self.spec_srclocs()[i as int].spec_expand(self.spec_base_or_default())
        } else {
            SourceLoc(u32::MAX)
        }
    }

    /// Create a new function with the given signature and name
    pub fn new(signature: Signature, name: String) -> (r: Self)
        ensures
            r.wf(),
            r.signature == signature,
            r.name == name,
            r.blocks@.len() == 0,
            r.dfg.insts@.len() == 0,
            r.dfg.value_types@.len() == 0,
            r.layout@.order.len() == 0,
            r.spec_base() is None,
            r.spec_srclocs().len() == 0,
    {
        Self {
            signature,
            name,
            blocks: PrimaryMap::new(),
            layout: Layout::new(),
            dfg: DFG::new(),
            base_srcloc: None,
            srclocs: PrimaryMap::new(),
        }
    }

    /// Set the function name
    pub fn set_name(&mut self, name: String)
        ensures
            final(self).name == name,
            final(self).signature == old(self).signature,
            final(self).blocks == old(self).blocks,
            final(self).layout == old(self).layout,
            final(self).dfg == old(self).dfg,
            final(self).spec_base() == old(self).spec_base(),
            final(self).spec_srclocs() == old(self).spec_srclocs(),
    {
        self.name = name;
    }

    /// Get the function name
    pub fn name(&self) -> (r: &str)
        ensures
            r@ == self.name@,
    {
        self.name.as_str()
    }

    /// Register a freshly pushed block with the layout.
    fn register_block(&mut self, block: Block)
        requires
            old(self).layout.wf(),
            old(self).layout@.num_blocks() + 1 == old(self).blocks@.len(),
            old(self).layout@.num_blocks() + 1 < u32::MAX,
            block.0 == old(self).layout@.num_blocks(),
            old(self).layout@.num_insts == old(self).dfg.insts@.len(),
        ensures
            final(self).wf(),
            final(self).layout@ == (LayoutView {
                contents: old(self).layout@.contents.push(Seq::empty()),
                cold: old(self).layout@.cold.push(false),
                ..old(self).layout@
            }),
            final(self).blocks == old(self).blocks,
            final(self).dfg == old(self).dfg,
            final(self).signature == old(self).signature,
            final(self).name == old(self).name,
            final(self).spec_base() == old(self).spec_base(),
            final(self).spec_srclocs() == old(self).spec_srclocs(),
    {
        self.layout.ensure_block(block);
    }

    /// A block index past the registered blocks is not in the layout, and
    /// an instruction index past the registered instructions is in no block.
    pub proof fn lemma_fresh(&self)
        requires
            self.wf(),
        ensures
            !self.layout@.order.contains(self.blocks@.len() as nat),
            self.layout@.block_of(self.dfg.insts@.len() as nat) is None,
    {
        if self.layout@.order.contains(self.blocks@.len() as nat) {
            let k = choose|k: int| 0 <= k < self.layout@.order.len() && self.layout@.order[k] == self.blocks@.len() as nat;
            self.layout.lemma_order_bound(k);
        }
        assert forall|b: nat| b < self.layout@.num_blocks() implies !(#[trigger] self.layout@.contents[b as int].contains(
            self.dfg.insts@.len() as nat,
        )) by {
            if self.layout@.contents[b as int].contains(self.dfg.insts@.len() as nat) {
                let k = choose|k: int|
                    0 <= k < self.layout@.contents[b as int].len() && self.layout@.contents[b as int][k]
                        == self.dfg.insts@.len() as nat;
                self.layout.lemma_contents_bound(b as int, k);
            }
        }
    }

    /// The number of values the function returns.
    pub fn return_count(&self) -> (r: usize)
        ensures
            r == self.signature.returns@.len(),
    {
        self.signature.returns.len()
    }

    /// The types the function returns, in order.
    pub fn return_types(&self) -> (r: &[Type])
        ensures
            r@ == self.signature.returns@,
    {
        self.signature.returns.as_slice()
    }

    /// Whether the function returns more than two values.
    pub fn uses_multi_return(&self) -> (r: bool)
        ensures
            r == (self.signature.returns@.len() > 2),
    {
        self.signature.returns.len() > 2
    }

    /// Create a new block and return its entity
    ///
    /// The block is created with empty parameters. Use `append_block` to
    /// add it to the layout.
    pub fn create_block(&mut self) -> (r: Block)
        requires
            old(self).wf(),
            old(self).blocks@.len() + 2 < u32::MAX,
        ensures
            final(self).wf(),
            r.0 == old(self).blocks@.len(),
            final(self).blocks@.len() == old(self).blocks@.len() + 1,
            final(self).blocks@.subrange(0, r.0 as int) == old(self).blocks@,
            final(self).blocks@[r.0 as int].params@.len() == 0,
            final(self).blocks@[r.0 as int].param_types@.len() == 0,
            final(self).layout@ == (LayoutView {
                contents: old(self).layout@.contents.push(Seq::empty()),
                cold: old(self).layout@.cold.push(false),
                ..old(self).layout@
            }),
            final(self).dfg == old(self).dfg,
            final(self).signature == old(self).signature,
            final(self).name == old(self).name,
    {
        let block = self.blocks.push(BlockData::new());
        proof {
            assert(self.blocks@.subrange(0, block.0 as int) =~= old(self).blocks@);
        }
        self.register_block(block);
        block
    }

    /// Create a new block with parameters and return its entity; each
    /// parameter has type `I32`.
    pub fn create_block_with_params(&mut self, params: Vec<Value>) -> (r: Block)
        requires
            old(self).wf(),
            old(self).blocks@.len() + 2 < u32::MAX,
        ensures
            final(self).wf(),
            r.0 == old(self).blocks@.len(),
            final(self).blocks@.len() == old(self).blocks@.len() + 1,
            final(self).blocks@.subrange(0, r.0 as int) == old(self).blocks@,
            final(self).blocks@[r.0 as int].params@ == params@,
            final(self).blocks@[r.0 as int].param_types@.len() == params@.len(),
            final(self).layout@ == (LayoutView {
                contents: old(self).layout@.contents.push(Seq::empty()),
                cold: old(self).layout@.cold.push(false),
                ..old(self).layout@
            }),
            final(self).dfg == old(self).dfg,
            final(self).signature == old(self).signature,
            final(self).name == old(self).name,
    {
        let block = self.blocks.push(BlockData::with_params(params));
        proof {
            assert(self.blocks@.subrange(0, block.0 as int) =~= old(self).blocks@);
        }
        self.register_block(block);
        block
    }

    /// Create an instruction and return its entity
    ///
    /// The instruction is created in the DFG but not yet inserted into the
    /// layout. Use `append_inst` to add it to a block.
    pub fn create_inst(&mut self, data: InstData) -> (r: Inst)
        requires
            old(self).wf(),
            old(self).dfg.insts@.len() < MAX_INSTS,
        ensures
            final(self).wf(),
            r.0 == old(self).dfg.insts@.len(),
            final(self).dfg.insts@ == old(self).dfg.insts@.push(data),
            final(self).dfg.value_types@ == assign_result_types(
                old(self).dfg.value_types@,
                data.results@,
                infer_type(data.opcode, data.ty),
            ),
            final(self).layout@ == (LayoutView { num_insts: old(self).layout@.num_insts + 1, ..old(self).layout@ }),
            final(self).blocks == old(self).blocks,
            final(self).signature == old(self).signature,
            final(self).name == old(self).name,
            final(self).spec_base() == old(self).spec_base(),
            final(self).spec_srclocs() == old(self).spec_srclocs(),
    {
        let inst = self.dfg.create_inst(data);
        self.layout.ensure_inst(inst);
        inst
    }

    /// Append a block to the end of the layout
    pub fn append_block(&mut self, block: Block)
        requires
            old(self).wf(),
            block.0 < old(self).blocks@.len(),
            !old(self).layout@.inserted(block.0 as nat),
        ensures
            final(self).wf(),
            final(self).layout@ == (LayoutView {
                order: old(self).layout@.order.push(block.0 as nat),
                ..old(self).layout@
            }),
            final(self).blocks == old(self).blocks,
            final(self).dfg == old(self).dfg,
            final(self).signature == old(self).signature,
            final(self).name == old(self).name,
    {
        self.layout.append_block(block);
    }

    /// Append an instruction to the end of a block
    pub fn append_inst(&mut self, inst: Inst, block: Block)
        requires
            old(self).wf(),
            old(self).layout@.inserted(block.0 as nat),
            inst.0 < old(self).dfg.insts@.len(),
            old(self).layout@.block_of(inst.0 as nat) is None,
        ensures
            final(self).wf(),
            final(self).layout@ == old(self).layout@.with_contents(
                block.0 as nat,
                old(self).layout@.contents[block.0 as int].push(inst.0 as nat),
            ),
            final(self).blocks == old(self).blocks,
            final(self).dfg == old(self).dfg,
            final(self).signature == old(self).signature,
            final(self).name == old(self).name,
    {
        proof {
            self.layout.lemma_order_bound(self.layout@.order.index_of(block.0 as nat));
        }
        self.layout.append_inst(inst, block);
    }

    /// Get the entry block (first block in layout order)
    pub fn entry_block(&self) -> (r: Option<Block>)
        requires
            self.wf(),
        ensures
            self.layout@.order.len() == 0 ==> r is None,
            self.layout@.order.len() > 0 ==> r == Some(Block(self.layout@.order[0] as u32)),
    {
        self.layout.entry_block()
    }

    /// Get block data
    pub fn block_data(&self, block: Block) -> (r: Option<&BlockData>)
        ensures
            block.0 < self.blocks@.len() ==> r == Some(&self.blocks@[block.0 as int]),
            block.0 >= self.blocks@.len() ==> r is None,
    {
        self.blocks.get(block)
    }

    /// Get mutable block data
    pub fn block_data_mut(&mut self, block: Block) -> (r: Option<&mut BlockData>)
        ensures
            block.0 < old(self).blocks@.len() ==> (r matches Some(d) && *d == old(self).blocks@[block.0 as int]
                && final(self).blocks@ == old(self).blocks@.update(block.0 as int, *final(d))),
            block.0 >= old(self).blocks@.len() ==> r is None && final(self).blocks@ == old(self).blocks@,
            final(self).layout == old(self).layout,
            final(self).dfg == old(self).dfg,
    {
        self.blocks.get_mut(block)
    }

    /// Get the number of blocks in this function
    pub fn block_count(&self) -> (r: usize)
        ensures
            r == self.blocks@.len(),
    {
        self.blocks.len()
    }

    /// The blocks in layout order
    pub fn blocks(&self) -> (r: Vec<Block>)
        requires
            self.wf(),
        ensures
            r@.len() == self.layout@.order.len(),
            forall|k: int| 0 <= k < r@.len() ==> (#[trigger] r@[k]).0 == self.layout@.order[k],
    {
        let r = self.layout.blocks();
        proof {
            assert forall|k: int| 0 <= k < r@.len() implies (#[trigger] r@[k]).0 == self.layout@.order[k] by {
                self.layout.lemma_order_bound(k);
            }
        }
        r
    }

    /// The instructions of a block, in layout order
    pub fn block_insts(&self, block: Block) -> (r: Vec<Inst>)
        requires
            self.wf(),
        ensures
            block.0 < self.blocks@.len() ==> r@.len() == self.layout@.contents[block.0 as int].len()
                && forall|k: int|
                0 <= k < r@.len() ==> (#[trigger] r@[k]).0 == self.layout@.contents[block.0 as int][k],
            block.0 >= self.blocks@.len() ==> r@.len() == 0,
    {
        let r = self.layout.block_insts(block);
        proof {
            if block.0 < self.blocks@.len() {
                assert forall|k: int| 0 <= k < r@.len() implies (#[trigger] r@[k]).0
                    == self.layout@.contents[block.0 as int][k] by {
                    self.layout.lemma_contents_bound(block.0 as int, k);
                }
            }
        }
        r
    }

    /// The instruction at position `q` of the block with index `b`.
    pub open spec fn inst_at(&self, b: int, q: int) -> crate::dfg::inst_data::InstDataView {
        self.dfg.insts@[self.layout@.contents[b][q] as int]@
    }

    /// The block index at position `k` of the layout order.
    pub open spec fn block_at(&self, k: int) -> int {
        self.layout@.order[k] as int
    }

    /// The number of instructions of the block at position `k` of the layout.
    pub open spec fn len_at(&self, k: int) -> int {
        self.layout@.contents[self.block_at(k)].len() as int
    }

    /// Get the data of an instruction that the layout holds in a block.
    pub fn placed_inst(&self, block: Block, q: usize) -> (r: &InstData)
        requires
            self.wf(),
            block.0 < self.blocks@.len(),
            q < self.layout@.contents[block.0 as int].len(),
        ensures
            *r == self.dfg.insts@[self.layout@.contents[block.0 as int][q as int] as int],
    {
        proof {
            self.layout.lemma_contents_bound(block.0 as int, q as int);
        }
        let insts = self.block_insts(block);
        let inst = insts[q];
        self.dfg.inst_data(inst).unwrap()
    }

    /// Get the base source location for this function.
    ///
    /// Returns the default source location if no base has been set.
    pub fn base_srcloc(&self) -> (r: SourceLoc)
        ensures
            r == self.spec_base_or_default(),
    {
        match self.base_srcloc {
            Some(b) => b,
            None => SourceLoc::default(),
        }
    }

    /// Ensure that a base source location is set for this function.
    ///
    /// If a base source location is already set, returns the existing one.
    /// Otherwise, sets the given source location as the base and returns it.
    pub fn ensure_base_srcloc(&mut self, srcloc: SourceLoc) -> (r: SourceLoc)
        ensures
            old(self).spec_base() matches Some(b) ==> r == b && final(self).spec_base() == Some(b),
            old(self).spec_base() is None ==> r == srcloc && final(self).spec_base() == Some(srcloc),
            final(self).spec_srclocs() == old(self).spec_srclocs(),
            final(self).signature == old(self).signature,
            final(self).name == old(self).name,
            final(self).blocks == old(self).blocks,
            final(self).layout == old(self).layout,
            final(self).dfg == old(self).dfg,
    {
        match self.base_srcloc {
            Some(base) => base,
            None => {
                self.base_srcloc = Some(srcloc);
                srcloc
            },
        }
    }

    /// Set the absolute source location for an instruction.
    ///
    /// This sets the base source location if it is not set yet, and stores
    /// the instruction's location relative to the base. Instructions without
    /// a location of their own keep reading as the default location.
    pub fn set_srcloc(&mut self, inst: Inst, srcloc: SourceLoc)
        requires
            inst.0 < u32::MAX,
        ensures
            final(self).spec_base() == Some(match old(self).spec_base() {
                Some(b) => b,
                None => srcloc,
            }),
            final(self).spec_srclocs().len() == if inst.0 < old(self).spec_srclocs().len() {
                old(self).spec_srclocs().len()
            } else {
                (inst.0 + 1) as nat
            },
            final(self).spec_srclocs()[inst.0 as int] == RelSourceLoc::spec_from_base(
                final(self).spec_base().unwrap(),
                srcloc,
            ),
            forall|i: int|
                0 <= i < final(self).spec_srclocs().len() && i != inst.0 ==> #[trigger] final(self).spec_srclocs()[i]
                    == if i < old(self).spec_srclocs().len() {
                    old(self).spec_srclocs()[i]
                } else {
                    RelSourceLoc { offset: i32::MIN }
                },
            forall|i: nat|
                old(self).spec_srclocs().len() <= i && i != inst.0 ==> #[trigger] final(self).spec_srcloc(i) == SourceLoc(
                    u32::MAX,
                ),
            final(self).signature == old(self).signature,
            final(self).name == old(self).name,
            final(self).blocks == old(self).blocks,
            final(self).layout == old(self).layout,
            final(self).dfg == old(self).dfg,
    {
        let base = self.ensure_base_srcloc(srcloc);
        let rel = RelSourceLoc::from_base_offset(base, srcloc);
        let inst_index: usize = inst.0 as usize;
        let ghost start = self.srclocs@;
        let ghost mid = *self;
        while self.srclocs.len() <= inst_index
            invariant
                self.signature == mid.signature,
                self.name == mid.name,
                self.blocks == mid.blocks,
                self.layout == mid.layout,
                self.dfg == mid.dfg,
                self.base_srcloc == mid.base_srcloc,
                start == old(self).srclocs@,
                inst_index == inst.0,
                inst.0 < u32::MAX,
                self.srclocs@.len() >= start.len(),
                self.srclocs@.len() <= if inst_index < start.len() {
                    start.len()
                } else {
                    (inst_index + 1) as nat
                },
                forall|i: int|
                    0 <= i < self.srclocs@.len() ==> #[trigger] self.srclocs@[i] == if i < start.len() {
                        start[i]
                    } else {
                        RelSourceLoc { offset: i32::MIN }
                    },
            decreases inst_index + 1 - self.srclocs@.len(),
        {
            let _ = self.srclocs.push(RelSourceLoc::new(i32::MIN));
        }
        let ghost grown = self.srclocs@;
        proof {
            assert(inst_index < grown.len());
        }
        self.srclocs.set(inst, rel);
        proof {
            assert(self.srclocs@ == grown.update(inst.0 as int, rel));
            assert(self.base_srcloc == Some(base));
        }
    }

    /// Get the absolute source location for an instruction.
    ///
    /// Returns the default source location if the instruction doesn't have
    /// an explicit source location set.
    pub fn srcloc(&self, inst: Inst) -> (r: SourceLoc)
        ensures
            r == self.spec_srcloc(inst.0 as nat),
    {
        let base = self.base_srcloc();
        match self.srclocs.get(inst) {
            Some(rel) => rel.expand(base),
            None => SourceLoc::default(),
        }
    }
}

} // verus!
