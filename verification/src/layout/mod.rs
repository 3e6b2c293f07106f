//! Function layout (block and instruction ordering).
//!
//! The layout keeps blocks in a doubly-linked list, and the instructions of
//! each block in a doubly-linked list of their own, so that insertion and
//! removal take O(1). Each instruction also carries a sequence number that
//! grows along its block, so that program order can be compared in O(1).
//!
//! The layout only records where blocks and instructions are, not what they
//! are: that is the data flow graph's business.

use vstd::prelude::*;
use core::cmp::Ordering;

use crate::{
    entity::{Block, EntityRef, Inst},
    entity_map::PrimaryMap,
};

pub mod block_node;
pub mod inst_node;
pub mod packed_option;
pub mod sequence;
pub mod inverse;

use block_node::BlockNode;
use inst_node::InstNode;
use packed_option::PackedOption;
use sequence::{midpoint, LOCAL_LIMIT, MAJOR_STRIDE, MINOR_STRIDE};

verus! {

/// The largest number of instructions a layout registers: the largest `n`
/// with `10 * (n + 1) <= u32::MAX`, so that renumbering a block with the
/// major stride still gives sequence numbers that fit in a `u32`.
pub const MAX_INSTS: u32 = 429_496_728;

/// The abstract content of a layout.
pub struct LayoutView {
    /// Indices of the blocks in layout order.
    pub order: Seq<nat>,
    /// For each registered block (by index), its instructions in order.
    pub contents: Seq<Seq<nat>>,
    /// For each registered block (by index), whether it is cold.
    pub cold: Seq<bool>,
    /// Number of registered instructions.
    pub num_insts: nat,
}

/// The optional element at position `k` of `s`.
pub open spec fn opt_at(s: Seq<nat>, k: int) -> Option<nat> {
    if 0 <= k < s.len() {
        Some(s[k])
    } else {
        None
    }
}

/// The block with index `n`.
pub open spec fn blk(n: nat) -> Block {
    Block(n as u32)
}

/// The instruction with index `n`.
pub open spec fn ins(n: nat) -> Inst {
    Inst(n as u32)
}

/// Option of an entity index, as an option of the block.
pub open spec fn opt_blk(o: Option<nat>) -> Option<Block> {
    match o {
        Some(n) => Some(blk(n)),
        None => None,
    }
}

/// Option of an entity index, as an option of the instruction.
pub open spec fn opt_ins(o: Option<nat>) -> Option<Inst> {
    match o {
        Some(n) => Some(ins(n)),
        None => None,
    }
}

/// Layout manages the ordering of blocks and instructions.
#[derive(Clone)]
pub struct Layout {
    /// Linked list nodes for blocks
    blocks: PrimaryMap<Block, BlockNode>,
    /// Linked list nodes for instructions
    insts: PrimaryMap<Inst, InstNode>,
    /// First block in layout order
    first_block: Option<Block>,
    /// Last block in layout order
    last_block: Option<Block>,
    /// Block indices in layout order
    order: Ghost<Seq<nat>>,
    /// Instruction indices of each block, in order
    contents: Ghost<Seq<Seq<nat>>>,
}

impl View for Layout {
    type V = LayoutView;

    closed spec fn view(&self) -> LayoutView {
        LayoutView {
            order: self.order@,
            contents: self.contents@,
            cold: self.blocks@.map_values(|n: BlockNode| n.cold),
            num_insts: self.insts@.len(),
        }
    }
}

impl LayoutView {
    /// Number of registered blocks.
    pub open spec fn num_blocks(self) -> nat {
        self.contents.len()
    }

    /// Whether block `b` is in the layout.
    pub open spec fn inserted(self, b: nat) -> bool {
        self.order.contains(b)
    }

    /// The block holding instruction `i`, if any.
    pub open spec fn block_of(self, i: nat) -> Option<nat> {
        if exists|b: nat| b < self.num_blocks() && #[trigger] self.contents[b as int].contains(i) {
            Some(choose|b: nat| b < self.num_blocks() && #[trigger] self.contents[b as int].contains(i))
        } else {
            None
        }
    }

    /// The position of instruction `i` in its block.
    pub open spec fn pos_in_block(self, i: nat) -> int {
        self.contents[self.block_of(i).unwrap() as int].index_of(i)
    }

    /// The layout after moving the instructions of block `ob` from position
    /// `p` on into block `nbk`, placed right after `ob`.
    pub open spec fn split(self, ob: nat, nbk: nat, p: int) -> LayoutView {
        let c = self.contents[ob as int];
        LayoutView {
            order: self.order.insert(self.order.index_of(ob) + 1, nbk),
            contents: self.contents.update(ob as int, c.subrange(0, p)).update(
                nbk as int,
                c.subrange(p, c.len() as int),
            ),
            ..self
        }
    }

    /// Whether a program point is a block, or an instruction in a block.
    pub open spec fn pp_placed(self, pp: ProgramPoint) -> bool {
        match pp {
            ProgramPoint::Block(_) => true,
            ProgramPoint::Inst(i) => self.block_of(i.0 as nat) is Some,
        }
    }

    /// The block of a program point.
    pub open spec fn pp_block(self, pp: ProgramPoint) -> Block {
        match pp {
            ProgramPoint::Block(b) => b,
            ProgramPoint::Inst(i) => blk(self.block_of(i.0 as nat).unwrap()),
        }
    }

    /// The position of a program point in its block: the block itself
    /// comes before its first instruction.
    pub open spec fn pp_pos(self, pp: ProgramPoint) -> int {
        match pp {
            ProgramPoint::Block(_) => -1,
            ProgramPoint::Inst(i) => self.pos_in_block(i.0 as nat),
        }
    }

    /// The same layout with `b`'s instruction list replaced by `s`.
    pub open spec fn with_contents(self, b: nat, s: Seq<nat>) -> LayoutView {
        LayoutView { contents: self.contents.update(b as int, s), ..self }
    }
}

impl Layout {
    /// Well-formedness: the linked lists agree with the abstract content,
    /// and sequence numbers grow along every block.
    pub closed spec fn wf(&self) -> bool {
        self.wf_links() && self.wf_seq()
    }

    /// The linked-list nodes agree with the ghost order and contents.
    closed spec fn wf_links(&self) -> bool {
        let nb = self.blocks@.len();
        let ni = self.insts@.len();
        let order = self.order@;
        let contents = self.contents@;
        &&& nb < u32::MAX
        &&& ni <= MAX_INSTS
        &&& contents.len() == nb
        &&& order.no_duplicates()
        &&& forall|k: int| 0 <= k < order.len() ==> #[trigger] order[k] < nb
        &&& self.first_block == opt_blk(opt_at(order, 0))
        &&& self.last_block == opt_blk(opt_at(order, order.len() - 1))
        &&& forall|k: int|
            0 <= k < order.len() ==> {
                &&& (#[trigger] self.blocks@[order[k] as int]).prev@ == opt_at(order, k - 1)
                &&& self.blocks@[order[k] as int].next@ == opt_at(order, k + 1)
            }
        &&& forall|b: int|
            0 <= b < nb && !order.contains(b as nat) ==> {
                &&& (#[trigger] self.blocks@[b]).prev@ is None
                &&& self.blocks@[b].next@ is None
                &&& contents[b].len() == 0
            }
        &&& forall|b: int|
            0 <= b < nb ==> {
                &&& (#[trigger] self.blocks@[b]).first_inst@ == opt_at(contents[b], 0)
                &&& self.blocks@[b].last_inst@ == opt_at(contents[b], contents[b].len() - 1)
                &&& contents[b].no_duplicates()
            }
        &&& forall|b: int, q: int|
            0 <= b < nb && 0 <= q < contents[b].len() ==> {
                &&& #[trigger] contents[b][q] < ni
                &&& self.insts@[contents[b][q] as int].block@ == Some(b as nat)
                &&& self.insts@[contents[b][q] as int].prev@ == opt_at(contents[b], q - 1)
                &&& self.insts@[contents[b][q] as int].next@ == opt_at(contents[b], q + 1)
            }
        &&& forall|i: int|
            0 <= i < ni ==> match (#[trigger] self.insts@[i]).block@ {
                Some(b) => b < nb && contents[b as int].contains(i as nat),
                None => self.insts@[i].prev@ is None && self.insts@[i].next@ is None,
            }
    }

    /// Sequence numbers are positive and strictly grow along every block.
    closed spec fn wf_seq(&self) -> bool {
        forall|b: int| 0 <= b < self.contents@.len() ==> #[trigger] self.seq_ok(b)
    }

    /// Sequence numbers are positive and strictly grow along block `b`.
    closed spec fn seq_ok(&self, b: int) -> bool {
        let c = self.contents@[b];
        &&& forall|q: int| 0 <= q < c.len() ==> self.insts@[#[trigger] c[q] as int].seq > 0
        &&& forall|q1: int, q2: int|
            0 <= q1 < q2 < c.len() ==> self.insts@[#[trigger] c[q1] as int].seq
                < self.insts@[#[trigger] c[q2] as int].seq
    }

    /// Sequence numbers are fine in every block but `b`.
    closed spec fn seq_ok_others(&self, b: int) -> bool {
        forall|bb: int| 0 <= bb < self.contents@.len() && bb != b ==> #[trigger] self.seq_ok(bb)
    }

    /// Two layouts that differ at most in sequence numbers.
    closed spec fn same_links(&self, other: &Layout) -> bool {
        &&& self.blocks@ == other.blocks@
        &&& self.order@ == other.order@
        &&& self.contents@ == other.contents@
        &&& self.first_block == other.first_block
        &&& self.last_block == other.last_block
        &&& self.insts@.len() == other.insts@.len()
        &&& forall|i: int|
            0 <= i < self.insts@.len() ==> {
                &&& (#[trigger] self.insts@[i]).block == other.insts@[i].block
                &&& self.insts@[i].prev == other.insts@[i].prev
                &&& self.insts@[i].next == other.insts@[i].next
            }
    }

    /// Links do not depend on sequence numbers.
    proof fn lemma_same_links(&self, other: &Layout)
        requires
            other.wf_links(),
            self.same_links(other),
        ensures
            self.wf_links(),
            self@ == other@,
    {
        let nb = self.blocks@.len();
        assert forall|b: int, q: int|
            0 <= b < nb && 0 <= q < self.contents@[b].len() implies {
                &&& #[trigger] self.contents@[b][q] < self.insts@.len()
                &&& self.insts@[self.contents@[b][q] as int].block@ == Some(b as nat)
                &&& self.insts@[self.contents@[b][q] as int].prev@ == opt_at(self.contents@[b], q - 1)
                &&& self.insts@[self.contents@[b][q] as int].next@ == opt_at(self.contents@[b], q + 1)
            } by {
            let x = self.contents@[b][q] as int;
            assert(self.insts@[x].block == other.insts@[x].block);
        }
        assert forall|i: int| 0 <= i < self.insts@.len() implies match (#[trigger] self.insts@[i]).block@ {
            Some(b) => b < nb && self.contents@[b as int].contains(i as nat),
            None => self.insts@[i].prev@ is None && self.insts@[i].next@ is None,
        } by {
            assert(other.insts@[i].block == self.insts@[i].block);
        }
    }

    /// Sequence-number well-formedness depends only on the instructions and
    /// the block contents.
    proof fn lemma_seq_same(&self, other: &Layout)
        requires
            other.wf_seq(),
            self.insts@ == other.insts@,
            self.contents@ == other.contents@,
        ensures
            self.wf_seq(),
    {
        assert forall|b: int| 0 <= b < self.contents@.len() implies #[trigger] self.seq_ok(b) by {
            assert(other.seq_ok(b));
        }
    }

    /// Instruction `i` of block `b` at position `q` is in no other block.
    proof fn lemma_inst_only_in(&self, b: int, q: int, bb: int, qq: int)
        requires
            self.wf_links(),
            0 <= b < self.contents@.len(),
            0 <= q < self.contents@[b].len(),
            0 <= bb < self.contents@.len(),
            0 <= qq < self.contents@[bb].len(),
            self.contents@[b][q] == self.contents@[bb][qq],
        ensures
            b == bb,
            q == qq,
    {
        assert(self.insts@[self.contents@[b][q] as int].block@ == Some(b as nat));
        assert(self.insts@[self.contents@[bb][qq] as int].block@ == Some(bb as nat));
        assert(self.blocks@[b].first_inst@ == opt_at(self.contents@[b], 0));
        assert(self.contents@[b].no_duplicates());
    }

    /// The instruction at position `q` of block `b` has that block and that
    /// position.
    pub proof fn lemma_in_block(&self, b: int, q: int)
        requires
            self.wf(),
            0 <= b < self@.num_blocks(),
            0 <= q < self@.contents[b].len(),
        ensures
            self@.block_of(self@.contents[b][q]) == Some(b as nat),
            self@.pos_in_block(self@.contents[b][q]) == q,
    {
        let i = self.contents@[b][q];
        assert(self.insts@[i as int].block@ == Some(b as nat));
        self.lemma_inst_pos(i);
        let qq = self.contents@[b].index_of(i);
        self.lemma_inst_only_in(b, q, b, qq);
    }

    /// The sizes a well-formed layout keeps to.
    pub proof fn lemma_wf_bounds(&self)
        requires
            self.wf(),
        ensures
            self@.num_blocks() < u32::MAX,
            self@.num_insts <= MAX_INSTS,
            self@.cold.len() == self@.num_blocks(),
    {
    }

    /// Every block in the order is registered.
    pub proof fn lemma_order_bound(&self, k: int)
        requires
            self.wf(),
            0 <= k < self@.order.len(),
        ensures
            self@.order[k] < self@.num_blocks(),
            self@.num_blocks() < u32::MAX,
    {
    }

    /// Every instruction of a block is registered.
    pub proof fn lemma_contents_bound(&self, b: int, k: int)
        requires
            self.wf(),
            0 <= b < self@.num_blocks(),
            0 <= k < self@.contents[b].len(),
        ensures
            self@.contents[b][k] < self@.num_insts,
            self@.num_insts <= MAX_INSTS,
    {
        assert(self.contents@[b][k] < self.insts@.len());
    }

    /// The blocks in the order are distinct, and so are the instructions of
    /// a block; a block outside the order holds no instructions, and an
    /// instruction is in one block at most.
    pub proof fn lemma_distinct(&self)
        requires
            self.wf(),
        ensures
            self@.order.no_duplicates(),
            forall|b: int| 0 <= b < self@.num_blocks() ==> (#[trigger] self@.contents[b]).no_duplicates(),
            forall|b: int|
                0 <= b < self@.num_blocks() && !self@.order.contains(b as nat) ==> (#[trigger] self@.contents[b]).len()
                    == 0,
    {
        assert forall|b: int| 0 <= b < self@.num_blocks() implies (#[trigger] self@.contents[b]).no_duplicates() by {
            assert(self.blocks@[b].first_inst@ == opt_at(self.contents@[b], 0));
        }
        assert forall|b: int|
            0 <= b < self@.num_blocks() && !self@.order.contains(b as nat) implies (#[trigger] self@.contents[b]).len()
                == 0 by {
            assert(self.blocks@[b].prev@ is None);
        }
    }

    /// The sequence number of instruction `i`.
    pub closed spec fn seq_of(&self, i: nat) -> nat {
        self.insts@[i as int].seq as nat
    }

    /// Create a new empty layout
    pub fn new() -> (r: Self)
        ensures
            r.wf(),
            r@.order.len() == 0,
            r@.contents.len() == 0,
            r@.num_insts == 0,
    {
        let r = Self {
            blocks: PrimaryMap::new(),
            insts: PrimaryMap::new(),
            first_block: None,
            last_block: None,
            order: Ghost(Seq::empty()),
            contents: Ghost(Seq::empty()),
        };
        r
    }

    /// Clear the layout
    pub fn clear(&mut self)
        ensures
            final(self).wf(),
            final(self)@.order.len() == 0,
            final(self)@.contents.len() == 0,
            final(self)@.num_insts == 0,
    {
        self.blocks.clear();
        self.insts.clear();
        self.first_block = None;
        self.last_block = None;
        self.order = Ghost(Seq::empty());
        self.contents = Ghost(Seq::empty());
    }

    /// Number of blocks registered with the layout.
    pub fn num_blocks(&self) -> (r: usize)
        requires
            self.wf(),
        ensures
            r == self@.num_blocks(),
    {
        self.blocks.len()
    }

    /// Number of instructions registered with the layout.
    pub fn num_insts(&self) -> (r: usize)
        ensures
            r == self@.num_insts,
    {
        self.insts.len()
    }

    // ========================================================================
    // Block operations
    // ========================================================================

    /// Check if a block is currently inserted in the layout
    pub fn is_block_inserted(&self, block: Block) -> (r: bool)
        requires
            self.wf(),
        ensures
            r == self@.inserted(block.0 as nat),
    {
        let is_first = match self.first_block {
            Some(f) => f == block,
            None => false,
        };
        if is_first {
            proof {
                assert(self.order@[0] == block.0);
            }
            return true;
        }
        let r = match self.blocks.get(block) {
            Some(n) => n.prev.is_some(),
            None => false,
        };
        proof {
            let b = block.0 as nat;
            if self.order@.contains(b) {
                let k = choose|k: int| 0 <= k < self.order@.len() && self.order@[k] == b;
                assert(self.blocks@[self.order@[k] as int].prev@ == opt_at(self.order@, k - 1));
            } else if b < self.blocks@.len() {
                assert(self.blocks@[b as int].prev@ is None);
            }
        }
        r
    }

    /// Get the entry block (first block in layout order)
    pub fn entry_block(&self) -> (r: Option<Block>)
        requires
            self.wf(),
        ensures
            r == opt_blk(opt_at(self@.order, 0)),
    {
        self.first_block
    }

    /// Get the last block in layout order
    pub fn last_block(&self) -> (r: Option<Block>)
        requires
            self.wf(),
        ensures
            r == opt_blk(opt_at(self@.order, self@.order.len() - 1)),
    {
        self.last_block
    }

    /// Get the block preceding `block` in layout order
    pub fn prev_block(&self, block: Block) -> (r: Option<Block>)
        requires
            self.wf(),
        ensures
            self@.inserted(block.0 as nat) ==> r == opt_blk(
                opt_at(self@.order, self@.order.index_of(block.0 as nat) - 1),
            ),
            !self@.inserted(block.0 as nat) ==> r is None,
    {
        proof {
            self.lemma_block_pos(block.0 as nat);
        }
        match self.blocks.get(block) {
            Some(n) => n.prev.expand(),
            None => None,
        }
    }

    /// Get the block following `block` in layout order
    pub fn next_block(&self, block: Block) -> (r: Option<Block>)
        requires
            self.wf(),
        ensures
            self@.inserted(block.0 as nat) ==> r == opt_blk(
                opt_at(self@.order, self@.order.index_of(block.0 as nat) + 1),
            ),
            !self@.inserted(block.0 as nat) ==> r is None,
    {
        proof {
            self.lemma_block_pos(block.0 as nat);
        }
        match self.blocks.get(block) {
            Some(n) => n.next.expand(),
            None => None,
        }
    }

    /// Where a block stands: at its position in the order, or with no links.
    proof fn lemma_block_pos(&self, b: nat)
        requires
            self.wf(),
        ensures
            self.order@.contains(b) ==> {
                let k = self.order@.index_of(b);
                &&& 0 <= k < self.order@.len()
                &&& self.order@[k] == b
                &&& b < self.blocks@.len()
                &&& self.blocks@[b as int].prev@ == opt_at(self.order@, k - 1)
                &&& self.blocks@[b as int].next@ == opt_at(self.order@, k + 1)
            },
            !self.order@.contains(b) && b < self.blocks@.len() ==> self.blocks@[b as int].prev@ is None
                && self.blocks@[b as int].next@ is None,
    {
        if self.order@.contains(b) {
            let k = self.order@.index_of(b);
            assert(self.order@[k] == b);
            assert(self.blocks@[self.order@[k] as int].prev@ == opt_at(self.order@, k - 1));
        } else if b < self.blocks@.len() {
            assert(self.blocks@[b as int].prev@ is None);
        }
    }

    /// Mark a block as "cold" (rarely executed)
    pub fn set_cold(&mut self, block: Block)
        requires
            old(self).wf(),
        ensures
            final(self).wf(),
            block.0 < old(self)@.num_blocks() ==> final(self)@ == (LayoutView {
                cold: old(self)@.cold.update(block.0 as int, true),
                ..old(self)@
            }),
            block.0 >= old(self)@.num_blocks() ==> final(self)@ == old(self)@,
    {
        if (block.0 as usize) < self.blocks.len() {
            let mut node = *self.blocks.at(block);
            node.cold = true;
            self.blocks.set(block, node);
            proof {
                assert(self.blocks@.map_values(|n: BlockNode| n.cold) =~= old(self).blocks@.map_values(
                    |n: BlockNode| n.cold,
                ).update(block.0 as int, true));
                self.lemma_seq_same(old(self));
            }
        }
    }

    /// Check if a block is marked as cold
    pub fn is_cold(&self, block: Block) -> (r: bool)
        requires
            self.wf(),
        ensures
            r == (block.0 < self@.num_blocks() && self@.cold[block.0 as int]),
    {
        match self.blocks.get(block) {
            Some(n) => n.cold,
            None => false,
        }
    }

    // ========================================================================
    // Instruction queries
    // ========================================================================

    /// Where an instruction stands.
    proof fn lemma_inst_pos(&self, i: nat)
        requires
            self.wf(),
            i < self.insts@.len(),
        ensures
            match self.insts@[i as int].block@ {
                Some(b) => {
                    let q = self.contents@[b as int].index_of(i);
                    &&& b < self.blocks@.len()
                    &&& 0 <= q < self.contents@[b as int].len()
                    &&& self.contents@[b as int][q] == i
                    &&& self@.block_of(i) == Some(b)
                    &&& self@.pos_in_block(i) == q
                    &&& self.insts@[i as int].prev@ == opt_at(self.contents@[b as int], q - 1)
                    &&& self.insts@[i as int].next@ == opt_at(self.contents@[b as int], q + 1)
                },
                None => {
                    &&& self@.block_of(i) is None
                    &&& self.insts@[i as int].prev@ is None
                    &&& self.insts@[i as int].next@ is None
                },
            },
    {
        match self.insts@[i as int].block@ {
            Some(b) => {
                assert(self.contents@[b as int].contains(i));
                let q = self.contents@[b as int].index_of(i);
                assert(self.contents@[b as int][q] == i);
                assert(self.insts@[self.contents@[b as int][q] as int].block@ == Some(b));
                let bb = choose|bb: nat|
                    bb < self@.num_blocks() && #[trigger] self.contents@[bb as int].contains(i);
                let qq = self.contents@[bb as int].index_of(i);
                assert(self.contents@[bb as int][qq] == i);
                assert(self.insts@[self.contents@[bb as int][qq] as int].block@ == Some(bb));
            },
            None => {
                if exists|b: nat| b < self@.num_blocks() && #[trigger] self.contents@[b as int].contains(i) {
                    let b = choose|b: nat|
                        b < self@.num_blocks() && #[trigger] self.contents@[b as int].contains(i);
                    let q = self.contents@[b as int].index_of(i);
                    assert(self.contents@[b as int][q] == i);
                    assert(self.insts@[self.contents@[b as int][q] as int].block@ == Some(b));
                }
            },
        }
    }

    /// Get the block containing an instruction
    pub fn inst_block(&self, inst: Inst) -> (r: Option<Block>)
        requires
            self.wf(),
        ensures
            r == opt_blk(self@.block_of(inst.0 as nat)),
    {
        proof {
            if inst.0 < self.insts@.len() {
                self.lemma_inst_pos(inst.0 as nat);
            } else {
                self.lemma_not_registered(inst.0 as nat);
            }
        }
        match self.insts.get(inst) {
            Some(n) => n.block.expand(),
            None => None,
        }
    }

    /// An instruction that is not registered is in no block.
    proof fn lemma_not_registered(&self, i: nat)
        requires
            self.wf(),
            i >= self.insts@.len(),
        ensures
            self@.block_of(i) is None,
    {
        if exists|b: nat| b < self@.num_blocks() && #[trigger] self.contents@[b as int].contains(i) {
            let b = choose|b: nat|
                b < self@.num_blocks() && #[trigger] self.contents@[b as int].contains(i);
            let q = self.contents@[b as int].index_of(i);
            assert(self.contents@[b as int][q] == i);
        }
    }

    /// Get the first instruction in a block
    pub fn first_inst(&self, block: Block) -> (r: Option<Inst>)
        requires
            self.wf(),
        ensures
            block.0 < self@.num_blocks() ==> r == opt_ins(opt_at(self@.contents[block.0 as int], 0)),
            block.0 >= self@.num_blocks() ==> r is None,
    {
        match self.blocks.get(block) {
            Some(n) => n.first_inst.expand(),
            None => None,
        }
    }

    /// Get the last instruction in a block
    pub fn last_inst(&self, block: Block) -> (r: Option<Inst>)
        requires
            self.wf(),
        ensures
            block.0 < self@.num_blocks() ==> r == opt_ins(
                opt_at(
                    self@.contents[block.0 as int],
                    self@.contents[block.0 as int].len() - 1,
                ),
            ),
            block.0 >= self@.num_blocks() ==> r is None,
    {
        match self.blocks.get(block) {
            Some(n) => n.last_inst.expand(),
            None => None,
        }
    }

    /// Get the instruction following `inst` in its block
    pub fn next_inst(&self, inst: Inst) -> (r: Option<Inst>)
        requires
            self.wf(),
        ensures
            self@.block_of(inst.0 as nat) matches Some(b) ==> r == opt_ins(
                opt_at(self@.contents[b as int], self@.pos_in_block(inst.0 as nat) + 1),
            ),
            self@.block_of(inst.0 as nat) is None ==> r is None,
    {
        proof {
            if inst.0 < self.insts@.len() {
                self.lemma_inst_pos(inst.0 as nat);
            } else {
                self.lemma_not_registered(inst.0 as nat);
            }
        }
        match self.insts.get(inst) {
            Some(n) => n.next.expand(),
            None => None,
        }
    }

    /// Get the instruction preceding `inst` in its block
    pub fn prev_inst(&self, inst: Inst) -> (r: Option<Inst>)
        requires
            self.wf(),
        ensures
            self@.block_of(inst.0 as nat) matches Some(b) ==> r == opt_ins(
                opt_at(self@.contents[b as int], self@.pos_in_block(inst.0 as nat) - 1),
            ),
            self@.block_of(inst.0 as nat) is None ==> r is None,
    {
        proof {
            if inst.0 < self.insts@.len() {
                self.lemma_inst_pos(inst.0 as nat);
            } else {
                self.lemma_not_registered(inst.0 as nat);
            }
        }
        match self.insts.get(inst) {
            Some(n) => n.prev.expand(),
            None => None,
        }
    }

    /// Check if a block contains exactly one instruction
    pub fn block_contains_exactly_one_inst(&self, block: Block) -> (r: bool)
        requires
            self.wf(),
        ensures
            r == (block.0 < self@.num_blocks() && self@.contents[block.0 as int].len() == 1),
    {
        match self.blocks.get(block) {
            Some(n) => {
                let r = n.first_inst.is_some() && n.first_inst.same_as(&n.last_inst);
                proof {
                    let s = self.contents@[block.0 as int];
                    if s.len() > 1 {
                        assert(s[0] != s[s.len() - 1]);
                    }
                }
                r
            },
            None => false,
        }
    }

    // ========================================================================
    // Registration
    // ========================================================================

    /// Ensure a block exists in the blocks map.
    ///
    /// When the block's index is not registered yet, one more empty,
    /// uninserted block is registered.
    pub fn ensure_block(&mut self, block: Block)
        requires
            old(self).wf(),
            old(self)@.num_blocks() + 1 < u32::MAX,
        ensures
            final(self).wf(),
            block.0 < old(self)@.num_blocks() ==> final(self)@ == old(self)@,
            block.0 >= old(self)@.num_blocks() ==> final(self)@ == (LayoutView {
                contents: old(self)@.contents.push(Seq::empty()),
                cold: old(self)@.cold.push(false),
                ..old(self)@
            }),
    {
        if self.blocks.get(block).is_none() {
            let _ = self.blocks.push(BlockNode::new());
            self.contents = Ghost(self.contents@.push(Seq::empty()));
            proof {
                let nb = old(self).blocks@.len();
                assert(!self.order@.contains(nb)) by {
                    if self.order@.contains(nb) {
                        let k = choose|k: int| 0 <= k < self.order@.len() && self.order@[k] == nb;
                        assert(self.order@[k] < nb);
                    }
                }
                assert forall|k: int| 0 <= k < self.order@.len() implies {
                    &&& (#[trigger] self.blocks@[self.order@[k] as int]).prev@ == opt_at(self.order@, k - 1)
                    &&& self.blocks@[self.order@[k] as int].next@ == opt_at(self.order@, k + 1)
                } by {
                    assert(self.blocks@[self.order@[k] as int] == old(self).blocks@[self.order@[k] as int]);
                }
                assert forall|b: int, q: int|
                    0 <= b < self.blocks@.len() && 0 <= q < self.contents@[b].len() implies {
                        &&& #[trigger] self.contents@[b][q] < self.insts@.len()
                        &&& self.insts@[self.contents@[b][q] as int].block@ == Some(b as nat)
                        &&& self.insts@[self.contents@[b][q] as int].prev@ == opt_at(self.contents@[b], q - 1)
                        &&& self.insts@[self.contents@[b][q] as int].next@ == opt_at(self.contents@[b], q + 1)
                    } by {
                    assert(b < nb);
                    assert(self.contents@[b] == old(self).contents@[b]);
                }
                assert(self.blocks@.map_values(|n: BlockNode| n.cold) =~= old(self).blocks@.map_values(
                    |n: BlockNode| n.cold,
                ).push(false));
                assert forall|b: int| 0 <= b < self.contents@.len() implies #[trigger] self.seq_ok(b) by {
                    if b < nb {
                        assert(old(self).seq_ok(b));
                    }
                }
            }
        }
    }

    /// Ensure an instruction exists in the insts map.
    ///
    /// When the instruction's index is not registered yet, one more
    /// instruction (in no block) is registered.
    pub fn ensure_inst(&mut self, inst: Inst)
        requires
            old(self).wf(),
            old(self)@.num_insts < MAX_INSTS,
        ensures
            final(self).wf(),
            inst.0 < old(self)@.num_insts ==> final(self)@ == old(self)@,
            inst.0 >= old(self)@.num_insts ==> final(self)@ == (LayoutView {
                num_insts: old(self)@.num_insts + 1,
                ..old(self)@
            }),
    {
        if self.insts.get(inst).is_none() {
            let _ = self.insts.push(InstNode::new());
            proof {
                let ni = old(self).insts@.len();
                assert forall|b: int, q: int|
                    0 <= b < self.blocks@.len() && 0 <= q < self.contents@[b].len() implies {
                        &&& #[trigger] self.contents@[b][q] < self.insts@.len()
                        &&& self.insts@[self.contents@[b][q] as int].block@ == Some(b as nat)
                        &&& self.insts@[self.contents@[b][q] as int].prev@ == opt_at(self.contents@[b], q - 1)
                        &&& self.insts@[self.contents@[b][q] as int].next@ == opt_at(self.contents@[b], q + 1)
                    } by {
                    assert(self.contents@[b][q] < ni);
                    assert(self.insts@[self.contents@[b][q] as int] == old(self).insts@[self.contents@[b][q] as int]);
                }
                assert forall|i: int| 0 <= i < self.insts@.len() implies match (#[trigger] self.insts@[i]).block@ {
                    Some(b) => b < self.blocks@.len() && self.contents@[b as int].contains(i as nat),
                    None => self.insts@[i].prev@ is None && self.insts@[i].next@ is None,
                } by {
                    if i < ni {
                        assert(self.insts@[i] == old(self).insts@[i]);
                    }
                }
                assert forall|b: int| 0 <= b < self.contents@.len() implies #[trigger] self.seq_ok(b) by {
                    assert(old(self).seq_ok(b));
                    let c = self.contents@[b];
                    assert forall|q: int| 0 <= q < c.len() implies self.insts@[#[trigger] c[q] as int]
                        == old(self).insts@[c[q] as int] by {
                        assert(c[q] < ni);
                    }
                }
            }
        }
    }

    // ========================================================================
    // Block insertion and removal
    // ========================================================================

    /// Append a block to the end of the layout
    pub fn append_block(&mut self, block: Block)
        requires
            old(self).wf(),
            block.0 < old(self)@.num_blocks(),
            !old(self)@.inserted(block.0 as nat),
        ensures
            final(self).wf(),
            final(self)@ == (LayoutView { order: old(self)@.order.push(block.0 as nat), ..old(self)@ }),
    {
        let ghost b = block.0 as nat;
        let ghost old_order = self.order@;
        proof {
            self.lemma_block_pos(b);
        }
        let mut node = *self.blocks.at(block);
        node.prev = PackedOption::from_option(self.last_block);
        node.next = PackedOption::none();
        self.blocks.set(block, node);
        match self.last_block {
            Some(last) => {
                proof {
                    assert(old_order[old_order.len() - 1] < self.blocks@.len());
                }
                let mut ln = *self.blocks.at(last);
                ln.next = PackedOption::some(block);
                self.blocks.set(last, ln);
            },
            None => {
                self.first_block = Some(block);
            },
        }
        self.last_block = Some(block);
        self.order = Ghost(self.order@.push(b));
        proof {
            let order = self.order@;
            let n = old_order.len();
            assert(order.no_duplicates()) by {
                assert forall|i: int, j: int| 0 <= i < order.len() && 0 <= j < order.len() && i != j implies order[i] != order[j] by {
                    if i == n && j < n {
                        assert(old_order[j] != b) by {
                            assert(!old_order.contains(b));
                        }
                    }
                    if j == n && i < n {
                        assert(!old_order.contains(b));
                        assert(old_order[i] != b);
                    }
                }
            }
            assert forall|k: int| 0 <= k < order.len() implies {
                &&& (#[trigger] self.blocks@[order[k] as int]).prev@ == opt_at(order, k - 1)
                &&& self.blocks@[order[k] as int].next@ == opt_at(order, k + 1)
            } by {
                if k < n {
                    assert(order[k] == old_order[k]);
                    assert(old_order[k] != b) by {
                        assert(!old_order.contains(b));
                    }
                    if k < n - 1 {
                        assert(old_order[k] != old_order[n - 1]);
                    }
                }
            }
            assert forall|bb: int|
                0 <= bb < self.blocks@.len() && !order.contains(bb as nat) implies {
                    &&& (#[trigger] self.blocks@[bb]).prev@ is None
                    &&& self.blocks@[bb].next@ is None
                    &&& self.contents@[bb].len() == 0
                } by {
                assert(bb != b) by {
                    assert(order[n as int] == b);
                }
                if n > 0 {
                    assert(order[n - 1] == old_order[n - 1]);
                    assert(bb != old_order[n - 1]);
                }
                assert(!old_order.contains(bb as nat)) by {
                    if old_order.contains(bb as nat) {
                        let k = choose|k: int| 0 <= k < old_order.len() && old_order[k] == bb;
                        assert(order[k] == bb);
                    }
                }
            }
            assert forall|bb: int| 0 <= bb < self.blocks@.len() implies {
                &&& (#[trigger] self.blocks@[bb]).first_inst@ == opt_at(self.contents@[bb], 0)
                &&& self.blocks@[bb].last_inst@ == opt_at(self.contents@[bb], self.contents@[bb].len() - 1)
                &&& self.contents@[bb].no_duplicates()
            } by {
                assert(old(self).blocks@[bb].first_inst@ == opt_at(self.contents@[bb], 0));
            }
            assert(self.blocks@.map_values(|nd: BlockNode| nd.cold) =~= old(self).blocks@.map_values(
                |nd: BlockNode| nd.cold,
            ));
            self.lemma_seq_same(old(self));
        }
    }

    /// Insert a block before another block
    #[verifier::spinoff_prover]
    #[verifier::rlimit(80)]
    pub fn insert_block(&mut self, block: Block, before: Block)
        requires
            old(self).wf(),
            block.0 < old(self)@.num_blocks(),
            !old(self)@.inserted(block.0 as nat),
            old(self)@.inserted(before.0 as nat),
        ensures
            final(self).wf(),
            final(self)@ == (LayoutView {
                order: old(self)@.order.insert(
                    old(self)@.order.index_of(before.0 as nat),
                    block.0 as nat,
                ),
                ..old(self)@
            }),
    {
        let ghost b = block.0 as nat;
        let ghost bf = before.0 as nat;
        let ghost old_order = self.order@;
        let ghost k = old_order.index_of(bf);
        proof {
            self.lemma_block_pos(b);
            self.lemma_block_pos(bf);
        }
        let after = self.blocks.at(before).prev;
        let mut node = *self.blocks.at(block);
        node.next = PackedOption::some(before);
        node.prev = after;
        self.blocks.set(block, node);
        let mut bn = *self.blocks.at(before);
        bn.prev = PackedOption::some(block);
        self.blocks.set(before, bn);
        match after.expand() {
            None => {
                self.first_block = Some(block);
            },
            Some(a) => {
                proof {
                    assert(old_order[k - 1] < self.blocks@.len());
                }
                let mut an = *self.blocks.at(a);
                an.next = PackedOption::some(block);
                self.blocks.set(a, an);
            },
        }
        self.order = Ghost(old_order.insert(k, b));
        proof {
            let order = self.order@;
            let n = old_order.len();
            assert(!old_order.contains(b));
            assert(order.len() == n + 1);
            assert forall|j: int| 0 <= j < order.len() implies #[trigger] order[j] == (if j < k {
                old_order[j]
            } else if j == k {
                b
            } else {
                old_order[j - 1]
            }) by {}
            assert(order.no_duplicates()) by {
                assert forall|i: int, j: int| 0 <= i < order.len() && 0 <= j < order.len() && i != j implies order[i] != order[j] by {
                    if i == k && j != k {
                        let jj = if j < k { j } else { j - 1 };
                        assert(old_order[jj] != b);
                    } else if j == k && i != k {
                        let ii = if i < k { i } else { i - 1 };
                        assert(old_order[ii] != b);
                    } else {
                        let ii = if i < k { i } else { i - 1 };
                        let jj = if j < k { j } else { j - 1 };
                        assert(ii != jj);
                    }
                }
            }
            assert forall|j: int| 0 <= j < order.len() implies #[trigger] order[j] < self.blocks@.len() by {}
            assert forall|j: int| 0 <= j < order.len() implies {
                &&& (#[trigger] self.blocks@[order[j] as int]).prev@ == opt_at(order, j - 1)
                &&& self.blocks@[order[j] as int].next@ == opt_at(order, j + 1)
            } by {
                if j < k {
                    assert(old_order[j] != b);
                    assert(old_order[j] != bf);
                    if j < k - 1 {
                        assert(old_order[j] != old_order[k - 1]);
                    }
                } else if j > k {
                    assert(old_order[j - 1] != b);
                    if j - 1 > k {
                        assert(old_order[j - 1] != bf);
                        if k > 0 {
                            assert(old_order[j - 1] != old_order[k - 1]);
                        }
                    }
                }
            }
            assert forall|bb: int|
                0 <= bb < self.blocks@.len() && !order.contains(bb as nat) implies {
                    &&& (#[trigger] self.blocks@[bb]).prev@ is None
                    &&& self.blocks@[bb].next@ is None
                    &&& self.contents@[bb].len() == 0
                } by {
                assert(order[k] == b);
                assert(bb != b);
                assert(order[k + 1] == bf);
                assert(bb != bf);
                if k > 0 {
                    assert(order[k - 1] == old_order[k - 1]);
                    assert(bb != old_order[k - 1]);
                }
                assert(!old_order.contains(bb as nat)) by {
                    if old_order.contains(bb as nat) {
                        let kk = choose|kk: int| 0 <= kk < old_order.len() && old_order[kk] == bb;
                        if kk < k {
                            assert(order[kk] == bb);
                        } else {
                            assert(order[kk + 1] == bb);
                        }
                    }
                }
            }
            assert forall|bb: int| 0 <= bb < self.blocks@.len() implies {
                &&& (#[trigger] self.blocks@[bb]).first_inst@ == opt_at(self.contents@[bb], 0)
                &&& self.blocks@[bb].last_inst@ == opt_at(self.contents@[bb], self.contents@[bb].len() - 1)
                &&& self.contents@[bb].no_duplicates()
            } by {
                assert(old(self).blocks@[bb].first_inst@ == opt_at(self.contents@[bb], 0));
            }
            assert(self.first_block == opt_blk(opt_at(order, 0)));
            assert(self.last_block == opt_blk(opt_at(order, order.len() - 1)));
            assert(self.blocks@.map_values(|nd: BlockNode| nd.cold) =~= old(self).blocks@.map_values(
                |nd: BlockNode| nd.cold,
            ));
            self.lemma_seq_same(old(self));
        }
    }

    /// Insert a block after another block
    #[verifier::spinoff_prover]
    #[verifier::rlimit(80)]
    pub fn insert_block_after(&mut self, block: Block, after: Block)
        requires
            old(self).wf(),
            block.0 < old(self)@.num_blocks(),
            !old(self)@.inserted(block.0 as nat),
            old(self)@.inserted(after.0 as nat),
        ensures
            final(self).wf(),
            final(self)@ == (LayoutView {
                order: old(self)@.order.insert(
                    old(self)@.order.index_of(after.0 as nat) + 1,
                    block.0 as nat,
                ),
                ..old(self)@
            }),
    {
        let ghost b = block.0 as nat;
        let ghost af = after.0 as nat;
        let ghost old_order = self.order@;
        let ghost k0 = old_order.index_of(af);
        let ghost k = k0 + 1;
        proof {
            self.lemma_block_pos(b);
            self.lemma_block_pos(af);
        }
        let before = self.blocks.at(after).next;
        let mut node = *self.blocks.at(block);
        node.next = before;
        node.prev = PackedOption::some(after);
        self.blocks.set(block, node);
        let mut an = *self.blocks.at(after);
        an.next = PackedOption::some(block);
        self.blocks.set(after, an);
        match before.expand() {
            None => {
                self.last_block = Some(block);
            },
            Some(bf) => {
                proof {
                    assert(old_order[k] < self.blocks@.len());
                }
                let mut bn = *self.blocks.at(bf);
                bn.prev = PackedOption::some(block);
                self.blocks.set(bf, bn);
            },
        }
        self.order = Ghost(old_order.insert(k, b));
        proof {
            let order = self.order@;
            let n = old_order.len();
            assert(!old_order.contains(b));
            assert(order.len() == n + 1);
            assert forall|j: int| 0 <= j < order.len() implies #[trigger] order[j] == (if j < k {
                old_order[j]
            } else if j == k {
                b
            } else {
                old_order[j - 1]
            }) by {}
            assert(order.no_duplicates()) by {
                assert forall|i: int, j: int| 0 <= i < order.len() && 0 <= j < order.len() && i != j implies order[i] != order[j] by {
                    if i == k && j != k {
                        let jj = if j < k { j } else { j - 1 };
                        assert(old_order[jj] != b);
                    } else if j == k && i != k {
                        let ii = if i < k { i } else { i - 1 };
                        assert(old_order[ii] != b);
                    } else {
                        let ii = if i < k { i } else { i - 1 };
                        let jj = if j < k { j } else { j - 1 };
                        assert(ii != jj);
                    }
                }
            }
            assert forall|j: int| 0 <= j < order.len() implies #[trigger] order[j] < self.blocks@.len() by {}
            assert forall|j: int| 0 <= j < order.len() implies {
                &&& (#[trigger] self.blocks@[order[j] as int]).prev@ == opt_at(order, j - 1)
                &&& self.blocks@[order[j] as int].next@ == opt_at(order, j + 1)
            } by {
                if j < k {
                    assert(old_order[j] != b);
                    if j < k0 {
                        assert(old_order[j] != af);
                    }
                    if k < n {
                        assert(old_order[j] != old_order[k]);
                    }
                } else if j > k {
                    assert(old_order[j - 1] != b);
                    assert(old_order[j - 1] != af);
                    if j - 1 > k {
                        assert(old_order[j - 1] != old_order[k]);
                    }
                }
            }
            assert forall|bb: int|
                0 <= bb < self.blocks@.len() && !order.contains(bb as nat) implies {
                    &&& (#[trigger] self.blocks@[bb]).prev@ is None
                    &&& self.blocks@[bb].next@ is None
                    &&& self.contents@[bb].len() == 0
                } by {
                assert(order[k] == b);
                assert(bb != b);
                assert(order[k0] == af);
                assert(bb != af);
                if k < n {
                    assert(order[k + 1] == old_order[k]);
                    assert(bb != old_order[k]);
                }
                assert(!old_order.contains(bb as nat)) by {
                    if old_order.contains(bb as nat) {
                        let kk = choose|kk: int| 0 <= kk < old_order.len() && old_order[kk] == bb;
                        if kk < k {
                            assert(order[kk] == bb);
                        } else {
                            assert(order[kk + 1] == bb);
                        }
                    }
                }
            }
            assert forall|bb: int| 0 <= bb < self.blocks@.len() implies {
                &&& (#[trigger] self.blocks@[bb]).first_inst@ == opt_at(self.contents@[bb], 0)
                &&& self.blocks@[bb].last_inst@ == opt_at(self.contents@[bb], self.contents@[bb].len() - 1)
                &&& self.contents@[bb].no_duplicates()
            } by {
                assert(old(self).blocks@[bb].first_inst@ == opt_at(self.contents@[bb], 0));
            }
            assert(self.first_block == opt_blk(opt_at(order, 0)));
            assert(self.last_block == opt_blk(opt_at(order, order.len() - 1)));
            assert(self.blocks@.map_values(|nd: BlockNode| nd.cold) =~= old(self).blocks@.map_values(
                |nd: BlockNode| nd.cold,
            ));
            self.lemma_seq_same(old(self));
        }
    }

    /// Remove a block from the layout; the block must hold no instructions.
    #[verifier::spinoff_prover]
    #[verifier::rlimit(80)]
    pub fn remove_block(&mut self, block: Block)
        requires
            old(self).wf(),
            old(self)@.inserted(block.0 as nat),
            old(self)@.contents[block.0 as int].len() == 0,
        ensures
            final(self).wf(),
            final(self)@ == (LayoutView {
                order: old(self)@.order.remove(old(self)@.order.index_of(block.0 as nat)),
                ..old(self)@
            }),
    {
        let ghost b = block.0 as nat;
        let ghost old_order = self.order@;
        let ghost k = old_order.index_of(b);
        proof {
            self.lemma_block_pos(b);
        }
        let prev = self.blocks.at(block).prev;
        let next = self.blocks.at(block).next;
        let mut node = *self.blocks.at(block);
        node.prev = PackedOption::none();
        node.next = PackedOption::none();
        self.blocks.set(block, node);
        match prev.expand() {
            None => {
                self.first_block = next.expand();
            },
            Some(p) => {
                proof {
                    assert(old_order[k - 1] < self.blocks@.len());
                }
                let mut pn = *self.blocks.at(p);
                pn.next = next;
                self.blocks.set(p, pn);
            },
        }
        match next.expand() {
            None => {
                self.last_block = prev.expand();
            },
            Some(nx) => {
                proof {
                    assert(old_order[k + 1] < self.blocks@.len());
                    if k > 0 {
                        assert(old_order[k + 1] != old_order[k - 1]);
                    }
                }
                let mut nn = *self.blocks.at(nx);
                nn.prev = prev;
                self.blocks.set(nx, nn);
            },
        }
        self.order = Ghost(old_order.remove(k));
        proof {
            let order = self.order@;
            let n = old_order.len();
            assert(order.len() == n - 1);
            assert forall|j: int| 0 <= j < order.len() implies #[trigger] order[j] == (if j < k {
                old_order[j]
            } else {
                old_order[j + 1]
            }) by {}
            assert(order.no_duplicates()) by {
                assert forall|i: int, j: int| 0 <= i < order.len() && 0 <= j < order.len() && i != j implies order[i] != order[j] by {
                    let ii = if i < k { i } else { i + 1 };
                    let jj = if j < k { j } else { j + 1 };
                    assert(ii != jj);
                }
            }
            assert forall|j: int| 0 <= j < order.len() implies #[trigger] order[j] < self.blocks@.len() by {}
            assert forall|j: int| 0 <= j < order.len() implies {
                &&& (#[trigger] self.blocks@[order[j] as int]).prev@ == opt_at(order, j - 1)
                &&& self.blocks@[order[j] as int].next@ == opt_at(order, j + 1)
            } by {
                let jj = if j < k { j } else { j + 1 };
                assert(old_order[jj] != b);
                if k > 0 && jj != k - 1 {
                    assert(old_order[jj] != old_order[k - 1]);
                }
                if k + 1 < n && jj != k + 1 {
                    assert(old_order[jj] != old_order[k + 1]);
                }
            }
            assert forall|bb: int|
                0 <= bb < self.blocks@.len() && !order.contains(bb as nat) implies {
                    &&& (#[trigger] self.blocks@[bb]).prev@ is None
                    &&& self.blocks@[bb].next@ is None
                    &&& self.contents@[bb].len() == 0
                } by {
                if bb != b {
                    if k > 0 {
                        assert(order[k - 1] == old_order[k - 1]);
                        assert(bb != old_order[k - 1]);
                    }
                    if k + 1 < n {
                        assert(order[k] == old_order[k + 1]);
                        assert(bb != old_order[k + 1]);
                    }
                    assert(!old_order.contains(bb as nat)) by {
                        if old_order.contains(bb as nat) {
                            let kk = choose|kk: int| 0 <= kk < old_order.len() && old_order[kk] == bb;
                            if kk < k {
                                assert(order[kk] == bb);
                            } else {
                                assert(order[kk - 1] == bb);
                            }
                        }
                    }
                }
            }
            assert forall|bb: int| 0 <= bb < self.blocks@.len() implies {
                &&& (#[trigger] self.blocks@[bb]).first_inst@ == opt_at(self.contents@[bb], 0)
                &&& self.blocks@[bb].last_inst@ == opt_at(self.contents@[bb], self.contents@[bb].len() - 1)
                &&& self.contents@[bb].no_duplicates()
            } by {
                assert(old(self).blocks@[bb].first_inst@ == opt_at(self.contents@[bb], 0));
            }
            assert(self.first_block == opt_blk(opt_at(order, 0)));
            assert(self.last_block == opt_blk(opt_at(order, order.len() - 1)));
            assert(self.blocks@.map_values(|nd: BlockNode| nd.cold) =~= old(self).blocks@.map_values(
                |nd: BlockNode| nd.cold,
            ));
            self.lemma_seq_same(old(self));
        }
    }
    // ========================================================================
    // Instruction lists
    // ========================================================================

    /// Rewriting the instruction list of one block keeps the links well
    /// formed, when the nodes of the instructions involved agree with the new
    /// list and every other node is left alone.
    proof fn lemma_rewrite_block(&self, old: &Layout, b: int)
        requires
            old.wf_links(),
            0 <= b < old.blocks@.len(),
            self.blocks@.len() == old.blocks@.len(),
            self.insts@.len() == old.insts@.len(),
            self.order@ == old.order@,
            self.first_block == old.first_block,
            self.last_block == old.last_block,
            self.contents@ == old.contents@.update(b, self.contents@[b]),
            self.contents@[b].len() > 0 ==> old.order@.contains(b as nat),
            self.contents@[b].no_duplicates(),
            forall|bb: int| 0 <= bb < self.blocks@.len() && bb != b ==> #[trigger] self.blocks@[bb] == old.blocks@[bb],
            self.blocks@[b].prev == old.blocks@[b].prev,
            self.blocks@[b].next == old.blocks@[b].next,
            self.blocks@[b].cold == old.blocks@[b].cold,
            self.blocks@[b].first_inst@ == opt_at(self.contents@[b], 0),
            self.blocks@[b].last_inst@ == opt_at(self.contents@[b], self.contents@[b].len() - 1),
            forall|q: int|
                0 <= q < self.contents@[b].len() ==> {
                    let x = #[trigger] self.contents@[b][q];
                    &&& x < self.insts@.len()
                    &&& old.contents@[b].contains(x) || old.insts@[x as int].block@ is None
                    &&& self.insts@[x as int].block@ == Some(b as nat)
                    &&& self.insts@[x as int].prev@ == opt_at(self.contents@[b], q - 1)
                    &&& self.insts@[x as int].next@ == opt_at(self.contents@[b], q + 1)
                },
            forall|i: int|
                0 <= i < self.insts@.len() && old.contents@[b].contains(i as nat) && !self.contents@[b].contains(
                    i as nat,
                ) ==> {
                    &&& (#[trigger] self.insts@[i]).block@ is None
                    &&& self.insts@[i].prev@ is None
                    &&& self.insts@[i].next@ is None
                },
            forall|i: int|
                0 <= i < self.insts@.len() && !old.contents@[b].contains(i as nat) && !self.contents@[b].contains(
                    i as nat,
                ) ==> #[trigger] self.insts@[i] == old.insts@[i],
        ensures
            self.wf_links(),
            self@ == old@.with_contents(b as nat, self.contents@[b]),
            old.seq_ok_others(b) ==> self.seq_ok_others(b),
    {
        let nb = self.blocks@.len();
        let ni = self.insts@.len();
        let newc = self.contents@[b];
        let oldc = old.contents@[b];
        // An instruction of another block is neither in the old nor in the new list of `b`.
        assert forall|bb: int, q: int|
            0 <= bb < nb && bb != b && 0 <= q < self.contents@[bb].len() implies !oldc.contains(
                #[trigger] self.contents@[bb][q],
            ) && !newc.contains(self.contents@[bb][q]) && self.insts@[self.contents@[bb][q] as int]
            == old.insts@[self.contents@[bb][q] as int] by {
            let x = self.contents@[bb][q];
            assert(old.contents@[bb][q] == x);
            assert(old.insts@[x as int].block@ == Some(bb as nat));
            if oldc.contains(x) {
                let qq = oldc.index_of(x);
                old.lemma_inst_only_in(bb, q, b, qq);
            }
            if newc.contains(x) {
                let qq = newc.index_of(x);
                assert(newc[qq] == x);
                if oldc.contains(x) {
                    let q3 = oldc.index_of(x);
                    old.lemma_inst_only_in(bb, q, b, q3);
                }
            }
        }
        assert forall|k: int| 0 <= k < self.order@.len() implies {
            &&& (#[trigger] self.blocks@[self.order@[k] as int]).prev@ == opt_at(self.order@, k - 1)
            &&& self.blocks@[self.order@[k] as int].next@ == opt_at(self.order@, k + 1)
        } by {
            assert(old.blocks@[old.order@[k] as int].prev@ == opt_at(old.order@, k - 1));
        }
        assert forall|bb: int|
            0 <= bb < nb && !self.order@.contains(bb as nat) implies {
                &&& (#[trigger] self.blocks@[bb]).prev@ is None
                &&& self.blocks@[bb].next@ is None
                &&& self.contents@[bb].len() == 0
            } by {
            assert(old.blocks@[bb].prev@ is None);
        }
        assert forall|bb: int| 0 <= bb < nb implies {
            &&& (#[trigger] self.blocks@[bb]).first_inst@ == opt_at(self.contents@[bb], 0)
            &&& self.blocks@[bb].last_inst@ == opt_at(self.contents@[bb], self.contents@[bb].len() - 1)
            &&& self.contents@[bb].no_duplicates()
        } by {
            assert(old.blocks@[bb].first_inst@ == opt_at(old.contents@[bb], 0));
        }
        assert forall|bb: int, q: int|
            0 <= bb < nb && 0 <= q < self.contents@[bb].len() implies {
                &&& #[trigger] self.contents@[bb][q] < ni
                &&& self.insts@[self.contents@[bb][q] as int].block@ == Some(bb as nat)
                &&& self.insts@[self.contents@[bb][q] as int].prev@ == opt_at(self.contents@[bb], q - 1)
                &&& self.insts@[self.contents@[bb][q] as int].next@ == opt_at(self.contents@[bb], q + 1)
            } by {
            if bb != b {
                assert(old.contents@[bb][q] == self.contents@[bb][q]);
                assert(old.insts@[old.contents@[bb][q] as int].block@ == Some(bb as nat));
            }
        }
        assert forall|i: int| 0 <= i < ni implies match (#[trigger] self.insts@[i]).block@ {
            Some(bb) => bb < nb && self.contents@[bb as int].contains(i as nat),
            None => self.insts@[i].prev@ is None && self.insts@[i].next@ is None,
        } by {
            if newc.contains(i as nat) {
                let q = newc.index_of(i as nat);
                assert(newc[q] == i);
            } else if !oldc.contains(i as nat) {
                assert(self.insts@[i] == old.insts@[i]);
                match old.insts@[i].block@ {
                    Some(bb) => {
                        assert(old.contents@[bb as int].contains(i as nat));
                        assert(bb != b);
                        assert(self.contents@[bb as int] == old.contents@[bb as int]);
                    },
                    None => {},
                }
            }
        }
        assert(self.blocks@.map_values(|nd: BlockNode| nd.cold) =~= old.blocks@.map_values(
            |nd: BlockNode| nd.cold,
        ));
        if old.seq_ok_others(b) {
            assert forall|bb: int| 0 <= bb < self.contents@.len() && bb != b implies #[trigger] self.seq_ok(bb) by {
                assert(old.seq_ok(bb));
                assert(self.contents@[bb] == old.contents@[bb]);
            }
        }
    }
    /// Sequence numbers are positive and grow along block `b`, the
    /// instruction at position `p` aside.
    closed spec fn seq_ok_except(&self, b: int, p: int) -> bool {
        let c = self.contents@[b];
        &&& forall|q: int| 0 <= q < c.len() && q != p ==> self.insts@[#[trigger] c[q] as int].seq > 0
        &&& forall|q1: int, q2: int|
            0 <= q1 < q2 < c.len() && q1 != p && q2 != p ==> self.insts@[#[trigger] c[q1] as int].seq
                < self.insts@[#[trigger] c[q2] as int].seq
    }

    /// The sequence number of the instruction at position `q` of block `b`.
    closed spec fn seq_at(&self, b: int, q: int) -> u32 {
        self.insts@[self.contents@[b][q] as int].seq
    }

    /// A list of distinct indices below `n` has at most `n` elements.
    pub proof fn lemma_len_bound(c: Seq<nat>, n: nat)
        requires
            c.no_duplicates(),
            forall|k: int| 0 <= k < c.len() ==> #[trigger] c[k] < n,
        ensures
            c.len() <= n,
    {
        let ci = c.map_values(|x: nat| x as int);
        assert(ci.no_duplicates()) by {
            assert forall|i: int, j: int| 0 <= i < ci.len() && 0 <= j < ci.len() && i != j implies ci[i] != ci[j] by {
                assert(c[i] != c[j]);
            }
        }
        ci.unique_seq_to_set();
        vstd::set_lib::lemma_int_range(0, n as int);
        assert forall|x: int| ci.to_set().contains(x) implies vstd::set_lib::set_int_range(0, n as int).contains(x) by {
            let k = choose|k: int| 0 <= k < ci.len() && ci[k] == x;
            assert(c[k] < n);
        }
        vstd::set_lib::lemma_len_subset(ci.to_set(), vstd::set_lib::set_int_range(0, n as int));
    }

    /// A list of distinct indices below `n` has at most `n` elements.
    pub proof fn lemma_len_bound_usize(c: Seq<usize>, n: nat)
        requires
            c.no_duplicates(),
            forall|k: int| 0 <= k < c.len() ==> #[trigger] c[k] < n,
        ensures
            c.len() <= n,
    {
        let cn = c.map_values(|x: usize| x as nat);
        assert(cn.no_duplicates()) by {
            assert forall|i: int, j: int| 0 <= i < cn.len() && 0 <= j < cn.len() && i != j implies cn[i] != cn[j] by {
                assert(c[i] != c[j]);
            }
        }
        assert forall|k: int| 0 <= k < cn.len() implies #[trigger] cn[k] < n by {
            assert(c[k] < n);
        }
        Self::lemma_len_bound(cn, n);
    }

    /// Set the sequence number of a registered instruction.
    fn set_seq(&mut self, inst: Inst, seq: u32)
        requires
            inst.0 < old(self).insts@.len(),
        ensures
            final(self).insts@ == old(self).insts@.update(
                inst.0 as int,
                InstNode { seq, ..old(self).insts@[inst.0 as int] },
            ),
            final(self).blocks@ == old(self).blocks@,
            final(self).order@ == old(self).order@,
            final(self).contents@ == old(self).contents@,
            final(self).first_block == old(self).first_block,
            final(self).last_block == old(self).last_block,
    {
        let mut n = *self.insts.at(inst);
        n.seq = seq;
        self.insts.set(inst, n);
    }

    /// Changing only sequence numbers of the instructions of block `b`
    /// keeps the links and the other blocks' numbering.
    proof fn lemma_seq_change(&self, old: &Layout, b: int)
        requires
            old.wf_links(),
            old.seq_ok_others(b),
            0 <= b < old.blocks@.len(),
            self.blocks@ == old.blocks@,
            self.order@ == old.order@,
            self.contents@ == old.contents@,
            self.first_block == old.first_block,
            self.last_block == old.last_block,
            self.insts@.len() == old.insts@.len(),
            forall|i: int|
                0 <= i < self.insts@.len() ==> {
                    &&& (#[trigger] self.insts@[i]).block == old.insts@[i].block
                    &&& self.insts@[i].prev == old.insts@[i].prev
                    &&& self.insts@[i].next == old.insts@[i].next
                },
            forall|i: int|
                0 <= i < self.insts@.len() && !old.contents@[b].contains(i as nat) ==> #[trigger] self.insts@[i].seq
                    == old.insts@[i].seq,
        ensures
            self.wf_links(),
            self.same_links(old),
            self@ == old@,
            self.seq_ok_others(b),
    {
        self.lemma_same_links(old);
        assert forall|bb: int| 0 <= bb < self.contents@.len() && bb != b implies #[trigger] self.seq_ok(bb) by {
            assert(old.seq_ok(bb));
            let c = self.contents@[bb];
            assert forall|q: int| 0 <= q < c.len() implies self.insts@[#[trigger] c[q] as int].seq
                == old.insts@[c[q] as int].seq by {
                assert(old.insts@[c[q] as int].block@ == Some(bb as nat));
                if old.contents@[b].contains(c[q]) {
                    let qq = old.contents@[b].index_of(c[q]);
                    old.lemma_inst_only_in(bb, q, b, qq);
                }
            }
        }
    }

    /// Renumber all instructions in a block
    ///
    /// This gives more room in sequence numbers for future insertions.
    fn full_block_renumber(&mut self, block: Block)
        requires
            old(self).wf_links(),
            old(self).seq_ok_others(block.0 as int),
            block.0 < old(self).blocks@.len(),
        ensures
            final(self).wf(),
            final(self)@ == old(self)@,
            final(self).same_links(old(self)),
    {
        let ghost b = block.0 as int;
        let ghost c = self.contents@[b];
        let ghost start = *self;
        proof {
            assert(self.blocks@[b].first_inst@ == opt_at(c, 0));
            assert forall|k: int| 0 <= k < c.len() implies #[trigger] c[k] < self.insts@.len() by {
                assert(self.contents@[b][k] < self.insts@.len());
            }
            Self::lemma_len_bound(c, self.insts@.len());
        }
        let mut seq: u32 = MAJOR_STRIDE;
        let mut next_inst = self.blocks.at(block).first_inst.expand();
        let ghost mut k: int = 0;
        while next_inst.is_some()
            invariant
                start.wf_links(),
                start.seq_ok_others(b),
                0 <= b < start.blocks@.len(),
                c == start.contents@[b],
                c.len() <= MAX_INSTS,
                0 <= k <= c.len(),
                next_inst == opt_ins(opt_at(c, k)),
                seq == 10 * (k + 1),
                self.blocks@ == start.blocks@,
                self.order@ == start.order@,
                self.contents@ == start.contents@,
                self.first_block == start.first_block,
                self.last_block == start.last_block,
                self.insts@.len() == start.insts@.len(),
                forall|i: int|
                    0 <= i < self.insts@.len() ==> {
                        &&& (#[trigger] self.insts@[i]).block == start.insts@[i].block
                        &&& self.insts@[i].prev == start.insts@[i].prev
                        &&& self.insts@[i].next == start.insts@[i].next
                    },
                forall|i: int|
                    0 <= i < self.insts@.len() && !c.contains(i as nat) ==> #[trigger] self.insts@[i].seq
                        == start.insts@[i].seq,
                forall|q: int| 0 <= q < k ==> self.insts@[#[trigger] c[q] as int].seq == 10 * (q + 1),
            decreases c.len() - k,
        {
            let inst = next_inst.unwrap();
            proof {
                assert(c[k] < start.insts@.len()) by {
                    assert(start.contents@[b][k] < start.insts@.len());
                }
                assert(start.insts@[c[k] as int].next@ == opt_at(c, k + 1)) by {
                    assert(start.contents@[b][k] == c[k]);
                }
                assert(c.no_duplicates()) by {
                    assert(start.blocks@[b].first_inst@ == opt_at(c, 0));
                }
            }
            let ghost before = self.insts@;
            self.set_seq(inst, seq);
            next_inst = self.insts.at(inst).next.expand();
            proof {
                assert forall|q: int| 0 <= q < k + 1 implies self.insts@[#[trigger] c[q] as int].seq == 10 * (q + 1) by {
                    if q < k {
                        assert(c[q] != c[k]);
                        assert(before[c[q] as int].seq == 10 * (q + 1));
                    }
                }
                assert forall|i: int|
                    0 <= i < self.insts@.len() && !c.contains(i as nat) implies #[trigger] self.insts@[i].seq
                        == start.insts@[i].seq by {
                    assert(i != c[k]);
                }
                k = k + 1;
            }
            seq = seq + MAJOR_STRIDE;
        }
        proof {
            assert(k == c.len()) by {
                if k < c.len() {
                    assert(opt_at(c, k) is Some);
                }
            }
            self.lemma_seq_change(&start, b);
            assert(self.seq_ok(b));
            assert forall|bb: int| 0 <= bb < self.contents@.len() implies #[trigger] self.seq_ok(bb) by {
                if bb != b {
                    assert(self.seq_ok_others(b));
                }
            }
        }
    }
    /// Once the instructions from position `p` to `k` of block `b` are
    /// numbered from `seq` on in minor strides, and the numbering has caught
    /// up with the next instruction's (if any), the layout is well formed.
    #[verifier::spinoff_prover]
    #[verifier::rlimit(50)]
    proof fn lemma_renumbered(&self, start: &Layout, b: int, p: int, k: int, seq: u32)
        requires
            start.wf_links(),
            start.seq_ok_others(b),
            start.seq_ok_except(b, p),
            0 <= b < start.blocks@.len(),
            0 <= p <= k < start.contents@[b].len(),
            p > 0 ==> start.seq_at(b, p - 1) < seq,
            seq > 0,
            self.blocks@ == start.blocks@,
            self.order@ == start.order@,
            self.contents@ == start.contents@,
            self.first_block == start.first_block,
            self.last_block == start.last_block,
            self.insts@.len() == start.insts@.len(),
            forall|i: int|
                0 <= i < self.insts@.len() ==> {
                    &&& (#[trigger] self.insts@[i]).block == start.insts@[i].block
                    &&& self.insts@[i].prev == start.insts@[i].prev
                    &&& self.insts@[i].next == start.insts@[i].next
                },
            forall|i: int|
                0 <= i < self.insts@.len() && !start.contents@[b].contains(i as nat) ==> #[trigger] self.insts@[i].seq
                    == start.insts@[i].seq,
            forall|q: int|
                p <= q <= k ==> self.insts@[#[trigger] start.contents@[b][q] as int].seq == seq + 2 * (q - p),
            forall|q: int|
                0 <= q < start.contents@[b].len() && (q < p || k < q) ==> self.insts@[
                    #[trigger] start.contents@[b][q] as int
                ].seq == start.insts@[start.contents@[b][q] as int].seq,
            k + 1 < start.contents@[b].len() ==> seq + 2 * (k - p) < start.seq_at(b, k + 1),
        ensures
            self.wf(),
            self@ == start@,
            self.same_links(start),
    {
        let c = start.contents@[b];
        self.lemma_seq_change(start, b);
        assert forall|q: int| 0 <= q < c.len() implies self.insts@[#[trigger] c[q] as int].seq > 0 by {
            if q < p || q > k {
                assert(start.insts@[c[q] as int].seq > 0);
            }
        }
        assert forall|q1: int, q2: int| 0 <= q1 < q2 < c.len() implies self.insts@[#[trigger] c[q1] as int].seq
            < self.insts@[#[trigger] c[q2] as int].seq by {
            if q2 < p {
                assert(start.insts@[c[q1] as int].seq < start.insts@[c[q2] as int].seq);
            } else if q1 > k {
                assert(start.insts@[c[q1] as int].seq < start.insts@[c[q2] as int].seq);
            } else if q1 < p && q2 > k {
                assert(start.insts@[c[q1] as int].seq < start.insts@[c[q2] as int].seq);
            } else if q1 < p {
                if q1 < p - 1 {
                    assert(start.insts@[c[q1] as int].seq < start.insts@[c[p - 1] as int].seq);
                }
                assert(start.seq_at(b, p - 1) == start.insts@[c[p - 1] as int].seq);
            } else if q2 > k {
                assert(start.seq_at(b, k + 1) == start.insts@[c[k + 1] as int].seq);
                if q2 > k + 1 {
                    assert(start.insts@[c[k + 1] as int].seq < start.insts@[c[q2] as int].seq);
                }
            }
        }
        assert(self.seq_ok(b));
        assert forall|bb: int| 0 <= bb < self.contents@.len() implies #[trigger] self.seq_ok(bb) by {
            if bb != b {
                assert(self.seq_ok_others(b));
            }
        }
    }

    /// Renumber instructions starting from `inst` until the end of the block
    ///
    /// The instruction at position `p` of block `b` gets `seq`, the ones
    /// after it `seq` plus multiples of the minor stride, until the numbers
    /// catch up with the existing ones. If they exceed `limit` first, the
    /// whole block is renumbered.
    fn renumber_insts(
        &mut self,
        inst: Inst,
        seq: u32,
        limit: u32,
        Ghost(b): Ghost<int>,
        Ghost(p): Ghost<int>,
    )
        requires
            old(self).wf_links(),
            old(self).seq_ok_others(b),
            old(self).seq_ok_except(b, p),
            0 <= b < old(self).blocks@.len(),
            0 <= p < old(self).contents@[b].len(),
            old(self).contents@[b][p] == inst.0,
            p > 0 ==> old(self).seq_at(b, p - 1) < seq,
            seq > 0,
            limit <= u32::MAX - MINOR_STRIDE,
        ensures
            final(self).wf(),
            final(self)@ == old(self)@,
            final(self).same_links(old(self)),
    {
        let ghost start = *self;
        let ghost c = self.contents@[b];
        proof {
            assert(c[p] < self.insts@.len()) by {
                assert(self.contents@[b][p] < self.insts@.len());
            }
            assert(c.no_duplicates()) by {
                assert(self.blocks@[b].first_inst@ == opt_at(c, 0));
            }
        }
        let block = self.insts.at(inst).block.expand().unwrap();
        let mut cur = inst;
        let mut cur_seq = seq;
        let ghost mut k: int = p;
        loop
            invariant
                start == *old(self),
                start.wf_links(),
                start.seq_ok_others(b),
                start.seq_ok_except(b, p),
                0 <= b < start.blocks@.len(),
                block.0 == b,
                c == start.contents@[b],
                c.no_duplicates(),
                0 <= p <= k < c.len(),
                cur.0 == c[k],
                p > 0 ==> start.seq_at(b, p - 1) < seq,
                seq > 0,
                limit <= u32::MAX - MINOR_STRIDE,
                cur_seq == seq + 2 * (k - p),
                self.blocks@ == start.blocks@,
                self.order@ == start.order@,
                self.contents@ == start.contents@,
                self.first_block == start.first_block,
                self.last_block == start.last_block,
                self.insts@.len() == start.insts@.len(),
                forall|i: int|
                    0 <= i < self.insts@.len() ==> {
                        &&& (#[trigger] self.insts@[i]).block == start.insts@[i].block
                        &&& self.insts@[i].prev == start.insts@[i].prev
                        &&& self.insts@[i].next == start.insts@[i].next
                    },
                forall|i: int|
                    0 <= i < self.insts@.len() && !c.contains(i as nat) ==> #[trigger] self.insts@[i].seq
                        == start.insts@[i].seq,
                forall|q: int| 0 <= q < c.len() ==> #[trigger] c[q] < self.insts@.len(),
                forall|q: int|
                    p <= q < k ==> self.insts@[#[trigger] c[q] as int].seq == seq + 2 * (q - p),
                forall|q: int|
                    0 <= q < c.len() && (q < p || k <= q) ==> self.insts@[#[trigger] c[q] as int].seq
                        == start.insts@[c[q] as int].seq,
            decreases c.len() - k,
        {
            proof {
                assert(start.insts@[c[k] as int].next@ == opt_at(c, k + 1)) by {
                    assert(start.contents@[b][k] == c[k]);
                }
            }
            let ghost before = self.insts@;
            self.set_seq(cur, cur_seq);
            proof {
                assert forall|q: int|
                    p <= q < k + 1 implies self.insts@[#[trigger] c[q] as int].seq == seq + 2 * (q - p) by {
                    if q < k {
                        assert(c[q] != c[k]);
                    }
                }
                assert forall|q: int|
                    0 <= q < c.len() && (q < p || k + 1 <= q) implies self.insts@[#[trigger] c[q] as int].seq
                        == start.insts@[c[q] as int].seq by {
                    assert(c[q] != c[k]);
                }
                assert forall|i: int|
                    0 <= i < self.insts@.len() && !c.contains(i as nat) implies #[trigger] self.insts@[i].seq
                        == start.insts@[i].seq by {
                    assert(i != c[k]);
                }
            }
            match self.insts.at(cur).next.expand() {
                None => {
                    proof {
                        self.lemma_renumbered(&start, b, p, k, seq);
                    }
                    return;
                },
                Some(nx) => {
                    let existing = self.insts.at(nx).seq;
                    if cur_seq < existing {
                        proof {
                            assert(nx.0 == c[k + 1]);
                            self.lemma_renumbered(&start, b, p, k, seq);
                        }
                        return;
                    }
                    if cur_seq > limit {
                        proof {
                            self.lemma_seq_change(&start, b);
                        }
                        let ghost mid = *self;
                        self.full_block_renumber(block);
                        proof {
                            assert forall|i: int| 0 <= i < self.insts@.len() implies {
                                &&& (#[trigger] self.insts@[i]).block == start.insts@[i].block
                                &&& self.insts@[i].prev == start.insts@[i].prev
                                &&& self.insts@[i].next == start.insts@[i].next
                            } by {
                                assert(mid.insts@[i].block == start.insts@[i].block);
                            }
                        }
                        return;
                    }
                    proof {
                        assert(nx.0 == c[k + 1]);
                        k = k + 1;
                    }
                    cur = nx;
                    cur_seq = cur_seq + MINOR_STRIDE;
                },
            }
        }
    }

    /// Assign a sequence number to the instruction at position `p` of block
    /// `b`, between those of its neighbours.
    ///
    /// This may require renumbering if there's no room between the
    /// previous and next instruction.
    fn assign_inst_seq(&mut self, inst: Inst, Ghost(b): Ghost<int>, Ghost(p): Ghost<int>)
        requires
            old(self).wf_links(),
            old(self).seq_ok_others(b),
            old(self).seq_ok_except(b, p),
            0 <= b < old(self).blocks@.len(),
            0 <= p < old(self).contents@[b].len(),
            old(self).contents@[b][p] == inst.0,
        ensures
            final(self).wf(),
            final(self)@ == old(self)@,
            final(self).same_links(old(self)),
    {
        let ghost start = *self;
        let ghost c = self.contents@[b];
        proof {
            assert(c[p] < self.insts@.len()) by {
                assert(self.contents@[b][p] < self.insts@.len());
            }
            assert(c.no_duplicates()) by {
                assert(self.blocks@[b].first_inst@ == opt_at(c, 0));
            }
            assert(self.insts@[c[p] as int].prev@ == opt_at(c, p - 1));
            if p > 0 {
                assert(c[p - 1] < self.insts@.len()) by {
                    assert(self.contents@[b][p - 1] < self.insts@.len());
                }
            }
            if p + 1 < c.len() {
                assert(c[p + 1] < self.insts@.len()) by {
                    assert(self.contents@[b][p + 1] < self.insts@.len());
                }
            }
        }
        let node = *self.insts.at(inst);
        let block = node.block.expand().unwrap();
        let prev_seq: u32 = match node.prev.expand() {
            Some(pi) => self.insts.at(pi).seq,
            None => 0,
        };
        proof {
            if p > 0 {
                assert(prev_seq == start.seq_at(b, p - 1));
            }
        }
        match node.next.expand() {
            None => {
                if prev_seq <= u32::MAX - MAJOR_STRIDE {
                    self.set_seq(inst, prev_seq + MAJOR_STRIDE);
                    proof {
                        assert(p == c.len() - 1);
                        self.lemma_seq_change(&start, b);
                        assert forall|q: int| 0 <= q < c.len() implies self.insts@[#[trigger] c[q] as int].seq > 0 by {
                            if q != p {
                                assert(c[q] != c[p]);
                            }
                        }
                        assert forall|q1: int, q2: int| 0 <= q1 < q2 < c.len() implies self.insts@[#[trigger] c[q1] as int].seq
                            < self.insts@[#[trigger] c[q2] as int].seq by {
                            assert(c[q1] != c[p] || q1 == p);
                            if q2 != p {
                                assert(c[q2] != c[p]);
                            } else if q1 < p - 1 {
                                assert(start.insts@[c[q1] as int].seq < start.insts@[c[p - 1] as int].seq);
                            }
                        }
                        assert(self.seq_ok(b));
                        assert forall|bb: int| 0 <= bb < self.contents@.len() implies #[trigger] self.seq_ok(bb) by {
                            if bb != b {
                                assert(self.seq_ok_others(b));
                            }
                        }
                    }
                } else {
                    self.full_block_renumber(block);
                }
            },
            Some(nx) => {
                let next_seq = self.insts.at(nx).seq;
                proof {
                    assert(nx.0 == c[p + 1]);
                    assert(next_seq == start.insts@[c[p + 1] as int].seq);
                    if p > 0 {
                        assert(start.insts@[c[p - 1] as int].seq < start.insts@[c[p + 1] as int].seq);
                    }
                }
                match midpoint(prev_seq, next_seq) {
                    Some(m) => {
                        self.set_seq(inst, m);
                        proof {
                            self.lemma_seq_change(&start, b);
                            assert forall|q: int| 0 <= q < c.len() implies self.insts@[#[trigger] c[q] as int].seq > 0 by {
                                if q != p {
                                    assert(c[q] != c[p]);
                                }
                            }
                            assert forall|q1: int, q2: int| 0 <= q1 < q2 < c.len() implies self.insts@[#[trigger] c[q1] as int].seq
                                < self.insts@[#[trigger] c[q2] as int].seq by {
                                if q1 != p {
                                    assert(c[q1] != c[p]);
                                }
                                if q2 != p {
                                    assert(c[q2] != c[p]);
                                }
                                if q2 == p && q1 < p - 1 {
                                    assert(start.insts@[c[q1] as int].seq < start.insts@[c[p - 1] as int].seq);
                                }
                                if q1 == p && q2 > p + 1 {
                                    assert(start.insts@[c[p + 1] as int].seq < start.insts@[c[q2] as int].seq);
                                }
                            }
                            assert(self.seq_ok(b));
                            assert forall|bb: int| 0 <= bb < self.contents@.len() implies #[trigger] self.seq_ok(bb) by {
                                if bb != b {
                                    assert(self.seq_ok_others(b));
                                }
                            }
                        }
                    },
                    None => {
                        if prev_seq <= u32::MAX - LOCAL_LIMIT - MINOR_STRIDE {
                            self.renumber_insts(
                                inst,
                                prev_seq + MINOR_STRIDE,
                                prev_seq + LOCAL_LIMIT,
                                Ghost(b),
                                Ghost(p),
                            );
                        } else {
                            self.full_block_renumber(block);
                        }
                    },
                }
            },
        }
    }
    /// Append an instruction to the end of a block
    #[verifier::spinoff_prover]
    #[verifier::rlimit(60)]
    pub fn append_inst(&mut self, inst: Inst, block: Block)
        requires
            old(self).wf(),
            old(self)@.inserted(block.0 as nat),
            inst.0 < old(self)@.num_insts,
            old(self)@.block_of(inst.0 as nat) is None,
        ensures
            final(self).wf(),
            final(self)@ == old(self)@.with_contents(
                block.0 as nat,
                old(self)@.contents[block.0 as int].push(inst.0 as nat),
            ),
    {
        let ghost b = block.0 as int;
        let ghost i = inst.0 as nat;
        let ghost c = self.contents@[b];
        let ghost n = c.len();
        let ghost start = *self;
        proof {
            self.lemma_inst_pos(i);
            self.lemma_block_pos(b as nat);
            assert(self.blocks@[b].first_inst@ == opt_at(c, 0));
            assert(!c.contains(i)) by {
                if c.contains(i) {
                    let q = c.index_of(i);
                    assert(self.insts@[self.contents@[b][q] as int].block@ == Some(b as nat));
                }
            }
            if n > 0 {
                assert(c[n - 1] < self.insts@.len()) by {
                    assert(self.contents@[b][n - 1] < self.insts@.len());
                }
            }
        }
        let bnode = *self.blocks.at(block);
        let mut inode = *self.insts.at(inst);
        inode.block = PackedOption::some(block);
        inode.prev = bnode.last_inst;
        self.insts.set(inst, inode);
        let mut bnode2 = bnode;
        match bnode.last_inst.expand() {
            None => {
                bnode2.first_inst = PackedOption::some(inst);
            },
            Some(last) => {
                let mut ln = *self.insts.at(last);
                ln.next = PackedOption::some(inst);
                self.insts.set(last, ln);
            },
        }
        bnode2.last_inst = PackedOption::some(inst);
        self.blocks.set(block, bnode2);
        self.contents = Ghost(self.contents@.update(b, c.push(i)));
        proof {
            let newc = c.push(i);
            assert(newc.no_duplicates()) by {
                assert forall|x: int, y: int| 0 <= x < newc.len() && 0 <= y < newc.len() && x != y implies newc[x] != newc[y] by {
                    if x < n && y < n {
                        assert(c[x] != c[y]);
                    } else if x < n {
                        assert(c.contains(c[x]));
                    } else {
                        assert(c.contains(c[y]));
                    }
                }
            }
            assert forall|q: int| 0 <= q < newc.len() implies {
                let x = #[trigger] newc[q];
                &&& x < self.insts@.len()
                &&& start.contents@[b].contains(x) || start.insts@[x as int].block@ is None
                &&& self.insts@[x as int].block@ == Some(b as nat)
                &&& self.insts@[x as int].prev@ == opt_at(newc, q - 1)
                &&& self.insts@[x as int].next@ == opt_at(newc, q + 1)
            } by {
                if q < n {
                    assert(newc[q] == c[q]);
                    assert(c[q] != i) by {
                        assert(c.contains(c[q]));
                    }
                    assert(start.contents@[b][q] == c[q]);
                    assert(start.insts@[c[q] as int].block@ == Some(b as nat));
                    assert(start.contents@[b].contains(c[q]));
                    if q < n - 1 {
                        assert(c[q] != c[n - 1]);
                    }
                }
            }
            assert forall|x: int|
                0 <= x < self.insts@.len() && !start.contents@[b].contains(x as nat) && !newc.contains(
                    x as nat,
                ) implies #[trigger] self.insts@[x] == start.insts@[x] by {
                assert(newc[n as int] == i);
                if n > 0 {
                    assert(newc[n - 1] == c[n - 1]);
                    assert(start.contents@[b][n - 1] == c[n - 1]);
                }
            }
            self.lemma_rewrite_block(&start, b);
            assert forall|q: int| 0 <= q < newc.len() && q != n implies self.insts@[#[trigger] newc[q] as int].seq
                == start.insts@[c[q] as int].seq by {
                assert(newc[q] == c[q]);
                assert(c[q] != i) by {
                    assert(c.contains(c[q]));
                }
            }
            assert(start.seq_ok(b));
            assert(self.seq_ok_except(b, n as int));
        }
        self.assign_inst_seq(inst, Ghost(b), Ghost(n as int));
    }

    /// The links after placing unplaced instruction `i` at position `p` of
    /// block `b`, before the sequence number of `i` is set.
    #[verifier::spinoff_prover]
    #[verifier::rlimit(100)]
    proof fn lemma_inserted(&self, start: &Layout, b: int, p: int, i: nat)
        requires
            start.wf(),
            0 <= b < start.blocks@.len(),
            start.order@.contains(b as nat),
            0 <= p < start.contents@[b].len(),
            i < start.insts@.len(),
            start.insts@[i as int].block@ is None,
            !start.contents@[b].contains(i),
            start.contents@[b].no_duplicates(),
            forall|q: int| 0 <= q < start.contents@[b].len() ==> #[trigger] start.contents@[b][q] < start.insts@.len(),
            self.blocks@.len() == start.blocks@.len(),
            self.insts@.len() == start.insts@.len(),
            self.order@ == start.order@,
            self.first_block == start.first_block,
            self.last_block == start.last_block,
            self.contents@ == start.contents@.update(b, start.contents@[b].insert(p, i)),
            forall|bb: int| 0 <= bb < self.blocks@.len() && bb != b ==> #[trigger] self.blocks@[bb] == start.blocks@[bb],
            self.blocks@[b].prev == start.blocks@[b].prev,
            self.blocks@[b].next == start.blocks@[b].next,
            self.blocks@[b].cold == start.blocks@[b].cold,
            self.blocks@[b].last_inst == start.blocks@[b].last_inst,
            p == 0 ==> self.blocks@[b].first_inst@ == Some(i),
            p != 0 ==> self.blocks@[b].first_inst == start.blocks@[b].first_inst,
            self.insts@[i as int].block@ == Some(b as nat),
            self.insts@[i as int].prev@ == opt_at(start.contents@[b], p - 1),
            self.insts@[i as int].next@ == Some(start.contents@[b][p]),
            self.insts@[start.contents@[b][p] as int].block == start.insts@[start.contents@[b][p] as int].block,
            self.insts@[start.contents@[b][p] as int].next == start.insts@[start.contents@[b][p] as int].next,
            self.insts@[start.contents@[b][p] as int].seq == start.insts@[start.contents@[b][p] as int].seq,
            self.insts@[start.contents@[b][p] as int].prev@ == Some(i),
            p > 0 ==> self.insts@[start.contents@[b][p - 1] as int].block == start.insts@[start.contents@[b][p - 1] as int].block,
            p > 0 ==> self.insts@[start.contents@[b][p - 1] as int].prev == start.insts@[start.contents@[b][p - 1] as int].prev,
            p > 0 ==> self.insts@[start.contents@[b][p - 1] as int].seq == start.insts@[start.contents@[b][p - 1] as int].seq,
            p > 0 ==> self.insts@[start.contents@[b][p - 1] as int].next@ == Some(i),
            forall|x: int|
                0 <= x < self.insts@.len() && x != i && x != start.contents@[b][p] && (p == 0 || x != start.contents@[b][p - 1]) ==> #[trigger] self.insts@[x]
                    == start.insts@[x],
        ensures
            self.wf_links(),
            self@ == start@.with_contents(b as nat, start.contents@[b].insert(p, i)),
            self.seq_ok_others(b),
            self.seq_ok_except(b, p),
    {
        let c = start.contents@[b];
        let n = c.len();
            let newc = c.insert(p, i);
            assert forall|q: int| 0 <= q < newc.len() implies #[trigger] newc[q] == (if q < p {
                c[q]
            } else if q == p {
                i
            } else {
                c[q - 1]
            }) by {}
            assert(newc.no_duplicates()) by {
                assert forall|x: int, y: int| 0 <= x < newc.len() && 0 <= y < newc.len() && x != y implies newc[x] != newc[y] by {
                    let xx = if x < p { x } else { x - 1 };
                    let yy = if y < p { y } else { y - 1 };
                    if x != p && y != p {
                        assert(c[xx] != c[yy]);
                    } else if x != p {
                        assert(c.contains(c[xx]));
                    } else {
                        assert(c.contains(c[yy]));
                    }
                }
            }
            assert forall|q: int| 0 <= q < newc.len() implies {
                let x = #[trigger] newc[q];
                &&& x < self.insts@.len()
                &&& start.contents@[b].contains(x) || start.insts@[x as int].block@ is None
                &&& self.insts@[x as int].block@ == Some(b as nat)
                &&& self.insts@[x as int].prev@ == opt_at(newc, q - 1)
                &&& self.insts@[x as int].next@ == opt_at(newc, q + 1)
            } by {
                if q != p {
                    let qq = if q < p { q } else { q - 1 };
                    assert(newc[q] == c[qq]);
                    assert(c[qq] != i) by {
                        assert(c.contains(c[qq]));
                    }
                    assert(start.contents@[b][qq] == c[qq]);
                    assert(start.insts@[c[qq] as int].block@ == Some(b as nat));
                    assert(start.contents@[b].contains(c[qq]));
                    if qq != p && qq != p - 1 {
                        assert(c[qq] != c[p]);
                        if p > 0 {
                            assert(c[qq] != c[p - 1]);
                        }
                    }
                    if qq == p - 1 {
                        assert(c[qq] != c[p]);
                    }
                }
            }
            assert forall|x: int|
                0 <= x < self.insts@.len() && !start.contents@[b].contains(x as nat) && !newc.contains(
                    x as nat,
                ) implies #[trigger] self.insts@[x] == start.insts@[x] by {
                assert(newc[p] == i);
                assert(newc[p + 1] == c[p]);
                assert(start.contents@[b][p] == c[p]);
                if p > 0 {
                    assert(newc[p - 1] == c[p - 1]);
                    assert(start.contents@[b][p - 1] == c[p - 1]);
                }
            }
            self.lemma_rewrite_block(&start, b);
            assert forall|q: int| 0 <= q < newc.len() && q != p implies self.insts@[#[trigger] newc[q] as int].seq
                == start.insts@[c[if q < p { q } else { q - 1 }] as int].seq by {
                let qq = if q < p { q } else { q - 1 };
                assert(c[qq] != i) by {
                    assert(c.contains(c[qq]));
                }
            }
            assert(start.seq_ok(b));
            assert forall|q1: int, q2: int|
                0 <= q1 < q2 < newc.len() && q1 != p && q2 != p implies self.insts@[#[trigger] newc[q1] as int].seq
                    < self.insts@[#[trigger] newc[q2] as int].seq by {
                let x1 = if q1 < p { q1 } else { q1 - 1 };
                let x2 = if q2 < p { q2 } else { q2 - 1 };
                assert(start.insts@[c[x1] as int].seq < start.insts@[c[x2] as int].seq);
            }
            assert(self.seq_ok_except(b, p));
            }

    /// Insert an instruction before another instruction
    #[verifier::spinoff_prover]
    #[verifier::rlimit(100)]
    pub fn insert_inst(&mut self, inst: Inst, before: Inst)
        requires
            old(self).wf(),
            inst.0 < old(self)@.num_insts,
            old(self)@.block_of(inst.0 as nat) is None,
            old(self)@.block_of(before.0 as nat) is Some,
        ensures
            final(self).wf(),
            final(self)@ == old(self)@.with_contents(
                old(self)@.block_of(before.0 as nat).unwrap(),
                old(self)@.contents[old(self)@.block_of(before.0 as nat).unwrap() as int].insert(
                    old(self)@.pos_in_block(before.0 as nat),
                    inst.0 as nat,
                ),
            ),
    {
        let ghost i = inst.0 as nat;
        let ghost start = *self;
        proof {
            self.lemma_inst_pos(i);
            if before.0 >= self.insts@.len() {
                self.lemma_not_registered(before.0 as nat);
            }
            self.lemma_inst_pos(before.0 as nat);
        }
        let ghost b = self@.block_of(before.0 as nat).unwrap() as int;
        let ghost c = self.contents@[b];
        let ghost n = c.len();
        let ghost p = self@.pos_in_block(before.0 as nat);
        proof {
            assert(self.blocks@[b].first_inst@ == opt_at(c, 0));
            assert(!c.contains(i)) by {
                if c.contains(i) {
                    let q = c.index_of(i);
                    assert(self.insts@[self.contents@[b][q] as int].block@ == Some(b as nat));
                }
            }
            if p > 0 {
                assert(c[p - 1] < self.insts@.len()) by {
                    assert(self.contents@[b][p - 1] < self.insts@.len());
                }
            }
            self.lemma_block_pos(b as nat);
            assert(self.order@.contains(b as nat)) by {
                if !self.order@.contains(b as nat) {
                    assert(self.contents@[b].len() == 0);
                }
            }
        }
        let block = self.insts.at(before).block.expand().unwrap();
        let after = self.insts.at(before).prev;
        let mut inode = *self.insts.at(inst);
        inode.block = PackedOption::some(block);
        inode.next = PackedOption::some(before);
        inode.prev = after;
        self.insts.set(inst, inode);
        let mut bfn = *self.insts.at(before);
        bfn.prev = PackedOption::some(inst);
        self.insts.set(before, bfn);
        match after.expand() {
            None => {
                let mut bn = *self.blocks.at(block);
                bn.first_inst = PackedOption::some(inst);
                self.blocks.set(block, bn);
            },
            Some(a) => {
                let mut an = *self.insts.at(a);
                an.next = PackedOption::some(inst);
                self.insts.set(a, an);
            },
        }
        self.contents = Ghost(self.contents@.update(b, c.insert(p, i)));
        proof {
            assert forall|x: int|
                0 <= x < self.insts@.len() && x != i && x != c[p] && (p == 0 || x != c[p - 1]) implies #[trigger] self.insts@[x]
                    == start.insts@[x] by {}
            self.lemma_inserted(&start, b, p, i);
        }
        self.assign_inst_seq(inst, Ghost(b), Ghost(p));
    }

    /// The links after taking the instruction at position `p` out of block `b`.
    #[verifier::spinoff_prover]
    #[verifier::rlimit(100)]
    proof fn lemma_removed(&self, start: &Layout, b: int, p: int)
        requires
            start.wf(),
            0 <= b < start.blocks@.len(),
            0 <= p < start.contents@[b].len(),
            start.contents@[b].no_duplicates(),
            forall|q: int| 0 <= q < start.contents@[b].len() ==> #[trigger] start.contents@[b][q] < start.insts@.len(),
            self.blocks@.len() == start.blocks@.len(),
            self.insts@.len() == start.insts@.len(),
            self.order@ == start.order@,
            self.first_block == start.first_block,
            self.last_block == start.last_block,
            self.contents@ == start.contents@.update(b, start.contents@[b].remove(p)),
            forall|bb: int| 0 <= bb < self.blocks@.len() && bb != b ==> #[trigger] self.blocks@[bb] == start.blocks@[bb],
            self.blocks@[b].prev == start.blocks@[b].prev,
            self.blocks@[b].next == start.blocks@[b].next,
            self.blocks@[b].cold == start.blocks@[b].cold,
            p == 0 ==> self.blocks@[b].first_inst@ == opt_at(start.contents@[b], 1),
            p != 0 ==> self.blocks@[b].first_inst == start.blocks@[b].first_inst,
            p == start.contents@[b].len() - 1 ==> self.blocks@[b].last_inst@ == opt_at(start.contents@[b], p - 1),
            p != start.contents@[b].len() - 1 ==> self.blocks@[b].last_inst == start.blocks@[b].last_inst,
            self.insts@[start.contents@[b][p] as int].block@ is None,
            self.insts@[start.contents@[b][p] as int].prev@ is None,
            self.insts@[start.contents@[b][p] as int].next@ is None,
            p > 0 ==> self.insts@[start.contents@[b][p - 1] as int].block == start.insts@[start.contents@[b][p - 1] as int].block,
            p > 0 ==> self.insts@[start.contents@[b][p - 1] as int].prev == start.insts@[start.contents@[b][p - 1] as int].prev,
            p > 0 ==> self.insts@[start.contents@[b][p - 1] as int].seq == start.insts@[start.contents@[b][p - 1] as int].seq,
            p > 0 ==> self.insts@[start.contents@[b][p - 1] as int].next@ == opt_at(start.contents@[b], p + 1),
            p + 1 < start.contents@[b].len() ==> self.insts@[start.contents@[b][p + 1] as int].block == start.insts@[start.contents@[b][p + 1] as int].block,
            p + 1 < start.contents@[b].len() ==> self.insts@[start.contents@[b][p + 1] as int].next == start.insts@[start.contents@[b][p + 1] as int].next,
            p + 1 < start.contents@[b].len() ==> self.insts@[start.contents@[b][p + 1] as int].seq == start.insts@[start.contents@[b][p + 1] as int].seq,
            p + 1 < start.contents@[b].len() ==> self.insts@[start.contents@[b][p + 1] as int].prev@ == opt_at(start.contents@[b], p - 1),
            forall|x: int|
                0 <= x < self.insts@.len() && x != start.contents@[b][p] && (p == 0 || x != start.contents@[b][p - 1]) && (p + 1 >= start.contents@[b].len() || x != start.contents@[b][p + 1]) ==> #[trigger] self.insts@[x]
                    == start.insts@[x],
        ensures
            self.wf(),
            self@ == start@.with_contents(b as nat, start.contents@[b].remove(p)),
    {
        let c = start.contents@[b];
        let n = c.len();
        let i = c[p];
            let newc = c.remove(p);
            assert forall|q: int| 0 <= q < newc.len() implies #[trigger] newc[q] == (if q < p {
                c[q]
            } else {
                c[q + 1]
            }) by {}
            assert(newc.no_duplicates()) by {
                assert forall|x: int, y: int| 0 <= x < newc.len() && 0 <= y < newc.len() && x != y implies newc[x] != newc[y] by {
                    let xx = if x < p { x } else { x + 1 };
                    let yy = if y < p { y } else { y + 1 };
                    assert(c[xx] != c[yy]);
                }
            }
            assert forall|q: int| 0 <= q < newc.len() implies {
                let x = #[trigger] newc[q];
                &&& x < self.insts@.len()
                &&& start.contents@[b].contains(x) || start.insts@[x as int].block@ is None
                &&& self.insts@[x as int].block@ == Some(b as nat)
                &&& self.insts@[x as int].prev@ == opt_at(newc, q - 1)
                &&& self.insts@[x as int].next@ == opt_at(newc, q + 1)
            } by {
                let qq = if q < p { q } else { q + 1 };
                assert(newc[q] == c[qq]);
                assert(c[qq] != c[p]);
                assert(start.contents@[b][qq] == c[qq]);
                assert(start.insts@[c[qq] as int].block@ == Some(b as nat));
                assert(start.contents@[b].contains(c[qq]));
                if p > 0 && qq != p - 1 {
                    assert(c[qq] != c[p - 1]);
                }
                if p + 1 < n && qq != p + 1 {
                    assert(c[qq] != c[p + 1]);
                }
            }
            assert(!newc.contains(i)) by {
                if newc.contains(i) {
                    let q = newc.index_of(i);
                    let qq = if q < p { q } else { q + 1 };
                    assert(c[qq] != c[p]);
                }
            }
            assert forall|x: int|
                0 <= x < self.insts@.len() && start.contents@[b].contains(x as nat) && !newc.contains(
                    x as nat,
                ) implies {
                    &&& (#[trigger] self.insts@[x]).block@ is None
                    &&& self.insts@[x].prev@ is None
                    &&& self.insts@[x].next@ is None
                } by {
                let q = c.index_of(x as nat);
                assert(c[q] == x);
                if q != p {
                    let qq = if q < p { q } else { q - 1 };
                    assert(newc[qq] == x);
                }
            }
            assert forall|x: int|
                0 <= x < self.insts@.len() && !start.contents@[b].contains(x as nat) && !newc.contains(
                    x as nat,
                ) implies #[trigger] self.insts@[x] == start.insts@[x] by {
                assert(start.contents@[b][p] == c[p]);
                if p > 0 {
                    assert(start.contents@[b][p - 1] == c[p - 1]);
                }
                if p + 1 < n {
                    assert(start.contents@[b][p + 1] == c[p + 1]);
                }
            }
            self.lemma_rewrite_block(&start, b);
            assert(start.seq_ok(b));
            assert forall|q: int| 0 <= q < newc.len() implies self.insts@[#[trigger] newc[q] as int].seq
                == start.insts@[c[if q < p { q } else { q + 1 }] as int].seq by {
                let qq = if q < p { q } else { q + 1 };
                assert(c[qq] != c[p]);
            }
            assert forall|q1: int, q2: int|
                0 <= q1 < q2 < newc.len() implies self.insts@[#[trigger] newc[q1] as int].seq
                    < self.insts@[#[trigger] newc[q2] as int].seq by {
                let x1 = if q1 < p { q1 } else { q1 + 1 };
                let x2 = if q2 < p { q2 } else { q2 + 1 };
                assert(start.insts@[c[x1] as int].seq < start.insts@[c[x2] as int].seq);
            }
            assert(self.seq_ok(b));
            assert forall|bb: int| 0 <= bb < self.contents@.len() implies #[trigger] self.seq_ok(bb) by {
                if bb != b {
                    assert(self.seq_ok_others(b));
                }
            }
            }

    /// Remove an instruction from the layout
    #[verifier::spinoff_prover]
    #[verifier::rlimit(100)]
    pub fn remove_inst(&mut self, inst: Inst)
        requires
            old(self).wf(),
            old(self)@.block_of(inst.0 as nat) is Some,
        ensures
            final(self).wf(),
            final(self)@ == old(self)@.with_contents(
                old(self)@.block_of(inst.0 as nat).unwrap(),
                old(self)@.contents[old(self)@.block_of(inst.0 as nat).unwrap() as int].remove(
                    old(self)@.pos_in_block(inst.0 as nat),
                ),
            ),
    {
        let ghost i = inst.0 as nat;
        let ghost start = *self;
        proof {
            if inst.0 >= self.insts@.len() {
                self.lemma_not_registered(i);
            }
            self.lemma_inst_pos(i);
        }
        let ghost b = self@.block_of(i).unwrap() as int;
        let ghost c = self.contents@[b];
        let ghost n = c.len();
        let ghost p = self@.pos_in_block(i);
        proof {
            assert(self.blocks@[b].first_inst@ == opt_at(c, 0));
            if p > 0 {
                assert(c[p - 1] < self.insts@.len()) by {
                    assert(self.contents@[b][p - 1] < self.insts@.len());
                }
            }
            if p + 1 < n {
                assert(c[p + 1] < self.insts@.len()) by {
                    assert(self.contents@[b][p + 1] < self.insts@.len());
                }
            }
        }
        let block = self.insts.at(inst).block.expand().unwrap();
        let prev = self.insts.at(inst).prev;
        let next = self.insts.at(inst).next;
        let mut inode = *self.insts.at(inst);
        inode.block = PackedOption::none();
        inode.prev = PackedOption::none();
        inode.next = PackedOption::none();
        self.insts.set(inst, inode);
        match prev.expand() {
            None => {
                let mut bn = *self.blocks.at(block);
                bn.first_inst = next;
                self.blocks.set(block, bn);
            },
            Some(pv) => {
                let mut pn = *self.insts.at(pv);
                pn.next = next;
                self.insts.set(pv, pn);
            },
        }
        match next.expand() {
            None => {
                let mut bn = *self.blocks.at(block);
                bn.last_inst = prev;
                self.blocks.set(block, bn);
            },
            Some(nx) => {
                proof {
                    if p > 0 {
                        assert(c[p + 1] != c[p - 1]);
                    }
                }
                let mut nn = *self.insts.at(nx);
                nn.prev = prev;
                self.insts.set(nx, nn);
            },
        }
        self.contents = Ghost(self.contents@.update(b, c.remove(p)));
        proof {
            assert forall|x: int|
                0 <= x < self.insts@.len() && x != i && (p == 0 || x != c[p - 1]) && (p + 1 >= n || x != c[p + 1]) implies #[trigger] self.insts@[x]
                    == start.insts@[x] by {}
            self.lemma_removed(&start, b, p);
        }
    }
    /// Where the instructions stand after moving the instructions from
    /// position `p` on of block `ob` to the empty block `nbk`.
    #[verifier::spinoff_prover]
    #[verifier::rlimit(100)]
    proof fn lemma_split_insts(&self, mid: &Layout, ob: int, nbk: int, p: int)
        requires
            mid.wf(),
            0 <= ob < mid.blocks@.len(),
            0 <= nbk < mid.blocks@.len(),
            ob != nbk,
            mid.order@.contains(nbk as nat),
            mid.contents@[nbk].len() == 0,
            0 <= p < mid.contents@[ob].len(),
            self.blocks@.len() == mid.blocks@.len(),
            self.insts@.len() == mid.insts@.len(),
            self.order@ == mid.order@,
            self.first_block == mid.first_block,
            self.last_block == mid.last_block,
            self.contents@ == mid.contents@.update(ob, mid.contents@[ob].subrange(0, p)).update(
                nbk,
                mid.contents@[ob].subrange(p, mid.contents@[ob].len() as int),
            ),
            forall|bb: int|
                0 <= bb < self.blocks@.len() && bb != ob && bb != nbk ==> #[trigger] self.blocks@[bb]
                    == mid.blocks@[bb],
            self.blocks@[ob].prev == mid.blocks@[ob].prev,
            self.blocks@[ob].next == mid.blocks@[ob].next,
            self.blocks@[ob].cold == mid.blocks@[ob].cold,
            self.blocks@[ob].first_inst@ == opt_at(mid.contents@[ob], if p == 0 { -1 } else { 0 }),
            self.blocks@[ob].last_inst@ == opt_at(mid.contents@[ob], p - 1),
            self.blocks@[nbk].prev == mid.blocks@[nbk].prev,
            self.blocks@[nbk].next == mid.blocks@[nbk].next,
            self.blocks@[nbk].cold == mid.blocks@[nbk].cold,
            self.blocks@[nbk].first_inst@ == opt_at(mid.contents@[ob], p),
            self.blocks@[nbk].last_inst@ == opt_at(mid.contents@[ob], mid.contents@[ob].len() - 1),
            forall|q: int|
                0 <= q < mid.contents@[ob].len() ==> {
                    let x = #[trigger] mid.contents@[ob][q];
                    &&& self.insts@[x as int].seq == mid.insts@[x as int].seq
                    &&& self.insts@[x as int].block@ == Some(if q < p { ob as nat } else { nbk as nat })
                    &&& self.insts@[x as int].prev@ == (if q == p { None } else { mid.insts@[x as int].prev@ })
                    &&& self.insts@[x as int].next@ == (if q == p - 1 { None } else { mid.insts@[x as int].next@ })
                },
            forall|x: int|
                0 <= x < self.insts@.len() && !mid.contents@[ob].contains(x as nat) ==> #[trigger] self.insts@[x]
                    == mid.insts@[x],
        ensures
            forall|bb: int, q: int|
                0 <= bb < self.blocks@.len() && 0 <= q < self.contents@[bb].len() ==> {
                    &&& #[trigger] self.contents@[bb][q] < self.insts@.len()
                    &&& self.insts@[self.contents@[bb][q] as int].block@ == Some(bb as nat)
                    &&& self.insts@[self.contents@[bb][q] as int].prev@ == opt_at(self.contents@[bb], q - 1)
                    &&& self.insts@[self.contents@[bb][q] as int].next@ == opt_at(self.contents@[bb], q + 1)
                },
            forall|i: int|
                0 <= i < self.insts@.len() ==> match (#[trigger] self.insts@[i]).block@ {
                    Some(bb) => bb < self.blocks@.len() && self.contents@[bb as int].contains(i as nat),
                    None => self.insts@[i].prev@ is None && self.insts@[i].next@ is None,
                },
    {
        let nb = self.blocks@.len();
        let ni = self.insts@.len();
        let c = mid.contents@[ob];
        let n = c.len();
        let c1 = c.subrange(0, p);
        let c2 = c.subrange(p, n as int);
        assert(mid.blocks@[ob].first_inst@ == opt_at(c, 0));
        assert(c.no_duplicates());
        assert(mid.order@.contains(ob as nat)) by {
            if !mid.order@.contains(ob as nat) {
                assert(mid.blocks@[ob].prev@ is None);
            }
        }
        assert forall|q: int| 0 <= q < n implies #[trigger] c[q] < ni && mid.insts@[c[q] as int].block@ == Some(
            ob as nat,
        ) && mid.insts@[c[q] as int].prev@ == opt_at(c, q - 1) && mid.insts@[c[q] as int].next@ == opt_at(c, q + 1) by {
            assert(mid.contents@[ob][q] == c[q]);
        }
        // Instructions of other blocks are untouched.
        assert forall|bb: int, q: int|
            0 <= bb < nb && bb != ob && bb != nbk && 0 <= q < self.contents@[bb].len() implies !c.contains(
                #[trigger] self.contents@[bb][q],
            ) by {
            let x = self.contents@[bb][q];
            assert(mid.contents@[bb][q] == x);
            if c.contains(x) {
                let qq = c.index_of(x);
                mid.lemma_inst_only_in(bb, q, ob, qq);
            }
        }
        assert forall|bb: int, q: int|
            0 <= bb < nb && 0 <= q < self.contents@[bb].len() implies {
                &&& #[trigger] self.contents@[bb][q] < ni
                &&& self.insts@[self.contents@[bb][q] as int].block@ == Some(bb as nat)
                &&& self.insts@[self.contents@[bb][q] as int].prev@ == opt_at(self.contents@[bb], q - 1)
                &&& self.insts@[self.contents@[bb][q] as int].next@ == opt_at(self.contents@[bb], q + 1)
            } by {
            if bb == ob {
                assert(self.contents@[bb][q] == c[q]);
            } else if bb == nbk {
                assert(self.contents@[bb][q] == c[q + p]);
            } else {
                assert(mid.contents@[bb][q] == self.contents@[bb][q]);
                assert(mid.insts@[mid.contents@[bb][q] as int].block@ == Some(bb as nat));
            }
        }
        assert forall|i: int| 0 <= i < ni implies match (#[trigger] self.insts@[i]).block@ {
            Some(bb) => bb < nb && self.contents@[bb as int].contains(i as nat),
            None => self.insts@[i].prev@ is None && self.insts@[i].next@ is None,
        } by {
            if c.contains(i as nat) {
                let q = c.index_of(i as nat);
                assert(c[q] == i);
                if q < p {
                    assert(c1[q] == i);
                } else {
                    assert(c2[q - p] == i);
                }
            } else {
                assert(self.insts@[i] == mid.insts@[i]);
                match mid.insts@[i].block@ {
                    Some(bb) => {
                        assert(mid.contents@[bb as int].contains(i as nat));
                        assert(bb != ob);
                        if bb == nbk {
                            assert(mid.contents@[bb as int].len() == 0);
                        }
                        assert(self.contents@[bb as int] == mid.contents@[bb as int]);
                    },
                    None => {},
                }
            }
        }
    }

    /// The links after moving the instructions from position `p` on of block
    /// `ob` to the empty block `nbk`.
    #[verifier::spinoff_prover]
    #[verifier::rlimit(100)]
    proof fn lemma_split(&self, mid: &Layout, ob: int, nbk: int, p: int)
        requires
            mid.wf(),
            0 <= ob < mid.blocks@.len(),
            0 <= nbk < mid.blocks@.len(),
            ob != nbk,
            mid.order@.contains(nbk as nat),
            mid.contents@[nbk].len() == 0,
            0 <= p < mid.contents@[ob].len(),
            self.blocks@.len() == mid.blocks@.len(),
            self.insts@.len() == mid.insts@.len(),
            self.order@ == mid.order@,
            self.first_block == mid.first_block,
            self.last_block == mid.last_block,
            self.contents@ == mid.contents@.update(ob, mid.contents@[ob].subrange(0, p)).update(
                nbk,
                mid.contents@[ob].subrange(p, mid.contents@[ob].len() as int),
            ),
            forall|bb: int|
                0 <= bb < self.blocks@.len() && bb != ob && bb != nbk ==> #[trigger] self.blocks@[bb]
                    == mid.blocks@[bb],
            self.blocks@[ob].prev == mid.blocks@[ob].prev,
            self.blocks@[ob].next == mid.blocks@[ob].next,
            self.blocks@[ob].cold == mid.blocks@[ob].cold,
            self.blocks@[ob].first_inst@ == opt_at(mid.contents@[ob], if p == 0 { -1 } else { 0 }),
            self.blocks@[ob].last_inst@ == opt_at(mid.contents@[ob], p - 1),
            self.blocks@[nbk].prev == mid.blocks@[nbk].prev,
            self.blocks@[nbk].next == mid.blocks@[nbk].next,
            self.blocks@[nbk].cold == mid.blocks@[nbk].cold,
            self.blocks@[nbk].first_inst@ == opt_at(mid.contents@[ob], p),
            self.blocks@[nbk].last_inst@ == opt_at(mid.contents@[ob], mid.contents@[ob].len() - 1),
            forall|q: int|
                0 <= q < mid.contents@[ob].len() ==> {
                    let x = #[trigger] mid.contents@[ob][q];
                    &&& self.insts@[x as int].seq == mid.insts@[x as int].seq
                    &&& self.insts@[x as int].block@ == Some(if q < p { ob as nat } else { nbk as nat })
                    &&& self.insts@[x as int].prev@ == (if q == p { None } else { mid.insts@[x as int].prev@ })
                    &&& self.insts@[x as int].next@ == (if q == p - 1 { None } else { mid.insts@[x as int].next@ })
                },
            forall|x: int|
                0 <= x < self.insts@.len() && !mid.contents@[ob].contains(x as nat) ==> #[trigger] self.insts@[x]
                    == mid.insts@[x],
        ensures
            self.wf(),
            self@ == (LayoutView {
                contents: mid@.contents.update(ob, mid@.contents[ob].subrange(0, p)).update(
                    nbk,
                    mid@.contents[ob].subrange(p, mid@.contents[ob].len() as int),
                ),
                ..mid@
            }),
    {
        let nb = self.blocks@.len();
        let ni = self.insts@.len();
        let c = mid.contents@[ob];
        let n = c.len();
        let c1 = c.subrange(0, p);
        let c2 = c.subrange(p, n as int);
        assert(mid.blocks@[ob].first_inst@ == opt_at(c, 0));
        assert(c.no_duplicates());
        assert(mid.order@.contains(ob as nat)) by {
            if !mid.order@.contains(ob as nat) {
                assert(mid.blocks@[ob].prev@ is None);
            }
        }
        assert forall|q: int| 0 <= q < n implies #[trigger] c[q] < ni && mid.insts@[c[q] as int].block@ == Some(
            ob as nat,
        ) && mid.insts@[c[q] as int].prev@ == opt_at(c, q - 1) && mid.insts@[c[q] as int].next@ == opt_at(c, q + 1) by {
            assert(mid.contents@[ob][q] == c[q]);
        }
        // Instructions of other blocks are untouched.
        assert forall|bb: int, q: int|
            0 <= bb < nb && bb != ob && bb != nbk && 0 <= q < self.contents@[bb].len() implies !c.contains(
                #[trigger] self.contents@[bb][q],
            ) by {
            let x = self.contents@[bb][q];
            assert(mid.contents@[bb][q] == x);
            if c.contains(x) {
                let qq = c.index_of(x);
                mid.lemma_inst_only_in(bb, q, ob, qq);
            }
        }
        assert forall|k: int| 0 <= k < self.order@.len() implies {
            &&& (#[trigger] self.blocks@[self.order@[k] as int]).prev@ == opt_at(self.order@, k - 1)
            &&& self.blocks@[self.order@[k] as int].next@ == opt_at(self.order@, k + 1)
        } by {
            assert(mid.blocks@[mid.order@[k] as int].prev@ == opt_at(mid.order@, k - 1));
        }
        assert forall|bb: int|
            0 <= bb < nb && !self.order@.contains(bb as nat) implies {
                &&& (#[trigger] self.blocks@[bb]).prev@ is None
                &&& self.blocks@[bb].next@ is None
                &&& self.contents@[bb].len() == 0
            } by {
            assert(mid.blocks@[bb].prev@ is None);
        }
        assert(c1.no_duplicates()) by {
            assert forall|x: int, y: int| 0 <= x < c1.len() && 0 <= y < c1.len() && x != y implies c1[x] != c1[y] by {
                assert(c[x] != c[y]);
            }
        }
        assert(c2.no_duplicates()) by {
            assert forall|x: int, y: int| 0 <= x < c2.len() && 0 <= y < c2.len() && x != y implies c2[x] != c2[y] by {
                assert(c[x + p] != c[y + p]);
            }
        }
        assert forall|bb: int| 0 <= bb < nb implies {
            &&& (#[trigger] self.blocks@[bb]).first_inst@ == opt_at(self.contents@[bb], 0)
            &&& self.blocks@[bb].last_inst@ == opt_at(self.contents@[bb], self.contents@[bb].len() - 1)
            &&& self.contents@[bb].no_duplicates()
        } by {
            assert(mid.blocks@[bb].first_inst@ == opt_at(mid.contents@[bb], 0));
        }
        self.lemma_split_insts(mid, ob, nbk, p);
        assert(self.blocks@.map_values(|nd: BlockNode| nd.cold) =~= mid.blocks@.map_values(
            |nd: BlockNode| nd.cold,
        ));
        self.lemma_split_seq(mid, ob, nbk, p);
    }

    /// The numbering after moving the instructions from position `p` on of
    /// block `ob` to the empty block `nbk`.
    #[verifier::spinoff_prover]
    #[verifier::rlimit(100)]
    proof fn lemma_split_seq(&self, mid: &Layout, ob: int, nbk: int, p: int)
        requires
            mid.wf(),
            0 <= ob < mid.blocks@.len(),
            0 <= nbk < mid.blocks@.len(),
            ob != nbk,
            mid.order@.contains(nbk as nat),
            mid.contents@[nbk].len() == 0,
            0 <= p < mid.contents@[ob].len(),
            self.blocks@.len() == mid.blocks@.len(),
            self.insts@.len() == mid.insts@.len(),
            self.order@ == mid.order@,
            self.first_block == mid.first_block,
            self.last_block == mid.last_block,
            self.contents@ == mid.contents@.update(ob, mid.contents@[ob].subrange(0, p)).update(
                nbk,
                mid.contents@[ob].subrange(p, mid.contents@[ob].len() as int),
            ),
            forall|bb: int|
                0 <= bb < self.blocks@.len() && bb != ob && bb != nbk ==> #[trigger] self.blocks@[bb]
                    == mid.blocks@[bb],
            self.blocks@[ob].prev == mid.blocks@[ob].prev,
            self.blocks@[ob].next == mid.blocks@[ob].next,
            self.blocks@[ob].cold == mid.blocks@[ob].cold,
            self.blocks@[ob].first_inst@ == opt_at(mid.contents@[ob], if p == 0 { -1 } else { 0 }),
            self.blocks@[ob].last_inst@ == opt_at(mid.contents@[ob], p - 1),
            self.blocks@[nbk].prev == mid.blocks@[nbk].prev,
            self.blocks@[nbk].next == mid.blocks@[nbk].next,
            self.blocks@[nbk].cold == mid.blocks@[nbk].cold,
            self.blocks@[nbk].first_inst@ == opt_at(mid.contents@[ob], p),
            self.blocks@[nbk].last_inst@ == opt_at(mid.contents@[ob], mid.contents@[ob].len() - 1),
            forall|q: int|
                0 <= q < mid.contents@[ob].len() ==> {
                    let x = #[trigger] mid.contents@[ob][q];
                    &&& self.insts@[x as int].seq == mid.insts@[x as int].seq
                    &&& self.insts@[x as int].block@ == Some(if q < p { ob as nat } else { nbk as nat })
                    &&& self.insts@[x as int].prev@ == (if q == p { None } else { mid.insts@[x as int].prev@ })
                    &&& self.insts@[x as int].next@ == (if q == p - 1 { None } else { mid.insts@[x as int].next@ })
                },
            forall|x: int|
                0 <= x < self.insts@.len() && !mid.contents@[ob].contains(x as nat) ==> #[trigger] self.insts@[x]
                    == mid.insts@[x],
        ensures
            self.wf_seq(),
    {
        let nb = self.blocks@.len();
        let c = mid.contents@[ob];
        let n = c.len();
        let c1 = c.subrange(0, p);
        let c2 = c.subrange(p, n as int);
        assert(mid.blocks@[ob].first_inst@ == opt_at(c, 0));
        assert(c.no_duplicates());
        assert forall|bb: int, q: int|
            0 <= bb < nb && bb != ob && bb != nbk && 0 <= q < self.contents@[bb].len() implies !c.contains(
                #[trigger] self.contents@[bb][q],
            ) by {
            let x = self.contents@[bb][q];
            assert(mid.contents@[bb][q] == x);
            if c.contains(x) {
                let qq = c.index_of(x);
                mid.lemma_inst_only_in(bb, q, ob, qq);
            }
        }
        assert forall|bb: int| 0 <= bb < self.contents@.len() implies #[trigger] self.seq_ok(bb) by {
            assert(mid.seq_ok(ob));
            if bb == ob {
                assert forall|q: int| 0 <= q < c1.len() implies self.insts@[#[trigger] c1[q] as int].seq
                    == mid.insts@[c[q] as int].seq by {
                    assert(c1[q] == c[q]);
                }
                assert forall|q1: int, q2: int| 0 <= q1 < q2 < c1.len() implies self.insts@[#[trigger] c1[q1] as int].seq
                    < self.insts@[#[trigger] c1[q2] as int].seq by {
                    assert(mid.insts@[c[q1] as int].seq < mid.insts@[c[q2] as int].seq);
                }
            } else if bb == nbk {
                assert forall|q: int| 0 <= q < c2.len() implies self.insts@[#[trigger] c2[q] as int].seq
                    == mid.insts@[c[q + p] as int].seq by {
                    assert(c2[q] == c[q + p]);
                }
                assert forall|q1: int, q2: int| 0 <= q1 < q2 < c2.len() implies self.insts@[#[trigger] c2[q1] as int].seq
                    < self.insts@[#[trigger] c2[q2] as int].seq by {
                    assert(mid.insts@[c[q1 + p] as int].seq < mid.insts@[c[q2 + p] as int].seq);
                }
            } else {
                assert(mid.seq_ok(bb));
                let cb = self.contents@[bb];
                assert forall|q: int| 0 <= q < cb.len() implies self.insts@[#[trigger] cb[q] as int]
                    == mid.insts@[cb[q] as int] by {
                    assert(!c.contains(self.contents@[bb][q]));
                }
            }
        }
    }

    /// Split the block containing `before` in two
    ///
    /// Insert `new_block` after the old block and move `before` and the
    /// following instructions to `new_block`.
    pub fn split_block(&mut self, new_block: Block, before: Inst)
        requires
            old(self).wf(),
            new_block.0 < old(self)@.num_blocks(),
            !old(self)@.inserted(new_block.0 as nat),
            old(self)@.block_of(before.0 as nat) is Some,
        ensures
            final(self).wf(),
            final(self)@ == old(self)@.split(
                old(self)@.block_of(before.0 as nat).unwrap(),
                new_block.0 as nat,
                old(self)@.pos_in_block(before.0 as nat),
            ),
    {
        let ghost i = before.0 as nat;
        proof {
            if before.0 >= self.insts@.len() {
                self.lemma_not_registered(i);
            }
            self.lemma_inst_pos(i);
        }
        let ghost ob = self@.block_of(i).unwrap() as int;
        let ghost nbk = new_block.0 as int;
        let ghost c = self.contents@[ob];
        let ghost n = c.len();
        let ghost p = self@.pos_in_block(i);
        proof {
            self.lemma_block_pos(ob as nat);
            assert(self.order@.contains(ob as nat)) by {
                if !self.order@.contains(ob as nat) {
                    assert(self.contents@[ob].len() == 0);
                }
            }
            self.lemma_block_pos(nbk as nat);
            assert(self.contents@[nbk].len() == 0);
        }
        let old_block = self.insts.at(before).block.expand().unwrap();
        let ghost old_order = self.order@;
        self.insert_block_after(new_block, old_block);
        let ghost mid = *self;
        proof {
            assert(mid.order@ == old_order.insert(old_order.index_of(ob as nat) + 1, nbk as nat));
            assert(mid.order@.contains(nbk as nat)) by {
                assert(mid.order@[old_order.index_of(ob as nat) + 1] == nbk);
            }
            assert(mid.blocks@[ob].first_inst@ == opt_at(c, 0));
            assert(mid.blocks@[nbk].first_inst@ == opt_at(mid.contents@[nbk], 0));
            assert(c.no_duplicates());
            assert forall|q: int| 0 <= q < n implies #[trigger] c[q] < mid.insts@.len() && mid.insts@[c[q] as int].prev@
                == opt_at(c, q - 1) && mid.insts@[c[q] as int].next@ == opt_at(c, q + 1) by {
                assert(mid.contents@[ob][q] == c[q]);
            }
        }
        let last_inst = self.blocks.at(old_block).last_inst;
        let prev_inst = self.insts.at(before).prev;
        let mut nn = *self.blocks.at(new_block);
        nn.first_inst = PackedOption::some(before);
        nn.last_inst = last_inst;
        self.blocks.set(new_block, nn);
        let mut bfn = *self.insts.at(before);
        bfn.prev = PackedOption::none();
        self.insts.set(before, bfn);
        let mut on = *self.blocks.at(old_block);
        on.last_inst = prev_inst;
        match prev_inst.expand() {
            None => {
                on.first_inst = PackedOption::none();
            },
            Some(pi) => {
                let mut pn = *self.insts.at(pi);
                pn.next = PackedOption::none();
                self.insts.set(pi, pn);
            },
        }
        self.blocks.set(old_block, on);
        let mut opt_i = Some(before);
        let ghost mut k: int = p;
        let ghost pre = *self;
        while opt_i.is_some()
            invariant
                self.blocks@ == pre.blocks@,
                self.order@ == mid.order@,
                self.contents@ == mid.contents@,
                self.first_block == mid.first_block,
                self.last_block == mid.last_block,
                mid.wf(),
                0 <= ob < mid.blocks@.len(),
                c == mid.contents@[ob],
                c.no_duplicates(),
                n == c.len(),
                0 <= p <= k <= n,
                forall|q: int| 0 <= q < n ==> #[trigger] c[q] < mid.insts@.len() && mid.insts@[c[q] as int].prev@
                    == opt_at(c, q - 1) && mid.insts@[c[q] as int].next@ == opt_at(c, q + 1),
                new_block.0 == nbk,
                nbk < mid.blocks@.len(),
                opt_i == opt_ins(opt_at(c, k)),
                self.insts@.len() == mid.insts@.len(),
                forall|q: int|
                    0 <= q < n ==> {
                        let x = #[trigger] c[q];
                        &&& self.insts@[x as int].seq == mid.insts@[x as int].seq
                        &&& self.insts@[x as int].block@ == Some(if p <= q < k { nbk as nat } else { ob as nat })
                        &&& self.insts@[x as int].prev@ == (if q == p { None } else { mid.insts@[x as int].prev@ })
                        &&& self.insts@[x as int].next@ == (if q == p - 1 { None } else { mid.insts@[x as int].next@ })
                    },
                forall|x: int|
                    0 <= x < self.insts@.len() && !c.contains(x as nat) ==> #[trigger] self.insts@[x]
                        == mid.insts@[x],
            decreases n - k,
        {
            let cur = opt_i.unwrap();
            let mut node = *self.insts.at(cur);
            node.block = PackedOption::some(new_block);
            self.insts.set(cur, node);
            opt_i = self.insts.at(cur).next.expand();
            proof {
                assert(cur.0 == c[k]);
                assert forall|q: int| 0 <= q < n && q != k implies c[q] != c[k] by {}
                k = k + 1;
            }
        }
        self.contents = Ghost(self.contents@.update(ob, c.subrange(0, p)).update(nbk, c.subrange(p, n as int)));
        proof {
            assert(k == n) by {
                if k < n {
                    assert(opt_at(c, k) is Some);
                }
            }
            assert forall|q: int| 0 <= q < n implies {
                let x = #[trigger] mid.contents@[ob][q];
                &&& self.insts@[x as int].seq == mid.insts@[x as int].seq
                &&& self.insts@[x as int].block@ == Some(if q < p { ob as nat } else { nbk as nat })
                &&& self.insts@[x as int].prev@ == (if q == p { None } else { mid.insts@[x as int].prev@ })
                &&& self.insts@[x as int].next@ == (if q == p - 1 { None } else { mid.insts@[x as int].next@ })
            } by {
                assert(mid.contents@[ob][q] == c[q]);
            }
            self.lemma_split(&mid, ob, nbk, p);
        }
    }
    // ========================================================================
    // Traversal and program order
    // ========================================================================

    /// The blocks in layout order
    pub fn blocks(&self) -> (r: Vec<Block>)
        requires
            self.wf(),
        ensures
            r@.len() == self@.order.len(),
            forall|k: int| 0 <= k < r@.len() ==> #[trigger] r@[k] == blk(self@.order[k]),
    {
        let mut out: Vec<Block> = Vec::new();
        let mut next = self.first_block;
        let ghost order = self.order@;
        let ghost mut k: int = 0;
        while next.is_some()
            invariant
                self.wf(),
                order == self.order@,
                0 <= k <= order.len(),
                next == opt_blk(opt_at(order, k)),
                out@.len() == k,
                forall|j: int| 0 <= j < k ==> #[trigger] out@[j] == blk(order[j]),
            decreases order.len() - k,
        {
            let b = next.unwrap();
            proof {
                assert(order[k] < self.blocks@.len());
                assert(self.blocks@[order[k] as int].next@ == opt_at(order, k + 1));
                if k + 1 < order.len() {
                    assert(order[k + 1] < self.blocks@.len());
                }
            }
            out.push(b);
            next = self.blocks.at(b).next.expand();
            proof {
                k = k + 1;
            }
        }
        proof {
            if k < order.len() {
                assert(opt_at(order, k) is Some);
            }
        }
        out
    }

    /// The instructions of a block, in order
    pub fn block_insts(&self, block: Block) -> (r: Vec<Inst>)
        requires
            self.wf(),
        ensures
            block.0 < self@.num_blocks() ==> r@.len() == self@.contents[block.0 as int].len() && forall|k: int|
                0 <= k < r@.len() ==> #[trigger] r@[k] == ins(self@.contents[block.0 as int][k]),
            block.0 >= self@.num_blocks() ==> r@.len() == 0,
    {
        let mut out: Vec<Inst> = Vec::new();
        if (block.0 as usize) >= self.blocks.len() {
            return out;
        }
        let ghost c = self.contents@[block.0 as int];
        let mut next = self.blocks.at(block).first_inst.expand();
        let ghost mut k: int = 0;
        while next.is_some()
            invariant
                self.wf(),
                block.0 < self.blocks@.len(),
                c == self.contents@[block.0 as int],
                0 <= k <= c.len(),
                next == opt_ins(opt_at(c, k)),
                out@.len() == k,
                forall|j: int| 0 <= j < k ==> #[trigger] out@[j] == ins(c[j]),
            decreases c.len() - k,
        {
            let i = next.unwrap();
            proof {
                assert(self.contents@[block.0 as int][k] < self.insts@.len());
                if k + 1 < c.len() {
                    assert(self.contents@[block.0 as int][k + 1] < self.insts@.len());
                }
            }
            out.push(i);
            next = self.insts.at(i).next.expand();
            proof {
                k = k + 1;
            }
        }
        proof {
            if k < c.len() {
                assert(opt_at(c, k) is Some);
            }
        }
        out
    }

    /// Get the block containing a program point
    pub fn pp_block(&self, pp: ProgramPoint) -> (r: Block)
        requires
            self.wf(),
            pp matches ProgramPoint::Inst(i) ==> self@.block_of(i.0 as nat) is Some,
        ensures
            r == self@.pp_block(pp),
    {
        match pp {
            ProgramPoint::Block(block) => block,
            ProgramPoint::Inst(inst) => {
                proof {
                    if inst.0 >= self.insts@.len() {
                        self.lemma_not_registered(inst.0 as nat);
                    }
                    self.lemma_inst_pos(inst.0 as nat);
                }
                self.insts.at(inst).block.expand().unwrap()
            },
        }
    }

    /// The sequence number that orders a program point in its block.
    fn pp_seq(&self, pp: ProgramPoint) -> (r: u32)
        requires
            self.wf(),
        ensures
            pp matches ProgramPoint::Block(_) ==> r == 0,
            pp matches ProgramPoint::Inst(i) ==> (i.0 < self.insts@.len() ==> r == self.seq_of(i.0 as nat)),
    {
        match pp {
            ProgramPoint::Block(_) => 0,
            ProgramPoint::Inst(inst) => match self.insts.get(inst) {
                Some(n) => n.seq,
                None => 0,
            },
        }
    }

    /// Sequence numbers order the instructions of a block by position, and
    /// come after the block's own program point.
    proof fn lemma_pp_seq(&self, a: ProgramPoint, b: ProgramPoint)
        requires
            self.wf(),
            self@.pp_placed(a),
            self@.pp_placed(b),
            self@.pp_block(a) == self@.pp_block(b),
        ensures
            (self@.pp_pos(a) < self@.pp_pos(b)) == (self.pp_seq_spec(a) < self.pp_seq_spec(b)),
            (self@.pp_pos(a) == self@.pp_pos(b)) == (self.pp_seq_spec(a) == self.pp_seq_spec(b)),
    {
        if let ProgramPoint::Inst(i) = a {
            if i.0 >= self.insts@.len() {
                self.lemma_not_registered(i.0 as nat);
            }
            self.lemma_inst_pos(i.0 as nat);
        }
        if let ProgramPoint::Inst(i) = b {
            if i.0 >= self.insts@.len() {
                self.lemma_not_registered(i.0 as nat);
            }
            self.lemma_inst_pos(i.0 as nat);
        }
        let bb = self@.pp_block(a).0 as int;
        let c = self.contents@[bb];
        if a is Inst || b is Inst {
            assert(0 <= bb < self.contents@.len());
            assert(self.seq_ok(bb));
        }
        match (a, b) {
            (ProgramPoint::Inst(x), ProgramPoint::Inst(y)) => {
                let qx = self@.pos_in_block(x.0 as nat);
                let qy = self@.pos_in_block(y.0 as nat);
                if qx < qy {
                    assert(self.insts@[c[qx] as int].seq < self.insts@[c[qy] as int].seq);
                } else if qy < qx {
                    assert(self.insts@[c[qy] as int].seq < self.insts@[c[qx] as int].seq);
                }
            },
            (ProgramPoint::Inst(x), ProgramPoint::Block(_)) => {
                let qx = self@.pos_in_block(x.0 as nat);
                assert(self.insts@[c[qx] as int].seq > 0);
            },
            (ProgramPoint::Block(_), ProgramPoint::Inst(y)) => {
                let qy = self@.pos_in_block(y.0 as nat);
                assert(self.insts@[c[qy] as int].seq > 0);
            },
            _ => {},
        }
    }

    /// The sequence number of a program point, as `pp_seq` computes it.
    closed spec fn pp_seq_spec(&self, pp: ProgramPoint) -> u32 {
        match pp {
            ProgramPoint::Block(_) => 0,
            ProgramPoint::Inst(i) => if i.0 < self.insts@.len() {
                self.insts@[i.0 as int].seq
            } else {
                0
            },
        }
    }

    /// Compare two program points in the same block
    ///
    /// Returns `Ordering::Less` if `a` appears before `b` in program order;
    /// a block's own program point comes before its instructions.
    pub fn pp_cmp(&self, a: ProgramPoint, b: ProgramPoint) -> (r: Ordering)
        requires
            self.wf(),
            self@.pp_placed(a),
            self@.pp_placed(b),
            self@.pp_block(a) == self@.pp_block(b),
        ensures
            (r == Ordering::Less) == (self@.pp_pos(a) < self@.pp_pos(b)),
            (r == Ordering::Equal) == (self@.pp_pos(a) == self@.pp_pos(b)),
            (r == Ordering::Greater) == (self@.pp_pos(a) > self@.pp_pos(b)),
    {
        proof {
            self.lemma_pp_seq(a, b);
        }
        let a_seq = self.pp_seq(a);
        let b_seq = self.pp_seq(b);
        if a_seq < b_seq {
            Ordering::Less
        } else if a_seq == b_seq {
            Ordering::Equal
        } else {
            Ordering::Greater
        }
    }
}

/// Program point (block or instruction)
#[derive(Debug, Clone, Copy, PartialEq, Eq, Structural)]
pub enum ProgramPoint {
    Block(Block),
    Inst(Inst),
}

impl From<Block> for ProgramPoint {
    fn from(block: Block) -> (r: Self) {
        ProgramPoint::Block(block)
    }
}

impl vstd::std_specs::convert::FromSpecImpl<Block> for ProgramPoint {
    open spec fn obeys_from_spec() -> bool {
        true
    }

    open spec fn from_spec(v: Block) -> Self {
        ProgramPoint::Block(v)
    }
}

impl From<Inst> for ProgramPoint {
    fn from(inst: Inst) -> (r: Self) {
        ProgramPoint::Inst(inst)
    }
}

impl vstd::std_specs::convert::FromSpecImpl<Inst> for ProgramPoint {
    open spec fn obeys_from_spec() -> bool {
        true
    }

    open spec fn from_spec(v: Inst) -> Self {
        ProgramPoint::Inst(v)
    }
}

} // verus!
