//! Checks on a parsed function: block targets, argument counts, returns,
//! terminators, the entry block and the scoping of values.
//!
//! Each check walks the blocks in layout order and the instructions of each
//! block in order, and reports the first problem it meets.

use vstd::prelude::*;

use crate::{
    analysis::{
        cfg::{edge, reaches},
        dominance::tree_ok,
        paths::path_dominates,
        ControlFlowGraph, DominatorTree,
    },
    dfg::{inst_data::InstDataView, InstData, Opcode},
    entity::Block,
    function::Function,
    text::{dec, push_dec, push_str},
    value::Value,
};

verus! {

/// The block targets of an instruction; none when it has no block arguments.
pub open spec fn targets_of(d: InstDataView) -> Seq<(Block, Seq<Value>)> {
    match d.block_args {
        Some(t) => t,
        None => Seq::empty(),
    }
}

/// `(k, q)` names a placed instruction: the one at position `q` of the block
/// at position `k` of the layout order.
pub open spec fn placed(f: &Function, k: int, q: int) -> bool {
    0 <= k < f.layout@.order.len() && 0 <= q < f.len_at(k)
}

/// The data of the instruction at `(k, q)`.
pub open spec fn data_at(f: &Function, k: int, q: int) -> InstDataView {
    f.inst_at(f.block_at(k), q)
}

/// The number of parameters of block `t`; none for a block that does not exist.
pub open spec fn param_count(f: &Function, t: Block) -> nat {
    if t.0 < f.blocks@.len() {
        f.blocks@[t.0 as int].params@.len()
    } else {
        0
    }
}

// ---------------------------------------------------------------------------
// Block indices
// ---------------------------------------------------------------------------

/// `(k2, q2, j2)` comes before `(k, q, j)`: an earlier block of the layout,
/// an earlier instruction of the same block, or an earlier target of the
/// same instruction.
pub open spec fn earlier(k2: int, q2: int, j2: int, k: int, q: int, j: int) -> bool {
    k2 < k || (k2 == k && q2 < q) || (k2 == k && q2 == q && j2 < j)
}

/// Target `j` of the instruction at `(k, q)` is a block that is not in the layout.
pub open spec fn bad_target(f: &Function, k: int, q: int, j: int) -> bool {
    &&& placed(f, k, q)
    &&& 0 <= j < targets_of(data_at(f, k, q)).len()
    &&& !f.layout@.order.contains(targets_of(data_at(f, k, q))[j].0.0 as nat)
}

/// The message for a jump or branch to block `t` of a function with `n` blocks.
pub open spec fn index_msg(t: nat, n: nat) -> Seq<char> {
    "Jump/branch to block"@ + dec(t) + " but function only has "@ + dec(n) + " blocks"@
}

fn index_message(t: u32, n: usize) -> (m: String)
    ensures
        m@ == index_msg(t as nat, n as nat),
{
    let mut m = String::new();
    push_str(&mut m, "Jump/branch to block");
    push_dec(&mut m, t as u64);
    push_str(&mut m, " but function only has ");
    push_dec(&mut m, n as u64);
    push_str(&mut m, " blocks");
    m
}

/// The data of the instruction at position `q` of the block at position `k`.
fn data_of<'a>(func: &'a Function, blocks: &Vec<Block>, k: usize, q: usize) -> (r: &'a InstData)
    requires
        func.wf(),
        blocks@.len() == func.layout@.order.len(),
        forall|i: int| 0 <= i < blocks@.len() ==> (#[trigger] blocks@[i]).0 == func.layout@.order[i],
        placed(func, k as int, q as int),
    ensures
        r@ == data_at(func, k as int, q as int),
{
    proof {
        func.layout.lemma_order_bound(k as int);
    }
    func.placed_inst(blocks[k], q)
}

/// The number of instructions of the block at position `k`.
fn len_of(func: &Function, blocks: &Vec<Block>, k: usize) -> (r: usize)
    requires
        func.wf(),
        blocks@.len() == func.layout@.order.len(),
        forall|i: int| 0 <= i < blocks@.len() ==> (#[trigger] blocks@[i]).0 == func.layout@.order[i],
        k < blocks@.len(),
    ensures
        r == func.len_at(k as int),
{
    proof {
        func.layout.lemma_order_bound(k as int);
    }
    func.block_insts(blocks[k]).len()
}

/// Validate that block indices in jumps and branches are valid: every
/// target is a block of the layout.
pub fn validate_block_indices(func: &Function) -> (r: Result<(), String>)
    requires
        func.wf(),
    ensures
        r is Ok <==> !exists|k: int, q: int, j: int| bad_target(func, k, q, j),
        r matches Err(m) ==> exists|k: int, q: int, j: int|
            bad_target(func, k, q, j) && m@ == index_msg(
                targets_of(data_at(func, k, q))[j].0.0 as nat,
                func.layout@.order.len(),
            ) && forall|k2: int, q2: int, j2: int| #[trigger] earlier(k2, q2, j2, k, q, j) ==> !bad_target(func, k2, q2, j2),
{
    let blocks = func.blocks();
    let n = blocks.len();
    let mut k: usize = 0;
    while k < n
        invariant
            func.wf(),
            n == blocks@.len(),
            blocks@.len() == func.layout@.order.len(),
            forall|i: int| 0 <= i < blocks@.len() ==> (#[trigger] blocks@[i]).0 == func.layout@.order[i],
            k <= n,
            forall|k2: int, q: int, j: int| 0 <= k2 < k ==> !bad_target(func, k2, q, j),
        decreases n - k,
    {
        let len = len_of(func, &blocks, k);
        let mut q: usize = 0;
        while q < len
            invariant
                func.wf(),
                n == blocks@.len(),
                blocks@.len() == func.layout@.order.len(),
                forall|i: int| 0 <= i < blocks@.len() ==> (#[trigger] blocks@[i]).0 == func.layout@.order[i],
                k < n,
                len == func.len_at(k as int),
                q <= len,
                forall|k2: int, q2: int, j: int|
                    (0 <= k2 < k || (k2 == k && 0 <= q2 < q)) ==> !bad_target(func, k2, q2, j),
            decreases len - q,
        {
            let d = data_of(func, &blocks, k, q);
            if let Some(ba) = &d.block_args {
                let mut j: usize = 0;
                while j < ba.targets.len()
                    invariant
                        func.wf(),
                        blocks@.len() == func.layout@.order.len(),
                        k < n,
                        q < len,
                        len == func.len_at(k as int),
                        n == blocks@.len(),
                        d@ == data_at(func, k as int, q as int),
                        d.block_args == Some(*ba),
                        j <= ba.targets@.len(),
                        forall|k2: int, q2: int, j2: int|
                            (0 <= k2 < k || (k2 == k && 0 <= q2 < q) || (k2 == k && q2 == q && 0 <= j2 < j))
                                ==> !bad_target(func, k2, q2, j2),
                    decreases ba.targets@.len() - j,
                {
                    let t = ba.targets[j].0;
                    assert(targets_of(data_at(func, k as int, q as int))[j as int].0 == t);
                    if !func.layout.is_block_inserted(t) {
                        let m = index_message(t.0, n);
                        assert(bad_target(func, k as int, q as int, j as int));
                        assert(forall|k2: int, q2: int, j2: int| #[trigger] earlier(k2, q2, j2, k as int, q as int, j as int) ==> !bad_target(func, k2, q2, j2));
                        return Err(m);
                    }
                    j = j + 1;
                }
            }
            q = q + 1;
        }
        k = k + 1;
    }
    proof {
        assert forall|k2: int, q: int, j: int| !bad_target(func, k2, q, j) by {
            if bad_target(func, k2, q, j) {
                assert(0 <= k2 < n);
            }
        }
    }
    Ok(())
}

// ---------------------------------------------------------------------------
// Block parameters
// ---------------------------------------------------------------------------

/// Target `j` of the instruction at `(k, q)` gets a number of arguments other
/// than the number of parameters of its block.
pub open spec fn bad_args(f: &Function, k: int, q: int, j: int) -> bool {
    &&& placed(f, k, q)
    &&& 0 <= j < targets_of(data_at(f, k, q)).len()
    &&& targets_of(data_at(f, k, q))[j].1.len() != param_count(f, targets_of(data_at(f, k, q))[j].0)
}

/// The message for a jump or branch to block `t` that expects `e` parameters
/// and gets `a` arguments.
pub open spec fn args_msg(t: nat, e: nat, a: nat) -> Seq<char> {
    "Jump/branch to block"@ + dec(t) + " expects "@ + dec(e) + " parameters, but "@ + dec(a)
        + " arguments provided"@
}

fn args_message(t: u32, e: usize, a: usize) -> (m: String)
    ensures
        m@ == args_msg(t as nat, e as nat, a as nat),
{
    let mut m = String::new();
    push_str(&mut m, "Jump/branch to block");
    push_dec(&mut m, t as u64);
    push_str(&mut m, " expects ");
    push_dec(&mut m, e as u64);
    push_str(&mut m, " parameters, but ");
    push_dec(&mut m, a as u64);
    push_str(&mut m, " arguments provided");
    m
}

/// Validate that jump/branch arguments match target block parameter counts.
pub fn validate_block_parameters(func: &Function) -> (r: Result<(), String>)
    requires
        func.wf(),
    ensures
        r is Ok <==> !exists|k: int, q: int, j: int| bad_args(func, k, q, j),
        r matches Err(m) ==> exists|k: int, q: int, j: int|
            bad_args(func, k, q, j) && m@ == args_msg(
                targets_of(data_at(func, k, q))[j].0.0 as nat,
                param_count(func, targets_of(data_at(func, k, q))[j].0),
                targets_of(data_at(func, k, q))[j].1.len(),
            ) && forall|k2: int, q2: int, j2: int| #[trigger] earlier(k2, q2, j2, k, q, j) ==> !bad_args(func, k2, q2, j2),
{
    let blocks = func.blocks();
    let n = blocks.len();
    let mut k: usize = 0;
    while k < n
        invariant
            func.wf(),
            n == blocks@.len(),
            blocks@.len() == func.layout@.order.len(),
            forall|i: int| 0 <= i < blocks@.len() ==> (#[trigger] blocks@[i]).0 == func.layout@.order[i],
            k <= n,
            forall|k2: int, q: int, j: int| 0 <= k2 < k ==> !bad_args(func, k2, q, j),
        decreases n - k,
    {
        let len = len_of(func, &blocks, k);
        let mut q: usize = 0;
        while q < len
            invariant
                func.wf(),
                n == blocks@.len(),
                blocks@.len() == func.layout@.order.len(),
                forall|i: int| 0 <= i < blocks@.len() ==> (#[trigger] blocks@[i]).0 == func.layout@.order[i],
                k < n,
                len == func.len_at(k as int),
                q <= len,
                forall|k2: int, q2: int, j: int|
                    (0 <= k2 < k || (k2 == k && 0 <= q2 < q)) ==> !bad_args(func, k2, q2, j),
            decreases len - q,
        {
            let d = data_of(func, &blocks, k, q);
            if let Some(ba) = &d.block_args {
                let mut j: usize = 0;
                while j < ba.targets.len()
                    invariant
                        func.wf(),
                        blocks@.len() == func.layout@.order.len(),
                        k < n,
                        q < len,
                        len == func.len_at(k as int),
                        n == blocks@.len(),
                        d@ == data_at(func, k as int, q as int),
                        d.block_args == Some(*ba),
                        j <= ba.targets@.len(),
                        forall|k2: int, q2: int, j2: int|
                            (0 <= k2 < k || (k2 == k && 0 <= q2 < q) || (k2 == k && q2 == q && 0 <= j2 < j))
                                ==> !bad_args(func, k2, q2, j2),
                    decreases ba.targets@.len() - j,
                {
                    let t = ba.targets[j].0;
                    let given = ba.targets[j].1.len();
                    assert(targets_of(data_at(func, k as int, q as int))[j as int].0 == t);
                    assert(targets_of(data_at(func, k as int, q as int))[j as int].1 == ba.targets@[j as int].1@);
                    let expected = match func.block_data(t) {
                        Some(bd) => bd.params.len(),
                        None => 0,
                    };
                    if given != expected {
                        let m = args_message(t.0, expected, given);
                        assert(bad_args(func, k as int, q as int, j as int));
                        assert(forall|k2: int, q2: int, j2: int| #[trigger] earlier(k2, q2, j2, k as int, q as int, j as int) ==> !bad_args(func, k2, q2, j2));
                        return Err(m);
                    }
                    j = j + 1;
                }
            }
            q = q + 1;
        }
        k = k + 1;
    }
    proof {
        assert forall|k2: int, q: int, j: int| !bad_args(func, k2, q, j) by {
            if bad_args(func, k2, q, j) {
                assert(0 <= k2 < n);
            }
        }
    }
    Ok(())
}

// ---------------------------------------------------------------------------
// Return values
// ---------------------------------------------------------------------------

/// The instruction at `(k, q)` is a return whose number of values differs
/// from the number of results of the signature.
pub open spec fn bad_return(f: &Function, k: int, q: int) -> bool {
    &&& placed(f, k, q)
    &&& data_at(f, k, q).opcode is Return
    &&& data_at(f, k, q).args.len() != f.signature.returns@.len()
}

/// The message for a return in block `b` with `a` values where `e` are expected.
pub open spec fn return_msg(b: nat, a: nat, e: nat) -> Seq<char> {
    "Return instruction in block"@ + dec(b) + " returns "@ + dec(a) + " values, but function signature expects "@
        + dec(e)
}

fn return_message(b: u32, a: usize, e: usize) -> (m: String)
    ensures
        m@ == return_msg(b as nat, a as nat, e as nat),
{
    let mut m = String::new();
    push_str(&mut m, "Return instruction in block");
    push_dec(&mut m, b as u64);
    push_str(&mut m, " returns ");
    push_dec(&mut m, a as u64);
    push_str(&mut m, " values, but function signature expects ");
    push_dec(&mut m, e as u64);
    m
}

/// Validate that return instructions match function signature return count.
pub fn validate_return_values(func: &Function) -> (r: Result<(), String>)
    requires
        func.wf(),
    ensures
        r is Ok <==> !exists|k: int, q: int| bad_return(func, k, q),
        r matches Err(m) ==> exists|k: int, q: int|
            bad_return(func, k, q) && m@ == return_msg(
                func.block_at(k) as nat,
                data_at(func, k, q).args.len(),
                func.signature.returns@.len(),
            ) && forall|k2: int, q2: int| #[trigger] earlier(k2, q2, 0, k, q, 0) ==> !bad_return(func, k2, q2),
{
    let expected = func.signature.returns.len();
    let blocks = func.blocks();
    let n = blocks.len();
    let mut k: usize = 0;
    while k < n
        invariant
            func.wf(),
            expected == func.signature.returns@.len(),
            n == blocks@.len(),
            blocks@.len() == func.layout@.order.len(),
            forall|i: int| 0 <= i < blocks@.len() ==> (#[trigger] blocks@[i]).0 == func.layout@.order[i],
            k <= n,
            forall|k2: int, q: int| 0 <= k2 < k ==> !bad_return(func, k2, q),
        decreases n - k,
    {
        let len = len_of(func, &blocks, k);
        let mut q: usize = 0;
        while q < len
            invariant
                func.wf(),
                expected == func.signature.returns@.len(),
                n == blocks@.len(),
                blocks@.len() == func.layout@.order.len(),
                forall|i: int| 0 <= i < blocks@.len() ==> (#[trigger] blocks@[i]).0 == func.layout@.order[i],
                k < n,
                len == func.len_at(k as int),
                q <= len,
                forall|k2: int, q2: int| (0 <= k2 < k || (k2 == k && 0 <= q2 < q)) ==> !bad_return(func, k2, q2),
            decreases len - q,
        {
            let d = data_of(func, &blocks, k, q);
            if let Opcode::Return = d.opcode {
                if d.args.len() != expected {
                    let m = return_message(blocks[k].0, d.args.len(), expected);
                    assert(bad_return(func, k as int, q as int));
                    assert(forall|k2: int, q2: int| #[trigger] earlier(k2, q2, 0, k as int, q as int, 0) ==> !bad_return(func, k2, q2));
                    return Err(m);
                }
            }
            q = q + 1;
        }
        k = k + 1;
    }
    proof {
        assert forall|k2: int, q: int| !bad_return(func, k2, q) by {
            if bad_return(func, k2, q) {
                assert(0 <= k2 < n);
            }
        }
    }
    Ok(())
}

// ---------------------------------------------------------------------------
// Terminators
// ---------------------------------------------------------------------------

/// The opcodes that may end a block.
pub open spec fn ends_block(op: Opcode) -> bool {
    op is Return || op is Jump || op is Br || op is Halt
}

/// The block at position `k` is empty or does not end with a terminator.
pub open spec fn bad_end(f: &Function, k: int) -> bool {
    &&& 0 <= k < f.layout@.order.len()
    &&& (f.len_at(k) == 0 || !ends_block(data_at(f, k, f.len_at(k) - 1).opcode))
}

/// The message for an empty block `b`.
pub open spec fn empty_msg(b: nat) -> Seq<char> {
    "Block"@ + dec(b) + " is empty (must have at least one terminating instruction)"@
}

/// The message for a block `b` without a terminator at its end.
pub open spec fn unterminated_msg(b: nat) -> Seq<char> {
    "Block"@ + dec(b) + " does not end with a terminating instruction (return/jump/branch/halt)"@
}

fn end_message(b: u32, empty: bool) -> (m: String)
    ensures
        empty ==> m@ == empty_msg(b as nat),
        !empty ==> m@ == unterminated_msg(b as nat),
{
    let mut m = String::new();
    push_str(&mut m, "Block");
    push_dec(&mut m, b as u64);
    if empty {
        push_str(&mut m, " is empty (must have at least one terminating instruction)");
    } else {
        push_str(&mut m, " does not end with a terminating instruction (return/jump/branch/halt)");
    }
    m
}

/// Validate that blocks end with terminating instructions.
pub fn validate_terminating_instructions(func: &Function) -> (r: Result<(), String>)
    requires
        func.wf(),
    ensures
        r is Ok <==> !exists|k: int| bad_end(func, k),
        r matches Err(m) ==> exists|k: int|
            bad_end(func, k) && m@ == (if func.len_at(k) == 0 {
                empty_msg(func.block_at(k) as nat)
            } else {
                unterminated_msg(func.block_at(k) as nat)
            }) && forall|k2: int| 0 <= k2 < k ==> !#[trigger] bad_end(func, k2),
{
    let blocks = func.blocks();
    let n = blocks.len();
    let mut k: usize = 0;
    while k < n
        invariant
            func.wf(),
            n == blocks@.len(),
            blocks@.len() == func.layout@.order.len(),
            forall|i: int| 0 <= i < blocks@.len() ==> (#[trigger] blocks@[i]).0 == func.layout@.order[i],
            k <= n,
            forall|k2: int| 0 <= k2 < k ==> !bad_end(func, k2),
        decreases n - k,
    {
        let len = len_of(func, &blocks, k);
        if len == 0 {
            let m = end_message(blocks[k].0, true);
            assert(bad_end(func, k as int));
            return Err(m);
        }
        let d = data_of(func, &blocks, k, len - 1);
        let ok = match d.opcode {
            Opcode::Return | Opcode::Jump | Opcode::Br | Opcode::Halt => true,
            _ => false,
        };
        if !ok {
            let m = end_message(blocks[k].0, false);
            assert(bad_end(func, k as int));
            return Err(m);
        }
        k = k + 1;
    }
    Ok(())
}

// ---------------------------------------------------------------------------
// Entry block
// ---------------------------------------------------------------------------

/// The message for an entry block with `a` parameters where `e` are expected.
pub open spec fn entry_msg(a: nat, e: nat) -> Seq<char> {
    "Entry block has "@ + dec(a) + " parameters, but function signature expects "@ + dec(e)
}

fn entry_message(a: usize, e: usize) -> (m: String)
    ensures
        m@ == entry_msg(a as nat, e as nat),
{
    let mut m = String::new();
    push_str(&mut m, "Entry block has ");
    push_dec(&mut m, a as u64);
    push_str(&mut m, " parameters, but function signature expects ");
    push_dec(&mut m, e as u64);
    m
}

/// Validate that entry block parameters match function signature: the first
/// block of the layout, where there is one, has as many parameters as the
/// signature.
pub fn validate_entry_block(func: &Function) -> (r: Result<(), String>)
    requires
        func.wf(),
    ensures
        func.layout@.order.len() == 0 ==> r is Ok,
        func.layout@.order.len() > 0 ==> {
            let a = param_count(func, Block(func.layout@.order[0] as u32));
            let e = func.signature.params@.len();
            &&& (r is Ok <==> a == e)
            &&& (r matches Err(m) ==> m@ == entry_msg(a, e))
        },
{
    match func.entry_block() {
        Some(entry) => {
            let expected = func.signature.params.len();
            let actual = match func.block_data(entry) {
                Some(bd) => bd.params.len(),
                None => 0,
            };
            if actual != expected {
                Err(entry_message(actual, expected))
            } else {
                Ok(())
            }
        },
        None => Ok(()),
    }
}

// ---------------------------------------------------------------------------
// Value scoping
// ---------------------------------------------------------------------------

/// The values an instruction defines: its results, except for a return.
pub open spec fn defined_by(d: InstDataView) -> Seq<Value> {
    if d.opcode is Return {
        Seq::empty()
    } else {
        d.results
    }
}

/// The definitions made in block `b` by its parameters and its first `q`
/// instructions, in order: each value with its place, 0 for a parameter and
/// `p + 1` for a result of the instruction at position `p`.
pub open spec fn block_defs_upto(f: &Function, b: int, q: int) -> Seq<(Value, int)>
    decreases q,
{
    if q <= 0 {
        f.blocks@[b].params@.map_values(|p: Value| (p, 0int))
    } else {
        block_defs_upto(f, b, q - 1) + defined_by(f.inst_at(b, q - 1)).map_values(|v: Value| (v, q))
    }
}

/// All the definitions made in block `b`.
pub open spec fn block_defs(f: &Function, b: int) -> Seq<(Value, int)> {
    block_defs_upto(f, b, f.layout@.contents[b].len() as int)
}

/// Definitions of block `b`, each tagged with the block.
pub open spec fn tag(s: Seq<(Value, int)>, b: int) -> Seq<(Value, int, int)> {
    s.map_values(|e: (Value, int)| (e.0, b, e.1))
}

/// The definitions of the blocks at the first `k` positions of the layout.
pub open spec fn all_defs(f: &Function, k: int) -> Seq<(Value, int, int)>
    decreases k,
{
    if k <= 0 {
        Seq::empty()
    } else {
        all_defs(f, k - 1) + tag(block_defs(f, f.block_at(k - 1)), f.block_at(k - 1))
    }
}

/// The block and place of the last definition of `v` in `s`.
pub open spec fn last_def(s: Seq<(Value, int, int)>, v: Value) -> Option<(int, int)>
    decreases s.len(),
{
    if s.len() == 0 {
        None
    } else if s.last().0 == v {
        Some((s.last().1, s.last().2))
    } else {
        last_def(s.drop_last(), v)
    }
}

/// The block at position `k` defines the same value twice, at places `i < j`
/// of its definitions.
pub open spec fn dup(f: &Function, k: int, i: int, j: int) -> bool {
    &&& 0 <= k < f.layout@.order.len()
    &&& 0 <= i < j < block_defs(f, f.block_at(k)).len()
    &&& block_defs(f, f.block_at(k))[i].0 == block_defs(f, f.block_at(k))[j].0
}

/// No block defines a value twice.
pub open spec fn ssa_ok(f: &Function) -> bool {
    !exists|k: int, i: int, j: int| dup(f, k, i, j)
}

/// The control flow graph of a function, as successor sets by block index.
pub open spec fn flow(f: &Function) -> Seq<Set<usize>> {
    Seq::new(f.blocks@.len(), |b: int| Set::new(|t: usize| edge(f, b, t)))
}

/// Block `b` can be reached from the entry block (index 0).
pub open spec fn reachable(f: &Function, b: int) -> bool {
    0 <= b < f.blocks@.len() && reaches(flow(f), 0, b as usize)
}

/// Block `a` dominates block `b` in the control flow graph of `f`: the same
/// block, or `b` reachable from the entry and every path from the entry to
/// `b` passing through `a`.
pub open spec fn block_dominates(f: &Function, a: int, b: int) -> bool {
    a == b || path_dominates(flow(f), 0, a as usize, b as usize)
}

/// Use `i` of the instruction at `(k, q)` is in scope: its value has a
/// definition, whose block is reachable and dominates
/// the block of the use, and which comes before the use in the same block.
pub open spec fn use_ok(f: &Function, k: int, q: int, i: int) -> bool {
    let b = f.block_at(k);
    match last_def(all_defs(f, f.layout@.order.len() as int), data_at(f, k, q).args[i]) {
        None => false,
        Some((db, dp)) => reachable(f, db) && block_dominates(f, db, b) && !(db == b && dp
            >= q + 1),
    }
}

/// Use `i` of the instruction at `(k, q)`, in a reachable block, is out of scope.
pub open spec fn bad_use(f: &Function, k: int, q: int, i: int) -> bool {
    &&& placed(f, k, q)
    &&& 0 <= i < data_at(f, k, q).args.len()
    &&& reachable(f, f.block_at(k))
    &&& !use_ok(f, k, q, i)
}

/// The message for value `a` defined twice in block `b`.
pub open spec fn dup_msg(a: nat, b: nat) -> Seq<char> {
    "Value "@ + dec(a) + " defined multiple times in block"@ + dec(b) + " (SSA violation)"@
}

/// The message for use `i` of the instruction at `(k, q)`, by the first
/// check that fails.
pub open spec fn use_msg(f: &Function, k: int, q: int, i: int) -> Seq<char> {
    let b = f.block_at(k);
    let a = data_at(f, k, q).args[i].0 as nat;
    match last_def(all_defs(f, f.layout@.order.len() as int), data_at(f, k, q).args[i]) {
        None => "Value "@ + dec(a) + " used in block"@ + dec(b as nat) + " but not defined anywhere"@,
        Some((db, dp)) => if !reachable(f, db) {
            "Value "@ + dec(a) + " used in block"@ + dec(b as nat) + " but defined in unreachable block"@ + dec(
                db as nat,
            )
        } else if !block_dominates(f, db, b) {
            "Value "@ + dec(a) + " used in block"@ + dec(b as nat) + " but defined in block"@ + dec(db as nat)
                + ". Value must be dominated by its definition."@
        } else {
            "Value "@ + dec(a) + " used before definition in block"@ + dec(b as nat) + " (instruction "@ + dec(
                q as nat,
            ) + ")"@
        },
    }
}

fn dup_message(a: u32, b: u32) -> (m: String)
    ensures
        m@ == dup_msg(a as nat, b as nat),
{
    let mut m = String::new();
    push_str(&mut m, "Value ");
    push_dec(&mut m, a as u64);
    push_str(&mut m, " defined multiple times in block");
    push_dec(&mut m, b as u64);
    push_str(&mut m, " (SSA violation)");
    m
}

/// The message for a use of value `a` in block `b`; `kind` says which check
/// failed: 0 no definition, 1 an unreachable definition in block `db`, 2 a
/// definition in block `db` that does not dominate, 3 a later definition in
/// the same block, at instruction `q`.
fn use_message(kind: u8, a: u32, b: usize, db: usize, q: usize) -> (m: String)
    requires
        kind <= 3,
    ensures
        kind == 0 ==> m@ == "Value "@ + dec(a as nat) + " used in block"@ + dec(b as nat) + " but not defined anywhere"@,
        kind == 1 ==> m@ == "Value "@ + dec(a as nat) + " used in block"@ + dec(b as nat)
            + " but defined in unreachable block"@ + dec(db as nat),
        kind == 2 ==> m@ == "Value "@ + dec(a as nat) + " used in block"@ + dec(b as nat) + " but defined in block"@
            + dec(db as nat) + ". Value must be dominated by its definition."@,
        kind == 3 ==> m@ == "Value "@ + dec(a as nat) + " used before definition in block"@ + dec(b as nat)
            + " (instruction "@ + dec(q as nat) + ")"@,
{
    let mut m = String::new();
    push_str(&mut m, "Value ");
    push_dec(&mut m, a as u64);
    if kind == 3 {
        push_str(&mut m, " used before definition in block");
        push_dec(&mut m, b as u64);
        push_str(&mut m, " (instruction ");
        push_dec(&mut m, q as u64);
        push_str(&mut m, ")");
        return m;
    }
    push_str(&mut m, " used in block");
    push_dec(&mut m, b as u64);
    if kind == 0 {
        push_str(&mut m, " but not defined anywhere");
    } else if kind == 1 {
        push_str(&mut m, " but defined in unreachable block");
        push_dec(&mut m, db as u64);
    } else {
        push_str(&mut m, " but defined in block");
        push_dec(&mut m, db as u64);
        push_str(&mut m, ". Value must be dominated by its definition.");
    }
    m
}

/// A stored definition, by integers.
pub open spec fn def_view(e: (Value, usize, usize)) -> (Value, int, int) {
    (e.0, e.1 as int, e.2 as int)
}

/// Stored definitions, by integers.
pub open spec fn defs_view(s: Seq<(Value, usize, usize)>) -> Seq<(Value, int, int)> {
    s.map_values(|e: (Value, usize, usize)| def_view(e))
}

/// The definitions of a block only grow with the instructions taken.
proof fn lemma_upto_prefix(f: &Function, b: int, q1: int, q2: int)
    requires
        0 <= q1 <= q2,
    ensures
        block_defs_upto(f, b, q1).len() <= block_defs_upto(f, b, q2).len(),
        block_defs_upto(f, b, q2).subrange(0, block_defs_upto(f, b, q1).len() as int) == block_defs_upto(f, b, q1),
    decreases q2 - q1,
{
    if q1 < q2 {
        lemma_upto_prefix(f, b, q1, q2 - 1);
        let s1 = block_defs_upto(f, b, q1);
        let s = block_defs_upto(f, b, q2 - 1);
        let s2 = block_defs_upto(f, b, q2);
        assert(s2.subrange(0, s.len() as int) =~= s);
        assert(s2.subrange(0, s1.len() as int) =~= s.subrange(0, s1.len() as int));
    } else {
        assert(block_defs_upto(f, b, q2).subrange(0, block_defs_upto(f, b, q1).len() as int) =~= block_defs_upto(
            f,
            b,
            q1,
        ));
    }
}

/// Whether a list of values holds `v`.
fn holds_value(s: &Vec<Value>, v: Value) -> (r: bool)
    ensures
        r == s@.contains(v),
{
    let mut i: usize = 0;
    while i < s.len()
        invariant
            i <= s@.len(),
            forall|j: int| 0 <= j < i ==> s@[j] != v,
        decreases s@.len() - i,
    {
        if s[i] == v {
            return true;
        }
        i = i + 1;
    }
    false
}

/// The block and place of the last stored definition of `v`.
fn find_def(defs: &Vec<(Value, usize, usize)>, v: Value) -> (r: Option<(usize, usize)>)
    ensures
        match r {
            Some((b, p)) => last_def(defs_view(defs@), v) == Some((b as int, p as int)),
            None => last_def(defs_view(defs@), v) is None,
        },
{
    let mut i: usize = defs.len();
    proof {
        assert(defs@.subrange(0, i as int) =~= defs@);
    }
    while i > 0
        invariant
            i <= defs@.len(),
            last_def(defs_view(defs@), v) == last_def(defs_view(defs@.subrange(0, i as int)), v),
        decreases i,
    {
        let e = defs[i - 1];
        proof {
            let s = defs_view(defs@.subrange(0, i as int));
            assert(s.drop_last() =~= defs_view(defs@.subrange(0, i - 1)));
            assert(s.last() == def_view(e));
        }
        if e.0 == v {
            return Some((e.1, e.2));
        }
        i = i - 1;
    }
    proof {
        assert(defs_view(defs@.subrange(0, 0)) =~= Seq::empty());
    }
    None
}

/// Collect the definitions of all blocks, in layout order, and check that
/// no block defines a value twice.
fn collect_defs(func: &Function, blocks: &Vec<Block>) -> (r: Result<Vec<(Value, usize, usize)>, String>)
    requires
        func.wf(),
        blocks@.len() == func.layout@.order.len(),
        forall|i: int| 0 <= i < blocks@.len() ==> (#[trigger] blocks@[i]).0 == func.layout@.order[i],
    ensures
        r is Ok <==> ssa_ok(func),
        r matches Ok(defs) ==> defs_view(defs@) == all_defs(func, func.layout@.order.len() as int),
        r matches Err(m) ==> exists|k: int, i: int, j: int|
            dup(func, k, i, j) && m@ == dup_msg(
                block_defs(func, func.block_at(k))[j].0.0 as nat,
                func.block_at(k) as nat,
            ) && forall|k2: int, i2: int, j2: int| #[trigger] dup(func, k2, i2, j2) ==> !earlier(k2, j2, 0, k, j, 0),
{
    let n = blocks.len();
    let mut defs: Vec<(Value, usize, usize)> = Vec::new();
    let mut k: usize = 0;
    while k < n
        invariant
            func.wf(),
            n == blocks@.len(),
            blocks@.len() == func.layout@.order.len(),
            forall|i: int| 0 <= i < blocks@.len() ==> (#[trigger] blocks@[i]).0 == func.layout@.order[i],
            k <= n,
            defs_view(defs@) == all_defs(func, k as int),
            forall|k2: int, i: int, j: int| 0 <= k2 < k ==> !dup(func, k2, i, j),
        decreases n - k,
    {
        let b = blocks[k];
        proof {
            func.layout.lemma_order_bound(k as int);
            func.layout.lemma_wf_bounds();
        }
        let bi: usize = b.0 as usize;
        let ghost bb: int = func.block_at(k as int);
        let ghost base = defs_view(defs@);
        let bd = func.block_data(b).unwrap();
        let mut seen: Vec<Value> = Vec::new();
        let ghost mut part: Seq<(Value, int)> = Seq::empty();
        let mut i: usize = 0;
        while i < bd.params.len()
            invariant
                func.wf(),
                k < n,
                n == func.layout@.order.len(),
                bb == func.block_at(k as int),
                bi == bb,
                bi == b.0,
                0 <= bb < func.blocks@.len(),
                *bd == func.blocks@[bb],
                i <= bd.params@.len(),
                part == bd.params@.take(i as int).map_values(|p: Value| (p, 0int)),
                seen@ == part.map_values(|e: (Value, int)| e.0),
                seen@.no_duplicates(),
                base == all_defs(func, k as int),
                defs_view(defs@) == base + tag(part, bb),
                forall|k2: int, i2: int, j2: int| 0 <= k2 < k ==> !dup(func, k2, i2, j2),
            decreases bd.params@.len() - i,
        {
            let p = bd.params[i];
            if holds_value(&seen, p) {
                proof {
                    let full = block_defs(func, bb);
                    lemma_upto_prefix(func, bb, 0, func.layout@.contents[bb].len() as int);
                    let i0 = choose|i0: int| 0 <= i0 < seen@.len() && seen@[i0] == p;
                    let u0 = block_defs_upto(func, bb, 0);
                    assert(u0[i0] == part[i0]);
                    assert(full.subrange(0, u0.len() as int)[i0] == u0[i0]);
                    assert(full.subrange(0, u0.len() as int)[i as int] == u0[i as int]);
                    assert(full[i0] == part[i0]);
                    assert(full[i as int] == (p, 0int));
                    assert(0 <= i0 < i);
                    assert(i < full.len());
                    assert(full[i0].0 == p);
                    assert(dup(func, k as int, i0, i as int));
                    assert forall|k2: int, i2: int, j2: int| #[trigger] dup(func, k2, i2, j2) implies !earlier(
                        k2,
                        j2,
                        0,
                        k as int,
                        i as int,
                        0,
                    ) by {
                        if k2 == k && j2 < i {
                            assert(func.block_at(k2) == bb);
                            assert(full[i2].0 == full[j2].0);
                            assert(part.len() == i);
                            assert(seen@[i2] == part[i2].0 && seen@[j2] == part[j2].0);
                            assert(full[i2] == full.subrange(0, u0.len() as int)[i2]);
                            assert(full[j2] == full.subrange(0, u0.len() as int)[j2]);
                            assert(u0[i2] == part[i2] && u0[j2] == part[j2]);
                            assert(seen@[i2] == seen@[j2]);
                        }
                    }
                }
                let m = dup_message(p.0, b.0);
                proof {
                    assert(b.0 as nat == bb as nat);
                    assert(m@ == dup_msg(block_defs(func, func.block_at(k as int))[i as int].0.0 as nat, func.block_at(k as int) as nat));
                }
                return Err(m);
            }
            proof {
                let np = bd.params@.take(i + 1).map_values(|p: Value| (p, 0int));
                assert(np =~= part.push((p, 0int)));
                assert(tag(np, bb) =~= tag(part, bb).push((p, bb, 0int)));
                part = np;
            }
            let ghost old_defs = defs@;
            seen.push(p);
            defs.push((p, bi, 0));
            proof {
                assert(defs@ =~= old_defs.push((p, bi, 0usize)));
                assert(defs_view(defs@) =~= defs_view(old_defs).push((p, bb, 0int)));
                assert((base + tag(part.drop_last(), bb)).push((p, bb, 0int)) =~= base + tag(part, bb));
                assert(seen@ =~= part.map_values(|e: (Value, int)| e.0));
                assert(defs_view(defs@) =~= base + tag(part, bb));
            }
            i = i + 1;
        }
        proof {
            assert(bd.params@.take(i as int) =~= bd.params@);
            assert(part == block_defs_upto(func, bb, 0));
        }
        let len = len_of(func, blocks, k);
        let mut q: usize = 0;
        while q < len
            invariant
                func.wf(),
                k < n,
                n == blocks@.len(),
                blocks@.len() == func.layout@.order.len(),
                forall|i: int| 0 <= i < blocks@.len() ==> (#[trigger] blocks@[i]).0 == func.layout@.order[i],
                bb == func.block_at(k as int),
                bi == bb,
                bi == b.0,
                0 <= bb < func.blocks@.len(),
                len == func.len_at(k as int),
                q <= len,
                part == block_defs_upto(func, bb, q as int),
                seen@ == part.map_values(|e: (Value, int)| e.0),
                seen@.no_duplicates(),
                base == all_defs(func, k as int),
                defs_view(defs@) == base + tag(part, bb),
                forall|k2: int, i2: int, j2: int| 0 <= k2 < k ==> !dup(func, k2, i2, j2),
            decreases len - q,
        {
            let d = data_of(func, blocks, k, q);
            let ghost before = part;
            let is_return = match d.opcode {
                Opcode::Return => true,
                _ => false,
            };
            if !is_return {
                let mut j: usize = 0;
                while j < d.results.len()
                    invariant
                        func.wf(),
                        k < n,
                        n == func.layout@.order.len(),
                        q < len,
                        len == func.len_at(k as int),
                        bb == func.block_at(k as int),
                        bi == bb,
                        bi == b.0,
                        0 <= bb < func.blocks@.len(),
                        d@ == data_at(func, k as int, q as int),
                        !(d.opcode is Return),
                        before == block_defs_upto(func, bb, q as int),
                        j <= d.results@.len(),
                        part == before + d.results@.take(j as int).map_values(|v: Value| (v, q + 1)),
                        seen@ == part.map_values(|e: (Value, int)| e.0),
                        seen@.no_duplicates(),
                        base == all_defs(func, k as int),
                        defs_view(defs@) == base + tag(part, bb),
                        forall|k2: int, i2: int, j2: int| 0 <= k2 < k ==> !dup(func, k2, i2, j2),
                    decreases d.results@.len() - j,
                {
                    let rv = d.results[j];
                    if holds_value(&seen, rv) {
                        proof {
                            let full = block_defs(func, bb);
                            let next = block_defs_upto(func, bb, q + 1);
                            assert(next == before + d.results@.map_values(|v: Value| (v, q + 1)));
                            lemma_upto_prefix(func, bb, q + 1, func.layout@.contents[bb].len() as int);
                            let i0 = choose|i0: int| 0 <= i0 < seen@.len() && seen@[i0] == rv;
                            let jj = part.len() as int;
                            assert(next[i0] == part[i0]);
                            assert(next[jj] == (rv, q + 1));
                            assert(full.subrange(0, next.len() as int)[i0] == next[i0]);
                            assert(full.subrange(0, next.len() as int)[jj] == next[jj]);
                            assert(full[i0] == next[i0]);
                            assert(full[jj] == next[jj]);
                            assert(full[i0].0 == full[jj].0);
                            assert(dup(func, k as int, i0, jj));
                            assert(full[jj].0.0 == rv.0);
                            assert forall|k2: int, i2: int, j2: int| #[trigger] dup(func, k2, i2, j2) implies !earlier(
                                k2,
                                j2,
                                0,
                                k as int,
                                jj,
                                0,
                            ) by {
                                if k2 == k && j2 < jj {
                                    assert(func.block_at(k2) == bb);
                                    assert(full[i2].0 == full[j2].0);
                                    assert(seen@[i2] == part[i2].0 && seen@[j2] == part[j2].0);
                                    assert(full[i2] == full.subrange(0, next.len() as int)[i2]);
                                    assert(full[j2] == full.subrange(0, next.len() as int)[j2]);
                                    assert(next[i2] == part[i2] && next[j2] == part[j2]);
                                    assert(seen@[i2] == seen@[j2]);
                                }
                            }
                        }
                        let m = dup_message(rv.0, b.0);
                        proof {
                            assert(b.0 as nat == bb as nat);
                            let jj = part.len() as int;
                            assert(m@ == dup_msg(block_defs(func, func.block_at(k as int))[jj].0.0 as nat, func.block_at(k as int) as nat));
                        }
                        return Err(m);
                    }
                    proof {
                        let np = before + d.results@.take(j + 1).map_values(|v: Value| (v, q + 1));
                        assert(np =~= part.push((rv, q + 1)));
                        assert(tag(np, bb) =~= tag(part, bb).push((rv, bb, q + 1)));
                        part = np;
                    }
                    let ghost old_defs = defs@;
                    seen.push(rv);
                    defs.push((rv, bi, q + 1));
                    proof {
                        assert(defs@ =~= old_defs.push((rv, bi, (q + 1) as usize)));
                        assert(defs_view(defs@) =~= defs_view(old_defs).push((rv, bb, q + 1)));
                        assert((base + tag(part.drop_last(), bb)).push((rv, bb, q + 1)) =~= base + tag(part, bb));
                        assert(seen@ =~= part.map_values(|e: (Value, int)| e.0));
                        assert(defs_view(defs@) =~= base + tag(part, bb));
                    }
                    j = j + 1;
                }
                proof {
                    assert(d.results@.take(j as int) =~= d.results@);
                }
            }
            proof {
                assert(block_defs_upto(func, bb, q + 1) =~= part);
            }
            q = q + 1;
        }
        proof {
            assert(part == block_defs(func, bb));
            assert(all_defs(func, k + 1) == base + tag(part, bb));
            assert forall|i2: int, j2: int| !dup(func, k as int, i2, j2) by {
                if dup(func, k as int, i2, j2) {
                    assert(seen@[i2] == seen@[j2]);
                }
            }
        }
        k = k + 1;
    }
    proof {
        assert forall|k2: int, i: int, j: int| !dup(func, k2, i, j) by {
            if dup(func, k2, i, j) {
                assert(0 <= k2 < n);
            }
        }
    }
    Ok(defs)
}

/// No use in a reachable block is out of scope.
pub open spec fn uses_ok(f: &Function) -> bool {
    !exists|k: int, q: int, i: int| bad_use(f, k, q, i)
}

/// The message value scoping fails with: that of the first duplicate
/// definition in layout order, or, where there is none, of the first use
/// out of scope.
pub open spec fn scoping_msg(f: &Function, m: Seq<char>) -> bool {
    ||| (!ssa_ok(f) && exists|k: int, i: int, j: int|
        dup(f, k, i, j) && m == dup_msg(block_defs(f, f.block_at(k))[j].0.0 as nat, f.block_at(k) as nat)
            && forall|k2: int, i2: int, j2: int| #[trigger] dup(f, k2, i2, j2) ==> !earlier(k2, j2, 0, k, j, 0))
    ||| (ssa_ok(f) && exists|k: int, q: int, i: int|
        bad_use(f, k, q, i) && m == use_msg(f, k, q, i) && forall|k2: int, q2: int, i2: int|
            #[trigger] earlier(k2, q2, i2, k, q, i) ==> !bad_use(f, k2, q2, i2))
}

/// What value scoping answers: success exactly when no block defines a
/// value twice and every use is in scope; else the message `scoping_msg`
/// describes.
pub open spec fn scoping_result(f: &Function, r: Result<(), String>) -> bool {
    &&& (r is Ok <==> ssa_ok(f) && uses_ok(f))
    &&& (r matches Err(m) ==> scoping_msg(f, m@))
}

/// Validate that values are only used where they're dominated by their definition.
///
/// Values can be used anywhere their definition dominates, not just within
/// the defining block. Blocks are numbered by index, for the control flow
/// graph, its dominator tree and the messages alike; where a value is
/// defined in several blocks, its last definition in layout order counts.
pub fn validate_value_scoping(func: &Function) -> (r: Result<(), String>)
    requires
        func.wf(),
    ensures
        scoping_result(func, r),
{
    let blocks = func.blocks();
    let n = blocks.len();
    let cfg = ControlFlowGraph::from_function(func);
    proof {
        func.layout.lemma_wf_bounds();
        assert forall|b: int| 0 <= b < func.blocks@.len() implies cfg@.succs[b] =~= flow(func)[b] by {}
        assert(cfg@.succs =~= flow(func));
    }
    let dom = DominatorTree::from_cfg(&cfg);
    let ghost v = dom@;
    let defs = match collect_defs(func, &blocks) {
        Ok(d) => d,
        Err(m) => {
            return Err(m);
        },
    };
    let mut k: usize = 0;
    while k < n
        invariant
            func.wf(),
            n == blocks@.len(),
            blocks@.len() == func.layout@.order.len(),
            forall|i: int| 0 <= i < blocks@.len() ==> (#[trigger] blocks@[i]).0 == func.layout@.order[i],
            cfg.wf(),
            cfg@.succs == flow(func),
            cfg@.entry == 0,
            dom.wf(),
            v == dom@,
            tree_ok(v, flow(func), 0),
            ssa_ok(func),
            defs_view(defs@) == all_defs(func, n as int),
            k <= n,
            forall|k2: int, q: int, i: int| 0 <= k2 < k ==> !bad_use(func, k2, q, i),
        decreases n - k,
    {
        proof {
            func.layout.lemma_order_bound(k as int);
        }
        let bi: usize = blocks[k].0 as usize;
        if cfg.is_reachable(bi) {
            let len = len_of(func, &blocks, k);
            let mut q: usize = 0;
            while q < len
                invariant
                    func.wf(),
                    n == blocks@.len(),
                    blocks@.len() == func.layout@.order.len(),
                    forall|i: int| 0 <= i < blocks@.len() ==> (#[trigger] blocks@[i]).0 == func.layout@.order[i],
                    cfg.wf(),
                    cfg@.succs == flow(func),
                    cfg@.entry == 0,
                    dom.wf(),
                    v == dom@,
                    tree_ok(v, flow(func), 0),
                    ssa_ok(func),
                    defs_view(defs@) == all_defs(func, n as int),
                    k < n,
                    bi == func.block_at(k as int),
                    reachable(func, bi as int),
                    len == func.len_at(k as int),
                    q <= len,
                    forall|k2: int, q2: int, i: int|
                        (0 <= k2 < k || (k2 == k && 0 <= q2 < q)) ==> !bad_use(func, k2, q2, i),
                decreases len - q,
            {
                let d = data_of(func, &blocks, k, q);
                let mut i: usize = 0;
                while i < d.args.len()
                    invariant
                        func.wf(),
                        n == blocks@.len(),
                        blocks@.len() == func.layout@.order.len(),
                        cfg.wf(),
                        cfg@.succs == flow(func),
                        cfg@.entry == 0,
                        dom.wf(),
                        v == dom@,
                        tree_ok(v, flow(func), 0),
                        ssa_ok(func),
                        defs_view(defs@) == all_defs(func, n as int),
                        k < n,
                        bi == func.block_at(k as int),
                        reachable(func, bi as int),
                        len == func.len_at(k as int),
                        q < len,
                        d@ == data_at(func, k as int, q as int),
                        i <= d.args@.len(),
                        forall|k2: int, q2: int, i2: int|
                            (0 <= k2 < k || (k2 == k && 0 <= q2 < q) || (k2 == k && q2 == q && 0 <= i2 < i))
                                ==> !bad_use(func, k2, q2, i2),
                    decreases d.args@.len() - i,
                {
                    let a = d.args[i];
                    assert(forall|k2: int, q2: int, i2: int|
                        #[trigger] earlier(k2, q2, i2, k as int, q as int, i as int) ==> !bad_use(func, k2, q2, i2));
                    match find_def(&defs, a) {
                        None => {
                            let m = use_message(0, a.0, bi, 0, q);
                            assert(bad_use(func, k as int, q as int, i as int));
                            assert(m@ == use_msg(func, k as int, q as int, i as int));
                            return Err(m);
                        },
                        Some((db, dp)) => {
                            if !cfg.is_reachable(db) {
                                let m = use_message(1, a.0, bi, db, q);
                                assert(bad_use(func, k as int, q as int, i as int));
                                assert(m@ == use_msg(func, k as int, q as int, i as int));
                                return Err(m);
                            }
                            if !dom.dominates(db, bi) {
                                let m = use_message(2, a.0, bi, db, q);
                                assert(bad_use(func, k as int, q as int, i as int));
                                assert(m@ == use_msg(func, k as int, q as int, i as int));
                                return Err(m);
                            }
                            if db == bi && dp > q {
                                let m = use_message(3, a.0, bi, db, q);
                                assert(bad_use(func, k as int, q as int, i as int));
                                assert(m@ == use_msg(func, k as int, q as int, i as int));
                                return Err(m);
                            }
                            assert(use_ok(func, k as int, q as int, i as int));
                        },
                    }
                    i = i + 1;
                }
                q = q + 1;
            }
        }
        k = k + 1;
    }
    proof {
        assert forall|k2: int, q: int, i: int| !bad_use(func, k2, q, i) by {
            if bad_use(func, k2, q, i) {
                assert(0 <= k2 < n);
            }
        }
    }
    Ok(())
}

} // verus!
