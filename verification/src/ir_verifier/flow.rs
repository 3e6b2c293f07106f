//! Control flow checks: block references, block arguments, the entry block,
//! the layout's record of where instructions are, and the control flow
//! graph against the branches.

use vstd::prelude::*;

use crate::{
    analysis::{cfg::edge, sorted::contains_sorted, ControlFlowGraph},
    dfg::{inst_data::InstDataView, InstData},
    entity::{Block, Inst},
    function::Function,
    ir_verifier::{
        block_loc, entities::{layout_blocks, missing_target_errs},
        errs_by, errs_view, format::chk, located, prefixed, push_located, push_per_inst, strs, ErrView,
        VerifierError,
    },
    layout::opt_blk,
    parser::validation::{data_at, param_count, placed, targets_of},
    text::{dec, push_dec, push_str},
    value::Value,
};

verus! {

/// Whether a list of blocks holds block `t`.
fn holds_block(blocks: &Vec<Block>, t: Block) -> (r: bool)
    ensures
        r == blocks@.contains(t),
{
    let mut i: usize = 0;
    while i < blocks.len()
        invariant
            i <= blocks@.len(),
            forall|j: int| 0 <= j < i ==> blocks@[j] != t,
        decreases blocks@.len() - i,
    {
        if blocks[i] == t {
            return true;
        }
        i = i + 1;
    }
    false
}

fn push_invalid_targets(out: &mut Vec<String>, blocks: &Vec<Block>, d: &InstData)
    ensures
        strs(final(out)@) == strs(old(out)@) + missing_target_errs(
            blocks@,
            targets_of(d@),
            targets_of(d@).len() as int,
            "Instruction references invalid block block"@,
            ""@,
        ),
{
    let ghost o = strs(out@);
    if let Some(ba) = &d.block_args {
        let mut j: usize = 0;
        while j < ba.targets.len()
            invariant
                d.block_args == Some(*ba),
                j <= ba.targets@.len(),
                strs(out@) == o + missing_target_errs(
                    blocks@,
                    targets_of(d@),
                    j as int,
                    "Instruction references invalid block block"@,
                    ""@,
                ),
            decreases ba.targets@.len() - j,
        {
            let t = ba.targets[j].0;
            assert(targets_of(d@)[j as int].0 == t);
            if !holds_block(blocks, t) {
                let mut m = prefixed("Instruction references invalid block block", t.0 as u64);
                push_str(&mut m, "");
                let ghost mv = m@;
                let ghost before = out@;
                out.push(m);
                proof {
                    assert(strs(out@) =~= strs(before).push(mv));
                }
            }
            proof {
                assert(strs(out@) =~= o + missing_target_errs(
                    blocks@,
                    targets_of(d@),
                    j + 1,
                    "Instruction references invalid block block"@,
                    ""@,
                ));
            }
            j = j + 1;
        }
    }
}

/// The errors of the block reference check.
pub open spec fn reference_errs(f: &Function) -> Seq<ErrView> {
    errs_by(
        f,
        |k: int, i: nat, d: InstDataView|
            missing_target_errs(
                layout_blocks(f),
                targets_of(d),
                targets_of(d).len() as int,
                "Instruction references invalid block block"@,
                ""@,
            ),
        f.layout@.order.len() as int,
    )
}

/// Verify that all block references in control flow instructions are
/// valid: each target that is not a block of the layout gives an error at
/// the instruction.
pub fn verify_block_references(function: &Function, errors: &mut Vec<VerifierError>)
    requires
        function.wf(),
    ensures
        errs_view(final(errors)@) == errs_view(old(errors)@) + reference_errs(function),
{
    let blocks = function.blocks();
    proof {
        assert(blocks@ =~= layout_blocks(function));
    }
    let check = |k: usize, i: Inst, d: &InstData| -> (r: Vec<String>)
        ensures
            strs(r@) == missing_target_errs(
                blocks@,
                targets_of(d@),
                targets_of(d@).len() as int,
                "Instruction references invalid block block"@,
                ""@,
            ),
        {
            let mut out: Vec<String> = Vec::new();
            push_invalid_targets(&mut out, &blocks, d);
            out
        };
    let ghost g = |k: int, i: nat, d: InstDataView|
        missing_target_errs(
            blocks@,
            targets_of(d),
            targets_of(d).len() as int,
            "Instruction references invalid block block"@,
            ""@,
        );
    push_per_inst(function, errors, check, Ghost(g));
    proof {
        assert(g =~= (|k: int, i: nat, d: InstDataView|
            missing_target_errs(
                layout_blocks(function),
                targets_of(d),
                targets_of(d).len() as int,
                "Instruction references invalid block block"@,
                ""@,
            )));
    }
}

/// Errors for the first `j` targets that are block `b` and get a number of
/// arguments other than `e`.
pub open spec fn arg_count_errs(b: Block, e: nat, ts: Seq<(Block, Seq<Value>)>, j: int) -> Seq<Seq<char>>
    decreases j,
{
    if j <= 0 {
        seq![]
    } else {
        arg_count_errs(b, e, ts, j - 1) + if ts[j - 1].0 == b && ts[j - 1].1.len() != e {
            seq![
                "Block block"@ + dec(b.0 as nat) + " expects "@ + dec(e) + " parameters, but "@ + dec(
                    ts[j - 1].1.len(),
                ) + " arguments provided"@,
            ]
        } else {
            seq![]
        }
    }
}

/// The block at position `kb` of the layout, as an entity.
pub open spec fn block_ent(f: &Function, kb: int) -> Block {
    Block(f.layout@.order[kb] as u32)
}

/// The argument count errors for the blocks at the first `kb` positions:
/// for each, the instructions that pass it a wrong number of arguments.
pub open spec fn block_arg_errs(f: &Function, kb: int) -> Seq<ErrView>
    decreases kb,
{
    if kb <= 0 {
        seq![]
    } else {
        block_arg_errs(f, kb - 1) + errs_by(
            f,
            |k: int, i: nat, d: InstDataView|
                arg_count_errs(
                    block_ent(f, kb - 1),
                    param_count(f, block_ent(f, kb - 1)),
                    targets_of(d),
                    targets_of(d).len() as int,
                ),
            f.layout@.order.len() as int,
        )
    }
}

fn push_arg_count_errs(out: &mut Vec<String>, b: Block, e: usize, d: &InstData)
    ensures
        strs(final(out)@) == strs(old(out)@) + arg_count_errs(
            b,
            e as nat,
            targets_of(d@),
            targets_of(d@).len() as int,
        ),
{
    let ghost o = strs(out@);
    if let Some(ba) = &d.block_args {
        let mut j: usize = 0;
        while j < ba.targets.len()
            invariant
                d.block_args == Some(*ba),
                j <= ba.targets@.len(),
                strs(out@) == o + arg_count_errs(b, e as nat, targets_of(d@), j as int),
            decreases ba.targets@.len() - j,
        {
            let t = ba.targets[j].0;
            let a = ba.targets[j].1.len();
            assert(targets_of(d@)[j as int].0 == t);
            assert(targets_of(d@)[j as int].1 == ba.targets@[j as int].1@);
            if t == b && a != e {
                let mut m = prefixed("Block block", b.0 as u64);
                push_str(&mut m, " expects ");
                push_dec(&mut m, e as u64);
                push_str(&mut m, " parameters, but ");
                push_dec(&mut m, a as u64);
                push_str(&mut m, " arguments provided");
                let ghost mv = m@;
                let ghost before = out@;
                out.push(m);
                proof {
                    assert(strs(out@) =~= strs(before).push(mv));
                }
            }
            proof {
                assert(strs(out@) =~= o + arg_count_errs(b, e as nat, targets_of(d@), j + 1));
            }
            j = j + 1;
        }
    }
}

/// Verify that block arguments match block parameters: for each block of
/// the layout in turn, each instruction that passes it a number of
/// arguments other than its number of parameters gives an error at the
/// instruction.
pub fn verify_block_arguments(function: &Function, errors: &mut Vec<VerifierError>)
    requires
        function.wf(),
    ensures
        errs_view(final(errors)@) == errs_view(old(errors)@) + block_arg_errs(
            function,
            function.layout@.order.len() as int,
        ),
{
    let ghost base = errs_view(errors@);
    let blocks = function.blocks();
    let n = blocks.len();
    let mut kb: usize = 0;
    while kb < n
        invariant
            function.wf(),
            n == blocks@.len(),
            blocks@.len() == function.layout@.order.len(),
            forall|i: int| 0 <= i < blocks@.len() ==> (#[trigger] blocks@[i]).0 == function.layout@.order[i],
            kb <= n,
            errs_view(errors@) == base + block_arg_errs(function, kb as int),
        decreases n - kb,
    {
        let b = blocks[kb];
        let e = match function.block_data(b) {
            Some(bd) => bd.params.len(),
            None => 0,
        };
        assert(b == block_ent(function, kb as int));
        let check = |k: usize, i: Inst, d: &InstData| -> (r: Vec<String>)
            ensures
                strs(r@) == arg_count_errs(b, e as nat, targets_of(d@), targets_of(d@).len() as int),
            {
                let mut out: Vec<String> = Vec::new();
                push_arg_count_errs(&mut out, b, e, d);
                out
            };
        let ghost g = |k: int, i: nat, d: InstDataView|
            arg_count_errs(b, e as nat, targets_of(d), targets_of(d).len() as int);
        let ghost mid = errs_view(errors@);
        push_per_inst(function, errors, check, Ghost(g));
        proof {
            assert(g =~= (|k: int, i: nat, d: InstDataView|
                arg_count_errs(
                    block_ent(function, kb as int),
                    param_count(function, block_ent(function, kb as int)),
                    targets_of(d),
                    targets_of(d).len() as int,
                )));
            assert(errs_view(errors@) =~= base + block_arg_errs(function, kb + 1));
        }
        kb = kb + 1;
    }
}

/// Errors for the first `j` targets that are the entry block `e`.
pub open spec fn entry_target_errs(e: Block, ts: Seq<(Block, Seq<Value>)>, j: int) -> Seq<Seq<char>>
    decreases j,
{
    if j <= 0 {
        seq![]
    } else {
        entry_target_errs(e, ts, j - 1) + chk(
            ts[j - 1].0 == e,
            "Entry block "@ + dec(e.0 as nat) + " cannot be branched to"@,
        )
    }
}

/// The errors of the entry block check: a branch to the entry block from
/// an instruction of another block.
pub open spec fn entry_errs(f: &Function) -> Seq<ErrView> {
    if f.layout@.order.len() == 0 {
        seq![]
    } else {
        errs_by(
            f,
            |k: int, i: nat, d: InstDataView|
                if k == 0 {
                    seq![]
                } else {
                    entry_target_errs(block_ent(f, 0), targets_of(d), targets_of(d).len() as int)
                },
            f.layout@.order.len() as int,
        )
    }
}

fn push_entry_target_errs(out: &mut Vec<String>, e: Block, d: &InstData)
    ensures
        strs(final(out)@) == strs(old(out)@) + entry_target_errs(e, targets_of(d@), targets_of(d@).len() as int),
{
    let ghost o = strs(out@);
    if let Some(ba) = &d.block_args {
        let mut j: usize = 0;
        while j < ba.targets.len()
            invariant
                d.block_args == Some(*ba),
                j <= ba.targets@.len(),
                strs(out@) == o + entry_target_errs(e, targets_of(d@), j as int),
            decreases ba.targets@.len() - j,
        {
            let t = ba.targets[j].0;
            assert(targets_of(d@)[j as int].0 == t);
            if t == e {
                let mut m = prefixed("Entry block ", e.0 as u64);
                push_str(&mut m, " cannot be branched to");
                let ghost mv = m@;
                let ghost before = out@;
                out.push(m);
                proof {
                    assert(strs(out@) =~= strs(before).push(mv));
                }
            }
            proof {
                assert(strs(out@) =~= o + entry_target_errs(e, targets_of(d@), j + 1));
            }
            j = j + 1;
        }
    }
}

/// Verify that the entry block is not branched to: each target of an
/// instruction outside the entry block that is the entry block gives an
/// error at the instruction.
pub fn verify_entry_block(function: &Function, errors: &mut Vec<VerifierError>)
    requires
        function.wf(),
    ensures
        errs_view(final(errors)@) == errs_view(old(errors)@) + entry_errs(function),
{
    if let Some(e) = function.entry_block() {
        assert(e == block_ent(function, 0));
        let check = |k: usize, i: Inst, d: &InstData| -> (r: Vec<String>)
            ensures
                strs(r@) == (if k == 0 {
                    seq![]
                } else {
                    entry_target_errs(e, targets_of(d@), targets_of(d@).len() as int)
                }),
            {
                let mut out: Vec<String> = Vec::new();
                if k != 0 {
                    push_entry_target_errs(&mut out, e, d);
                }
                proof {
                    if k == 0 {
                        assert(strs(out@) =~= seq![]);
                    }
                }
                out
            };
        let ghost g = |k: int, i: nat, d: InstDataView|
            if k == 0 {
                seq![]
            } else {
                entry_target_errs(e, targets_of(d), targets_of(d).len() as int)
            };
        push_per_inst(function, errors, check, Ghost(g));
        proof {
            assert(g =~= (|k: int, i: nat, d: InstDataView|
                if k == 0 {
                    seq![]
                } else {
                    entry_target_errs(block_ent(function, 0), targets_of(d), targets_of(d).len() as int)
                }));
        }
    }
}

/// The error of an instruction `i` at position `k` whose recorded block is
/// not the block that holds it.
pub open spec fn placement_errs(f: &Function, k: int, i: nat) -> Seq<Seq<char>> {
    let b = f.block_at(k) as nat;
    match f.layout@.block_of(i) {
        Some(c) => chk(
            c != b,
            "Instruction "@ + dec(i) + " is in block_insts("@ + dec(b) + ") but inst_block() returns "@ + dec(c),
        ),
        None => seq![
            "Instruction "@ + dec(i) + " is in block_insts("@ + dec(b) + ") but inst_block() returns "@ + "None"@,
        ],
    }
}

fn push_placement_errs(out: &mut Vec<String>, function: &Function, blocks: &Vec<Block>, k: usize, inst: Inst)
    requires
        function.wf(),
        blocks@.len() == function.layout@.order.len(),
        forall|j: int| 0 <= j < blocks@.len() ==> (#[trigger] blocks@[j]).0 == function.layout@.order[j],
    ensures
        k < blocks@.len() ==> strs(final(out)@) == strs(old(out)@) + placement_errs(function, k as int, inst.0 as nat),
{
    if k >= blocks.len() {
        return;
    }
    proof {
        function.layout.lemma_order_bound(k as int);
        function.layout.lemma_wf_bounds();
    }
    let b = blocks[k];
    let mut m = prefixed("Instruction ", inst.0 as u64);
    push_str(&mut m, " is in block_insts(");
    push_dec(&mut m, b.0 as u64);
    push_str(&mut m, ") but inst_block() returns ");
    let ghost bb = function.block_at(k as int) as nat;
    let ghost ii = inst.0 as nat;
    assert(b.0 as nat == bb);
    assert(m@ == "Instruction "@ + dec(ii) + " is in block_insts("@ + dec(bb) + ") but inst_block() returns "@);
    match function.layout.inst_block(inst) {
        Some(c) => {
            if c != b {
                proof {
                    let bo = function.layout@.block_of(inst.0 as nat);
                    if let Some(x) = bo {
                        assert(c.0 as nat == x) by {
                            assert(x < function.layout@.num_blocks());
                        }
                    }
                }
                push_dec(&mut m, c.0 as u64);
                let ghost mv = m@;
                proof {
                    let x = function.layout@.block_of(ii).unwrap();
                    assert(c.0 as nat == x);
                    assert(x != bb);
                    assert(placement_errs(function, k as int, ii) == seq![mv]);
                }
                out.push(m);
                proof {
                    assert(strs(out@) =~= strs(old(out)@).push(mv));
                }
            } else {
                proof {
                    let bo = function.layout@.block_of(inst.0 as nat);
                    if let Some(x) = bo {
                        assert(c.0 as nat == x) by {
                            assert(x < function.layout@.num_blocks());
                        }
                    }
                }
            }
        },
        None => {
            push_str(&mut m, "None");
            let ghost mv = m@;
            proof {
                assert(function.layout@.block_of(ii) is None);
                assert(mv =~= "Instruction "@ + dec(ii) + " is in block_insts("@ + dec(bb) + ") but inst_block() returns "@ + "None"@);
                assert(placement_errs(function, k as int, ii) == seq![mv]);
            }
            out.push(m);
            proof {
                assert(strs(out@) =~= strs(old(out)@).push(mv));
            }
        },
    }
    proof {
        assert(strs(out@) =~= strs(old(out)@) + placement_errs(function, k as int, inst.0 as nat));
    }
}

/// Verify instruction-block consistency: each instruction of a block whose
/// recorded block is another, or none, gives an error at the instruction.
pub fn verify_instruction_block_consistency(function: &Function, errors: &mut Vec<VerifierError>)
    requires
        function.wf(),
    ensures
        errs_view(final(errors)@) == errs_view(old(errors)@) + errs_by(
            function,
            |k: int, i: nat, d: InstDataView| placement_errs(function, k, i),
            function.layout@.order.len() as int,
        ),
{
    let blocks = function.blocks();
    let check = |k: usize, i: Inst, d: &InstData| -> (r: Vec<String>)
        requires
            function.wf(),
            blocks@.len() == function.layout@.order.len(),
            forall|j: int| 0 <= j < blocks@.len() ==> (#[trigger] blocks@[j]).0 == function.layout@.order[j],
        ensures
            k < blocks@.len() ==> strs(r@) == placement_errs(function, k as int, i.0 as nat),
        {
            let mut out: Vec<String> = Vec::new();
            push_placement_errs(&mut out, function, &blocks, k, i);
            out
        };
    push_per_inst(function, errors, check, Ghost(|k: int, i: nat, d: InstDataView| placement_errs(function, k, i)));
}


/// The block at position `k` holds an instruction with a target that is
/// block `b`.
pub open spec fn block_branches(f: &Function, k: int, b: nat) -> bool {
    exists|q: int, j: int|
        placed(f, k, q) && 0 <= j < targets_of(data_at(f, k, q)).len() && #[trigger] targets_of(
            data_at(f, k, q),
        )[j].0.0 == b
}

/// Block `p` is in the layout and holds an instruction with a target that
/// is block `b`.
pub open spec fn branches_to(f: &Function, p: nat, b: nat) -> bool {
    exists|k: int| 0 <= k < f.layout@.order.len() && f.block_at(k) == p && #[trigger] block_branches(f, k, b)
}

/// For the first `n` block indices `p`: the message `<prefix><p><middle><b><suffix>`
/// where `c(p)` holds.
pub open spec fn pred_errs(
    c: spec_fn(nat) -> bool,
    n: int,
    b: nat,
    prefix: Seq<char>,
    middle: Seq<char>,
    suffix: Seq<char>,
) -> Seq<Seq<char>>
    decreases n,
{
    if n <= 0 {
        seq![]
    } else {
        pred_errs(c, n - 1, b, prefix, middle, suffix) + if c((n - 1) as nat) {
            seq![prefix + dec((n - 1) as nat) + middle + dec(b) + suffix]
        } else {
            seq![]
        }
    }
}

/// The errors of the control flow graph check for the block at position
/// `kb`: graph predecessors without a branch, then branches the graph lacks.
pub open spec fn block_cfg_errs(f: &Function, kb: int) -> Seq<Seq<char>> {
    let b = f.block_at(kb) as nat;
    let n = f.blocks@.len() as int;
    pred_errs(
        |p: nat| edge(f, p as int, b as usize) && !branches_to(f, p, b),
        n,
        b,
        "CFG shows block"@,
        " as predecessor of block"@,
        ", but no branch found"@,
    ) + pred_errs(
        |p: nat| branches_to(f, p, b) && !edge(f, p as int, b as usize),
        n,
        b,
        "Branch from block"@,
        " to block"@,
        " exists but not in CFG"@,
    )
}

/// The errors of the control flow graph check for the blocks at the first
/// `kb` positions, each at its block.
pub open spec fn cfg_errs(f: &Function, kb: int) -> Seq<ErrView>
    decreases kb,
{
    if kb <= 0 {
        seq![]
    } else {
        cfg_errs(f, kb - 1) + located(block_cfg_errs(f, kb - 1), block_loc(f.block_at(kb - 1) as nat))
    }
}

/// Whether the block at position `k` has an instruction with a target that
/// is block `b`.
fn block_branches_exec(function: &Function, blocks: &Vec<Block>, k: usize, b: usize) -> (r: bool)
    requires
        function.wf(),
        blocks@.len() == function.layout@.order.len(),
        forall|i: int| 0 <= i < blocks@.len() ==> (#[trigger] blocks@[i]).0 == function.layout@.order[i],
        k < blocks@.len(),
    ensures
        r == block_branches(function, k as int, b as nat),
{
    proof {
        function.layout.lemma_order_bound(k as int);
    }
    let len = function.block_insts(blocks[k]).len();
    let mut q: usize = 0;
    while q < len
        invariant
            function.wf(),
            blocks@.len() == function.layout@.order.len(),
            forall|i: int| 0 <= i < blocks@.len() ==> (#[trigger] blocks@[i]).0 == function.layout@.order[i],
            k < blocks@.len(),
            blocks@[k as int].0 < function.blocks@.len(),
            len == function.len_at(k as int),
            q <= len,
            forall|q2: int, j: int|
                0 <= q2 < q && 0 <= j < targets_of(data_at(function, k as int, q2)).len() ==> #[trigger] targets_of(
                    data_at(function, k as int, q2),
                )[j].0.0 != b,
        decreases len - q,
    {
        let d = function.placed_inst(blocks[k], q);
        assert(d@ == data_at(function, k as int, q as int));
        if let Some(ba) = &d.block_args {
            let mut j: usize = 0;
            while j < ba.targets.len()
                invariant
                    d.block_args == Some(*ba),
                    d@ == data_at(function, k as int, q as int),
                    k < function.layout@.order.len(),
                    q < len,
                    len == function.len_at(k as int),
                    j <= ba.targets@.len(),
                    forall|j2: int| 0 <= j2 < j ==> #[trigger] targets_of(d@)[j2].0.0 != b,
                decreases ba.targets@.len() - j,
            {
                assert(targets_of(d@)[j as int].0 == ba.targets@[j as int].0);
                if ba.targets[j].0.0 as usize == b {
                    assert(placed(function, k as int, q as int));
                    return true;
                }
                j = j + 1;
            }
        }
        q = q + 1;
    }
    false
}

/// Whether block `p` is in the layout and branches to block `b`.
fn branches_exec(function: &Function, blocks: &Vec<Block>, p: usize, b: usize) -> (r: bool)
    requires
        function.wf(),
        blocks@.len() == function.layout@.order.len(),
        forall|i: int| 0 <= i < blocks@.len() ==> (#[trigger] blocks@[i]).0 == function.layout@.order[i],
    ensures
        r == branches_to(function, p as nat, b as nat),
{
    let mut k: usize = 0;
    while k < blocks.len()
        invariant
            function.wf(),
            blocks@.len() == function.layout@.order.len(),
            forall|i: int| 0 <= i < blocks@.len() ==> (#[trigger] blocks@[i]).0 == function.layout@.order[i],
            k <= blocks@.len(),
            forall|k2: int|
                0 <= k2 < k ==> !(function.block_at(k2) == p && #[trigger] block_branches(function, k2, b as nat)),
        decreases blocks@.len() - k,
    {
        if blocks[k].0 as usize == p && block_branches_exec(function, blocks, k, b) {
            return true;
        }
        k = k + 1;
    }
    false
}

/// Messages for block indices below `n` that meet the condition computed
/// by `cond`.
fn push_pred_errs(
    out: &mut Vec<String>,
    function: &Function,
    blocks: &Vec<Block>,
    cfg: &ControlFlowGraph,
    b: usize,
    n: usize,
    missing: bool,
)
    requires
        function.wf(),
        blocks@.len() == function.layout@.order.len(),
        forall|i: int| 0 <= i < blocks@.len() ==> (#[trigger] blocks@[i]).0 == function.layout@.order[i],
        cfg.wf(),
        n == function.blocks@.len(),
        cfg@.preds.len() == n,
        b < n,
        forall|p: usize| #[trigger] cfg@.preds[b as int].contains(p) <==> edge(function, p as int, b),
    ensures
        missing ==> strs(final(out)@) == strs(old(out)@) + pred_errs(
            |p: nat| edge(function, p as int, b) && !branches_to(function, p, b as nat),
            n as int,
            b as nat,
            "CFG shows block"@,
            " as predecessor of block"@,
            ", but no branch found"@,
        ),
        !missing ==> strs(final(out)@) == strs(old(out)@) + pred_errs(
            |p: nat| branches_to(function, p, b as nat) && !edge(function, p as int, b),
            n as int,
            b as nat,
            "Branch from block"@,
            " to block"@,
            " exists but not in CFG"@,
        ),
{
    let ghost c = if missing {
        |p: nat| edge(function, p as int, b) && !branches_to(function, p, b as nat)
    } else {
        |p: nat| branches_to(function, p, b as nat) && !edge(function, p as int, b)
    };
    let (prefix, middle, suffix) = if missing {
        ("CFG shows block", " as predecessor of block", ", but no branch found")
    } else {
        ("Branch from block", " to block", " exists but not in CFG")
    };
    let ghost o = strs(out@);
    let preds = cfg.predecessors(b);
    let mut p: usize = 0;
    while p < n
        invariant
            function.wf(),
            blocks@.len() == function.layout@.order.len(),
            forall|i: int| 0 <= i < blocks@.len() ==> (#[trigger] blocks@[i]).0 == function.layout@.order[i],
            p <= n,
            preds@.to_set() == cfg@.preds[b as int],
            forall|x: usize| #[trigger] cfg@.preds[b as int].contains(x) <==> edge(function, x as int, b),
            c == (if missing {
                |p: nat| edge(function, p as int, b) && !branches_to(function, p, b as nat)
            } else {
                |p: nat| branches_to(function, p, b as nat) && !edge(function, p as int, b)
            }),
            strs(out@) == o + pred_errs(c, p as int, b as nat, prefix@, middle@, suffix@),
        decreases n - p,
    {
        let in_cfg = contains_sorted(preds, p);
        let has_branch = branches_exec(function, blocks, p, b);
        proof {
            assert(preds@.to_set().contains(p) == preds@.contains(p));
            assert(in_cfg == edge(function, p as int, b));
        }
        let hit = if missing {
            in_cfg && !has_branch
        } else {
            has_branch && !in_cfg
        };
        assert(hit == c(p as nat));
        if hit {
            let mut m = prefixed(prefix, p as u64);
            push_str(&mut m, middle);
            push_dec(&mut m, b as u64);
            push_str(&mut m, suffix);
            let ghost mv = m@;
            let ghost before = out@;
            out.push(m);
            proof {
                assert(strs(out@) =~= strs(before).push(mv));
            }
        }
        proof {
            assert(strs(out@) =~= o + pred_errs(c, p + 1, b as nat, prefix@, middle@, suffix@));
        }
        p = p + 1;
    }
}

/// Verify CFG consistency: for each block of the layout, the control flow
/// graph's predecessors without a branch to it, then the blocks that
/// branch to it and that the graph lacks, give errors at the block.
pub fn verify_cfg_consistency(function: &Function, errors: &mut Vec<VerifierError>)
    requires
        function.wf(),
    ensures
        errs_view(final(errors)@) == errs_view(old(errors)@) + cfg_errs(function, function.layout@.order.len() as int),
{
    let ghost base = errs_view(errors@);
    let cfg = ControlFlowGraph::from_function(function);
    let n = function.block_count();
    let blocks = function.blocks();
    let nl = blocks.len();
    let mut kb: usize = 0;
    while kb < nl
        invariant
            function.wf(),
            nl == blocks@.len(),
            blocks@.len() == function.layout@.order.len(),
            forall|i: int| 0 <= i < blocks@.len() ==> (#[trigger] blocks@[i]).0 == function.layout@.order[i],
            cfg.wf(),
            n == function.blocks@.len(),
            cfg@.preds.len() == n,
            forall|b: usize, t: int|
                0 <= t < n ==> (#[trigger] cfg@.preds[t].contains(b) <==> edge(function, b as int, t as usize)),
            kb <= nl,
            errs_view(errors@) == base + cfg_errs(function, kb as int),
        decreases nl - kb,
    {
        proof {
            function.layout.lemma_order_bound(kb as int);
        }
        let b = blocks[kb].0 as usize;
        let mut msgs: Vec<String> = Vec::new();
        push_pred_errs(&mut msgs, function, &blocks, &cfg, b, n, true);
        push_pred_errs(&mut msgs, function, &blocks, &cfg, b, n, false);
        let loc = prefixed("block", b as u64);
        push_located(errors, msgs, &loc);
        proof {
            assert(strs(msgs@) =~= block_cfg_errs(function, kb as int));
            assert(errs_view(errors@) =~= base + cfg_errs(function, kb + 1));
        }
        kb = kb + 1;
    }
}


/// The errors of the control flow checks.
pub open spec fn flow_errs(f: &Function) -> Seq<ErrView> {
    let n = f.layout@.order.len() as int;
    reference_errs(f) + block_arg_errs(f, n) + entry_errs(f) + errs_by(
        f,
        |k: int, i: nat, d: InstDataView| placement_errs(f, k, i),
        n,
    ) + cfg_errs(f, n)
}

/// Verify CFG integrity
///
/// Checks:
/// - All block references in control flow instructions are valid
/// - Block parameters match arguments passed to them
/// - Entry block cannot be branched to (no predecessors)
/// - Instruction-block consistency (inst_block matches block_insts iterator)
/// - CFG-predecessor consistency (all CFG predecessors have branches)
/// - Branch-CFG consistency (all branches are in CFG)
pub fn verify_cfg(function: &Function, errors: &mut Vec<VerifierError>)
    requires
        function.wf(),
    ensures
        errs_view(final(errors)@) == errs_view(old(errors)@) + flow_errs(function),
{
    let ghost o = errs_view(errors@);
    verify_block_references(function, errors);
    verify_block_arguments(function, errors);
    verify_entry_block(function, errors);
    verify_instruction_block_consistency(function, errors);
    verify_cfg_consistency(function, errors);
    proof {
        assert(errs_view(errors@) =~= o + flow_errs(function));
    }
}

} // verus!
