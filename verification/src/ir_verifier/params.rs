//! Block parameter checks: a block parameter is used only in its block.

use vstd::prelude::*;

use crate::{
    dfg::{inst_data::InstDataView, InstData},
    entity::{Block, Inst},
    function::Function,
    ir_verifier::{errs_by, errs_view, format::chk, lemma_errs_by_agree, prefixed, push_per_inst, strs, ErrView, VerifierError},
    text::{dec, push_dec, push_str},
    value::Value,
};

verus! {

/// The error for a use of parameter `p` of the block with index `b` in an
/// instruction of the block at position `k` (index `o`), where `k` is not
/// `kb`, the position of `b`.
pub open spec fn foreign_use_errs(kb: int, b: nat, p: Value, k: int, o: nat, d: InstDataView) -> Seq<Seq<char>> {
    chk(
        k != kb && d.args.contains(p),
        "Block parameter v"@ + dec(p.0 as nat) + " from block block"@ + dec(b) + " is used in block block"@ + dec(o),
    )
}

/// The errors for the first `j` parameters of the block at position `kb`.
pub open spec fn param_use_errs(f: &Function, kb: int, j: int) -> Seq<ErrView>
    decreases j,
{
    if j <= 0 {
        seq![]
    } else {
        let b = f.block_at(kb);
        param_use_errs(f, kb, j - 1) + errs_by(
            f,
            |k: int, i: nat, d: InstDataView|
                foreign_use_errs(kb, b as nat, f.blocks@[b].params@[j - 1], k, f.block_at(k) as nat, d),
            f.layout@.order.len() as int,
        )
    }
}

/// The errors for the blocks at the first `kb` positions.
pub open spec fn dominance_errs(f: &Function, kb: int) -> Seq<ErrView>
    decreases kb,
{
    if kb <= 0 {
        seq![]
    } else {
        dominance_errs(f, kb - 1) + param_use_errs(
            f,
            kb - 1,
            f.blocks@[f.block_at(kb - 1)].params@.len() as int,
        )
    }
}

/// Whether a list of values holds `v`.
fn holds_value(s: &Vec<Value>, v: Value) -> (r: bool)
    ensures
        r == s@.contains(v),
{
    let mut i: usize = 0;
    while i < s.len()
        invariant
            i <= s@.len(),
            forall|j: int| 0 <= j < i ==> s@[j] != v,
        decreases s@.len() - i,
    {
        if s[i] == v {
            return true;
        }
        i = i + 1;
    }
    false
}

fn foreign_use_msgs(kb: usize, b: u32, p: Value, k: usize, o: u32, d: &InstData) -> (r: Vec<String>)
    ensures
        strs(r@) == foreign_use_errs(kb as int, b as nat, p, k as int, o as nat, d@),
{
    let mut out: Vec<String> = Vec::new();
    if k != kb && holds_value(&d.args, p) {
        let mut m = prefixed("Block parameter v", p.0 as u64);
        push_str(&mut m, " from block block");
        push_dec(&mut m, b as u64);
        push_str(&mut m, " is used in block block");
        push_dec(&mut m, o as u64);
        out.push(m);
    }
    proof {
        assert(strs(out@) =~= foreign_use_errs(kb as int, b as nat, p, k as int, o as nat, d@));
    }
    out
}

/// Verify that block parameters are only used in their defining block:
/// for each block of the layout and each of its parameters in turn, each
/// instruction of another block that uses the parameter gives an error at
/// the instruction.
pub fn verify_dominance(function: &Function, errors: &mut Vec<VerifierError>)
    requires
        function.wf(),
    ensures
        errs_view(final(errors)@) == errs_view(old(errors)@) + dominance_errs(
            function,
            function.layout@.order.len() as int,
        ),
{
    let ghost base = errs_view(errors@);
    let blocks = function.blocks();
    let n = blocks.len();
    let mut kb: usize = 0;
    while kb < n
        invariant
            function.wf(),
            n == blocks@.len(),
            blocks@.len() == function.layout@.order.len(),
            forall|i: int| 0 <= i < blocks@.len() ==> (#[trigger] blocks@[i]).0 == function.layout@.order[i],
            kb <= n,
            errs_view(errors@) == base + dominance_errs(function, kb as int),
        decreases n - kb,
    {
        proof {
            function.layout.lemma_order_bound(kb as int);
        }
        let b = blocks[kb];
        let bd = function.block_data(b).unwrap();
        let ghost mid = errs_view(errors@);
        let mut j: usize = 0;
        while j < bd.params.len()
            invariant
                function.wf(),
                n == blocks@.len(),
                blocks@.len() == function.layout@.order.len(),
                forall|i: int| 0 <= i < blocks@.len() ==> (#[trigger] blocks@[i]).0 == function.layout@.order[i],
                kb < n,
                b.0 == function.block_at(kb as int),
                b.0 < function.blocks@.len(),
                *bd == function.blocks@[b.0 as int],
                j <= bd.params@.len(),
                errs_view(errors@) == mid + param_use_errs(function, kb as int, j as int),
            decreases bd.params@.len() - j,
        {
            let p = bd.params[j];
            let check = |k: usize, i: Inst, d: &InstData| -> (r: Vec<String>)
                requires
                    k < blocks@.len(),
                ensures
                    strs(r@) == foreign_use_errs(kb as int, b.0 as nat, p, k as int, blocks@[k as int].0 as nat, d@),
                {
                    foreign_use_msgs(kb, b.0, p, k, blocks[k].0, d)
                };
            let ghost g = |k: int, i: nat, d: InstDataView|
                foreign_use_errs(kb as int, b.0 as nat, p, k, blocks@[k].0 as nat, d);
            let ghost before = errs_view(errors@);
            push_per_inst(function, errors, check, Ghost(g));
            proof {
                let g2 = |k: int, i: nat, d: InstDataView|
                    foreign_use_errs(
                        kb as int,
                        function.block_at(kb as int) as nat,
                        function.blocks@[function.block_at(kb as int)].params@[j as int],
                        k,
                        function.block_at(k) as nat,
                        d,
                    );
                assert(errs_by(function, g, n as int) == errs_by(function, g2, n as int)) by {
                    lemma_errs_by_agree(function, g, g2, n as int);
                }
                assert(errs_view(errors@) =~= mid + param_use_errs(function, kb as int, j + 1));
            }
            j = j + 1;
        }
        proof {
            assert(errs_view(errors@) =~= base + dominance_errs(function, kb + 1));
        }
        kb = kb + 1;
    }
}

} // verus!
