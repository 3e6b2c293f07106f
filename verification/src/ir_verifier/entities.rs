//! Entity existence validation.
//!
//! Validates that all referenced entities (values, blocks, functions) exist.

use vstd::prelude::*;

use crate::{
    dfg::{inst_data::InstDataView, InstData, Opcode},
    entity::{Block, Inst},
    function::Function,
    ir_verifier::{errs_by, errs_view, prefixed, push_per_inst, strs, ErrView, VerifierError},
    ir_verifier::format::chk,
    module::Module,
    parser::validation::{data_at, placed, targets_of},
    value::Value,
    text::dec,
};

verus! {

/// Whether a list of blocks holds block `t`.
fn holds_block(blocks: &Vec<Block>, t: Block) -> (r: bool)
    ensures
        r == blocks@.contains(t),
{
    let mut i: usize = 0;
    while i < blocks.len()
        invariant
            i <= blocks@.len(),
            forall|j: int| 0 <= j < i ==> blocks@[j] != t,
        decreases blocks@.len() - i,
    {
        if blocks[i] == t {
            return true;
        }
        i = i + 1;
    }
    false
}

/// The blocks in layout order, as block entities.
pub open spec fn layout_blocks(f: &Function) -> Seq<Block> {
    f.layout@.order.map_values(|b: nat| Block(b as u32))
}

/// The targets of the first `j` block arguments of an instruction that are
/// not blocks of the layout: a message for each, `<prefix><t><suffix>`.
pub open spec fn missing_target_errs(
    blocks: Seq<Block>,
    ts: Seq<(Block, Seq<Value>)>,
    j: int,
    prefix: Seq<char>,
    suffix: Seq<char>,
) -> Seq<Seq<char>>
    decreases j,
{
    if j <= 0 {
        seq![]
    } else {
        missing_target_errs(blocks, ts, j - 1, prefix, suffix) + if blocks.contains(ts[j - 1].0) {
            seq![]
        } else {
            seq![prefix + dec(ts[j - 1].0.0 as nat) + suffix]
        }
    }
}

fn push_missing_targets(
    out: &mut Vec<String>,
    blocks: &Vec<Block>,
    d: &InstData,
    prefix: &str,
    suffix: &str,
)
    ensures
        strs(final(out)@) == strs(old(out)@) + missing_target_errs(
            blocks@,
            targets_of(d@),
            targets_of(d@).len() as int,
            prefix@,
            suffix@,
        ),
{
    let ghost o = strs(out@);
    if let Some(ba) = &d.block_args {
        let mut j: usize = 0;
        while j < ba.targets.len()
            invariant
                d.block_args == Some(*ba),
                j <= ba.targets@.len(),
                strs(out@) == o + missing_target_errs(blocks@, targets_of(d@), j as int, prefix@, suffix@),
            decreases ba.targets@.len() - j,
        {
            let t = ba.targets[j].0;
            assert(targets_of(d@)[j as int].0 == t);
            if !holds_block(blocks, t) {
                let mut m = prefixed(prefix, t.0 as u64);
                crate::text::push_str(&mut m, suffix);
                let ghost mv = m@;
                let ghost before = out@;
                out.push(m);
                proof {
                    assert(strs(out@) =~= strs(before).push(mv));
                }
            }
            proof {
                assert(strs(out@) =~= o + missing_target_errs(blocks@, targets_of(d@), j + 1, prefix@, suffix@));
            }
            j = j + 1;
        }
    }
}

/// The blocks of the layout, in order, as entities.
fn blocks_of(function: &Function) -> (r: Vec<Block>)
    requires
        function.wf(),
    ensures
        r@ == layout_blocks(function),
{
    let r = function.blocks();
    proof {
        assert(r@ =~= layout_blocks(function));
    }
    r
}

/// Verify that all referenced blocks exist: each target of each
/// instruction that is not a block of the layout gives an error at the
/// instruction.
pub fn verify_blocks(function: &Function, errors: &mut Vec<VerifierError>)
    requires
        function.wf(),
    ensures
        errs_view(final(errors)@) == errs_view(old(errors)@) + errs_by(
            function,
            |k: int, i: nat, d: InstDataView|
                missing_target_errs(
                    layout_blocks(function),
                    targets_of(d),
                    targets_of(d).len() as int,
                    "Block "@,
                    " is referenced but does not exist in function"@,
                ),
            function.layout@.order.len() as int,
        ),
{
    let blocks = blocks_of(function);
    let check = |k: usize, i: Inst, d: &InstData| -> (r: Vec<String>)
        ensures
            strs(r@) == missing_target_errs(
                blocks@,
                targets_of(d@),
                targets_of(d@).len() as int,
                "Block "@,
                " is referenced but does not exist in function"@,
            ),
        {
            let mut out: Vec<String> = Vec::new();
            push_missing_targets(&mut out, &blocks, d, "Block ", " is referenced but does not exist in function");
            out
        };
    let ghost g = |k: int, i: nat, d: InstDataView|
        missing_target_errs(
            blocks@,
            targets_of(d),
            targets_of(d).len() as int,
            "Block "@,
            " is referenced but does not exist in function"@,
        );
    push_per_inst(function, errors, check, Ghost(g));
    proof {
        assert(g =~= (|k: int, i: nat, d: InstDataView|
            missing_target_errs(
                layout_blocks(function),
                targets_of(d),
                targets_of(d).len() as int,
                "Block "@,
                " is referenced but does not exist in function"@,
            )));
    }
}

/// Value `v` is a parameter of one of the blocks at the first `k` positions
/// of the layout.
pub open spec fn param_def(f: &Function, v: Value, k: int) -> bool {
    exists|k2: int| 0 <= k2 < k && #[trigger] f.blocks@[f.block_at(k2)].params@.contains(v)
}

/// Value `v` is a result of an instruction before position `q` of the block
/// at position `k` of the layout, or of one in an earlier block.
pub open spec fn result_def(f: &Function, v: Value, k: int, q: int) -> bool {
    exists|k2: int, q2: int|
        ((0 <= k2 < k && 0 <= q2 < f.len_at(k2)) || (k2 == k && 0 <= q2 < q)) && #[trigger] data_at(
            f,
            k2,
            q2,
        ).results.contains(v)
}

/// Value `v` is defined in `f`: a parameter of a block of the layout, or a
/// result of an instruction in one.
pub open spec fn is_defined(f: &Function, v: Value) -> bool {
    param_def(f, v, f.layout@.order.len() as int) || result_def(f, v, f.layout@.order.len() as int, 0)
}

/// Append all of `vs` to `defs`.
fn push_all(defs: &mut Vec<Value>, vs: &Vec<Value>)
    ensures
        forall|v: Value| #![all_triggers] final(defs)@.contains(v) <==> (old(defs)@.contains(v) || vs@.contains(v)),
{
    let ghost start = defs@;
    let mut i: usize = 0;
    while i < vs.len()
        invariant
            i <= vs@.len(),
            forall|v: Value| #![all_triggers] defs@.contains(v) <==> (start.contains(v) || vs@.subrange(0, i as int).contains(v)),
        decreases vs@.len() - i,
    {
        let ghost before = defs@;
        let p = vs[i];
        defs.push(p);
        proof {
            assert forall|v: Value| #![all_triggers]
                defs@.contains(v) <==> (start.contains(v) || vs@.subrange(0, i + 1).contains(v)) by {
                assert(defs@ =~= before.push(p));
                if defs@.contains(v) && v != p {
                    let j = choose|j: int| 0 <= j < defs@.len() && #[trigger] defs@[j] == v;
                    assert(before[j] == v);
                }
                if vs@.subrange(0, i + 1).contains(v) && v != p {
                    let j = choose|j: int| 0 <= j < i + 1 && #[trigger] vs@.subrange(0, i + 1)[j] == v;
                    assert(vs@.subrange(0, i as int)[j] == v);
                }
                if vs@.subrange(0, i as int).contains(v) {
                    let j = choose|j: int| 0 <= j < i && #[trigger] vs@.subrange(0, i as int)[j] == v;
                    assert(vs@.subrange(0, i + 1)[j] == v);
                }
                if before.contains(v) {
                    let j = choose|j: int| 0 <= j < before.len() && #[trigger] before[j] == v;
                    assert(defs@[j] == v);
                }
                if v == p {
                    assert(defs@[before.len() as int] == v);
                    assert(vs@.subrange(0, i + 1)[i as int] == v);
                }
            }
        }
        i = i + 1;
    }
    proof {
        assert(vs@.subrange(0, i as int) =~= vs@);
    }
}

/// The values defined in a function.
fn defined_values(function: &Function) -> (r: Vec<Value>)
    requires
        function.wf(),
    ensures
        forall|v: Value| #![all_triggers] r@.contains(v) <==> is_defined(function, v),
{
    let blocks = function.blocks();
    let n = blocks.len();
    let mut defs: Vec<Value> = Vec::new();
    let mut k: usize = 0;
    while k < n
        invariant
            function.wf(),
            n == blocks@.len(),
            blocks@.len() == function.layout@.order.len(),
            forall|i: int| 0 <= i < blocks@.len() ==> (#[trigger] blocks@[i]).0 == function.layout@.order[i],
            k <= n,
            forall|v: Value| #![all_triggers] defs@.contains(v) <==> param_def(function, v, k as int),
        decreases n - k,
    {
        proof {
            function.layout.lemma_order_bound(k as int);
        }
        let bd = function.block_data(blocks[k]).unwrap();
        push_all(&mut defs, &bd.params);
        proof {
            assert forall|v: Value| #![all_triggers] defs@.contains(v) <==> param_def(function, v, k + 1) by {
                if param_def(function, v, k + 1) && !param_def(function, v, k as int) {
                    let k2 = choose|k2: int|
                        0 <= k2 < k + 1 && #[trigger] function.blocks@[function.block_at(k2)].params@.contains(v);
                    assert(k2 == k);
                }
                if bd.params@.contains(v) {
                    assert(function.blocks@[function.block_at(k as int)].params@.contains(v));
                }
            }
        }
        k = k + 1;
    }
    let ghost pdefs = defs@;
    let mut k2: usize = 0;
    while k2 < n
        invariant
            function.wf(),
            n == blocks@.len(),
            blocks@.len() == function.layout@.order.len(),
            forall|i: int| 0 <= i < blocks@.len() ==> (#[trigger] blocks@[i]).0 == function.layout@.order[i],
            k2 <= n,
            forall|v: Value| #![all_triggers] pdefs.contains(v) <==> param_def(function, v, n as int),
            forall|v: Value| #![all_triggers] defs@.contains(v) <==> (pdefs.contains(v) || result_def(function, v, k2 as int, 0)),
        decreases n - k2,
    {
        proof {
            function.layout.lemma_order_bound(k2 as int);
        }
        let len = function.block_insts(blocks[k2]).len();
        let mut q: usize = 0;
        while q < len
            invariant
                function.wf(),
                n == blocks@.len(),
                blocks@.len() == function.layout@.order.len(),
                forall|i: int| 0 <= i < blocks@.len() ==> (#[trigger] blocks@[i]).0 == function.layout@.order[i],
                k2 < n,
                blocks@[k2 as int].0 < function.blocks@.len(),
                len == function.len_at(k2 as int),
                q <= len,
                forall|v: Value| #![all_triggers] defs@.contains(v) <==> (pdefs.contains(v) || result_def(function, v, k2 as int, q as int)),
            decreases len - q,
        {
            let d = function.placed_inst(blocks[k2], q);
            push_all(&mut defs, &d.results);
            proof {
                assert(d@ == data_at(function, k2 as int, q as int));
                assert forall|v: Value| #![all_triggers]
                    defs@.contains(v) <==> (pdefs.contains(v) || result_def(function, v, k2 as int, q + 1)) by {
                    if result_def(function, v, k2 as int, q + 1) && !result_def(function, v, k2 as int, q as int) {
                        let (ka, qa) = choose|ka: int, qa: int|
                            ((0 <= ka < k2 && 0 <= qa < function.len_at(ka)) || (ka == k2 && 0 <= qa < q + 1))
                                && #[trigger] data_at(function, ka, qa).results.contains(v);
                        assert(ka == k2 && qa == q);
                    }
                    if d.results@.contains(v) {
                        assert(data_at(function, k2 as int, q as int).results.contains(v));
                    }
                }
            }
            q = q + 1;
        }
        proof {
            assert forall|v: Value| #![all_triggers] defs@.contains(v) <==> (pdefs.contains(v) || result_def(function, v, k2 + 1, 0)) by {
                if result_def(function, v, k2 as int, len as int) {
                    let (ka, qa) = choose|ka: int, qa: int|
                        ((0 <= ka < k2 && 0 <= qa < function.len_at(ka)) || (ka == k2 && 0 <= qa < len))
                            && #[trigger] data_at(function, ka, qa).results.contains(v);
                    assert(0 <= ka < k2 + 1 && 0 <= qa < function.len_at(ka));
                }
                if result_def(function, v, k2 + 1, 0) {
                    let (ka, qa) = choose|ka: int, qa: int|
                        ((0 <= ka < k2 + 1 && 0 <= qa < function.len_at(ka)) || (ka == k2 + 1 && 0 <= qa < 0))
                            && #[trigger] data_at(function, ka, qa).results.contains(v);
                    if ka == k2 {
                        assert(ka == k2 && 0 <= qa < len);
                    }
                }
            }
        }
        k2 = k2 + 1;
    }
    defs
}

/// A message `Value <v><suffix>` for each of the first `n` values of `vs`
/// that `defined` does not hold.
pub open spec fn undefined_errs(
    defined: spec_fn(Value) -> bool,
    vs: Seq<Value>,
    n: int,
    suffix: Seq<char>,
) -> Seq<Seq<char>>
    decreases n,
{
    if n <= 0 {
        seq![]
    } else {
        undefined_errs(defined, vs, n - 1, suffix) + if defined(vs[n - 1]) {
            seq![]
        } else {
            seq!["Value "@ + dec(vs[n - 1].0 as nat) + suffix]
        }
    }
}

/// The undefined values passed to the first `j` targets.
pub open spec fn passed_errs(defined: spec_fn(Value) -> bool, ts: Seq<(Block, Seq<Value>)>, j: int) -> Seq<
    Seq<char>,
>
    decreases j,
{
    if j <= 0 {
        seq![]
    } else {
        passed_errs(defined, ts, j - 1) + undefined_errs(
            defined,
            ts[j - 1].1,
            ts[j - 1].1.len() as int,
            " passed to block but never defined"@,
        )
    }
}

/// The errors for undefined values an instruction uses or passes to blocks.
pub open spec fn value_errs(defined: spec_fn(Value) -> bool, d: InstDataView) -> Seq<Seq<char>> {
    undefined_errs(defined, d.args, d.args.len() as int, " is used but never defined"@) + passed_errs(
        defined,
        targets_of(d),
        targets_of(d).len() as int,
    )
}

fn push_undefined(out: &mut Vec<String>, defs: &Vec<Value>, vs: &Vec<Value>, suffix: &str)
    ensures
        strs(final(out)@) == strs(old(out)@) + undefined_errs(
            |v: Value| defs@.contains(v),
            vs@,
            vs@.len() as int,
            suffix@,
        ),
{
    let ghost o = strs(out@);
    let mut i: usize = 0;
    while i < vs.len()
        invariant
            i <= vs@.len(),
            strs(out@) == o + undefined_errs(|v: Value| defs@.contains(v), vs@, i as int, suffix@),
        decreases vs@.len() - i,
    {
        let v = vs[i];
        if !holds_value(defs, v) {
            let mut m = prefixed("Value ", v.0 as u64);
            crate::text::push_str(&mut m, suffix);
            let ghost mv = m@;
            let ghost before = out@;
            out.push(m);
            proof {
                assert(strs(out@) =~= strs(before).push(mv));
            }
        }
        proof {
            assert(strs(out@) =~= o + undefined_errs(|v: Value| defs@.contains(v), vs@, i + 1, suffix@));
        }
        i = i + 1;
    }
}

/// Whether a list of values holds `v`.
fn holds_value(s: &Vec<Value>, v: Value) -> (r: bool)
    ensures
        r == s@.contains(v),
{
    let mut i: usize = 0;
    while i < s.len()
        invariant
            i <= s@.len(),
            forall|j: int| 0 <= j < i ==> s@[j] != v,
        decreases s@.len() - i,
    {
        if s[i] == v {
            return true;
        }
        i = i + 1;
    }
    false
}

fn push_value_errs(out: &mut Vec<String>, defs: &Vec<Value>, d: &InstData)
    ensures
        strs(final(out)@) == strs(old(out)@) + value_errs(|v: Value| defs@.contains(v), d@),
{
    let ghost o = strs(out@);
    push_undefined(out, defs, &d.args, " is used but never defined");
    let ghost o2 = strs(out@);
    if let Some(ba) = &d.block_args {
        let mut j: usize = 0;
        while j < ba.targets.len()
            invariant
                d.block_args == Some(*ba),
                j <= ba.targets@.len(),
                strs(out@) == o2 + passed_errs(|v: Value| defs@.contains(v), targets_of(d@), j as int),
            decreases ba.targets@.len() - j,
        {
            assert(targets_of(d@)[j as int].1 == ba.targets@[j as int].1@);
            push_undefined(out, defs, &ba.targets[j].1, " passed to block but never defined");
            proof {
                assert(strs(out@) =~= o2 + passed_errs(|v: Value| defs@.contains(v), targets_of(d@), j + 1));
            }
            j = j + 1;
        }
    }
    proof {
        assert(strs(out@) =~= o + value_errs(|v: Value| defs@.contains(v), d@));
    }
}

/// Verify that all referenced values exist: each value an instruction uses,
/// or passes to a block, that is neither a parameter of a block of the
/// layout nor a result of an instruction in one, gives an error at the
/// instruction.
pub fn verify_values(function: &Function, errors: &mut Vec<VerifierError>)
    requires
        function.wf(),
    ensures
        errs_view(final(errors)@) == errs_view(old(errors)@) + errs_by(
            function,
            |k: int, i: nat, d: InstDataView| value_errs(|v: Value| is_defined(function, v), d),
            function.layout@.order.len() as int,
        ),
{
    let defs = defined_values(function);
    let check = |k: usize, i: Inst, d: &InstData| -> (r: Vec<String>)
        ensures
            strs(r@) == value_errs(|v: Value| defs@.contains(v), d@),
        {
            let mut out: Vec<String> = Vec::new();
            push_value_errs(&mut out, &defs, d);
            out
        };
    let ghost g = |k: int, i: nat, d: InstDataView| value_errs(|v: Value| defs@.contains(v), d);
    push_per_inst(function, errors, check, Ghost(g));
    proof {
        assert((|v: Value| defs@.contains(v)) =~= (|v: Value| is_defined(function, v)));
        assert(g =~= (|k: int, i: nat, d: InstDataView| value_errs(|v: Value| is_defined(function, v), d)));
    }
}

/// The error for a call to a function the module does not hold.
pub open spec fn call_errs(module: &Module, d: InstDataView) -> Seq<Seq<char>> {
    match d.opcode {
        Opcode::Call { callee } => chk_missing(module.lookup(callee@) is None, callee@),
        _ => seq![],
    }
}

/// The message for a call to a missing function `name`, where `c` holds.
pub open spec fn chk_missing(c: bool, name: Seq<char>) -> Seq<Seq<char>> {
    if c {
        seq!["Function '"@ + name + "' is called but does not exist in module"@]
    } else {
        seq![]
    }
}

fn push_call_errs(out: &mut Vec<String>, module: &Module, d: &InstData)
    requires
        module.wf(),
    ensures
        strs(final(out)@) == strs(old(out)@) + call_errs(module, d@),
{
    if let Opcode::Call { callee } = &d.opcode {
        if module.get_function(callee.as_str()).is_none() {
            let mut m = String::new();
            crate::text::push_str(&mut m, "Function '");
            crate::text::push_str(&mut m, callee.as_str());
            crate::text::push_str(&mut m, "' is called but does not exist in module");
            let ghost mv = m@;
            out.push(m);
            proof {
                assert(strs(out@) =~= strs(old(out)@).push(mv));
            }
        }
    }
    proof {
        assert(strs(out@) =~= strs(old(out)@) + call_errs(module, d@));
    }
}

/// Verify that all called functions exist in the module: each call of a
/// function the module does not hold gives an error at the instruction.
pub fn verify_functions(function: &Function, errors: &mut Vec<VerifierError>, module: &Module)
    requires
        function.wf(),
        module.wf(),
    ensures
        errs_view(final(errors)@) == errs_view(old(errors)@) + errs_by(
            function,
            |k: int, i: nat, d: InstDataView| call_errs(module, d),
            function.layout@.order.len() as int,
        ),
{
    let check = |k: usize, i: Inst, d: &InstData| -> (r: Vec<String>)
        requires
            module.wf(),
        ensures
            strs(r@) == call_errs(module, d@),
        {
            let mut out: Vec<String> = Vec::new();
            push_call_errs(&mut out, module, d);
            out
        };
    push_per_inst(function, errors, check, Ghost(|k: int, i: nat, d: InstDataView| call_errs(module, d)));
}

/// The errors of the entity checks: undefined values, missing blocks and,
/// with a module, missing functions.
pub open spec fn entity_errs(f: &Function, module: Option<&Module>) -> Seq<ErrView> {
    let n = f.layout@.order.len() as int;
    errs_by(f, |k: int, i: nat, d: InstDataView| value_errs(|v: Value| is_defined(f, v), d), n) + errs_by(
        f,
        |k: int, i: nat, d: InstDataView|
            missing_target_errs(
                layout_blocks(f),
                targets_of(d),
                targets_of(d).len() as int,
                "Block "@,
                " is referenced but does not exist in function"@,
            ),
        n,
    ) + match module {
        Some(m) => errs_by(f, |k: int, i: nat, d: InstDataView| call_errs(m, d), n),
        None => seq![],
    }
}

/// Verify that all referenced entities exist
///
/// Checks:
/// - All values in instruction args/results exist in DFG
/// - All blocks in block_args exist in function
/// - All function names in Call instructions exist in module (if module provided)
pub fn verify_entities(function: &Function, errors: &mut Vec<VerifierError>, module: Option<&Module>)
    requires
        function.wf(),
        module matches Some(m) ==> m.wf(),
    ensures
        errs_view(final(errors)@) == errs_view(old(errors)@) + entity_errs(function, module),
{
    let ghost o = errs_view(errors@);
    verify_values(function, errors);
    verify_blocks(function, errors);
    if let Some(m) = module {
        verify_functions(function, errors, m);
    }
    proof {
        assert(errs_view(errors@) =~= o + entity_errs(function, module));
    }
}

} // verus!
