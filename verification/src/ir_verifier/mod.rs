//! IR verifier.
//!
//! Each check appends what it finds wrong to a list of errors; `verify`
//! runs them all on a function.


pub mod format;
pub mod entities;
pub mod flow;
pub mod ssa;
pub mod params;
pub mod types;
pub mod report;

use vstd::prelude::*;

use crate::{
    dfg::{inst_data::InstDataView, InstData, Opcode},
    entity::Inst,
    function::Function,
    value::Value,
    ir_verifier::{
        entities::{entity_errs, is_defined, undefined_errs, value_errs, verify_entities},
        flow::{entry_errs, entry_target_errs, flow_errs, verify_cfg},
        format::{chk, format_errs, verify_format},
        params::{dominance_errs, verify_dominance},
        ssa::{ssa_errs, verify_ssa},
        types::{call_sig_errs, operand_errs, type_errs, verify_types},
    },
    module::Module,
    parser::validation::{data_at, ends_block, targets_of},
    text::{dec, push_dec, push_str, type_text},
    types::Type,
};

verus! {

/// Verifier error
#[derive(Debug, Clone, PartialEq, Eq)]
pub struct VerifierError {
    /// Error message describing what's wrong
    pub message: String,
    /// Optional location information (e.g., "block0", "inst5")
    pub location: Option<String>,
}

/// An error by its texts: the message, and the location if any.
pub type ErrView = (Seq<char>, Option<Seq<char>>);

/// An error, by its texts.
pub open spec fn err_view(e: VerifierError) -> ErrView {
    (
        e.message@,
        match e.location {
            Some(l) => Some(l@),
            None => None,
        },
    )
}

/// A list of errors, by their texts.
pub open spec fn errs_view(es: Seq<VerifierError>) -> Seq<ErrView> {
    es.map_values(|e: VerifierError| err_view(e))
}

/// Messages, each with the same location.
pub open spec fn located(ms: Seq<Seq<char>>, loc: Seq<char>) -> Seq<ErrView> {
    ms.map_values(|m: Seq<char>| (m, Some(loc)))
}

/// Texts of a list of strings.
pub open spec fn strs(v: Seq<String>) -> Seq<Seq<char>> {
    v.map_values(|s: String| s@)
}

/// The location `inst<n>`.
pub open spec fn inst_loc(n: nat) -> Seq<char> {
    "inst"@ + dec(n)
}

/// The location `block<n>`.
pub open spec fn block_loc(n: nat) -> Seq<char> {
    "block"@ + dec(n)
}

impl VerifierError {
    /// Create a new verifier error
    pub fn new(message: String) -> (r: Self)
        ensures
            r.message == message,
            r.location is None,
    {
        Self { message, location: None }
    }

    /// Create a new verifier error with location
    pub fn with_location(message: String, location: String) -> (r: Self)
        ensures
            r.message == message,
            r.location == Some(location),
    {
        Self { message, location: Some(location) }
    }
}

/// The text `<prefix><n>`.
pub fn prefixed(prefix: &str, n: u64) -> (r: String)
    ensures
        r@ == prefix@ + dec(n as nat),
{
    let mut s = String::new();
    push_str(&mut s, prefix);
    push_dec(&mut s, n);
    s
}

/// Append messages to the errors, each at the same location.
pub fn push_located(errors: &mut Vec<VerifierError>, msgs: Vec<String>, loc: &String)
    ensures
        errs_view(final(errors)@) == errs_view(old(errors)@) + located(strs(msgs@), loc@),
{
    let mut i: usize = 0;
    let ghost base = errs_view(errors@);
    let ghost all = msgs@;
    while i < msgs.len()
        invariant
            0 <= i <= all.len(),
            msgs@.len() == all.len(),
            msgs@ == all,
            errs_view(errors@) == base + located(strs(all.subrange(0, i as int)), loc@),
        decreases all.len() - i,
    {
        let m = msgs[i].clone();
        let e = VerifierError { message: m, location: Some(loc.clone()) };
        let ghost before = errors@;
        errors.push(e);
        proof {
            assert(err_view(e) == (all[i as int]@, Some(loc@)));
            assert(errs_view(errors@) =~= errs_view(before).push(err_view(e)));
            assert(located(strs(all.subrange(0, i + 1)), loc@) =~= located(strs(all.subrange(0, i as int)), loc@).push(
                (all[i as int]@, Some(loc@)),
            ));
            assert(strs(all.subrange(0, i + 1)) =~= strs(all.subrange(0, i as int)).push(all[i as int]@));
            assert(errs_view(errors@) =~= base + located(strs(all.subrange(0, i + 1)), loc@));
        }
        i = i + 1;
    }
    proof {
        assert(all.subrange(0, i as int) =~= all);
    }
}

/// The errors `g` finds in the first `q` instructions of the block at
/// position `k` of the layout, each at its instruction.
pub open spec fn block_errs_by(
    f: &Function,
    g: spec_fn(int, nat, InstDataView) -> Seq<Seq<char>>,
    k: int,
    q: int,
) -> Seq<ErrView>
    decreases q,
{
    if q <= 0 {
        seq![]
    } else {
        block_errs_by(f, g, k, q - 1) + located(
            g(k, f.layout@.contents[f.block_at(k)][q - 1], f.inst_at(f.block_at(k), q - 1)),
            inst_loc(f.layout@.contents[f.block_at(k)][q - 1]),
        )
    }
}

/// The errors `g` finds in the instructions of the blocks at the first `k`
/// positions of the layout, in order.
pub open spec fn errs_by(f: &Function, g: spec_fn(int, nat, InstDataView) -> Seq<Seq<char>>, k: int) -> Seq<ErrView>
    decreases k,
{
    if k <= 0 {
        seq![]
    } else {
        errs_by(f, g, k - 1) + block_errs_by(f, g, k - 1, f.len_at(k - 1))
    }
}

/// Run `check` on each instruction in layout order, with the position of
/// its block and the instruction, and append what it finds, each at its
/// instruction.
pub fn push_per_inst<F: Fn(usize, Inst, &InstData) -> Vec<String>>(
    function: &Function,
    errors: &mut Vec<VerifierError>,
    check: F,
    Ghost(g): Ghost<spec_fn(int, nat, InstDataView) -> Seq<Seq<char>>>,
)
    requires
        function.wf(),
        forall|k: usize, i: Inst, d: &InstData| k < function.layout@.order.len() ==> #[trigger] check.requires((k, i, d)),
        forall|k: usize, i: Inst, d: &InstData, r: Vec<String>|
            k < function.layout@.order.len() && check.ensures((k, i, d), r) ==> strs(r@) == g(k as int, i.0 as nat, d@),
    ensures
        errs_view(final(errors)@) == errs_view(old(errors)@) + errs_by(
            function,
            g,
            function.layout@.order.len() as int,
        ),
{
    let ghost base = errs_view(errors@);
    let blocks = function.blocks();
    let n = blocks.len();
    let mut k: usize = 0;
    while k < n
        invariant
            function.wf(),
            forall|k: usize, i: Inst, d: &InstData| k < function.layout@.order.len() ==> #[trigger] check.requires((k, i, d)),
            forall|k: usize, i: Inst, d: &InstData, r: Vec<String>|
            k < function.layout@.order.len() && check.ensures((k, i, d), r) ==> strs(r@) == g(k as int, i.0 as nat, d@),
            n == blocks@.len(),
            blocks@.len() == function.layout@.order.len(),
            forall|i: int| 0 <= i < blocks@.len() ==> (#[trigger] blocks@[i]).0 == function.layout@.order[i],
            k <= n,
            errs_view(errors@) == base + errs_by(function, g, k as int),
        decreases n - k,
    {
        proof {
            function.layout.lemma_order_bound(k as int);
        }
        let b = blocks[k];
        let insts = function.block_insts(b);
        let ghost mid = errs_view(errors@);
        let mut q: usize = 0;
        while q < insts.len()
            invariant
                function.wf(),
                k < n,
                n == function.layout@.order.len(),
                forall|k: usize, i: Inst, d: &InstData| k < function.layout@.order.len() ==> #[trigger] check.requires((k, i, d)),
                forall|k: usize, i: Inst, d: &InstData, r: Vec<String>|
            k < function.layout@.order.len() && check.ensures((k, i, d), r) ==> strs(r@) == g(k as int, i.0 as nat, d@),
                b.0 == function.block_at(k as int),
                b.0 < function.blocks@.len(),
                insts@.len() == function.len_at(k as int),
                forall|j: int|
                    0 <= j < insts@.len() ==> (#[trigger] insts@[j]).0 == function.layout@.contents[b.0 as int][j],
                q <= insts@.len(),
                errs_view(errors@) == mid + block_errs_by(function, g, k as int, q as int),
            decreases insts@.len() - q,
        {
            let d = function.placed_inst(b, q);
            let msgs = check(k, insts[q], d);
            let loc = prefixed("inst", insts[q].0 as u64);
            push_located(errors, msgs, &loc);
            proof {
                assert(errs_view(errors@) =~= mid + block_errs_by(function, g, k as int, q + 1));
            }
            q = q + 1;
        }
        proof {
            assert(errs_view(errors@) =~= base + errs_by(function, g, k + 1));
        }
        k = k + 1;
    }
}


/// Two ways of finding errors that agree on every instruction of a block
/// find the same errors in it.
pub proof fn lemma_block_errs_by_agree(
    f: &Function,
    g1: spec_fn(int, nat, InstDataView) -> Seq<Seq<char>>,
    g2: spec_fn(int, nat, InstDataView) -> Seq<Seq<char>>,
    k: int,
    q: int,
)
    requires
        0 <= k < f.layout@.order.len(),
        forall|i: nat, d: InstDataView| #[trigger] g1(k, i, d) == g2(k, i, d),
    ensures
        block_errs_by(f, g1, k, q) == block_errs_by(f, g2, k, q),
    decreases q,
{
    if q > 0 {
        lemma_block_errs_by_agree(f, g1, g2, k, q - 1);
    }
}

/// Two ways of finding errors that agree on every instruction of the
/// layout find the same errors.
pub proof fn lemma_errs_by_agree(
    f: &Function,
    g1: spec_fn(int, nat, InstDataView) -> Seq<Seq<char>>,
    g2: spec_fn(int, nat, InstDataView) -> Seq<Seq<char>>,
    k: int,
)
    requires
        k <= f.layout@.order.len(),
        forall|k2: int, i: nat, d: InstDataView|
            0 <= k2 < f.layout@.order.len() ==> #[trigger] g1(k2, i, d) == g2(k2, i, d),
    ensures
        errs_by(f, g1, k) == errs_by(f, g2, k),
    decreases k,
{
    if k > 0 {
        lemma_errs_by_agree(f, g1, g2, k - 1);
        lemma_block_errs_by_agree(f, g1, g2, k - 1, f.len_at(k - 1));
    }
}


/// The block at position `k` has an instruction that ends a block.
pub open spec fn has_terminator(f: &Function, k: int) -> bool {
    exists|q: int| 0 <= q < f.len_at(k) && #[trigger] ends_block(data_at(f, k, q).opcode)
}

/// The terminator errors of the blocks at the first `k` positions: a block
/// without any instruction that ends a block, at the block.
pub open spec fn term_errs(f: &Function, k: int) -> Seq<ErrView>
    decreases k,
{
    if k <= 0 {
        seq![]
    } else {
        let b = f.block_at(k - 1) as nat;
        term_errs(f, k - 1) + if has_terminator(f, k - 1) {
            seq![]
        } else {
            seq![("Block block"@ + dec(b) + " has no terminator"@, Some(block_loc(b)))]
        }
    }
}

/// Verify that all blocks have proper terminators
pub fn verify_terminators(function: &Function, errors: &mut Vec<VerifierError>)
    requires
        function.wf(),
    ensures
        errs_view(final(errors)@) == errs_view(old(errors)@) + term_errs(function, function.layout@.order.len() as int),
{
    let ghost base = errs_view(errors@);
    let blocks = function.blocks();
    let n = blocks.len();
    let mut k: usize = 0;
    while k < n
        invariant
            function.wf(),
            n == blocks@.len(),
            blocks@.len() == function.layout@.order.len(),
            forall|i: int| 0 <= i < blocks@.len() ==> (#[trigger] blocks@[i]).0 == function.layout@.order[i],
            k <= n,
            errs_view(errors@) == base + term_errs(function, k as int),
        decreases n - k,
    {
        proof {
            function.layout.lemma_order_bound(k as int);
        }
        let b = blocks[k];
        let len = function.block_insts(b).len();
        let mut found = false;
        let mut q: usize = 0;
        while q < len
            invariant
                function.wf(),
                b.0 == function.block_at(k as int),
                b.0 < function.blocks@.len(),
                k < function.layout@.order.len(),
                len == function.len_at(k as int),
                q <= len,
                found == exists|q2: int| 0 <= q2 < q && #[trigger] ends_block(data_at(function, k as int, q2).opcode),
            decreases len - q,
        {
            let d = function.placed_inst(b, q);
            assert(d@ == data_at(function, k as int, q as int));
            let t = match d.opcode {
                Opcode::Jump | Opcode::Br | Opcode::Return | Opcode::Halt => true,
                _ => false,
            };
            assert(t == ends_block(data_at(function, k as int, q as int).opcode));
            let ghost old_found = found;
            if t {
                found = true;
            }
            proof {
                if found && !old_found {
                    assert(ends_block(data_at(function, k as int, q as int).opcode));
                }
                if !found {
                    assert forall|q2: int| 0 <= q2 < q + 1 implies !#[trigger] ends_block(
                        data_at(function, k as int, q2).opcode,
                    ) by {
                        if q2 < q {
                            assert(!old_found);
                        }
                    }
                }
            }
            q = q + 1;
        }
        if !found {
            let m = prefixed("Block block", b.0 as u64);
            let mut msg = m;
            push_str(&mut msg, " has no terminator");
            let loc = prefixed("block", b.0 as u64);
            let e = VerifierError::with_location(msg, loc);
            let ghost before = errors@;
            errors.push(e);
            proof {
                assert(errs_view(errors@) =~= errs_view(before).push(err_view(e)));
            }
        }
        proof {
            assert(errs_view(errors@) =~= base + term_errs(function, k + 1));
        }
        k = k + 1;
    }
}

/// Each message `g` gives for an instruction of the first `qq` of the block
/// at position `k` is among the errors, at that instruction.
proof fn lemma_block_errs_by_includes(
    f: &Function,
    g: spec_fn(int, nat, InstDataView) -> Seq<Seq<char>>,
    k: int,
    qq: int,
    q: int,
    m: Seq<char>,
)
    requires
        0 <= q < qq,
        g(k, f.layout@.contents[f.block_at(k)][q], f.inst_at(f.block_at(k), q)).contains(m),
    ensures
        block_errs_by(f, g, k, qq).contains((m, Some(inst_loc(f.layout@.contents[f.block_at(k)][q])))),
    decreases qq,
{
    let e = (m, Some(inst_loc(f.layout@.contents[f.block_at(k)][q])));
    if q < qq - 1 {
        lemma_block_errs_by_includes(f, g, k, qq - 1, q, m);
        let s = block_errs_by(f, g, k, qq - 1);
        let i = choose|i: int| 0 <= i < s.len() && s[i] == e;
        assert(block_errs_by(f, g, k, qq)[i] == e);
    } else {
        let ms = g(k, f.layout@.contents[f.block_at(k)][q], f.inst_at(f.block_at(k), q));
        let l = located(ms, inst_loc(f.layout@.contents[f.block_at(k)][q]));
        let j = choose|j: int| 0 <= j < ms.len() && ms[j] == m;
        assert(l[j] == e);
        let s = block_errs_by(f, g, k, qq - 1);
        assert(block_errs_by(f, g, k, qq)[s.len() + j] == e);
    }
}

/// Each message `g` gives for an instruction of the layout, in one of the
/// first `n` blocks, is among the errors, at that instruction.
pub proof fn lemma_errs_by_includes(
    f: &Function,
    g: spec_fn(int, nat, InstDataView) -> Seq<Seq<char>>,
    n: int,
    k: int,
    q: int,
    m: Seq<char>,
)
    requires
        0 <= k < n,
        0 <= q < f.len_at(k),
        g(k, f.layout@.contents[f.block_at(k)][q], f.inst_at(f.block_at(k), q)).contains(m),
    ensures
        errs_by(f, g, n).contains((m, Some(inst_loc(f.layout@.contents[f.block_at(k)][q])))),
    decreases n,
{
    let e = (m, Some(inst_loc(f.layout@.contents[f.block_at(k)][q])));
    let s = errs_by(f, g, n - 1);
    if k < n - 1 {
        lemma_errs_by_includes(f, g, n - 1, k, q, m);
        let i = choose|i: int| 0 <= i < s.len() && s[i] == e;
        assert(errs_by(f, g, n)[i] == e);
    } else {
        lemma_block_errs_by_includes(f, g, k, f.len_at(k), q, m);
        let b = block_errs_by(f, g, k, f.len_at(k));
        let i = choose|i: int| 0 <= i < b.len() && b[i] == e;
        assert(errs_by(f, g, n)[s.len() + i] == e);
    }
}

/// All the errors the checks find in a function, in the order they run.
pub open spec fn all_errs(f: &Function, module: Option<&Module>) -> Seq<ErrView> {
    format_errs(f, f.layout@.order.len() as int) + entity_errs(f, module) + flow_errs(f) + ssa_errs(f)
        + dominance_errs(f, f.layout@.order.len() as int) + type_errs(f, module) + term_errs(
        f,
        f.layout@.order.len() as int,
    )
}

/// Verify a function is well-formed
///
/// This runs all verification checks and returns a list of errors if any are found.
/// Returns `Ok(())` if the function is valid, or `Err(errors)` with a list of
/// verification errors.
///
/// # Arguments
///
/// * `function` - The function to verify
/// * `module` - Optional module context for function call validation
pub fn verify(function: &Function, module: Option<&Module>) -> (r: Result<(), Vec<VerifierError>>)
    requires
        function.wf(),
        module matches Some(m) ==> m.wf(),
    ensures
        r is Ok <==> all_errs(function, module).len() == 0,
        r matches Err(es) ==> errs_view(es@) == all_errs(function, module),
{
    let mut errors: Vec<VerifierError> = Vec::new();
    verify_format(function, &mut errors);
    verify_entities(function, &mut errors, module);
    verify_cfg(function, &mut errors);
    verify_ssa(function, &mut errors);
    verify_dominance(function, &mut errors);
    verify_types(function, &mut errors, module);
    verify_terminators(function, &mut errors);
    proof {
        assert(errs_view(errors@) =~= all_errs(function, module));
    }
    if errors.len() == 0 {
        Ok(())
    } else {
        Err(errors)
    }
}

/// The call count errors of a call to a function of the module.
pub open spec fn call_count_errs(module: &Module, d: InstDataView) -> Seq<Seq<char>> {
    match d.opcode {
        Opcode::Call { callee } => match module.lookup(callee@) {
            Some(cf) => chk(
                d.args.len() != cf.signature.params@.len(),
                "Call to '"@ + callee@ + "' expects "@ + dec(cf.signature.params@.len()) + " arguments, got "@ + dec(
                    d.args.len(),
                ),
            ) + chk(
                d.results.len() != cf.signature.returns@.len(),
                "Call to '"@ + callee@ + "' returns "@ + dec(cf.signature.returns@.len()) + " values, but "@ + dec(
                    d.results.len(),
                ) + " results expected"@,
            ),
            None => seq![],
        },
        _ => seq![],
    }
}

/// The errors of the checks of the first `i` functions of a module.
pub open spec fn module_func_errs(module: &Module, i: int) -> Seq<ErrView>
    decreases i,
{
    if i <= 0 {
        seq![]
    } else {
        module_func_errs(module, i - 1) + all_errs(&module.funcs()[i - 1], Some(module))
    }
}

/// The call count errors of the first `i` functions of a module.
pub open spec fn module_call_errs(module: &Module, i: int) -> Seq<ErrView>
    decreases i,
{
    if i <= 0 {
        seq![]
    } else {
        let f = module.funcs()[i - 1];
        module_call_errs(module, i - 1) + errs_by(
            &f,
            |k: int, x: nat, d: InstDataView| call_count_errs(module, d),
            f.layout@.order.len() as int,
        )
    }
}

fn call_count_msgs(module: &Module, d: &InstData) -> (r: Vec<String>)
    requires
        module.wf(),
    ensures
        strs(r@) == call_count_errs(module, d@),
{
    let mut out: Vec<String> = Vec::new();
    if let Opcode::Call { callee } = &d.opcode {
        if let Some(cf) = module.get_function(callee.as_str()) {
            let np = cf.signature.params.len();
            let nr = cf.signature.returns.len();
            if d.args.len() != np {
                let mut m = String::new();
                push_str(&mut m, "Call to '");
                push_str(&mut m, callee.as_str());
                push_str(&mut m, "' expects ");
                push_dec(&mut m, np as u64);
                push_str(&mut m, " arguments, got ");
                push_dec(&mut m, d.args.len() as u64);
                out.push(m);
            }
            if d.results.len() != nr {
                let mut m = String::new();
                push_str(&mut m, "Call to '");
                push_str(&mut m, callee.as_str());
                push_str(&mut m, "' returns ");
                push_dec(&mut m, nr as u64);
                push_str(&mut m, " values, but ");
                push_dec(&mut m, d.results.len() as u64);
                push_str(&mut m, " results expected");
                out.push(m);
            }
        }
    }
    proof {
        assert(strs(out@) =~= call_count_errs(module, d@));
    }
    out
}

/// Verify a module (cross-function checks)
///
/// Each function of the module, in the module's order, is verified with
/// the module as context; then each call is checked against the number of
/// parameters and results of the function it calls.
pub fn verify_module(module: &Module) -> (r: Result<(), Vec<VerifierError>>)
    requires
        module.wf(),
        forall|i: int| 0 <= i < module.funcs().len() ==> (#[trigger] module.funcs()[i]).wf(),
    ensures
        r is Ok <==> (module_func_errs(module, module.funcs().len() as int) + module_call_errs(
            module,
            module.funcs().len() as int,
        )).len() == 0,
        r matches Err(es) ==> errs_view(es@) == module_func_errs(module, module.funcs().len() as int)
            + module_call_errs(module, module.funcs().len() as int),
{
    let mut errors: Vec<VerifierError> = Vec::new();
    let funcs = module.functions();
    let n = funcs.len();
    let mut i: usize = 0;
    while i < n
        invariant
            module.wf(),
            forall|j: int| 0 <= j < module.funcs().len() ==> (#[trigger] module.funcs()[j]).wf(),
            funcs@.map_values(|p: (String, crate::function::Function)| p.1) == module.funcs(),
            n == funcs@.len(),
            i <= n,
            errs_view(errors@) == module_func_errs(module, i as int),
        decreases n - i,
    {
        let f = &funcs[i].1;
        assert(*f == module.funcs()[i as int]);
        match verify(f, Some(module)) {
            Ok(()) => {
                proof {
                    assert(all_errs(f, Some(module)) =~= seq![]);
                    assert(errs_view(errors@) =~= module_func_errs(module, i + 1));
                }
            },
            Err(mut es) => {
                let ghost before = errors@;
                let ghost esv = es@;
                errors.append(&mut es);
                proof {
                    assert(errors@ =~= before + esv);
                    assert(errs_view(errors@) =~= errs_view(before) + errs_view(esv));
                    assert(errs_view(errors@) =~= module_func_errs(module, i + 1));
                }
            },
        }
        i = i + 1;
    }
    let ghost mid = errs_view(errors@);
    let mut i: usize = 0;
    while i < n
        invariant
            module.wf(),
            forall|j: int| 0 <= j < module.funcs().len() ==> (#[trigger] module.funcs()[j]).wf(),
            funcs@.map_values(|p: (String, crate::function::Function)| p.1) == module.funcs(),
            n == funcs@.len(),
            i <= n,
            errs_view(errors@) == mid + module_call_errs(module, i as int),
        decreases n - i,
    {
        let f = &funcs[i].1;
        assert(*f == module.funcs()[i as int]);
        let check = |k: usize, x: Inst, d: &InstData| -> (r: Vec<String>)
            requires
                module.wf(),
            ensures
                strs(r@) == call_count_errs(module, d@),
            { call_count_msgs(module, d) };
        push_per_inst(f, &mut errors, check, Ghost(|k: int, x: nat, d: InstDataView| call_count_errs(module, d)));
        proof {
            assert(errs_view(errors@) =~= mid + module_call_errs(module, i + 1));
        }
        i = i + 1;
    }
    if errors.len() == 0 {
        Ok(())
    } else {
        Err(errors)
    }
}

/// The errors of the first `j` functions include those of each of them.
proof fn lemma_func_errs_include(module: &Module, i: int, j: int)
    requires
        0 <= i < j,
    ensures
        module_func_errs(module, j).len() >= all_errs(&module.funcs()[i], Some(module)).len(),
    decreases j,
{
    if i < j - 1 {
        lemma_func_errs_include(module, i, j - 1);
    }
}

/// A module passes the checks only if each of its functions passes them
/// with the module as context: when the module's errors are empty, so are
/// those of every function.
pub proof fn lemma_module_ok_functions_ok(module: &Module, i: int)
    requires
        0 <= i < module.funcs().len(),
        (module_func_errs(module, module.funcs().len() as int) + module_call_errs(
            module,
            module.funcs().len() as int,
        )).len() == 0,
    ensures
        all_errs(&module.funcs()[i], Some(module)).len() == 0,
{
    lemma_func_errs_include(module, i, module.funcs().len() as int);
}


/// An integer arithmetic instruction of the layout with an operand whose
/// type is not `i32` is reported, at that instruction: whichever of its two
/// operands it is.
pub proof fn lemma_arith_operand_reported(f: &Function, module: Option<&Module>, k: int, q: int, t1: Type, t2: Type)
    requires
        f.wf(),
        0 <= k < f.layout@.order.len(),
        0 <= q < f.len_at(k),
        ({
            let d = f.inst_at(f.block_at(k), q);
            &&& (d.opcode is Iadd || d.opcode is Isub || d.opcode is Imul || d.opcode is Idiv || d.opcode is Irem)
            &&& d.args.len() >= 2
            &&& d.args[0].0 < f.dfg.value_types@.len() && f.dfg.value_types@[d.args[0].0 as int] == t1
            &&& d.args[1].0 < f.dfg.value_types@.len() && f.dfg.value_types@[d.args[1].0 as int] == t2
        }),
        t1 != Type::I32 || t2 != Type::I32,
    ensures
        exists|e: ErrView|
            #[trigger] all_errs(f, module).contains(e) && e.1 == Some(inst_loc(f.layout@.contents[f.block_at(k)][q]))
                && e.0.len() >= 41 && e.0.subrange(0, 41) == "Arithmetic operation expects i32 operands"@,
{
    reveal_strlit("Arithmetic operation expects i32 operands");
    reveal_strlit("Arithmetic operation expects i32 operands, got ");
    let n = f.layout@.order.len() as int;
    let d = f.inst_at(f.block_at(k), q);
    let g = |k: int, i: nat, d: InstDataView| operand_errs(f, d);
    let ms = operand_errs(f, d);
    assert(crate::ir_verifier::types::vt(f, d.args[0]) == Some(t1));
    assert(crate::ir_verifier::types::vt(f, d.args[1]) == Some(t2));
    let m = "Arithmetic operation expects i32 operands, got "@ + crate::ir_verifier::types::pair_text(t1, t2);
    assert(ms == seq![m]);
    assert(ms[0] == m);
    assert(ms.contains(m));
    lemma_errs_by_includes(f, g, n, k, q, m);
    let e = (m, Some(inst_loc(f.layout@.contents[f.block_at(k)][q])));
    assert(m.subrange(0, 41) =~= "Arithmetic operation expects i32 operands"@);
    let te = type_errs(f, module);
    let i = choose|i: int| 0 <= i < errs_by(f, g, n).len() && errs_by(f, g, n)[i] == e;
    assert(te[i] == e);
    let a = format_errs(f, n) + entity_errs(f, module) + flow_errs(f) + ssa_errs(f) + dominance_errs(f, n);
    assert(all_errs(f, module)[a.len() + i] == e);
    assert(all_errs(f, module).contains(e));
    assert(e.0.len() >= 41 && e.0.subrange(0, 41) == "Arithmetic operation expects i32 operands"@);
}

/// A branch to the entry block from an instruction of any other block of
/// the layout is reported, at that instruction, whichever of the
/// instruction's targets names it.
pub proof fn lemma_entry_branch_reported(f: &Function, module: Option<&Module>, k: int, q: int, j: int)
    requires
        f.wf(),
        1 <= k < f.layout@.order.len(),
        0 <= q < f.len_at(k),
        0 <= j < targets_of(f.inst_at(f.block_at(k), q)).len(),
        targets_of(f.inst_at(f.block_at(k), q))[j].0.0 == f.layout@.order[0],
    ensures
        all_errs(f, module).contains(
            (
                "Entry block "@ + dec(f.layout@.order[0]) + " cannot be branched to"@,
                Some(inst_loc(f.layout@.contents[f.block_at(k)][q])),
            ),
        ),
{
    let n = f.layout@.order.len() as int;
    let d = f.inst_at(f.block_at(k), q);
    let e0 = crate::ir_verifier::flow::block_ent(f, 0);
    let ts = targets_of(d);
    let m = "Entry block "@ + dec(e0.0 as nat) + " cannot be branched to"@;
    lemma_entry_target_errs_include(e0, ts, ts.len() as int, j);
    assert(e0.0 as nat == f.layout@.order[0]) by {
        f.layout.lemma_order_bound(0);
    }
    let g = |k: int, i: nat, d: InstDataView|
        if k == 0 {
            seq![]
        } else {
            entry_target_errs(crate::ir_verifier::flow::block_ent(f, 0), targets_of(d), targets_of(d).len() as int)
        };
    lemma_errs_by_includes(f, g, n, k, q, m);
    let e = (m, Some(inst_loc(f.layout@.contents[f.block_at(k)][q])));
    let ee = entry_errs(f);
    let i = choose|i: int| 0 <= i < errs_by(f, g, n).len() && errs_by(f, g, n)[i] == e;
    assert(ee[i] == e);
    let fe = flow_errs(f);
    let r = crate::ir_verifier::flow::reference_errs(f) + crate::ir_verifier::flow::block_arg_errs(f, n);
    assert(fe[r.len() + i] == e);
    let a = format_errs(f, n) + entity_errs(f, module);
    assert(all_errs(f, module)[a.len() + r.len() + i] == e);
}

/// Every target among the first `jj` that names block `e` gives its message.
proof fn lemma_entry_target_errs_include(e: crate::entity::Block, ts: Seq<(crate::entity::Block, Seq<crate::value::Value>)>, jj: int, j: int)
    requires
        0 <= j < jj <= ts.len(),
        ts[j].0 == e,
    ensures
        entry_target_errs(e, ts, jj).contains("Entry block "@ + dec(e.0 as nat) + " cannot be branched to"@),
    decreases jj,
{
    let m = "Entry block "@ + dec(e.0 as nat) + " cannot be branched to"@;
    if j < jj - 1 {
        lemma_entry_target_errs_include(e, ts, jj - 1, j);
        let s = entry_target_errs(e, ts, jj - 1);
        let i = choose|i: int| 0 <= i < s.len() && s[i] == m;
        assert(entry_target_errs(e, ts, jj)[i] == m);
    } else {
        let s = entry_target_errs(e, ts, jj - 1);
        assert(entry_target_errs(e, ts, jj)[s.len() as int] == m);
    }
}


/// Every operand-type message for an instruction of the layout is reported,
/// at that instruction.
pub proof fn lemma_operand_msg_reported(f: &Function, module: Option<&Module>, k: int, q: int, m: Seq<char>)
    requires
        0 <= k < f.layout@.order.len(),
        0 <= q < f.len_at(k),
        operand_errs(f, f.inst_at(f.block_at(k), q)).contains(m),
    ensures
        all_errs(f, module).contains((m, Some(inst_loc(f.layout@.contents[f.block_at(k)][q])))),
{
    let n = f.layout@.order.len() as int;
    let g = |k: int, i: nat, d: InstDataView| operand_errs(f, d);
    lemma_errs_by_includes(f, g, n, k, q, m);
    let e = (m, Some(inst_loc(f.layout@.contents[f.block_at(k)][q])));
    let te = type_errs(f, module);
    let i = choose|i: int| 0 <= i < errs_by(f, g, n).len() && errs_by(f, g, n)[i] == e;
    assert(te[i] == e);
    let a = format_errs(f, n) + entity_errs(f, module) + flow_errs(f) + ssa_errs(f) + dominance_errs(f, n);
    assert(all_errs(f, module)[a.len() + i] == e);
}

/// Every value among the first `n` of `vs` that `defined` does not hold
/// gives its message.
proof fn lemma_undefined_errs_include(defined: spec_fn(Value) -> bool, vs: Seq<Value>, n: int, j: int, suffix: Seq<char>)
    requires
        0 <= j < n <= vs.len(),
        !defined(vs[j]),
    ensures
        undefined_errs(defined, vs, n, suffix).contains("Value "@ + dec(vs[j].0 as nat) + suffix),
    decreases n,
{
    let m = "Value "@ + dec(vs[j].0 as nat) + suffix;
    let s = undefined_errs(defined, vs, n - 1, suffix);
    if j < n - 1 {
        lemma_undefined_errs_include(defined, vs, n - 1, j, suffix);
        let i = choose|i: int| 0 <= i < s.len() && s[i] == m;
        assert(undefined_errs(defined, vs, n, suffix)[i] == m);
    } else {
        assert(undefined_errs(defined, vs, n, suffix)[s.len() as int] == m);
    }
}

/// A value an instruction of the layout uses, that no block of the layout
/// has as a parameter and no instruction of the layout defines, is
/// reported at that instruction.
pub proof fn lemma_undefined_use_reported(f: &Function, module: Option<&Module>, k: int, q: int, j: int)
    requires
        0 <= k < f.layout@.order.len(),
        0 <= q < f.len_at(k),
        0 <= j < f.inst_at(f.block_at(k), q).args.len(),
        forall|k2: int|
            0 <= k2 < f.layout@.order.len() ==> !(#[trigger] f.blocks@[f.block_at(k2)]).params@.contains(
                f.inst_at(f.block_at(k), q).args[j],
            ),
        forall|k2: int, q2: int|
            0 <= k2 < f.layout@.order.len() && 0 <= q2 < f.len_at(k2) ==> !(#[trigger] f.inst_at(
                f.block_at(k2),
                q2,
            )).results.contains(f.inst_at(f.block_at(k), q).args[j]),
    ensures
        all_errs(f, module).contains(
            (
                "Value "@ + dec(f.inst_at(f.block_at(k), q).args[j].0 as nat) + " is used but never defined"@,
                Some(inst_loc(f.layout@.contents[f.block_at(k)][q])),
            ),
        ),
{
    let n = f.layout@.order.len() as int;
    let d = f.inst_at(f.block_at(k), q);
    let a = d.args[j];
    let defined = |v: Value| is_defined(f, v);
    assert(!is_defined(f, a)) by {
        if crate::ir_verifier::entities::param_def(f, a, n) {
            let k2 = choose|k2: int| 0 <= k2 < n && #[trigger] f.blocks@[f.block_at(k2)].params@.contains(a);
        }
        if crate::ir_verifier::entities::result_def(f, a, n, 0) {
            let (k2, q2) = choose|k2: int, q2: int|
                ((0 <= k2 < n && 0 <= q2 < f.len_at(k2)) || (k2 == n && 0 <= q2 < 0)) && #[trigger] data_at(
                    f,
                    k2,
                    q2,
                ).results.contains(a);
            assert(data_at(f, k2, q2) == f.inst_at(f.block_at(k2), q2));
        }
    }
    let suffix = " is used but never defined"@;
    let m = "Value "@ + dec(a.0 as nat) + suffix;
    lemma_undefined_errs_include(defined, d.args, d.args.len() as int, j, suffix);
    let ve = value_errs(defined, d);
    let u = undefined_errs(defined, d.args, d.args.len() as int, suffix);
    let i0 = choose|i: int| 0 <= i < u.len() && u[i] == m;
    assert(ve[i0] == m);
    let g = |k: int, i: nat, d: InstDataView| value_errs(|v: Value| is_defined(f, v), d);
    assert(g(k, f.layout@.contents[f.block_at(k)][q], d) == ve);
    lemma_errs_by_includes(f, g, n, k, q, m);
    let e = (m, Some(inst_loc(f.layout@.contents[f.block_at(k)][q])));
    let i = choose|i: int| 0 <= i < errs_by(f, g, n).len() && errs_by(f, g, n)[i] == e;
    let ee = entity_errs(f, module);
    assert(ee[i] == e);
    let fe = format_errs(f, n);
    assert(all_errs(f, module)[fe.len() + i] == e);
}
} // verus!
