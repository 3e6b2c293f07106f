//! SSA (Static Single Assignment) checks: each value is defined once, and
//! used only after its definition.

use vstd::prelude::*;

use crate::{
    dfg::InstData,
    entity::Block,
    function::Function,
    ir_verifier::{errs_view, format::chk, inst_loc, located, prefixed, push_located, strs, ErrView, VerifierError},
    parser::validation::data_at,
    text::{dec, push_dec, push_str},
    value::Value,
};

verus! {

/// The definitions made by the results of the first `q` instructions of
/// the block at position `k`: each value with its instruction's index.
pub open spec fn events_in(f: &Function, k: int, q: int) -> Seq<(Value, nat)>
    decreases q,
{
    if q <= 0 {
        seq![]
    } else {
        events_in(f, k, q - 1) + data_at(f, k, q - 1).results.map_values(
            |v: Value| (v, f.layout@.contents[f.block_at(k)][q - 1]),
        )
    }
}

/// The definitions made in the blocks at the first `k` positions.
pub open spec fn events_blocks(f: &Function, k: int) -> Seq<(Value, nat)>
    decreases k,
{
    if k <= 0 {
        seq![]
    } else {
        events_blocks(f, k - 1) + events_in(f, k - 1, f.len_at(k - 1))
    }
}

/// The definitions made before the instruction at `(k, q)`.
pub open spec fn events_before(f: &Function, k: int, q: int) -> Seq<(Value, nat)> {
    events_blocks(f, k) + events_in(f, k, q)
}

/// The instruction of the first definition of `v` in `e`, if any.
pub open spec fn first_def(e: Seq<(Value, nat)>, v: Value) -> Option<nat>
    decreases e.len(),
{
    if e.len() == 0 {
        None
    } else {
        match first_def(e.drop_last(), v) {
            Some(i) => Some(i),
            None => if e.last().0 == v {
                Some(e.last().1)
            } else {
                None
            },
        }
    }
}

/// The errors for the first `j` results `rs` of instruction `inst`, after
/// the definitions `e`: a result already defined.
pub open spec fn redef_errs(e: Seq<(Value, nat)>, rs: Seq<Value>, inst: nat, j: int) -> Seq<Seq<char>>
    decreases j,
{
    if j <= 0 {
        seq![]
    } else {
        redef_errs(e, rs, inst, j - 1) + match first_def(
            e + rs.take(j - 1).map_values(|v: Value| (v, inst)),
            rs[j - 1],
        ) {
            Some(i0) => seq![
                "Value v"@ + dec(rs[j - 1].0 as nat) + " is defined multiple times (previously at inst"@ + dec(i0)
                    + ")"@,
            ],
            None => seq![],
        }
    }
}

/// The errors for the arguments `args` of an instruction of the block with
/// parameters `params`, after the definitions `e`: an argument neither
/// defined before nor a parameter of the block.
pub open spec fn early_use_errs(e: Seq<(Value, nat)>, params: Seq<Value>, args: Seq<Value>, j: int) -> Seq<
    Seq<char>,
>
    decreases j,
{
    if j <= 0 {
        seq![]
    } else {
        early_use_errs(e, params, args, j - 1) + chk(
            first_def(e, args[j - 1]) is None && !params.contains(args[j - 1]),
            "Value v"@ + dec(args[j - 1].0 as nat) + " is used before definition"@,
        )
    }
}

/// The redefinition errors of the first `q` instructions of the block at
/// position `k`, each at its instruction.
pub open spec fn block_redef_errs(f: &Function, k: int, q: int) -> Seq<ErrView>
    decreases q,
{
    if q <= 0 {
        seq![]
    } else {
        let i = f.layout@.contents[f.block_at(k)][q - 1];
        let rs = data_at(f, k, q - 1).results;
        block_redef_errs(f, k, q - 1) + located(
            redef_errs(events_before(f, k, q - 1), rs, i, rs.len() as int),
            inst_loc(i),
        )
    }
}

/// The redefinition errors of the blocks at the first `k` positions.
pub open spec fn redef_errs_all(f: &Function, k: int) -> Seq<ErrView>
    decreases k,
{
    if k <= 0 {
        seq![]
    } else {
        redef_errs_all(f, k - 1) + block_redef_errs(f, k - 1, f.len_at(k - 1))
    }
}

/// The early use errors of the first `q` instructions of the block at
/// position `k`, each at its instruction.
pub open spec fn block_use_errs(f: &Function, k: int, q: int) -> Seq<ErrView>
    decreases q,
{
    if q <= 0 {
        seq![]
    } else {
        let i = f.layout@.contents[f.block_at(k)][q - 1];
        let args = data_at(f, k, q - 1).args;
        block_use_errs(f, k, q - 1) + located(
            early_use_errs(events_before(f, k, q - 1), f.blocks@[f.block_at(k)].params@, args, args.len() as int),
            inst_loc(i),
        )
    }
}

/// The early use errors of the blocks at the first `k` positions.
pub open spec fn use_errs_all(f: &Function, k: int) -> Seq<ErrView>
    decreases k,
{
    if k <= 0 {
        seq![]
    } else {
        use_errs_all(f, k - 1) + block_use_errs(f, k - 1, f.len_at(k - 1))
    }
}

/// The errors of the SSA checks.
pub open spec fn ssa_errs(f: &Function) -> Seq<ErrView> {
    redef_errs_all(f, f.layout@.order.len() as int) + use_errs_all(f, f.layout@.order.len() as int)
}

/// The instruction of the first definition of `v` among `e`.
fn find_first(e: &Vec<(Value, u32)>, v: Value) -> (r: Option<u32>)
    ensures
        r matches Some(i) ==> first_def(ev_view(e@), v) == Some(i as nat),
        r is None ==> first_def(ev_view(e@), v) is None,
{
    let mut i: usize = 0;
    while i < e.len()
        invariant
            i <= e@.len(),
            first_def(ev_view(e@.subrange(0, i as int)), v) is None,
        decreases e@.len() - i,
    {
        proof {
            assert(ev_view(e@.subrange(0, i as int)) =~= ev_view(e@).subrange(0, i as int));
        }
        if e[i].0 == v {
            proof {
                lemma_first_def_found(ev_view(e@), v, i as int);
            }
            return Some(e[i].1);
        }
        proof {
            let s1 = ev_view(e@.subrange(0, i + 1));
            assert(s1.drop_last() =~= ev_view(e@.subrange(0, i as int)));
            assert(s1.last().0 != v);
        }
        i = i + 1;
    }
    proof {
        assert(e@.subrange(0, i as int) =~= e@);
    }
    None
}

/// Stored definitions, by integers.
pub open spec fn ev_view(e: Seq<(Value, u32)>) -> Seq<(Value, nat)> {
    e.map_values(|x: (Value, u32)| (x.0, x.1 as nat))
}

/// Where the first `i` definitions do not define `v` and the next one
/// does, it is the first.
proof fn lemma_first_def_found(e: Seq<(Value, nat)>, v: Value, i: int)
    requires
        0 <= i < e.len(),
        first_def(e.subrange(0, i), v) is None,
        e[i].0 == v,
    ensures
        first_def(e, v) == Some(e[i].1),
{
    lemma_first_def_extend(e, v, i + 1);
    assert(e.subrange(0, i + 1).drop_last() =~= e.subrange(0, i));
}

/// Once a prefix defines `v`, every longer one gives the same first definition.
proof fn lemma_first_def_extend(e: Seq<(Value, nat)>, v: Value, i: int)
    requires
        0 <= i <= e.len(),
        first_def(e.subrange(0, i), v) is Some,
    ensures
        first_def(e, v) == first_def(e.subrange(0, i), v),
    decreases e.len() - i,
{
    if i < e.len() {
        assert(e.subrange(0, i + 1).drop_last() =~= e.subrange(0, i));
        lemma_first_def_extend(e, v, i + 1);
    } else {
        assert(e.subrange(0, i) =~= e);
    }
}


/// Append the definitions of results `rs` of instruction `inst`, with the
/// errors for those already defined.
fn push_redefs(msgs: &mut Vec<String>, events: &mut Vec<(Value, u32)>, rs: &Vec<Value>, inst: u32)
    ensures
        ev_view(final(events)@) == ev_view(old(events)@) + rs@.map_values(|v: Value| (v, inst as nat)),
        strs(final(msgs)@) == strs(old(msgs)@) + redef_errs(ev_view(old(events)@), rs@, inst as nat, rs@.len() as int),
{
    let ghost e0 = ev_view(events@);
    let ghost m0 = strs(msgs@);
    let mut j: usize = 0;
    while j < rs.len()
        invariant
            j <= rs@.len(),
            ev_view(events@) == e0 + rs@.take(j as int).map_values(|v: Value| (v, inst as nat)),
            strs(msgs@) == m0 + redef_errs(e0, rs@, inst as nat, j as int),
        decreases rs@.len() - j,
    {
        let v = rs[j];
        match find_first(events, v) {
            Some(i0) => {
                let mut m = prefixed("Value v", v.0 as u64);
                push_str(&mut m, " is defined multiple times (previously at inst");
                push_dec(&mut m, i0 as u64);
                push_str(&mut m, ")");
                let ghost mv = m@;
                let ghost before = msgs@;
                msgs.push(m);
                proof {
                    assert(strs(msgs@) =~= strs(before).push(mv));
                }
            },
            None => {},
        }
        proof {
            assert(strs(msgs@) =~= m0 + redef_errs(e0, rs@, inst as nat, j + 1));
        }
        let ghost before_e = events@;
        events.push((v, inst));
        proof {
            assert(ev_view(events@) =~= ev_view(before_e).push((v, inst as nat)));
            assert(rs@.take(j + 1).map_values(|v: Value| (v, inst as nat)) =~= rs@.take(j as int).map_values(
                |v: Value| (v, inst as nat),
            ).push((v, inst as nat)));
        }
        j = j + 1;
    }
    proof {
        assert(rs@.take(j as int) =~= rs@);
    }
}

/// Verify that each value is defined exactly once: each result of an
/// instruction that an earlier result, in layout order, already defines
/// gives an error at the instruction, naming the first definition.
pub fn verify_value_definitions(function: &Function, errors: &mut Vec<VerifierError>)
    requires
        function.wf(),
    ensures
        errs_view(final(errors)@) == errs_view(old(errors)@) + redef_errs_all(
            function,
            function.layout@.order.len() as int,
        ),
{
    let ghost base = errs_view(errors@);
    let blocks = function.blocks();
    let n = blocks.len();
    let mut events: Vec<(Value, u32)> = Vec::new();
    let mut k: usize = 0;
    while k < n
        invariant
            function.wf(),
            n == blocks@.len(),
            blocks@.len() == function.layout@.order.len(),
            forall|i: int| 0 <= i < blocks@.len() ==> (#[trigger] blocks@[i]).0 == function.layout@.order[i],
            k <= n,
            ev_view(events@) == events_before(function, k as int, 0),
            errs_view(errors@) == base + redef_errs_all(function, k as int),
        decreases n - k,
    {
        proof {
            function.layout.lemma_order_bound(k as int);
        }
        let b = blocks[k];
        let insts = function.block_insts(b);
        let ghost mid = errs_view(errors@);
        let mut q: usize = 0;
        while q < insts.len()
            invariant
                function.wf(),
                n == blocks@.len(),
                k < n,
                b.0 == function.block_at(k as int),
                b.0 < function.blocks@.len(),
                insts@.len() == function.len_at(k as int),
                forall|j: int|
                    0 <= j < insts@.len() ==> (#[trigger] insts@[j]).0 == function.layout@.contents[b.0 as int][j],
                q <= insts@.len(),
                ev_view(events@) == events_before(function, k as int, q as int),
                errs_view(errors@) == mid + block_redef_errs(function, k as int, q as int),
            decreases insts@.len() - q,
        {
            let d = function.placed_inst(b, q);
            assert(d@ == data_at(function, k as int, q as int));
            let inst = insts[q].0;
            let mut msgs: Vec<String> = Vec::new();
            push_redefs(&mut msgs, &mut events, &d.results, inst);
            let loc = prefixed("inst", inst as u64);
            push_located(errors, msgs, &loc);
            proof {
                assert(strs(msgs@) =~= redef_errs(
                    events_before(function, k as int, q as int),
                    d@.results,
                    inst as nat,
                    d@.results.len() as int,
                ));
                assert(errs_view(errors@) =~= mid + block_redef_errs(function, k as int, q + 1));
                assert(ev_view(events@) =~= events_before(function, k as int, q + 1));
            }
            q = q + 1;
        }
        proof {
            assert(errs_view(errors@) =~= base + redef_errs_all(function, k + 1));
            assert(ev_view(events@) =~= events_before(function, k + 1, 0));
        }
        k = k + 1;
    }
}

/// Whether a list of values holds `v`.
fn holds_value(s: &Vec<Value>, v: Value) -> (r: bool)
    ensures
        r == s@.contains(v),
{
    let mut i: usize = 0;
    while i < s.len()
        invariant
            i <= s@.len(),
            forall|j: int| 0 <= j < i ==> s@[j] != v,
        decreases s@.len() - i,
    {
        if s[i] == v {
            return true;
        }
        i = i + 1;
    }
    false
}

/// Append the errors for arguments used before their definition.
fn push_early_uses(msgs: &mut Vec<String>, events: &Vec<(Value, u32)>, params: &Vec<Value>, args: &Vec<Value>)
    ensures
        strs(final(msgs)@) == strs(old(msgs)@) + early_use_errs(ev_view(events@), params@, args@, args@.len() as int),
{
    let ghost m0 = strs(msgs@);
    let mut j: usize = 0;
    while j < args.len()
        invariant
            j <= args@.len(),
            strs(msgs@) == m0 + early_use_errs(ev_view(events@), params@, args@, j as int),
        decreases args@.len() - j,
    {
        let a = args[j];
        let found = find_first(events, a);
        if found.is_none() && !holds_value(params, a) {
            let mut m = prefixed("Value v", a.0 as u64);
            push_str(&mut m, " is used before definition");
            let ghost mv = m@;
            let ghost before = msgs@;
            msgs.push(m);
            proof {
                assert(strs(msgs@) =~= strs(before).push(mv));
            }
        }
        proof {
            assert(strs(msgs@) =~= m0 + early_use_errs(ev_view(events@), params@, args@, j + 1));
        }
        j = j + 1;
    }
}

/// Append the definitions of results `rs` of instruction `inst`.
fn push_defs(events: &mut Vec<(Value, u32)>, rs: &Vec<Value>, inst: u32)
    ensures
        ev_view(final(events)@) == ev_view(old(events)@) + rs@.map_values(|v: Value| (v, inst as nat)),
{
    let mut scratch: Vec<String> = Vec::new();
    push_redefs(&mut scratch, events, rs, inst);
}

/// Verify that values are only used after they are defined: each argument
/// that no earlier instruction, in layout order, defines and that is not a
/// parameter of the instruction's block gives an error at the instruction.
pub fn verify_value_uses(function: &Function, errors: &mut Vec<VerifierError>)
    requires
        function.wf(),
    ensures
        errs_view(final(errors)@) == errs_view(old(errors)@) + use_errs_all(
            function,
            function.layout@.order.len() as int,
        ),
{
    let ghost base = errs_view(errors@);
    let blocks = function.blocks();
    let n = blocks.len();
    let mut events: Vec<(Value, u32)> = Vec::new();
    let mut k: usize = 0;
    while k < n
        invariant
            function.wf(),
            n == blocks@.len(),
            blocks@.len() == function.layout@.order.len(),
            forall|i: int| 0 <= i < blocks@.len() ==> (#[trigger] blocks@[i]).0 == function.layout@.order[i],
            k <= n,
            ev_view(events@) == events_before(function, k as int, 0),
            errs_view(errors@) == base + use_errs_all(function, k as int),
        decreases n - k,
    {
        proof {
            function.layout.lemma_order_bound(k as int);
        }
        let b = blocks[k];
        let insts = function.block_insts(b);
        let bd = function.block_data(b).unwrap();
        let ghost mid = errs_view(errors@);
        let mut q: usize = 0;
        while q < insts.len()
            invariant
                function.wf(),
                n == blocks@.len(),
                k < n,
                b.0 == function.block_at(k as int),
                b.0 < function.blocks@.len(),
                *bd == function.blocks@[b.0 as int],
                insts@.len() == function.len_at(k as int),
                forall|j: int|
                    0 <= j < insts@.len() ==> (#[trigger] insts@[j]).0 == function.layout@.contents[b.0 as int][j],
                q <= insts@.len(),
                ev_view(events@) == events_before(function, k as int, q as int),
                errs_view(errors@) == mid + block_use_errs(function, k as int, q as int),
            decreases insts@.len() - q,
        {
            let d = function.placed_inst(b, q);
            assert(d@ == data_at(function, k as int, q as int));
            let inst = insts[q].0;
            let mut msgs: Vec<String> = Vec::new();
            push_early_uses(&mut msgs, &events, &bd.params, &d.args);
            let loc = prefixed("inst", inst as u64);
            push_located(errors, msgs, &loc);
            push_defs(&mut events, &d.results, inst);
            proof {
                assert(errs_view(errors@) =~= mid + block_use_errs(function, k as int, q + 1));
                assert(ev_view(events@) =~= events_before(function, k as int, q + 1));
            }
            q = q + 1;
        }
        proof {
            assert(errs_view(errors@) =~= base + use_errs_all(function, k + 1));
            assert(ev_view(events@) =~= events_before(function, k + 1, 0));
        }
        k = k + 1;
    }
}

/// Verify SSA form
///
/// Checks:
/// - Each value is defined exactly once
/// - Values are only used after they are defined
pub fn verify_ssa(function: &Function, errors: &mut Vec<VerifierError>)
    requires
        function.wf(),
    ensures
        errs_view(final(errors)@) == errs_view(old(errors)@) + ssa_errs(function),
{
    let ghost o = errs_view(errors@);
    verify_value_definitions(function, errors);
    verify_value_uses(function, errors);
    proof {
        assert(errs_view(errors@) =~= o + ssa_errs(function));
    }
}

} // verus!
