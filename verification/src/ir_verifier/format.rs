//! Instruction format validation.
//!
//! Validates that InstData structure matches opcode expectations.

use vstd::prelude::*;

use crate::{
    dfg::{inst_data::InstDataView, Immediate, InstData, Opcode},
    function::Function,
    text::{dec, push_dec, push_str, push_type, type_text},
    types::Type,
    value::Value,
    ir_verifier::{errs_view, inst_loc, located, prefixed, push_located, strs, ErrView, VerifierError},
};

verus! {

/// The message `m` where `c` holds, else none.
pub open spec fn chk(c: bool, m: Seq<char>) -> Seq<Seq<char>> {
    if c {
        seq![m]
    } else {
        seq![]
    }
}

/// The message `<prefix><actual>` where a count differs from the one expected.
pub open spec fn cnt(actual: nat, expected: nat, prefix: Seq<char>) -> Seq<Seq<char>> {
    chk(actual != expected, prefix + dec(actual))
}

fn push_chk(out: &mut Vec<String>, c: bool, m: &str)
    ensures
        strs(final(out)@) == strs(old(out)@) + chk(c, m@),
{
    if c {
        let mut s = String::new();
        push_str(&mut s, m);
        out.push(s);
        proof {
            assert(strs(out@) =~= strs(old(out)@) + chk(c, m@));
        }
    } else {
        proof {
            assert(strs(out@) =~= strs(old(out)@) + chk(c, m@));
        }
    }
}

fn push_cnt(out: &mut Vec<String>, actual: usize, expected: usize, prefix: &str)
    ensures
        strs(final(out)@) == strs(old(out)@) + cnt(actual as nat, expected as nat, prefix@),
{
    if actual != expected {
        out.push(prefixed(prefix, actual as u64));
    }
    proof {
        assert(strs(out@) =~= strs(old(out)@) + cnt(actual as nat, expected as nat, prefix@));
    }
}

/// The format errors of an instruction of this kind.
pub open spec fn arith_errs(d: InstDataView) -> Seq<Seq<char>> {
    cnt(d.args.len(), 2, "Arithmetic operation expects 2 arguments, got "@) + cnt(d.results.len(), 1, "Arithmetic operation expects 1 result, got "@) + chk(d.block_args is Some, "Arithmetic operation should not have block_args"@) + chk(d.ty is Some, "Arithmetic operation should not have type"@) + chk(d.imm is Some, "Arithmetic operation should not have immediate"@)
}

/// The format errors of an instruction of this kind.
pub open spec fn bitwise_errs(d: InstDataView) -> Seq<Seq<char>> {
    cnt(d.args.len(), 2, "Bitwise/shift operation expects 2 arguments, got "@) + cnt(d.results.len(), 1, "Bitwise/shift operation expects 1 result, got "@) + chk(d.block_args is Some, "Bitwise/shift operation should not have block_args"@) + chk(d.ty is Some, "Bitwise/shift operation should not have type"@) + chk(d.imm is Some, "Bitwise/shift operation should not have immediate"@)
}

/// The format errors of an instruction of this kind.
pub open spec fn inot_errs(d: InstDataView) -> Seq<Seq<char>> {
    cnt(d.args.len(), 1, "Bitwise NOT operation expects 1 argument, got "@) + cnt(d.results.len(), 1, "Bitwise NOT operation expects 1 result, got "@) + chk(d.block_args is Some, "Bitwise NOT operation should not have block_args"@) + chk(d.ty is Some, "Bitwise NOT operation should not have type"@) + chk(d.imm is Some, "Bitwise NOT operation should not have immediate"@)
}

/// The format errors of an instruction of this kind.
pub open spec fn icmp_errs(d: InstDataView) -> Seq<Seq<char>> {
    cnt(d.args.len(), 2, "Icmp operation expects 2 arguments, got "@) + cnt(d.results.len(), 1, "Icmp operation expects 1 result, got "@) + chk(d.block_args is Some, "Icmp operation should not have block_args"@) + chk(d.ty is Some, "Icmp operation should not have type"@) + chk(!(d.imm matches Some(Immediate::IntCondCode(_))), "Icmp operation requires IntCondCode immediate"@)
}

/// The format errors of an instruction of this kind.
pub open spec fn fcmp_errs(d: InstDataView) -> Seq<Seq<char>> {
    cnt(d.args.len(), 2, "Fcmp operation expects 2 arguments, got "@) + cnt(d.results.len(), 1, "Fcmp operation expects 1 result, got "@) + chk(d.block_args is Some, "Fcmp operation should not have block_args"@) + chk(d.ty is Some, "Fcmp operation should not have type"@) + chk(!(d.imm matches Some(Immediate::FloatCondCode(_))), "Fcmp operation requires FloatCondCode immediate"@)
}

/// The format errors of an instruction of this kind.
pub open spec fn stackalloc_errs(d: InstDataView) -> Seq<Seq<char>> {
    cnt(d.args.len(), 0, "StackAlloc operation expects 0 arguments, got "@) + cnt(d.results.len(), 1, "StackAlloc operation expects 1 result, got "@) + chk(d.block_args is Some, "StackAlloc operation should not have block_args"@) + chk(d.ty is Some, "StackAlloc operation should not have type"@) + chk(d.imm is Some, "StackAlloc operation should not have immediate"@)
}

/// The format errors of an instruction of this kind.
pub open spec fn constant_errs(d: InstDataView) -> Seq<Seq<char>> {
    cnt(d.args.len(), 0, "Constant operation expects 0 arguments, got "@) + cnt(d.results.len(), 1, "Constant operation expects 1 result, got "@) + chk(d.imm is None, "Constant operation requires immediate value"@) + chk(d.block_args is Some, "Constant operation should not have block_args"@) + chk(d.ty is Some, "Constant operation should not have type"@)
}

/// The format errors of an instruction of this kind.
pub open spec fn load_errs(d: InstDataView) -> Seq<Seq<char>> {
    cnt(d.args.len(), 1, "Load expects 1 argument (address), got "@) + cnt(d.results.len(), 1, "Load expects 1 result, got "@) + chk(d.ty is None, "Load requires type information"@) + chk(d.block_args is Some, "Load should not have block_args"@) + chk(d.imm is Some, "Load should not have immediate"@)
}

/// The format errors of an instruction of this kind.
pub open spec fn store_errs(d: InstDataView) -> Seq<Seq<char>> {
    cnt(d.args.len(), 2, "Store expects 2 arguments (address, value), got "@) + cnt(d.results.len(), 0, "Store expects 0 results, got "@) + chk(d.ty is None, "Store requires type information"@) + chk(d.block_args is Some, "Store should not have block_args"@) + chk(d.imm is Some, "Store should not have immediate"@)
}

/// The format errors of an instruction of this kind.
pub open spec fn call_errs(d: InstDataView) -> Seq<Seq<char>> {
    chk(d.block_args is Some, "Call should not have block_args"@) + chk(d.ty is Some, "Call should not have type"@)
}

/// The format errors of an instruction of this kind.
pub open spec fn syscall_errs(d: InstDataView) -> Seq<Seq<char>> {
    cnt(d.results.len(), 0, "Syscall expects 0 results, got "@) + chk(d.imm is None, "Syscall requires immediate value (syscall number)"@) + chk(d.block_args is Some, "Syscall should not have block_args"@) + chk(d.ty is Some, "Syscall should not have type"@)
}

/// The format errors of an instruction of this kind.
pub open spec fn halt_errs(d: InstDataView) -> Seq<Seq<char>> {
    cnt(d.args.len(), 0, "Halt expects 0 arguments, got "@) + cnt(d.results.len(), 0, "Halt expects 0 results, got "@) + chk(d.block_args is Some, "Halt should not have block_args"@) + chk(d.ty is Some, "Halt should not have type"@) + chk(d.imm is Some, "Halt should not have immediate"@)
}

/// The format errors of an instruction of this kind.
pub open spec fn trap_errs(d: InstDataView) -> Seq<Seq<char>> {
    cnt(d.args.len(), 0, "Trap expects 0 arguments, got "@) + cnt(d.results.len(), 0, "Trap expects 0 results, got "@) + chk(d.block_args is Some, "Trap should not have block_args"@) + chk(d.ty is Some, "Trap should not have type"@) + chk(!(d.imm matches Some(Immediate::TrapCode(_))), "Trap operation requires TrapCode immediate"@)
}

/// The format errors of an instruction of this kind.
pub open spec fn trapz_errs(d: InstDataView) -> Seq<Seq<char>> {
    cnt(d.args.len(), 1, "Trapz expects 1 argument, got "@) + cnt(d.results.len(), 0, "Trapz expects 0 results, got "@) + chk(d.block_args is Some, "Trapz should not have block_args"@) + chk(d.ty is Some, "Trapz should not have type"@) + chk(!(d.imm matches Some(Immediate::TrapCode(_))), "Trapz operation requires TrapCode immediate"@)
}

/// The format errors of an instruction of this kind.
pub open spec fn trapnz_errs(d: InstDataView) -> Seq<Seq<char>> {
    cnt(d.args.len(), 1, "Trapnz expects 1 argument, got "@) + cnt(d.results.len(), 0, "Trapnz expects 0 results, got "@) + chk(d.block_args is Some, "Trapnz should not have block_args"@) + chk(d.ty is Some, "Trapnz should not have type"@) + chk(!(d.imm matches Some(Immediate::TrapCode(_))), "Trapnz operation requires TrapCode immediate"@)
}

fn push_arith_errs(out: &mut Vec<String>, d: &InstData)
    ensures
        strs(final(out)@) == strs(old(out)@) + arith_errs(d@),
{
    let ghost o = strs(out@);
    push_cnt(out, d.args.len(), 2, "Arithmetic operation expects 2 arguments, got ");
    push_cnt(out, d.results.len(), 1, "Arithmetic operation expects 1 result, got ");
    push_chk(out, d.block_args.is_some(), "Arithmetic operation should not have block_args");
    push_chk(out, d.ty.is_some(), "Arithmetic operation should not have type");
    push_chk(out, d.imm.is_some(), "Arithmetic operation should not have immediate");
    proof {
        assert(strs(out@) =~= o + arith_errs(d@));
    }
}

fn push_bitwise_errs(out: &mut Vec<String>, d: &InstData)
    ensures
        strs(final(out)@) == strs(old(out)@) + bitwise_errs(d@),
{
    let ghost o = strs(out@);
    push_cnt(out, d.args.len(), 2, "Bitwise/shift operation expects 2 arguments, got ");
    push_cnt(out, d.results.len(), 1, "Bitwise/shift operation expects 1 result, got ");
    push_chk(out, d.block_args.is_some(), "Bitwise/shift operation should not have block_args");
    push_chk(out, d.ty.is_some(), "Bitwise/shift operation should not have type");
    push_chk(out, d.imm.is_some(), "Bitwise/shift operation should not have immediate");
    proof {
        assert(strs(out@) =~= o + bitwise_errs(d@));
    }
}

fn push_inot_errs(out: &mut Vec<String>, d: &InstData)
    ensures
        strs(final(out)@) == strs(old(out)@) + inot_errs(d@),
{
    let ghost o = strs(out@);
    push_cnt(out, d.args.len(), 1, "Bitwise NOT operation expects 1 argument, got ");
    push_cnt(out, d.results.len(), 1, "Bitwise NOT operation expects 1 result, got ");
    push_chk(out, d.block_args.is_some(), "Bitwise NOT operation should not have block_args");
    push_chk(out, d.ty.is_some(), "Bitwise NOT operation should not have type");
    push_chk(out, d.imm.is_some(), "Bitwise NOT operation should not have immediate");
    proof {
        assert(strs(out@) =~= o + inot_errs(d@));
    }
}

fn push_icmp_errs(out: &mut Vec<String>, d: &InstData)
    ensures
        strs(final(out)@) == strs(old(out)@) + icmp_errs(d@),
{
    let ghost o = strs(out@);
    push_cnt(out, d.args.len(), 2, "Icmp operation expects 2 arguments, got ");
    push_cnt(out, d.results.len(), 1, "Icmp operation expects 1 result, got ");
    push_chk(out, d.block_args.is_some(), "Icmp operation should not have block_args");
    push_chk(out, d.ty.is_some(), "Icmp operation should not have type");
    push_chk(out, !matches!(d.imm, Some(Immediate::IntCondCode(_))), "Icmp operation requires IntCondCode immediate");
    proof {
        assert(strs(out@) =~= o + icmp_errs(d@));
    }
}

fn push_fcmp_errs(out: &mut Vec<String>, d: &InstData)
    ensures
        strs(final(out)@) == strs(old(out)@) + fcmp_errs(d@),
{
    let ghost o = strs(out@);
    push_cnt(out, d.args.len(), 2, "Fcmp operation expects 2 arguments, got ");
    push_cnt(out, d.results.len(), 1, "Fcmp operation expects 1 result, got ");
    push_chk(out, d.block_args.is_some(), "Fcmp operation should not have block_args");
    push_chk(out, d.ty.is_some(), "Fcmp operation should not have type");
    push_chk(out, !matches!(d.imm, Some(Immediate::FloatCondCode(_))), "Fcmp operation requires FloatCondCode immediate");
    proof {
        assert(strs(out@) =~= o + fcmp_errs(d@));
    }
}

fn push_stackalloc_errs(out: &mut Vec<String>, d: &InstData)
    ensures
        strs(final(out)@) == strs(old(out)@) + stackalloc_errs(d@),
{
    let ghost o = strs(out@);
    push_cnt(out, d.args.len(), 0, "StackAlloc operation expects 0 arguments, got ");
    push_cnt(out, d.results.len(), 1, "StackAlloc operation expects 1 result, got ");
    push_chk(out, d.block_args.is_some(), "StackAlloc operation should not have block_args");
    push_chk(out, d.ty.is_some(), "StackAlloc operation should not have type");
    push_chk(out, d.imm.is_some(), "StackAlloc operation should not have immediate");
    proof {
        assert(strs(out@) =~= o + stackalloc_errs(d@));
    }
}

fn push_constant_errs(out: &mut Vec<String>, d: &InstData)
    ensures
        strs(final(out)@) == strs(old(out)@) + constant_errs(d@),
{
    let ghost o = strs(out@);
    push_cnt(out, d.args.len(), 0, "Constant operation expects 0 arguments, got ");
    push_cnt(out, d.results.len(), 1, "Constant operation expects 1 result, got ");
    push_chk(out, d.imm.is_none(), "Constant operation requires immediate value");
    push_chk(out, d.block_args.is_some(), "Constant operation should not have block_args");
    push_chk(out, d.ty.is_some(), "Constant operation should not have type");
    proof {
        assert(strs(out@) =~= o + constant_errs(d@));
    }
}

fn push_load_errs(out: &mut Vec<String>, d: &InstData)
    ensures
        strs(final(out)@) == strs(old(out)@) + load_errs(d@),
{
    let ghost o = strs(out@);
    push_cnt(out, d.args.len(), 1, "Load expects 1 argument (address), got ");
    push_cnt(out, d.results.len(), 1, "Load expects 1 result, got ");
    push_chk(out, d.ty.is_none(), "Load requires type information");
    push_chk(out, d.block_args.is_some(), "Load should not have block_args");
    push_chk(out, d.imm.is_some(), "Load should not have immediate");
    proof {
        assert(strs(out@) =~= o + load_errs(d@));
    }
}

fn push_store_errs(out: &mut Vec<String>, d: &InstData)
    ensures
        strs(final(out)@) == strs(old(out)@) + store_errs(d@),
{
    let ghost o = strs(out@);
    push_cnt(out, d.args.len(), 2, "Store expects 2 arguments (address, value), got ");
    push_cnt(out, d.results.len(), 0, "Store expects 0 results, got ");
    push_chk(out, d.ty.is_none(), "Store requires type information");
    push_chk(out, d.block_args.is_some(), "Store should not have block_args");
    push_chk(out, d.imm.is_some(), "Store should not have immediate");
    proof {
        assert(strs(out@) =~= o + store_errs(d@));
    }
}

fn push_call_errs(out: &mut Vec<String>, d: &InstData)
    ensures
        strs(final(out)@) == strs(old(out)@) + call_errs(d@),
{
    let ghost o = strs(out@);
    push_chk(out, d.block_args.is_some(), "Call should not have block_args");
    push_chk(out, d.ty.is_some(), "Call should not have type");
    proof {
        assert(strs(out@) =~= o + call_errs(d@));
    }
}

fn push_syscall_errs(out: &mut Vec<String>, d: &InstData)
    ensures
        strs(final(out)@) == strs(old(out)@) + syscall_errs(d@),
{
    let ghost o = strs(out@);
    push_cnt(out, d.results.len(), 0, "Syscall expects 0 results, got ");
    push_chk(out, d.imm.is_none(), "Syscall requires immediate value (syscall number)");
    push_chk(out, d.block_args.is_some(), "Syscall should not have block_args");
    push_chk(out, d.ty.is_some(), "Syscall should not have type");
    proof {
        assert(strs(out@) =~= o + syscall_errs(d@));
    }
}

fn push_halt_errs(out: &mut Vec<String>, d: &InstData)
    ensures
        strs(final(out)@) == strs(old(out)@) + halt_errs(d@),
{
    let ghost o = strs(out@);
    push_cnt(out, d.args.len(), 0, "Halt expects 0 arguments, got ");
    push_cnt(out, d.results.len(), 0, "Halt expects 0 results, got ");
    push_chk(out, d.block_args.is_some(), "Halt should not have block_args");
    push_chk(out, d.ty.is_some(), "Halt should not have type");
    push_chk(out, d.imm.is_some(), "Halt should not have immediate");
    proof {
        assert(strs(out@) =~= o + halt_errs(d@));
    }
}

fn push_trap_errs(out: &mut Vec<String>, d: &InstData)
    ensures
        strs(final(out)@) == strs(old(out)@) + trap_errs(d@),
{
    let ghost o = strs(out@);
    push_cnt(out, d.args.len(), 0, "Trap expects 0 arguments, got ");
    push_cnt(out, d.results.len(), 0, "Trap expects 0 results, got ");
    push_chk(out, d.block_args.is_some(), "Trap should not have block_args");
    push_chk(out, d.ty.is_some(), "Trap should not have type");
    push_chk(out, !matches!(d.imm, Some(Immediate::TrapCode(_))), "Trap operation requires TrapCode immediate");
    proof {
        assert(strs(out@) =~= o + trap_errs(d@));
    }
}

fn push_trapz_errs(out: &mut Vec<String>, d: &InstData)
    ensures
        strs(final(out)@) == strs(old(out)@) + trapz_errs(d@),
{
    let ghost o = strs(out@);
    push_cnt(out, d.args.len(), 1, "Trapz expects 1 argument, got ");
    push_cnt(out, d.results.len(), 0, "Trapz expects 0 results, got ");
    push_chk(out, d.block_args.is_some(), "Trapz should not have block_args");
    push_chk(out, d.ty.is_some(), "Trapz should not have type");
    push_chk(out, !matches!(d.imm, Some(Immediate::TrapCode(_))), "Trapz operation requires TrapCode immediate");
    proof {
        assert(strs(out@) =~= o + trapz_errs(d@));
    }
}

fn push_trapnz_errs(out: &mut Vec<String>, d: &InstData)
    ensures
        strs(final(out)@) == strs(old(out)@) + trapnz_errs(d@),
{
    let ghost o = strs(out@);
    push_cnt(out, d.args.len(), 1, "Trapnz expects 1 argument, got ");
    push_cnt(out, d.results.len(), 0, "Trapnz expects 0 results, got ");
    push_chk(out, d.block_args.is_some(), "Trapnz should not have block_args");
    push_chk(out, d.ty.is_some(), "Trapnz should not have type");
    push_chk(out, !matches!(d.imm, Some(Immediate::TrapCode(_))), "Trapnz operation requires TrapCode immediate");
    proof {
        assert(strs(out@) =~= o + trapnz_errs(d@));
    }
}

/// The format errors of a jump.
pub open spec fn jump_errs(d: InstDataView) -> Seq<Seq<char>> {
    cnt(d.results.len(), 0, "Jump expects 0 results, got "@) + match d.block_args {
        Some(t) => if t.len() != 1 {
            seq!["Jump expects 1 target, got "@ + dec(t.len())]
        } else {
            chk(
                d.args.len() != t[0].1.len(),
                "Jump args count ("@ + dec(d.args.len()) + ") does not match target args count ("@ + dec(
                    t[0].1.len(),
                ) + ")"@,
            )
        },
        None => seq!["Jump requires block_args"@],
    } + chk(d.ty is Some, "Jump should not have type"@) + chk(d.imm is Some, "Jump should not have immediate"@)
}

/// The format errors of a branch.
pub open spec fn br_errs(d: InstDataView) -> Seq<Seq<char>> {
    cnt(d.results.len(), 0, "Branch expects 0 results, got "@) + match d.block_args {
        Some(t) => if t.len() != 2 {
            seq!["Branch expects 2 targets, got "@ + dec(t.len())]
        } else {
            let e = 1 + t[0].1.len() + t[1].1.len();
            chk(
                d.args.len() != e,
                "Branch expects "@ + dec(e) + " arguments (1 condition + "@ + dec(t[0].1.len()) + " true args + "@
                    + dec(t[1].1.len()) + " false args), got "@ + dec(d.args.len()),
            )
        },
        None => seq!["Branch requires block_args"@],
    } + chk(d.ty is Some, "Branch should not have type"@) + chk(d.imm is Some, "Branch should not have immediate"@)
}

/// The type errors of the first `i` returned values: a value with a type
/// other than the signature's result type at its position.
pub open spec fn ret_type_errs(f: &Function, args: Seq<Value>, i: int) -> Seq<Seq<char>>
    decreases i,
{
    if i <= 0 {
        seq![]
    } else {
        let v = args[i - 1];
        let rets = f.signature.returns@;
        ret_type_errs(f, args, i - 1) + if v.0 < f.dfg.value_types@.len() && i - 1 < rets.len()
            && f.dfg.value_types@[v.0 as int] != rets[i - 1] {
            seq![
                "Return value "@ + dec((i - 1) as nat) + " has type "@ + type_text(f.dfg.value_types@[v.0 as int])
                    + ", expected "@ + type_text(rets[i - 1]),
            ]
        } else {
            seq![]
        }
    }
}

/// The format errors of a return in function `f`.
pub open spec fn return_errs(f: &Function, d: InstDataView) -> Seq<Seq<char>> {
    let n = f.signature.returns@.len();
    cnt(d.results.len(), 0, "Return instruction must have 0 results, got "@) + chk(
        d.args.len() != n,
        "Return expects "@ + dec(n) + " arguments (matching function signature), got "@ + dec(d.args.len()),
    ) + ret_type_errs(f, d.args, d.args.len() as int) + chk(d.block_args is Some, "Return should not have block_args"@)
        + chk(d.ty is Some, "Return should not have type"@) + chk(d.imm is Some, "Return should not have immediate"@)
}

/// The format errors of an instruction of function `f`.
pub open spec fn inst_errs(f: &Function, d: InstDataView) -> Seq<Seq<char>> {
    match d.opcode {
        Opcode::Jump => jump_errs(d),
        Opcode::Br => br_errs(d),
        Opcode::Return => return_errs(f, d),
        Opcode::Iadd | Opcode::Isub | Opcode::Imul | Opcode::Imulh | Opcode::Idiv | Opcode::Irem | Opcode::Fadd | Opcode::Fsub | Opcode::Fmul | Opcode::Fdiv => arith_errs(d),
        Opcode::Iand | Opcode::Ior | Opcode::Ixor | Opcode::Ishl | Opcode::Ishr | Opcode::Iashr => bitwise_errs(d),
        Opcode::Inot => inot_errs(d),
        Opcode::Icmp { .. } => icmp_errs(d),
        Opcode::Fcmp { .. } => fcmp_errs(d),
        Opcode::StackAlloc { .. } => stackalloc_errs(d),
        Opcode::Iconst | Opcode::Fconst => constant_errs(d),
        Opcode::Load => load_errs(d),
        Opcode::Store => store_errs(d),
        Opcode::Call { .. } => call_errs(d),
        Opcode::Syscall => syscall_errs(d),
        Opcode::Halt => halt_errs(d),
        Opcode::Trap { .. } => trap_errs(d),
        Opcode::Trapz { .. } => trapz_errs(d),
        Opcode::Trapnz { .. } => trapnz_errs(d),
    }
}

/// The format errors of the first `q` instructions of block `b`, each at
/// its instruction.
pub open spec fn block_format_errs(f: &Function, b: int, q: int) -> Seq<ErrView>
    decreases q,
{
    if q <= 0 {
        seq![]
    } else {
        block_format_errs(f, b, q - 1) + located(
            inst_errs(f, f.inst_at(b, q - 1)),
            inst_loc(f.layout@.contents[b][q - 1]),
        )
    }
}

/// The format errors of the blocks at the first `k` positions of the layout.
pub open spec fn format_errs(f: &Function, k: int) -> Seq<ErrView>
    decreases k,
{
    if k <= 0 {
        seq![]
    } else {
        format_errs(f, k - 1) + block_format_errs(f, f.block_at(k - 1), f.len_at(k - 1))
    }
}

fn push_jump_errs(out: &mut Vec<String>, d: &InstData)
    ensures
        strs(final(out)@) == strs(old(out)@) + jump_errs(d@),
{
    let ghost o = strs(out@);
    push_cnt(out, d.results.len(), 0, "Jump expects 0 results, got ");
    let ghost o2 = strs(out@);
    match &d.block_args {
        Some(ba) => {
            if ba.targets.len() != 1 {
                out.push(prefixed("Jump expects 1 target, got ", ba.targets.len() as u64));
            } else {
                let a = d.args.len();
                let t = ba.targets[0].1.len();
                if a != t {
                    let mut m = String::new();
                    push_str(&mut m, "Jump args count (");
                    push_dec(&mut m, a as u64);
                    push_str(&mut m, ") does not match target args count (");
                    push_dec(&mut m, t as u64);
                    push_str(&mut m, ")");
                    out.push(m);
                }
            }
        },
        None => {
            let mut m = String::new();
            push_str(&mut m, "Jump requires block_args");
            out.push(m);
        },
    }
    proof {
        assert(strs(out@) =~= o2 + match d@.block_args {
            Some(t) => if t.len() != 1 {
                seq!["Jump expects 1 target, got "@ + dec(t.len())]
            } else {
                chk(
                    d@.args.len() != t[0].1.len(),
                    "Jump args count ("@ + dec(d@.args.len()) + ") does not match target args count ("@ + dec(
                        t[0].1.len(),
                    ) + ")"@,
                )
            },
            None => seq!["Jump requires block_args"@],
        });
    }
    push_chk(out, d.ty.is_some(), "Jump should not have type");
    push_chk(out, d.imm.is_some(), "Jump should not have immediate");
    proof {
        assert(strs(out@) =~= o + jump_errs(d@));
    }
}

fn push_br_errs(out: &mut Vec<String>, d: &InstData)
    ensures
        strs(final(out)@) == strs(old(out)@) + br_errs(d@),
{
    let ghost o = strs(out@);
    push_cnt(out, d.results.len(), 0, "Branch expects 0 results, got ");
    let ghost o2 = strs(out@);
    match &d.block_args {
        Some(ba) => {
            if ba.targets.len() != 2 {
                out.push(prefixed("Branch expects 2 targets, got ", ba.targets.len() as u64));
            } else {
                let a = ba.targets[0].1.len();
                let b = ba.targets[1].1.len();
                let e: u128 = 1 + a as u128 + b as u128;
                if d.args.len() as u128 != e {
                    let mut m = String::new();
                    push_str(&mut m, "Branch expects ");
                    crate::text::push_dec_wide(&mut m, e);
                    push_str(&mut m, " arguments (1 condition + ");
                    push_dec(&mut m, a as u64);
                    push_str(&mut m, " true args + ");
                    push_dec(&mut m, b as u64);
                    push_str(&mut m, " false args), got ");
                    push_dec(&mut m, d.args.len() as u64);
                    out.push(m);
                }
            }
        },
        None => {
            let mut m = String::new();
            push_str(&mut m, "Branch requires block_args");
            out.push(m);
        },
    }
    proof {
        assert(strs(out@) =~= o2 + match d@.block_args {
            Some(t) => if t.len() != 2 {
                seq!["Branch expects 2 targets, got "@ + dec(t.len())]
            } else {
                let e = 1 + t[0].1.len() + t[1].1.len();
                chk(
                    d@.args.len() != e,
                    "Branch expects "@ + dec(e) + " arguments (1 condition + "@ + dec(t[0].1.len()) + " true args + "@
                        + dec(t[1].1.len()) + " false args), got "@ + dec(d@.args.len()),
                )
            },
            None => seq!["Branch requires block_args"@],
        });
    }
    push_chk(out, d.ty.is_some(), "Branch should not have type");
    push_chk(out, d.imm.is_some(), "Branch should not have immediate");
    proof {
        assert(strs(out@) =~= o + br_errs(d@));
    }
}

fn push_return_errs(out: &mut Vec<String>, f: &Function, d: &InstData)
    ensures
        strs(final(out)@) == strs(old(out)@) + return_errs(f, d@),
{
    let ghost o = strs(out@);
    let n = f.signature.returns.len();
    push_cnt(out, d.results.len(), 0, "Return instruction must have 0 results, got ");
    if d.args.len() != n {
        let mut m = String::new();
        push_str(&mut m, "Return expects ");
        push_dec(&mut m, n as u64);
        push_str(&mut m, " arguments (matching function signature), got ");
        push_dec(&mut m, d.args.len() as u64);
        out.push(m);
    }
    let ghost o2 = strs(out@);
    proof {
        assert(o2 =~= o + cnt(d@.results.len(), 0, "Return instruction must have 0 results, got "@) + chk(
            d@.args.len() != n,
            "Return expects "@ + dec(n as nat) + " arguments (matching function signature), got "@ + dec(d@.args.len()),
        ));
    }
    let mut i: usize = 0;
    while i < d.args.len()
        invariant
            i <= d.args@.len(),
            n == f.signature.returns@.len(),
            strs(out@) == o2 + ret_type_errs(f, d@.args, i as int),
        decreases d.args@.len() - i,
    {
        let v = d.args[i];
        let ghost before = strs(out@);
        if let Some(t) = f.dfg.value_type(v) {
            if i < n {
                let e = f.signature.returns[i];
                if t != e {
                    let mut m = String::new();
                    push_str(&mut m, "Return value ");
                    push_dec(&mut m, i as u64);
                    push_str(&mut m, " has type ");
                    push_type(&mut m, t);
                    push_str(&mut m, ", expected ");
                    push_type(&mut m, e);
                    let ghost mv = m@;
                    out.push(m);
                    proof {
                        assert(strs(out@) =~= before.push(mv));
                    }
                }
            }
        }
        proof {
            let ii = i + 1;
            assert(d@.args[ii - 1] == v);
            assert(ret_type_errs(f, d@.args, ii) == ret_type_errs(f, d@.args, ii - 1) + (if v.0 < f.dfg.value_types@.len() && ii - 1 < f.signature.returns@.len()
                && f.dfg.value_types@[v.0 as int] != f.signature.returns@[ii - 1] {
                seq![
                    "Return value "@ + dec((ii - 1) as nat) + " has type "@ + type_text(f.dfg.value_types@[v.0 as int])
                        + ", expected "@ + type_text(f.signature.returns@[ii - 1]),
                ]
            } else {
                seq![]
            }));
            assert(strs(out@) =~= o2 + ret_type_errs(f, d@.args, i + 1));
        }
        i = i + 1;
    }
    push_chk(out, d.block_args.is_some(), "Return should not have block_args");
    push_chk(out, d.ty.is_some(), "Return should not have type");
    push_chk(out, d.imm.is_some(), "Return should not have immediate");
    proof {
        assert(strs(out@) =~= o + return_errs(f, d@));
    }
}

/// Append the format errors of an instruction of function `f`.
fn push_inst_errs(out: &mut Vec<String>, f: &Function, d: &InstData)
    ensures
        strs(final(out)@) == strs(old(out)@) + inst_errs(f, d@),
{
    match &d.opcode {
        Opcode::Jump => push_jump_errs(out, d),
        Opcode::Br => push_br_errs(out, d),
        Opcode::Return => push_return_errs(out, f, d),
        Opcode::Iadd | Opcode::Isub | Opcode::Imul | Opcode::Imulh | Opcode::Idiv | Opcode::Irem | Opcode::Fadd | Opcode::Fsub | Opcode::Fmul | Opcode::Fdiv => push_arith_errs(out, d),
        Opcode::Iand | Opcode::Ior | Opcode::Ixor | Opcode::Ishl | Opcode::Ishr | Opcode::Iashr => push_bitwise_errs(out, d),
        Opcode::Inot => push_inot_errs(out, d),
        Opcode::Icmp { .. } => push_icmp_errs(out, d),
        Opcode::Fcmp { .. } => push_fcmp_errs(out, d),
        Opcode::StackAlloc { .. } => push_stackalloc_errs(out, d),
        Opcode::Iconst | Opcode::Fconst => push_constant_errs(out, d),
        Opcode::Load => push_load_errs(out, d),
        Opcode::Store => push_store_errs(out, d),
        Opcode::Call { .. } => push_call_errs(out, d),
        Opcode::Syscall => push_syscall_errs(out, d),
        Opcode::Halt => push_halt_errs(out, d),
        Opcode::Trap { .. } => push_trap_errs(out, d),
        Opcode::Trapz { .. } => push_trapz_errs(out, d),
        Opcode::Trapnz { .. } => push_trapnz_errs(out, d),
    }
}

/// Verify instruction format correctness
///
/// Checks that InstData structure matches the opcode's expected format:
/// - Correct number of arguments
/// - Correct number of results
/// - Required fields present (block_args, ty, imm)
/// - Forbidden fields absent
///
/// The errors of each instruction, in layout order, are appended, each at
/// its instruction (`inst<n>`).
pub fn verify_format(function: &Function, errors: &mut Vec<VerifierError>)
    requires
        function.wf(),
    ensures
        errs_view(final(errors)@) == errs_view(old(errors)@) + format_errs(
            function,
            function.layout@.order.len() as int,
        ),
{
    let ghost base = errs_view(errors@);
    let blocks = function.blocks();
    let n = blocks.len();
    let mut k: usize = 0;
    while k < n
        invariant
            function.wf(),
            n == blocks@.len(),
            blocks@.len() == function.layout@.order.len(),
            forall|i: int| 0 <= i < blocks@.len() ==> (#[trigger] blocks@[i]).0 == function.layout@.order[i],
            k <= n,
            errs_view(errors@) == base + format_errs(function, k as int),
        decreases n - k,
    {
        proof {
            function.layout.lemma_order_bound(k as int);
        }
        let b = blocks[k];
        let insts = function.block_insts(b);
        let ghost mid = errs_view(errors@);
        let mut q: usize = 0;
        while q < insts.len()
            invariant
                function.wf(),
                b.0 == function.block_at(k as int),
                b.0 < function.blocks@.len(),
                insts@.len() == function.len_at(k as int),
                forall|j: int| 0 <= j < insts@.len() ==> (#[trigger] insts@[j]).0 == function.layout@.contents[b.0 as int][j],
                q <= insts@.len(),
                errs_view(errors@) == mid + block_format_errs(function, b.0 as int, q as int),
            decreases insts@.len() - q,
        {
            let d = function.placed_inst(b, q);
            let mut msgs: Vec<String> = Vec::new();
            push_inst_errs(&mut msgs, function, d);
            let loc = prefixed("inst", insts[q].0 as u64);
            push_located(errors, msgs, &loc);
            proof {
                assert(strs(msgs@) =~= inst_errs(function, d@));
                assert(errs_view(errors@) =~= mid + block_format_errs(function, b.0 as int, q + 1));
            }
            q = q + 1;
        }
        proof {
            assert(errs_view(errors@) =~= base + format_errs(function, k + 1));
        }
        k = k + 1;
    }
}

} // verus!
