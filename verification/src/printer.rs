//! The text form of functions, the one the parser reads.

use vstd::prelude::*;

use crate::{
    dfg::{inst_data::InstDataView, Immediate, InstData, Opcode},
    function::Function,
    inst::{opt_args_text, push_opt_args},
    text::{
        binop_text, bname, dec, dec_i32, dec_i64, hex32, push_binop, push_block_name, push_dec, push_hex32,
        push_i32, push_i64, push_str, push_type, push_types, push_value_name, push_values, type_text,
        types_text, values_text, vname,
    },
    types::Type,
    value::Value,
};

verus! {

/// The name of an opcode, written where an instruction lacks the operands
/// its form needs.
pub open spec fn opcode_name(op: Opcode) -> Seq<char> {
    match op {
        Opcode::Iadd => "Iadd"@,
        Opcode::Isub => "Isub"@,
        Opcode::Imul => "Imul"@,
        Opcode::Imulh => "Imulh"@,
        Opcode::Idiv => "Idiv"@,
        Opcode::Irem => "Irem"@,
        Opcode::Fadd => "Fadd"@,
        Opcode::Fsub => "Fsub"@,
        Opcode::Fmul => "Fmul"@,
        Opcode::Fdiv => "Fdiv"@,
        Opcode::Iand => "Iand"@,
        Opcode::Ior => "Ior"@,
        Opcode::Ixor => "Ixor"@,
        Opcode::Inot => "Inot"@,
        Opcode::Ishl => "Ishl"@,
        Opcode::Ishr => "Ishr"@,
        Opcode::Iashr => "Iashr"@,
        Opcode::Icmp { .. } => "Icmp"@,
        Opcode::Fcmp { .. } => "Fcmp"@,
        Opcode::Iconst => "Iconst"@,
        Opcode::Fconst => "Fconst"@,
        Opcode::Jump => "Jump"@,
        Opcode::Br => "Br"@,
        Opcode::Return => "Return"@,
        Opcode::Call { .. } => "Call"@,
        Opcode::Syscall => "Syscall"@,
        Opcode::Halt => "Halt"@,
        Opcode::Load => "Load"@,
        Opcode::Store => "Store"@,
        Opcode::StackAlloc { .. } => "StackAlloc"@,
        Opcode::Trap { .. } => "Trap"@,
        Opcode::Trapz { .. } => "Trapz"@,
        Opcode::Trapnz { .. } => "Trapnz"@,
    }
}

/// The mnemonic of a binary operation, if the opcode is one.
pub open spec fn binary_mnemonic(op: Opcode) -> Option<Seq<char>> {
    match op {
        Opcode::Iadd => Some("iadd"@),
        Opcode::Isub => Some("isub"@),
        Opcode::Imul => Some("imul"@),
        Opcode::Imulh => Some("imulh"@),
        Opcode::Idiv => Some("idiv"@),
        Opcode::Irem => Some("irem"@),
        Opcode::Fadd => Some("fadd"@),
        Opcode::Fsub => Some("fsub"@),
        Opcode::Fmul => Some("fmul"@),
        Opcode::Fdiv => Some("fdiv"@),
        Opcode::Iand => Some("iand"@),
        Opcode::Ior => Some("ior"@),
        Opcode::Ixor => Some("ixor"@),
        Opcode::Ishl => Some("ishl"@),
        Opcode::Ishr => Some("ishr"@),
        Opcode::Iashr => Some("iashr"@),
        Opcode::Icmp { cond } => Some("icmp "@ + cond.spec_mnemonic()),
        Opcode::Fcmp { cond } => Some("fcmp "@ + cond.spec_mnemonic()),
        _ => None,
    }
}

/// The trap code an instruction names: its immediate trap code, or the
/// opcode's.
pub open spec fn trap_code_text(d: InstDataView, code: crate::trapcode::TrapCode) -> Seq<char> {
    match d.imm {
        Some(Immediate::TrapCode(tc)) => tc.spec_text(),
        _ => code.spec_text(),
    }
}

/// ` -> v..` for a non-empty list of results, else nothing.
pub open spec fn results_text(vs: Seq<Value>) -> Seq<char> {
    if vs.len() > 0 {
        " -> "@ + values_text(vs)
    } else {
        seq![]
    }
}

/// `syscall <n>(`, or `syscall (` without a number.
pub open spec fn syscall_head(d: InstDataView) -> Seq<char> {
    match d.imm {
        Some(Immediate::I32(n)) => "syscall "@ + dec_i32(n) + "("@,
        _ => "syscall ("@,
    }
}

/// The text of an instruction.
pub open spec fn data_text(d: InstDataView) -> Seq<char> {
    let fallback = opcode_name(d.opcode);
    match d.opcode {
        Opcode::Inot => if d.results.len() == 1 && d.args.len() == 1 {
            vname(d.results[0]) + " = inot "@ + vname(d.args[0])
        } else {
            fallback
        },
        Opcode::Iconst | Opcode::Fconst => {
            let m = if d.opcode is Iconst {
                " = iconst "@
            } else {
                " = fconst "@
            };
            if d.results.len() == 1 {
                match d.imm {
                    Some(Immediate::I64(v)) => vname(d.results[0]) + m + dec_i64(v),
                    Some(Immediate::I32(v)) => vname(d.results[0]) + m + dec_i32(v),
                    Some(Immediate::F32Bits(b)) => vname(d.results[0]) + m + hex32(b),
                    _ => fallback,
                }
            } else {
                fallback
            }
        },
        Opcode::StackAlloc { size } => if d.results.len() == 1 {
            vname(d.results[0]) + " = stackalloc "@ + dec(size as nat)
        } else {
            fallback
        },
        Opcode::Jump => match d.block_args {
            Some(t) => if t.len() == 1 {
                "jump "@ + bname(t[0].0.0) + opt_args_text(t[0].1)
            } else {
                fallback
            },
            None => fallback,
        },
        Opcode::Br => match d.block_args {
            Some(t) => if t.len() == 2 && d.args.len() > 0 {
                "brif "@ + vname(d.args[0]) + ", "@ + bname(t[0].0.0) + opt_args_text(t[0].1) + ", "@ + bname(
                    t[1].0.0,
                ) + opt_args_text(t[1].1)
            } else {
                fallback
            },
            None => fallback,
        },
        Opcode::Return => if d.args.len() > 0 {
            "return "@ + values_text(d.args)
        } else {
            "return"@
        },
        Opcode::Halt => "halt"@,
        Opcode::Trap { code } => "trap "@ + trap_code_text(d, code),
        Opcode::Trapz { code } => if d.args.len() == 1 {
            "trapz "@ + vname(d.args[0]) + ", "@ + trap_code_text(d, code)
        } else {
            fallback
        },
        Opcode::Trapnz { code } => if d.args.len() == 1 {
            "trapnz "@ + vname(d.args[0]) + ", "@ + trap_code_text(d, code)
        } else {
            fallback
        },
        Opcode::Call { callee } => "call %"@ + callee@ + "("@ + values_text(d.args) + ")"@ + results_text(
            d.results,
        ),
        Opcode::Syscall => syscall_head(d) + values_text(d.args) + ")"@ + results_text(d.results),
        Opcode::Load => if d.results.len() == 1 && d.args.len() == 1 {
            match d.ty {
                Some(t) => vname(d.results[0]) + " = load."@ + type_text(t) + " "@ + vname(d.args[0]),
                None => vname(d.results[0]) + " = load "@ + vname(d.args[0]),
            }
        } else {
            fallback
        },
        Opcode::Store => if d.args.len() == 2 {
            match d.ty {
                Some(t) => "store."@ + type_text(t) + " "@ + vname(d.args[0]) + ", "@ + vname(d.args[1]),
                None => "store "@ + vname(d.args[0]) + ", "@ + vname(d.args[1]),
            }
        } else {
            fallback
        },
        _ => match binary_mnemonic(d.opcode) {
            Some(m) => if d.results.len() == 1 && d.args.len() == 2 {
                binop_text(d.results[0], m, d.args[0], d.args[1])
            } else {
                fallback
            },
            None => fallback,
        },
    }
}

/// `v<p>: <type>` for each parameter with a type, separated by `, `.
pub open spec fn typed_params_text(ps: Seq<Value>, ts: Seq<Type>, n: int) -> Seq<char>
    decreases n,
{
    if n <= 0 {
        seq![]
    } else if n == 1 {
        vname(ps[0]) + ": "@ + type_text(ts[0])
    } else {
        typed_params_text(ps, ts, n - 1) + ", "@ + vname(ps[n - 1]) + ": "@ + type_text(ts[n - 1])
    }
}

/// The smaller of two lengths.
pub open spec fn min_len(a: nat, b: nat) -> nat {
    if a <= b {
        a
    } else {
        b
    }
}

/// The header of the block at position `k`: `block<k>`, its parameters in
/// brackets if it has any, and `:`.
pub open spec fn header_text(f: &Function, k: int) -> Seq<char> {
    let bd = f.blocks@[f.block_at(k)];
    "block"@ + dec(k as nat) + if bd.params@.len() > 0 {
        "("@ + typed_params_text(
            bd.params@,
            bd.param_types@,
            min_len(bd.params@.len(), bd.param_types@.len()) as int,
        ) + ")"@
    } else {
        seq![]
    } + ":\n"@
}

/// The lines of the first `q` instructions of block `b`.
pub open spec fn insts_text(f: &Function, b: int, q: int) -> Seq<char>
    decreases q,
{
    if q <= 0 {
        seq![]
    } else {
        insts_text(f, b, q - 1) + "    "@ + data_text(f.inst_at(b, q - 1)) + "\n"@
    }
}

/// The text of the blocks at the first `k` positions of the layout.
pub open spec fn blocks_text(f: &Function, k: int) -> Seq<char>
    decreases k,
{
    if k <= 0 {
        seq![]
    } else {
        blocks_text(f, k - 1) + header_text(f, k - 1) + insts_text(f, f.block_at(k - 1), f.len_at(k - 1))
    }
}

/// The text of a function: its name and signature, then its blocks in
/// layout order, each numbered by its position.
pub open spec fn function_text(f: &Function) -> Seq<char> {
    "function %"@ + f.name@ + "("@ + types_text(f.signature.params@) + ")"@ + if f.signature.returns@.len() > 0 {
        " -> "@ + types_text(f.signature.returns@)
    } else {
        seq![]
    } + " {\n"@ + blocks_text(f, f.layout@.order.len() as int) + "}\n"@
}

/// Append ` -> v..` for a non-empty list of results.
fn push_results(out: &mut String, vs: &[Value])
    ensures
        final(out)@ == old(out)@ + results_text(vs@),
{
    if vs.len() > 0 {
        push_str(out, " -> ");
        push_values(out, vs);
        proof {
            assert(out@ =~= old(out)@ + results_text(vs@));
        }
    }
}

/// Append the name of an opcode.
fn push_opcode_name(out: &mut String, op: &Opcode)
    ensures
        final(out)@ == old(out)@ + opcode_name(*op),
{
    let s = match op {
        Opcode::Iadd => "Iadd",
        Opcode::Isub => "Isub",
        Opcode::Imul => "Imul",
        Opcode::Imulh => "Imulh",
        Opcode::Idiv => "Idiv",
        Opcode::Irem => "Irem",
        Opcode::Fadd => "Fadd",
        Opcode::Fsub => "Fsub",
        Opcode::Fmul => "Fmul",
        Opcode::Fdiv => "Fdiv",
        Opcode::Iand => "Iand",
        Opcode::Ior => "Ior",
        Opcode::Ixor => "Ixor",
        Opcode::Inot => "Inot",
        Opcode::Ishl => "Ishl",
        Opcode::Ishr => "Ishr",
        Opcode::Iashr => "Iashr",
        Opcode::Icmp { .. } => "Icmp",
        Opcode::Fcmp { .. } => "Fcmp",
        Opcode::Iconst => "Iconst",
        Opcode::Fconst => "Fconst",
        Opcode::Jump => "Jump",
        Opcode::Br => "Br",
        Opcode::Return => "Return",
        Opcode::Call { .. } => "Call",
        Opcode::Syscall => "Syscall",
        Opcode::Halt => "Halt",
        Opcode::Load => "Load",
        Opcode::Store => "Store",
        Opcode::StackAlloc { .. } => "StackAlloc",
        Opcode::Trap { .. } => "Trap",
        Opcode::Trapz { .. } => "Trapz",
        Opcode::Trapnz { .. } => "Trapnz",
    };
    push_str(out, s);
}

/// Append the trap code an instruction names.
fn push_trap_code(out: &mut String, d: &InstData, code: crate::trapcode::TrapCode)
    ensures
        final(out)@ == old(out)@ + trap_code_text(d@, code),
{
    match &d.imm {
        Some(Immediate::TrapCode(tc)) => tc.push_text(out),
        _ => code.push_text(out),
    }
}

/// Append the text of a binary operation, if the opcode is one; tell
/// whether it was.
fn push_binary(out: &mut String, d: &InstData) -> (r: bool)
    ensures
        r == (binary_mnemonic(d.opcode) is Some && d.results@.len() == 1 && d.args@.len() == 2),
        r ==> final(out)@ == old(out)@ + binop_text(
            d.results@[0],
            binary_mnemonic(d.opcode).unwrap(),
            d.args@[0],
            d.args@[1],
        ),
        !r ==> final(out)@ == old(out)@,
{
    if d.results.len() != 1 || d.args.len() != 2 {
        return false;
    }
    let (r, a, b) = (d.results[0], d.args[0], d.args[1]);
    match &d.opcode {
        Opcode::Iadd => push_binop(out, r, "iadd", a, b),
        Opcode::Isub => push_binop(out, r, "isub", a, b),
        Opcode::Imul => push_binop(out, r, "imul", a, b),
        Opcode::Imulh => push_binop(out, r, "imulh", a, b),
        Opcode::Idiv => push_binop(out, r, "idiv", a, b),
        Opcode::Irem => push_binop(out, r, "irem", a, b),
        Opcode::Fadd => push_binop(out, r, "fadd", a, b),
        Opcode::Fsub => push_binop(out, r, "fsub", a, b),
        Opcode::Fmul => push_binop(out, r, "fmul", a, b),
        Opcode::Fdiv => push_binop(out, r, "fdiv", a, b),
        Opcode::Iand => push_binop(out, r, "iand", a, b),
        Opcode::Ior => push_binop(out, r, "ior", a, b),
        Opcode::Ixor => push_binop(out, r, "ixor", a, b),
        Opcode::Ishl => push_binop(out, r, "ishl", a, b),
        Opcode::Ishr => push_binop(out, r, "ishr", a, b),
        Opcode::Iashr => push_binop(out, r, "iashr", a, b),
        Opcode::Icmp { cond } => {
            let mut m = String::new();
            push_str(&mut m, "icmp ");
            push_str(&mut m, cond.mnemonic());
            push_binop(out, r, m.as_str(), a, b);
        },
        Opcode::Fcmp { cond } => {
            let mut m = String::new();
            push_str(&mut m, "fcmp ");
            push_str(&mut m, cond.mnemonic());
            push_binop(out, r, m.as_str(), a, b);
        },
        _ => {
            return false;
        },
    }
    true
}

/// Append the text of an instruction.
pub fn push_inst_text(out: &mut String, d: &InstData)
    ensures
        final(out)@ == old(out)@ + data_text(d@),
{
    match &d.opcode {
        Opcode::Inot => push_inot_text(out, d),
        Opcode::Iconst | Opcode::Fconst => push_const_text(out, d),
        Opcode::StackAlloc { .. } => push_stackalloc_text(out, d),
        Opcode::Jump => push_jump_text(out, d),
        Opcode::Br => push_br_text(out, d),
        Opcode::Return => push_return_text(out, d),
        Opcode::Halt => push_halt_text(out, d),
        Opcode::Trap { .. } => push_trap_text(out, d),
        Opcode::Trapz { .. } => push_trapz_text(out, d),
        Opcode::Trapnz { .. } => push_trapnz_text(out, d),
        Opcode::Call { .. } => push_call_text(out, d),
        Opcode::Syscall => push_syscall_text(out, d),
        Opcode::Load => push_load_text(out, d),
        Opcode::Store => push_store_text(out, d),
        _ => push_binary_text(out, d),
    }
}

/// Append the text of an instruction of this form.
fn push_inot_text(out: &mut String, d: &InstData)
    requires
        d.opcode matches Opcode::Inot,
    ensures
        final(out)@ == old(out)@ + data_text(d@),
{
    let ghost o = old(out)@;
    match &d.opcode {
        Opcode::Inot => {
            if d.results.len() == 1 && d.args.len() == 1 {
                push_value_name(out, d.results[0].0);
                push_str(out, " = inot ");
                push_value_name(out, d.args[0].0);
                proof {
                    assert(out@ =~= o + data_text(d@));
                }
            } else {
                push_opcode_name(out, &d.opcode);
            }
        },
        _ => {},
    }
}

/// Append the text of an instruction of this form.
fn push_const_text(out: &mut String, d: &InstData)
    requires
        d.opcode is Iconst || d.opcode is Fconst,
    ensures
        final(out)@ == old(out)@ + data_text(d@),
{
    let ghost o = old(out)@;
    match &d.opcode {
        Opcode::Iconst | Opcode::Fconst => {
            let m = match &d.opcode {
                Opcode::Iconst => " = iconst ",
                _ => " = fconst ",
            };
            if d.results.len() == 1 {
                match &d.imm {
                    Some(Immediate::I64(v)) => {
                        push_value_name(out, d.results[0].0);
                        push_str(out, m);
                        push_i64(out, *v);
                        proof {
                            assert(out@ =~= o + data_text(d@));
                        }
                    },
                    Some(Immediate::I32(v)) => {
                        push_value_name(out, d.results[0].0);
                        push_str(out, m);
                        push_i32(out, *v);
                        proof {
                            assert(out@ =~= o + data_text(d@));
                        }
                    },
                    Some(Immediate::F32Bits(b)) => {
                        push_value_name(out, d.results[0].0);
                        push_str(out, m);
                        push_hex32(out, *b);
                        proof {
                            assert(out@ =~= o + data_text(d@));
                        }
                    },
                    _ => push_opcode_name(out, &d.opcode),
                }
            } else {
                push_opcode_name(out, &d.opcode);
            }
        },
        _ => {},
    }
}

/// Append the text of an instruction of this form.
fn push_stackalloc_text(out: &mut String, d: &InstData)
    requires
        d.opcode matches Opcode::StackAlloc { size },
    ensures
        final(out)@ == old(out)@ + data_text(d@),
{
    let ghost o = old(out)@;
    match &d.opcode {
        Opcode::StackAlloc { size } => {
            if d.results.len() == 1 {
                push_value_name(out, d.results[0].0);
                push_str(out, " = stackalloc ");
                push_dec(out, *size as u64);
                proof {
                    assert(out@ =~= o + data_text(d@));
                }
            } else {
                push_opcode_name(out, &d.opcode);
            }
        },
        _ => {},
    }
}

/// Append the text of an instruction of this form.
fn push_jump_text(out: &mut String, d: &InstData)
    requires
        d.opcode matches Opcode::Jump,
    ensures
        final(out)@ == old(out)@ + data_text(d@),
{
    let ghost o = old(out)@;
    match &d.opcode {
        Opcode::Jump => {
            match &d.block_args {
                Some(ba) => {
                    if ba.targets.len() == 1 {
                        push_str(out, "jump ");
                        push_block_name(out, ba.targets[0].0.0);
                        push_opt_args(out, ba.targets[0].1.as_slice());
                        proof {
                            assert(out@ =~= o + data_text(d@));
                        }
                    } else {
                        push_opcode_name(out, &d.opcode);
                    }
                },
                None => push_opcode_name(out, &d.opcode),
            }
        },
        _ => {},
    }
}

/// Append the text of an instruction of this form.
fn push_br_text(out: &mut String, d: &InstData)
    requires
        d.opcode matches Opcode::Br,
    ensures
        final(out)@ == old(out)@ + data_text(d@),
{
    let ghost o = old(out)@;
    match &d.opcode {
        Opcode::Br => {
            match &d.block_args {
                Some(ba) => {
                    if ba.targets.len() == 2 && d.args.len() > 0 {
                        push_str(out, "brif ");
                        push_value_name(out, d.args[0].0);
                        push_str(out, ", ");
                        push_block_name(out, ba.targets[0].0.0);
                        push_opt_args(out, ba.targets[0].1.as_slice());
                        push_str(out, ", ");
                        push_block_name(out, ba.targets[1].0.0);
                        push_opt_args(out, ba.targets[1].1.as_slice());
                        proof {
                            assert(out@ =~= o + data_text(d@));
                        }
                    } else {
                        push_opcode_name(out, &d.opcode);
                    }
                },
                None => push_opcode_name(out, &d.opcode),
            }
        },
        _ => {},
    }
}

/// Append the text of an instruction of this form.
fn push_return_text(out: &mut String, d: &InstData)
    requires
        d.opcode matches Opcode::Return,
    ensures
        final(out)@ == old(out)@ + data_text(d@),
{
    let ghost o = old(out)@;
    match &d.opcode {
        Opcode::Return => {
            if d.args.len() > 0 {
                push_str(out, "return ");
                push_values(out, d.args.as_slice());
                proof {
                    assert(out@ =~= o + data_text(d@));
                }
            } else {
                push_str(out, "return");
            }
        },
        _ => {},
    }
}

/// Append the text of an instruction of this form.
fn push_halt_text(out: &mut String, d: &InstData)
    requires
        d.opcode matches Opcode::Halt,
    ensures
        final(out)@ == old(out)@ + data_text(d@),
{
    let ghost o = old(out)@;
    match &d.opcode {
        Opcode::Halt => {
            push_str(out, "halt");
        },
        _ => {},
    }
}

/// Append the text of an instruction of this form.
fn push_trap_text(out: &mut String, d: &InstData)
    requires
        d.opcode matches Opcode::Trap { code },
    ensures
        final(out)@ == old(out)@ + data_text(d@),
{
    let ghost o = old(out)@;
    match &d.opcode {
        Opcode::Trap { code } => {
            push_str(out, "trap ");
            push_trap_code(out, d, *code);
            proof {
                assert(out@ =~= o + data_text(d@));
            }
        },
        _ => {},
    }
}

/// Append the text of an instruction of this form.
fn push_trapz_text(out: &mut String, d: &InstData)
    requires
        d.opcode matches Opcode::Trapz { code },
    ensures
        final(out)@ == old(out)@ + data_text(d@),
{
    let ghost o = old(out)@;
    match &d.opcode {
        Opcode::Trapz { code } => {
            if d.args.len() == 1 {
                push_str(out, "trapz ");
                push_value_name(out, d.args[0].0);
                push_str(out, ", ");
                push_trap_code(out, d, *code);
                proof {
                    assert(out@ =~= o + data_text(d@));
                }
            } else {
                push_opcode_name(out, &d.opcode);
            }
        },
        _ => {},
    }
}

/// Append the text of an instruction of this form.
fn push_trapnz_text(out: &mut String, d: &InstData)
    requires
        d.opcode matches Opcode::Trapnz { code },
    ensures
        final(out)@ == old(out)@ + data_text(d@),
{
    let ghost o = old(out)@;
    match &d.opcode {
        Opcode::Trapnz { code } => {
            if d.args.len() == 1 {
                push_str(out, "trapnz ");
                push_value_name(out, d.args[0].0);
                push_str(out, ", ");
                push_trap_code(out, d, *code);
                proof {
                    assert(out@ =~= o + data_text(d@));
                }
            } else {
                push_opcode_name(out, &d.opcode);
            }
        },
        _ => {},
    }
}

/// Append the text of an instruction of this form.
fn push_call_text(out: &mut String, d: &InstData)
    requires
        d.opcode matches Opcode::Call { callee },
    ensures
        final(out)@ == old(out)@ + data_text(d@),
{
    let ghost o = old(out)@;
    match &d.opcode {
        Opcode::Call { callee } => {
            push_str(out, "call %");
            push_str(out, callee.as_str());
            push_str(out, "(");
            push_values(out, d.args.as_slice());
            push_str(out, ")");
            push_results(out, d.results.as_slice());
            proof {
                assert(out@ =~= o + data_text(d@));
            }
        },
        _ => {},
    }
}

/// Append the text of an instruction of this form.
fn push_syscall_text(out: &mut String, d: &InstData)
    requires
        d.opcode matches Opcode::Syscall,
    ensures
        final(out)@ == old(out)@ + data_text(d@),
{
    let ghost o = old(out)@;
    match &d.opcode {
        Opcode::Syscall => {
            match &d.imm {
                Some(Immediate::I32(n)) => {
                    push_str(out, "syscall ");
                    push_i32(out, *n);
                    push_str(out, "(");
                },
                _ => push_str(out, "syscall ("),
            }
            push_values(out, d.args.as_slice());
            push_str(out, ")");
            push_results(out, d.results.as_slice());
            proof {
                assert(out@ =~= o + data_text(d@));
            }
        },
        _ => {},
    }
}

/// Append the text of an instruction of this form.
fn push_load_text(out: &mut String, d: &InstData)
    requires
        d.opcode matches Opcode::Load,
    ensures
        final(out)@ == old(out)@ + data_text(d@),
{
    let ghost o = old(out)@;
    match &d.opcode {
        Opcode::Load => {
            if d.results.len() == 1 && d.args.len() == 1 {
                push_value_name(out, d.results[0].0);
                match d.ty {
                    Some(t) => {
                        push_str(out, " = load.");
                        push_type(out, t);
                        push_str(out, " ");
                    },
                    None => push_str(out, " = load "),
                }
                push_value_name(out, d.args[0].0);
                proof {
                    assert(out@ =~= o + data_text(d@));
                }
            } else {
                push_opcode_name(out, &d.opcode);
            }
        },
        _ => {},
    }
}

/// Append the text of an instruction of this form.
fn push_store_text(out: &mut String, d: &InstData)
    requires
        d.opcode matches Opcode::Store,
    ensures
        final(out)@ == old(out)@ + data_text(d@),
{
    let ghost o = old(out)@;
    match &d.opcode {
        Opcode::Store => {
            if d.args.len() == 2 {
                match d.ty {
                    Some(t) => {
                        push_str(out, "store.");
                        push_type(out, t);
                        push_str(out, " ");
                    },
                    None => push_str(out, "store "),
                }
                push_value_name(out, d.args[0].0);
                push_str(out, ", ");
                push_value_name(out, d.args[1].0);
                proof {
                    assert(out@ =~= o + data_text(d@));
                }
            } else {
                push_opcode_name(out, &d.opcode);
            }
        },
        _ => {},
    }
}

/// Append the text of an instruction of the remaining forms: a binary
/// operation, or the opcode's name.
fn push_binary_text(out: &mut String, d: &InstData)
    requires
        binary_mnemonic(d.opcode) is Some || !(d.opcode is Inot || d.opcode is Iconst || d.opcode is Fconst || d.opcode is StackAlloc || d.opcode is Jump || d.opcode is Br || d.opcode is Return || d.opcode is Halt || d.opcode is Trap || d.opcode is Trapz || d.opcode is Trapnz || d.opcode is Call || d.opcode is Syscall || d.opcode is Load || d.opcode is Store),
    ensures
        final(out)@ == old(out)@ + data_text(d@),
{
    if !push_binary(out, d) {
        push_opcode_name(out, &d.opcode);
    }
}

/// Append the typed parameters of a block.
fn push_typed_params(out: &mut String, ps: &Vec<Value>, ts: &Vec<Type>)
    ensures
        final(out)@ == old(out)@ + typed_params_text(ps@, ts@, min_len(ps@.len(), ts@.len()) as int),
{
    let n = if ps.len() <= ts.len() {
        ps.len()
    } else {
        ts.len()
    };
    let mut i: usize = 0;
    while i < n
        invariant
            n == min_len(ps@.len(), ts@.len()),
            i <= n,
            out@ == old(out)@ + typed_params_text(ps@, ts@, i as int),
        decreases n - i,
    {
        let ghost before = out@;
        if i > 0 {
            push_str(out, ", ");
        }
        push_value_name(out, ps[i].0);
        push_str(out, ": ");
        push_type(out, ts[i]);
        proof {
            assert(out@ =~= old(out)@ + typed_params_text(ps@, ts@, i + 1));
        }
        i = i + 1;
    }
}

impl Function {
    /// The text form of the function, which the parser reads back: its
    /// name and signature, then each block of the layout, numbered by its
    /// position, with its parameters and its instructions, one per line.
    pub fn to_string(&self) -> (r: String)
        requires
            self.wf(),
        ensures
            r@ == function_text(self),
    {
        let mut out = String::new();
        push_str(&mut out, "function %");
        push_str(&mut out, self.name.as_str());
        push_str(&mut out, "(");
        push_types(&mut out, self.signature.params.as_slice());
        push_str(&mut out, ")");
        if self.signature.returns.len() > 0 {
            push_str(&mut out, " -> ");
            push_types(&mut out, self.signature.returns.as_slice());
        }
        push_str(&mut out, " {\n");
        let ghost head = out@;
        let blocks = self.blocks();
        let n = blocks.len();
        let mut k: usize = 0;
        while k < n
            invariant
                self.wf(),
                n == blocks@.len(),
                blocks@.len() == self.layout@.order.len(),
                forall|i: int| 0 <= i < blocks@.len() ==> (#[trigger] blocks@[i]).0 == self.layout@.order[i],
                k <= n,
                out@ == head + blocks_text(self, k as int),
            decreases n - k,
        {
            proof {
                self.layout.lemma_order_bound(k as int);
            }
            let b = blocks[k];
            let ghost before = out@;
            let bd = self.block_data(b).unwrap();
            push_str(&mut out, "block");
            push_dec(&mut out, k as u64);
            if bd.params.len() > 0 {
                push_str(&mut out, "(");
                push_typed_params(&mut out, &bd.params, &bd.param_types);
                push_str(&mut out, ")");
            }
            push_str(&mut out, ":\n");
            proof {
                assert(out@ =~= before + header_text(self, k as int));
            }
            let ghost mid = out@;
            let len = self.block_insts(b).len();
            let mut q: usize = 0;
            while q < len
                invariant
                    self.wf(),
                    b.0 == self.block_at(k as int),
                    b.0 < self.blocks@.len(),
                    len == self.len_at(k as int),
                    q <= len,
                    out@ == mid + insts_text(self, b.0 as int, q as int),
                decreases len - q,
            {
                let d = self.placed_inst(b, q);
                push_str(&mut out, "    ");
                push_inst_text(&mut out, d);
                push_str(&mut out, "\n");
                proof {
                    assert(out@ =~= mid + insts_text(self, b.0 as int, q + 1));
                }
                q = q + 1;
            }
            proof {
                assert(out@ =~= head + blocks_text(self, k + 1));
            }
            k = k + 1;
        }
        push_str(&mut out, "}\n");
        proof {
            assert(out@ =~= function_text(self));
        }
        out
    }
}

} // verus!
