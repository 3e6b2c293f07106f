//! IR instructions in their self-contained form.
//!
//! Each variant holds its operands by name; the data flow graph stores the
//! same instructions as `InstData`.

use vstd::prelude::*;

use crate::{
    condcodes::{FloatCC, IntCC},
    text::{
        binop_text, bname, dec_i32, dec_i64, hex32, push_binop, push_block_name, push_hex32, push_i32,
        push_i64, push_type, push_value_name, push_values, type_text, values_text, vname,
    },
    trapcode::TrapCode,
    types::Type,
    value::{cond_and_args, copy_values, Value},
};

verus! {

/// An IR instruction.
#[derive(Debug)]
pub enum Inst {
    /// Integer add: result = arg1 + arg2
    Iadd { result: Value, arg1: Value, arg2: Value },
    /// Integer subtract: result = arg1 - arg2
    Isub { result: Value, arg1: Value, arg2: Value },
    /// Integer multiply: result = arg1 * arg2
    Imul { result: Value, arg1: Value, arg2: Value },
    /// Integer divide: result = arg1 / arg2
    Idiv { result: Value, arg1: Value, arg2: Value },
    /// Integer remainder: result = arg1 % arg2
    Irem { result: Value, arg1: Value, arg2: Value },
    /// Integer comparison: result = (arg1 cond arg2)
    Icmp { result: Value, cond: IntCC, arg1: Value, arg2: Value },
    /// Floating point comparison: result = (arg1 cond arg2)
    Fcmp { result: Value, cond: FloatCC, arg1: Value, arg2: Value },
    /// Integer constant: result = value
    Iconst { result: Value, value: i64 },
    /// Floating point constant, held as its bits: result = value
    Fconst { result: Value, value_bits: u32 },
    /// Jump to block
    Jump {
        target: u32,
        /// Values passed to target block parameters
        args: Vec<Value>,
    },
    /// Conditional branch: if condition, jump to target_true, else target_false
    Br {
        condition: Value,
        target_true: u32,
        /// Values passed to target_true block parameters
        args_true: Vec<Value>,
        target_false: u32,
        /// Values passed to target_false block parameters
        args_false: Vec<Value>,
    },
    /// Function call: results = callee(args...)
    Call {
        /// Function name to call (must exist in module)
        callee: String,
        /// Argument values
        args: Vec<Value>,
        /// Result values (SSA)
        results: Vec<Value>,
    },
    /// System call: syscall(number, args...)
    Syscall {
        /// Syscall number
        number: i32,
        /// Argument values (passed in a0-a7)
        args: Vec<Value>,
    },
    /// Return with values
    Return { values: Vec<Value> },
    /// Halt execution (ebreak)
    Halt,
    /// Load from memory: result = mem[address]
    Load { result: Value, address: Value, ty: Type },
    /// Store to memory: mem[address] = value
    Store { address: Value, value: Value, ty: Type },
    /// Unconditional trap: terminate execution with trap code
    Trap { code: TrapCode },
    /// Trap if condition is zero: if condition == 0, trap with code
    Trapz { condition: Value, code: TrapCode },
    /// Trap if condition is non-zero: if condition != 0, trap with code
    Trapnz { condition: Value, code: TrapCode },
}

/// The values an instruction defines.
pub open spec fn spec_results(i: Inst) -> Seq<Value> {
    match i {
        Inst::Iadd { result, .. } | Inst::Isub { result, .. } | Inst::Imul { result, .. }
        | Inst::Idiv { result, .. } | Inst::Irem { result, .. } | Inst::Icmp { result, .. }
        | Inst::Fcmp { result, .. } | Inst::Iconst { result, .. } | Inst::Fconst { result, .. }
        | Inst::Load { result, .. } => seq![result],
        Inst::Call { results, .. } => results@,
        Inst::Return { values } => values@,
        _ => seq![],
    }
}

/// The values an instruction uses.
pub open spec fn spec_args(i: Inst) -> Seq<Value> {
    match i {
        Inst::Iadd { arg1, arg2, .. } | Inst::Isub { arg1, arg2, .. } | Inst::Imul { arg1, arg2, .. }
        | Inst::Idiv { arg1, arg2, .. } | Inst::Irem { arg1, arg2, .. } | Inst::Icmp { arg1, arg2, .. }
        | Inst::Fcmp { arg1, arg2, .. } => seq![arg1, arg2],
        Inst::Trapz { condition, .. } | Inst::Trapnz { condition, .. } => seq![condition],
        Inst::Jump { args, .. } => args@,
        Inst::Br { condition, args_true, args_false, .. } => seq![condition] + args_true@ + args_false@,
        Inst::Call { args, .. } => args@,
        Inst::Syscall { args, .. } => args@,
        Inst::Return { values } => values@,
        Inst::Load { address, .. } => seq![address],
        Inst::Store { address, value, .. } => seq![address, value],
        _ => seq![],
    }
}

/// A parenthesized argument list, or nothing for no arguments.
pub open spec fn opt_args_text(vs: Seq<Value>) -> Seq<char> {
    if vs.len() == 0 {
        seq![]
    } else {
        "("@ + values_text(vs) + ")"@
    }
}

/// ` v1 v2 ...`: each value behind a space.
pub open spec fn spaced_values_text(vs: Seq<Value>) -> Seq<char>
    decreases vs.len(),
{
    if vs.len() == 0 {
        seq![]
    } else {
        spaced_values_text(vs.drop_last()) + " "@ + vname(vs.last())
    }
}

/// The text of an instruction.
pub open spec fn inst_text(i: Inst) -> Seq<char> {
    match i {
        Inst::Iadd { result, arg1, arg2 } => binop_text(result, "iadd"@, arg1, arg2),
        Inst::Isub { result, arg1, arg2 } => binop_text(result, "isub"@, arg1, arg2),
        Inst::Imul { result, arg1, arg2 } => binop_text(result, "imul"@, arg1, arg2),
        Inst::Idiv { result, arg1, arg2 } => binop_text(result, "idiv"@, arg1, arg2),
        Inst::Irem { result, arg1, arg2 } => binop_text(result, "irem"@, arg1, arg2),
        Inst::Icmp { result, cond, arg1, arg2 } => binop_text(
            result,
            "icmp "@ + cond.spec_mnemonic(),
            arg1,
            arg2,
        ),
        Inst::Fcmp { result, cond, arg1, arg2 } => binop_text(
            result,
            "fcmp "@ + cond.spec_mnemonic(),
            arg1,
            arg2,
        ),
        Inst::Iconst { result, value } => vname(result) + " = iconst "@ + dec_i64(value),
        Inst::Fconst { result, value_bits } => vname(result) + " = fconst "@ + hex32(
            value_bits,
        ),
        Inst::Jump { target, args } => "jump "@ + bname(target) + opt_args_text(args@),
        Inst::Br { condition, target_true, args_true, target_false, args_false } => "brif "@
            + vname(condition) + ", "@ + bname(target_true) + opt_args_text(
            args_true@,
        ) + ", "@ + bname(target_false) + opt_args_text(args_false@),
        Inst::Call { callee, args, results } => "call %"@ + callee@ + "("@ + values_text(args@)
            + ")"@ + if results@.len() == 0 {
            seq![]
        } else {
            " -> "@ + values_text(results@)
        },
        Inst::Syscall { number, args } => "syscall "@ + dec_i32(number) + "("@ + values_text(
            args@,
        ) + ")"@,
        Inst::Return { values } => "return"@ + spaced_values_text(values@),
        Inst::Load { result, address, ty } => vname(result) + " = load."@ + type_text(ty)
            + " "@ + vname(address),
        Inst::Store { address, value, ty } => "store."@ + type_text(ty) + " "@ + vname(address) + ", "@ + vname(value),
        Inst::Halt => "halt"@,
        Inst::Trap { code } => "trap "@ + code.spec_text(),
        Inst::Trapz { condition, code } => "trapz "@ + vname(condition) + ", "@
            + code.spec_text(),
        Inst::Trapnz { condition, code } => "trapnz "@ + vname(condition) + ", "@
            + code.spec_text(),
    }
}

/// Append a parenthesized argument list, or nothing for no arguments.
pub fn push_opt_args(out: &mut String, vs: &[Value])
    ensures
        final(out)@ == old(out)@ + opt_args_text(vs@),
{
    if vs.len() > 0 {
        out.append("(");
        push_values(out, vs);
        out.append(")");
        proof {
            assert(out@ =~= old(out)@ + opt_args_text(vs@));
        }
    } else {
        proof {
            assert(out@ =~= old(out)@ + opt_args_text(vs@));
        }
    }
}

/// Append each value behind a space.
pub fn push_spaced_values(out: &mut String, vs: &[Value])
    ensures
        final(out)@ == old(out)@ + spaced_values_text(vs@),
{
    let mut i: usize = 0;
    while i < vs.len()
        invariant
            i <= vs@.len(),
            out@ == old(out)@ + spaced_values_text(vs@.subrange(0, i as int)),
        decreases vs@.len() - i,
    {
        out.append(" ");
        push_value_name(out, vs[i].0);
        proof {
            let s = vs@.subrange(0, i + 1);
            assert(s.drop_last() =~= vs@.subrange(0, i as int));
            assert(out@ =~= old(out)@ + spaced_values_text(s));
        }
        i = i + 1;
    }
    proof {
        assert(vs@.subrange(0, vs@.len() as int) =~= vs@);
    }
}

impl Inst {
    /// Get the result value(s) produced by this instruction, if any.
    pub fn results(&self) -> (r: Vec<Value>)
        ensures
            r@ == spec_results(*self),
    {
        match self {
            Inst::Iadd { result, .. } | Inst::Isub { result, .. } | Inst::Imul { result, .. }
            | Inst::Idiv { result, .. } | Inst::Irem { result, .. } | Inst::Icmp { result, .. }
            | Inst::Fcmp { result, .. } | Inst::Iconst { result, .. } | Inst::Fconst { result, .. }
            | Inst::Load { result, .. } => {
                let mut v = Vec::new();
                v.push(*result);
                proof {
                    assert(v@ =~= seq![*result]);
                }
                v
            },
            Inst::Call { results, .. } => copy_values(results),
            Inst::Return { values } => copy_values(values),
            _ => Vec::new(),
        }
    }

    /// Get the argument values used by this instruction.
    pub fn args(&self) -> (r: Vec<Value>)
        ensures
            r@ == spec_args(*self),
    {
        match self {
            Inst::Iadd { arg1, arg2, .. } | Inst::Isub { arg1, arg2, .. } | Inst::Imul {
                arg1,
                arg2,
                ..
            } | Inst::Idiv { arg1, arg2, .. } | Inst::Irem { arg1, arg2, .. } | Inst::Icmp {
                arg1,
                arg2,
                ..
            } | Inst::Fcmp { arg1, arg2, .. } => {
                let mut v = Vec::new();
                v.push(*arg1);
                v.push(*arg2);
                proof {
                    assert(v@ =~= seq![*arg1, *arg2]);
                }
                v
            },
            Inst::Trapz { condition, .. } | Inst::Trapnz { condition, .. } => {
                let mut v = Vec::new();
                v.push(*condition);
                proof {
                    assert(v@ =~= seq![*condition]);
                }
                v
            },
            Inst::Jump { args, .. } => copy_values(args),
            Inst::Br { condition, args_true, args_false, .. } => cond_and_args(*condition, args_true, args_false),
            Inst::Call { args, .. } => copy_values(args),
            Inst::Syscall { args, .. } => copy_values(args),
            Inst::Return { values } => copy_values(values),
            Inst::Load { address, .. } => {
                let mut v = Vec::new();
                v.push(*address);
                proof {
                    assert(v@ =~= seq![*address]);
                }
                v
            },
            Inst::Store { address, value, .. } => {
                let mut v = Vec::new();
                v.push(*address);
                v.push(*value);
                proof {
                    assert(v@ =~= seq![*address, *value]);
                }
                v
            },
            _ => Vec::new(),
        }
    }

    /// The text form of this instruction (`v2 = iadd v0, v1`, `jump block1(v3)`, ...).
    ///
    /// A float constant is written by its bits, in hexadecimal.
    pub fn to_string(&self) -> (r: String)
        ensures
            r@ == inst_text(*self),
    {
        let mut out = String::new();
        match self {
            Inst::Iadd { result, arg1, arg2 } => push_binop(&mut out, *result, "iadd", *arg1, *arg2),
            Inst::Isub { result, arg1, arg2 } => push_binop(&mut out, *result, "isub", *arg1, *arg2),
            Inst::Imul { result, arg1, arg2 } => push_binop(&mut out, *result, "imul", *arg1, *arg2),
            Inst::Idiv { result, arg1, arg2 } => push_binop(&mut out, *result, "idiv", *arg1, *arg2),
            Inst::Irem { result, arg1, arg2 } => push_binop(&mut out, *result, "irem", *arg1, *arg2),
            Inst::Icmp { result, cond, arg1, arg2 } => {
                let mut op = String::from_str("icmp ");
                op.append(cond.mnemonic());
                push_binop(&mut out, *result, op.as_str(), *arg1, *arg2);
            },
            Inst::Fcmp { result, cond, arg1, arg2 } => {
                let mut op = String::from_str("fcmp ");
                op.append(cond.mnemonic());
                push_binop(&mut out, *result, op.as_str(), *arg1, *arg2);
            },
            Inst::Iconst { result, value } => {
                push_value_name(&mut out, result.0);
                out.append(" = iconst ");
                push_i64(&mut out, *value);
            },
            Inst::Fconst { result, value_bits } => {
                push_value_name(&mut out, result.0);
                out.append(" = fconst ");
                push_hex32(&mut out, *value_bits);
            },
            Inst::Jump { target, args } => {
                out.append("jump ");
                push_block_name(&mut out, *target);
                push_opt_args(&mut out, args.as_slice());
            },
            Inst::Br { condition, target_true, args_true, target_false, args_false } => {
                out.append("brif ");
                push_value_name(&mut out, condition.0);
                out.append(", ");
                push_block_name(&mut out, *target_true);
                push_opt_args(&mut out, args_true.as_slice());
                out.append(", ");
                push_block_name(&mut out, *target_false);
                push_opt_args(&mut out, args_false.as_slice());
            },
            Inst::Call { callee, args, results } => {
                out.append("call %");
                out.append(callee.as_str());
                out.append("(");
                push_values(&mut out, args.as_slice());
                out.append(")");
                if results.len() > 0 {
                    out.append(" -> ");
                    push_values(&mut out, results.as_slice());
                }
            },
            Inst::Syscall { number, args } => {
                out.append("syscall ");
                push_i32(&mut out, *number);
                out.append("(");
                push_values(&mut out, args.as_slice());
                out.append(")");
            },
            Inst::Return { values } => {
                out.append("return");
                push_spaced_values(&mut out, values.as_slice());
            },
            Inst::Load { result, address, ty } => {
                push_value_name(&mut out, result.0);
                out.append(" = load.");
                push_type(&mut out, *ty);
                out.append(" ");
                push_value_name(&mut out, address.0);
            },
            Inst::Store { address, value, ty } => {
                out.append("store.");
                push_type(&mut out, *ty);
                out.append(" ");
                push_value_name(&mut out, address.0);
                out.append(", ");
                push_value_name(&mut out, value.0);
            },
            Inst::Halt => out.append("halt"),
            Inst::Trap { code } => {
                out.append("trap ");
                code.push_text(&mut out);
            },
            Inst::Trapz { condition, code } => {
                out.append("trapz ");
                push_value_name(&mut out, condition.0);
                out.append(", ");
                code.push_text(&mut out);
            },
            Inst::Trapnz { condition, code } => {
                out.append("trapnz ");
                push_value_name(&mut out, condition.0);
                out.append(", ");
                code.push_text(&mut out);
            },
        }
        proof {
            assert(out@ =~= inst_text(*self));
        }
        out
    }
}

} // verus!
