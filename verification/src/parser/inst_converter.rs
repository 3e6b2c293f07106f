//! Conversion from the instruction enum to instruction data.

use vstd::prelude::*;

use crate::{
    dfg::{
        inst_data::{cond_imm, inst_view, InstDataView},
        Immediate, InstData, Opcode,
    },
    entity::Block,
    inst::Inst,
};

verus! {

/// The instruction data an instruction converts to.
pub open spec fn converted(i: Inst) -> InstDataView {
    match i {
        Inst::Iadd { result, arg1, arg2 } => inst_view(Opcode::Iadd, seq![arg1, arg2], seq![result], None, None, None),
        Inst::Isub { result, arg1, arg2 } => inst_view(Opcode::Isub, seq![arg1, arg2], seq![result], None, None, None),
        Inst::Imul { result, arg1, arg2 } => inst_view(Opcode::Imul, seq![arg1, arg2], seq![result], None, None, None),
        Inst::Idiv { result, arg1, arg2 } => inst_view(Opcode::Idiv, seq![arg1, arg2], seq![result], None, None, None),
        Inst::Irem { result, arg1, arg2 } => inst_view(Opcode::Irem, seq![arg1, arg2], seq![result], None, None, None),
        Inst::Icmp { result, cond, arg1, arg2 } => inst_view(
            Opcode::Icmp { cond },
            seq![arg1, arg2],
            seq![result],
            None,
            None,
            cond_imm(Opcode::Icmp { cond }),
        ),
        Inst::Fcmp { result, cond, arg1, arg2 } => inst_view(
            Opcode::Fcmp { cond },
            seq![arg1, arg2],
            seq![result],
            None,
            None,
            cond_imm(Opcode::Fcmp { cond }),
        ),
        Inst::Iconst { result, value } => inst_view(
            Opcode::Iconst,
            seq![],
            seq![result],
            None,
            None,
            Some(Immediate::I64(value)),
        ),
        Inst::Fconst { result, value_bits } => inst_view(
            Opcode::Fconst,
            seq![],
            seq![result],
            None,
            None,
            Some(Immediate::F32Bits(value_bits)),
        ),
        Inst::Jump { target, args } => inst_view(
            Opcode::Jump,
            args@,
            seq![],
            Some(seq![(Block(target), args@)]),
            None,
            None,
        ),
        Inst::Br { condition, target_true, args_true, target_false, args_false } => inst_view(
            Opcode::Br,
            seq![condition] + args_true@ + args_false@,
            seq![],
            Some(seq![(Block(target_true), args_true@), (Block(target_false), args_false@)]),
            None,
            None,
        ),
        Inst::Return { values } => inst_view(Opcode::Return, values@, seq![], None, None, None),
        Inst::Call { callee, args, results } => inst_view(
            Opcode::Call { callee },
            args@,
            results@,
            None,
            None,
            None,
        ),
        Inst::Syscall { number, args } => inst_view(
            Opcode::Syscall,
            args@,
            seq![],
            None,
            None,
            Some(Immediate::I32(number)),
        ),
        Inst::Load { result, address, ty } => inst_view(Opcode::Load, seq![address], seq![result], None, Some(ty), None),
        Inst::Store { address, value, ty } => inst_view(
            Opcode::Store,
            seq![address, value],
            seq![],
            None,
            Some(ty),
            None,
        ),
        Inst::Halt => inst_view(Opcode::Halt, seq![], seq![], None, None, None),
        Inst::Trap { code } => inst_view(
            Opcode::Trap { code },
            seq![],
            seq![],
            None,
            None,
            Some(crate::dfg::Immediate::TrapCode(code)),
        ),
        Inst::Trapz { condition, code } => inst_view(
            Opcode::Trapz { code },
            seq![condition],
            seq![],
            None,
            None,
            Some(crate::dfg::Immediate::TrapCode(code)),
        ),
        Inst::Trapnz { condition, code } => inst_view(
            Opcode::Trapnz { code },
            seq![condition],
            seq![],
            None,
            None,
            Some(crate::dfg::Immediate::TrapCode(code)),
        ),
    }
}

/// Convert an instruction of the enum form to instruction data.
pub fn inst_to_inst_data(inst: Inst) -> (r: InstData)
    ensures
        r@ == converted(inst),
{
    match inst {
        Inst::Iadd { result, arg1, arg2 } => InstData::arithmetic(Opcode::Iadd, result, arg1, arg2),
        Inst::Isub { result, arg1, arg2 } => InstData::arithmetic(Opcode::Isub, result, arg1, arg2),
        Inst::Imul { result, arg1, arg2 } => InstData::arithmetic(Opcode::Imul, result, arg1, arg2),
        Inst::Idiv { result, arg1, arg2 } => InstData::arithmetic(Opcode::Idiv, result, arg1, arg2),
        Inst::Irem { result, arg1, arg2 } => InstData::arithmetic(Opcode::Irem, result, arg1, arg2),
        Inst::Icmp { result, cond, arg1, arg2 } => InstData::comparison(Opcode::Icmp { cond }, result, arg1, arg2),
        Inst::Fcmp { result, cond, arg1, arg2 } => InstData::comparison(Opcode::Fcmp { cond }, result, arg1, arg2),
        Inst::Iconst { result, value } => InstData::constant(result, Immediate::I64(value)),
        Inst::Fconst { result, value_bits } => InstData::constant(result, Immediate::F32Bits(value_bits)),
        Inst::Jump { target, args } => InstData::jump(Block(target), args),
        Inst::Br { condition, target_true, args_true, target_false, args_false } => InstData::branch(
            condition,
            Block(target_true),
            args_true,
            Block(target_false),
            args_false,
        ),
        Inst::Return { values } => InstData::return_(values),
        Inst::Call { callee, args, results } => InstData::call(callee, args, results),
        Inst::Syscall { number, args } => InstData::syscall(number, args, Vec::new()),
        Inst::Load { result, address, ty } => InstData::load(result, address, ty),
        Inst::Store { address, value, ty } => InstData::store(address, value, ty),
        Inst::Halt => InstData::halt(),
        Inst::Trap { code } => InstData::trap(code),
        Inst::Trapz { condition, code } => InstData::trapz(condition, code),
        Inst::Trapnz { condition, code } => InstData::trapnz(condition, code),
    }
}

} // verus!
