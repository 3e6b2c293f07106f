//! Instruction opcodes.

use vstd::prelude::*;

use crate::{
    condcodes::{FloatCC, IntCC},
    trapcode::TrapCode,
};

verus! {

/// Instruction opcode
///
/// This enum represents the operation that an instruction performs.
/// It's separate from the instruction data (operands, results, etc.)
/// which are stored in InstData.
#[derive(Debug, PartialEq, Eq, Hash)]
pub enum Opcode {
    /// Integer add: result = arg1 + arg2
    Iadd,
    /// Integer subtract: result = arg1 - arg2
    Isub,
    /// Integer multiply: result = arg1 * arg2
    Imul,
    /// Integer multiply, high half: result = (arg1 * arg2) >> 32
    Imulh,
    /// Integer divide: result = arg1 / arg2
    Idiv,
    /// Integer remainder: result = arg1 % arg2
    Irem,
    /// Floating point add
    Fadd,
    /// Floating point subtract
    Fsub,
    /// Floating point multiply
    Fmul,
    /// Floating point divide
    Fdiv,
    /// Bitwise AND: result = arg1 & arg2
    Iand,
    /// Bitwise OR: result = arg1 | arg2
    Ior,
    /// Bitwise XOR: result = arg1 ^ arg2
    Ixor,
    /// Bitwise NOT: result = ~arg1 (unary)
    Inot,
    /// Left shift: result = arg1 << arg2
    Ishl,
    /// Logical right shift: result = arg1 >>> arg2 (unsigned)
    Ishr,
    /// Arithmetic right shift: result = arg1 >> arg2 (signed)
    Iashr,
    /// Integer comparison with condition code: result = (arg1 cond arg2)
    Icmp {
        /// Condition code for the comparison
        cond: IntCC,
    },
    /// Floating point comparison with condition code: result = (arg1 cond arg2)
    Fcmp {
        /// Condition code for the comparison
        cond: FloatCC,
    },
    /// Integer constant: result = value
    Iconst,
    /// Floating point constant: result = value
    Fconst,
    /// Jump to block
    Jump,
    /// Conditional branch: if condition, jump to target_true, else target_false
    Br,
    /// Return with values
    Return,
    /// Function call: results = callee(args...)
    Call {
        /// Function name to call (must exist in module)
        callee: String,
    },
    /// System call: syscall(number, args...)
    Syscall,
    /// Halt execution (ebreak)
    Halt,
    /// Load from memory: result = mem[address]
    Load,
    /// Store to memory: mem[address] = value
    Store,
    /// Stack allocation: result = address of allocated stack space
    StackAlloc {
        /// Size in bytes to allocate
        size: u32,
    },
    /// Unconditional trap: terminate execution with trap code
    Trap {
        /// Trap code describing the reason for the trap
        code: TrapCode,
    },
    /// Trap if condition is zero: if condition == 0, trap with code
    Trapz {
        /// Trap code describing the reason for the trap
        code: TrapCode,
    },
    /// Trap if condition is non-zero: if condition != 0, trap with code
    Trapnz {
        /// Trap code describing the reason for the trap
        code: TrapCode,
    },
}

impl Clone for Opcode {
    fn clone(&self) -> (r: Self)
        ensures
            r == *self,
    {
        match self {
            Opcode::Iadd => Opcode::Iadd,
            Opcode::Isub => Opcode::Isub,
            Opcode::Imul => Opcode::Imul,
            Opcode::Imulh => Opcode::Imulh,
            Opcode::Idiv => Opcode::Idiv,
            Opcode::Irem => Opcode::Irem,
            Opcode::Fadd => Opcode::Fadd,
            Opcode::Fsub => Opcode::Fsub,
            Opcode::Fmul => Opcode::Fmul,
            Opcode::Fdiv => Opcode::Fdiv,
            Opcode::Iand => Opcode::Iand,
            Opcode::Ior => Opcode::Ior,
            Opcode::Ixor => Opcode::Ixor,
            Opcode::Inot => Opcode::Inot,
            Opcode::Ishl => Opcode::Ishl,
            Opcode::Ishr => Opcode::Ishr,
            Opcode::Iashr => Opcode::Iashr,
            Opcode::Icmp { cond } => Opcode::Icmp { cond: *cond },
            Opcode::Fcmp { cond } => Opcode::Fcmp { cond: *cond },
            Opcode::Iconst => Opcode::Iconst,
            Opcode::Fconst => Opcode::Fconst,
            Opcode::Jump => Opcode::Jump,
            Opcode::Br => Opcode::Br,
            Opcode::Return => Opcode::Return,
            Opcode::Call { callee } => Opcode::Call { callee: callee.clone() },
            Opcode::Syscall => Opcode::Syscall,
            Opcode::Halt => Opcode::Halt,
            Opcode::Load => Opcode::Load,
            Opcode::Store => Opcode::Store,
            Opcode::StackAlloc { size } => Opcode::StackAlloc { size: *size },
            Opcode::Trap { code } => Opcode::Trap { code: *code },
            Opcode::Trapz { code } => Opcode::Trapz { code: *code },
            Opcode::Trapnz { code } => Opcode::Trapnz { code: *code },
        }
    }
}

impl Opcode {
    /// Whether the opcode ends a block.
    pub open spec fn spec_is_terminator(self) -> bool {
        ||| self is Jump
        ||| self is Br
        ||| self is Return
        ||| self is Halt
        ||| self is Trap
        ||| self is Trapz
        ||| self is Trapnz
    }

    /// Whether the opcode has an effect beyond its results.
    pub open spec fn spec_has_side_effects(self) -> bool {
        ||| self is Store
        ||| self is StackAlloc
        ||| self is Call
        ||| self is Syscall
        ||| self is Return
        ||| self is Trap
        ||| self is Trapz
        ||| self is Trapnz
    }

    /// Is this a call instruction?
    pub fn is_call(&self) -> (r: bool)
        ensures
            r == (*self is Call),
    {
        match self {
            Opcode::Call { .. } => true,
            _ => false,
        }
    }

    /// Is this a terminator (branch, jump, return, halt, trap)?
    pub fn is_terminator(&self) -> (r: bool)
        ensures
            r == self.spec_is_terminator(),
    {
        match self {
            Opcode::Jump | Opcode::Br | Opcode::Return | Opcode::Halt | Opcode::Trap { .. }
            | Opcode::Trapz { .. } | Opcode::Trapnz { .. } => true,
            _ => false,
        }
    }

    /// Does this instruction access memory?
    pub fn is_memory_access(&self) -> (r: bool)
        ensures
            r == (*self is Load || *self is Store),
    {
        match self {
            Opcode::Load | Opcode::Store => true,
            _ => false,
        }
    }

    /// Does this instruction have side effects?
    pub fn has_side_effects(&self) -> (r: bool)
        ensures
            r == self.spec_has_side_effects(),
    {
        match self {
            Opcode::Store | Opcode::StackAlloc { .. } | Opcode::Call { .. } | Opcode::Syscall
            | Opcode::Return | Opcode::Trap { .. } | Opcode::Trapz { .. } | Opcode::Trapnz {
                ..
            } => true,
            _ => false,
        }
    }
}

} // verus!
