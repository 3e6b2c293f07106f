//! Block builder: appends instructions to one block of a function builder.

use vstd::prelude::*;

use crate::{
    builder::function_builder::{appended, FunctionBuilder},
    condcodes::IntCC,
    dfg::{inst_data::inst_view, Immediate, InstData, Opcode},
    entity::Block,
    types::Type,
    value::Value,
};

verus! {

/// A copy of a slice of values.
fn values_of(s: &[Value]) -> (r: Vec<Value>)
    ensures
        r@ == s@,
{
    let mut r: Vec<Value> = Vec::new();
    let mut i: usize = 0;
    while i < s.len()
        invariant
            i <= s@.len(),
            r@ == s@.subrange(0, i as int),
        decreases s@.len() - i,
    {
        r.push(s[i]);
        proof {
            assert(r@ =~= s@.subrange(0, i + 1));
        }
        i = i + 1;
    }
    proof {
        assert(s@.subrange(0, i as int) =~= s@);
    }
    r
}

/// Builder for adding instructions to a block.
///
/// Each method appends one instruction at the end of the block.
pub struct BlockBuilder<'a> {
    /// The function builder whose block is built.
    pub function_builder: &'a mut FunctionBuilder,
    /// Index of the block being built.
    pub block_index: usize,
}

impl<'a> BlockBuilder<'a> {
    /// Create a new block builder.
    pub fn new(function_builder: &'a mut FunctionBuilder, block_index: usize) -> (r: Self)
        ensures
            r.block_index == block_index,
            *r.function_builder == *old(function_builder),
            *final(function_builder) == *final(r.function_builder),
    {
        Self { function_builder, block_index }
    }

    /// Add an instruction to this block.
    fn push_inst(&mut self, data: InstData)
        requires
            old(self).function_builder.ready(old(self).block_index),
        ensures
            final(self).block_index == old(self).block_index,
            appended(
                old(self).function_builder.function,
                final(self).function_builder.function,
                old(self).block_index,
                data@,
            ),
            final(self).function_builder.next_value == old(self).function_builder.next_value,
    {
        self.function_builder.append(self.block_index, data);
    }

    /// Integer add: result = arg1 + arg2
    pub fn iadd(&mut self, result: Value, arg1: Value, arg2: Value)
        requires
            old(self).function_builder.ready(old(self).block_index),
        ensures
            final(self).block_index == old(self).block_index,
            appended(
                old(self).function_builder.function,
                final(self).function_builder.function,
                old(self).block_index,
                inst_view(Opcode::Iadd, seq![arg1, arg2], seq![result], None, None, None),
            ),
            final(self).function_builder.next_value == old(self).function_builder.next_value,
    {
        self.push_inst(InstData::arithmetic(Opcode::Iadd, result, arg1, arg2));
    }

    /// Integer subtract: result = arg1 - arg2
    pub fn isub(&mut self, result: Value, arg1: Value, arg2: Value)
        requires
            old(self).function_builder.ready(old(self).block_index),
        ensures
            final(self).block_index == old(self).block_index,
            appended(
                old(self).function_builder.function,
                final(self).function_builder.function,
                old(self).block_index,
                inst_view(Opcode::Isub, seq![arg1, arg2], seq![result], None, None, None),
            ),
            final(self).function_builder.next_value == old(self).function_builder.next_value,
    {
        self.push_inst(InstData::arithmetic(Opcode::Isub, result, arg1, arg2));
    }

    /// Integer multiply: result = arg1 * arg2
    pub fn imul(&mut self, result: Value, arg1: Value, arg2: Value)
        requires
            old(self).function_builder.ready(old(self).block_index),
        ensures
            final(self).block_index == old(self).block_index,
            appended(
                old(self).function_builder.function,
                final(self).function_builder.function,
                old(self).block_index,
                inst_view(Opcode::Imul, seq![arg1, arg2], seq![result], None, None, None),
            ),
            final(self).function_builder.next_value == old(self).function_builder.next_value,
    {
        self.push_inst(InstData::arithmetic(Opcode::Imul, result, arg1, arg2));
    }

    /// Integer divide: result = arg1 / arg2
    pub fn idiv(&mut self, result: Value, arg1: Value, arg2: Value)
        requires
            old(self).function_builder.ready(old(self).block_index),
        ensures
            final(self).block_index == old(self).block_index,
            appended(
                old(self).function_builder.function,
                final(self).function_builder.function,
                old(self).block_index,
                inst_view(Opcode::Idiv, seq![arg1, arg2], seq![result], None, None, None),
            ),
            final(self).function_builder.next_value == old(self).function_builder.next_value,
    {
        self.push_inst(InstData::arithmetic(Opcode::Idiv, result, arg1, arg2));
    }

    /// Integer remainder: result = arg1 % arg2
    pub fn irem(&mut self, result: Value, arg1: Value, arg2: Value)
        requires
            old(self).function_builder.ready(old(self).block_index),
        ensures
            final(self).block_index == old(self).block_index,
            appended(
                old(self).function_builder.function,
                final(self).function_builder.function,
                old(self).block_index,
                inst_view(Opcode::Irem, seq![arg1, arg2], seq![result], None, None, None),
            ),
            final(self).function_builder.next_value == old(self).function_builder.next_value,
    {
        self.push_inst(InstData::arithmetic(Opcode::Irem, result, arg1, arg2));
    }

    /// Integer compare equal: result = (arg1 == arg2)
    pub fn icmp_eq(&mut self, result: Value, arg1: Value, arg2: Value)
        requires
            old(self).function_builder.ready(old(self).block_index),
        ensures
            final(self).block_index == old(self).block_index,
            appended(
                old(self).function_builder.function,
                final(self).function_builder.function,
                old(self).block_index,
                inst_view(Opcode::Icmp { cond: IntCC::Equal }, seq![arg1, arg2], seq![result], None, None, Some(Immediate::IntCondCode(IntCC::Equal))),
            ),
            final(self).function_builder.next_value == old(self).function_builder.next_value,
    {
        self.push_inst(InstData::comparison(Opcode::Icmp { cond: IntCC::Equal }, result, arg1, arg2));
    }

    /// Integer compare not equal: result = (arg1 != arg2)
    pub fn icmp_ne(&mut self, result: Value, arg1: Value, arg2: Value)
        requires
            old(self).function_builder.ready(old(self).block_index),
        ensures
            final(self).block_index == old(self).block_index,
            appended(
                old(self).function_builder.function,
                final(self).function_builder.function,
                old(self).block_index,
                inst_view(Opcode::Icmp { cond: IntCC::NotEqual }, seq![arg1, arg2], seq![result], None, None, Some(Immediate::IntCondCode(IntCC::NotEqual))),
            ),
            final(self).function_builder.next_value == old(self).function_builder.next_value,
    {
        self.push_inst(InstData::comparison(Opcode::Icmp { cond: IntCC::NotEqual }, result, arg1, arg2));
    }

    /// Integer compare less than (signed): result = (arg1 < arg2)
    pub fn icmp_lt(&mut self, result: Value, arg1: Value, arg2: Value)
        requires
            old(self).function_builder.ready(old(self).block_index),
        ensures
            final(self).block_index == old(self).block_index,
            appended(
                old(self).function_builder.function,
                final(self).function_builder.function,
                old(self).block_index,
                inst_view(Opcode::Icmp { cond: IntCC::SignedLessThan }, seq![arg1, arg2], seq![result], None, None, Some(Immediate::IntCondCode(IntCC::SignedLessThan))),
            ),
            final(self).function_builder.next_value == old(self).function_builder.next_value,
    {
        self.push_inst(InstData::comparison(Opcode::Icmp { cond: IntCC::SignedLessThan }, result, arg1, arg2));
    }

    /// Integer compare less than or equal (signed): result = (arg1 <= arg2)
    pub fn icmp_le(&mut self, result: Value, arg1: Value, arg2: Value)
        requires
            old(self).function_builder.ready(old(self).block_index),
        ensures
            final(self).block_index == old(self).block_index,
            appended(
                old(self).function_builder.function,
                final(self).function_builder.function,
                old(self).block_index,
                inst_view(Opcode::Icmp { cond: IntCC::SignedLessThanOrEqual }, seq![arg1, arg2], seq![result], None, None, Some(Immediate::IntCondCode(IntCC::SignedLessThanOrEqual))),
            ),
            final(self).function_builder.next_value == old(self).function_builder.next_value,
    {
        self.push_inst(InstData::comparison(Opcode::Icmp { cond: IntCC::SignedLessThanOrEqual }, result, arg1, arg2));
    }

    /// Integer compare greater than (signed): result = (arg1 > arg2)
    pub fn icmp_gt(&mut self, result: Value, arg1: Value, arg2: Value)
        requires
            old(self).function_builder.ready(old(self).block_index),
        ensures
            final(self).block_index == old(self).block_index,
            appended(
                old(self).function_builder.function,
                final(self).function_builder.function,
                old(self).block_index,
                inst_view(Opcode::Icmp { cond: IntCC::SignedGreaterThan }, seq![arg1, arg2], seq![result], None, None, Some(Immediate::IntCondCode(IntCC::SignedGreaterThan))),
            ),
            final(self).function_builder.next_value == old(self).function_builder.next_value,
    {
        self.push_inst(InstData::comparison(Opcode::Icmp { cond: IntCC::SignedGreaterThan }, result, arg1, arg2));
    }

    /// Integer compare greater than or equal (signed): result = (arg1 >= arg2)
    pub fn icmp_ge(&mut self, result: Value, arg1: Value, arg2: Value)
        requires
            old(self).function_builder.ready(old(self).block_index),
        ensures
            final(self).block_index == old(self).block_index,
            appended(
                old(self).function_builder.function,
                final(self).function_builder.function,
                old(self).block_index,
                inst_view(Opcode::Icmp { cond: IntCC::SignedGreaterThanOrEqual }, seq![arg1, arg2], seq![result], None, None, Some(Immediate::IntCondCode(IntCC::SignedGreaterThanOrEqual))),
            ),
            final(self).function_builder.next_value == old(self).function_builder.next_value,
    {
        self.push_inst(InstData::comparison(Opcode::Icmp { cond: IntCC::SignedGreaterThanOrEqual }, result, arg1, arg2));
    }

    /// Integer constant: result = value
    pub fn iconst(&mut self, result: Value, value: i64)
        requires
            old(self).function_builder.ready(old(self).block_index),
        ensures
            final(self).block_index == old(self).block_index,
            appended(
                old(self).function_builder.function,
                final(self).function_builder.function,
                old(self).block_index,
                inst_view(Opcode::Iconst, seq![], seq![result], None, None, Some(Immediate::I64(value))),
            ),
            final(self).function_builder.next_value == old(self).function_builder.next_value,
    {
        self.push_inst(InstData::constant(result, Immediate::I64(value)));
    }

    /// Floating point constant: result = the float with bits `value_bits`
    pub fn fconst(&mut self, result: Value, value_bits: u32)
        requires
            old(self).function_builder.ready(old(self).block_index),
        ensures
            final(self).block_index == old(self).block_index,
            appended(
                old(self).function_builder.function,
                final(self).function_builder.function,
                old(self).block_index,
                inst_view(Opcode::Fconst, seq![], seq![result], None, None, Some(Immediate::F32Bits(value_bits))),
            ),
            final(self).function_builder.next_value == old(self).function_builder.next_value,
    {
        self.push_inst(InstData::constant(result, Immediate::F32Bits(value_bits)));
    }

    /// Stack allocation: result = address of `size` bytes of stack space
    pub fn stackalloc(&mut self, result: Value, size: u32)
        requires
            old(self).function_builder.ready(old(self).block_index),
        ensures
            final(self).block_index == old(self).block_index,
            appended(
                old(self).function_builder.function,
                final(self).function_builder.function,
                old(self).block_index,
                inst_view(Opcode::StackAlloc { size }, seq![], seq![result], None, None, None),
            ),
            final(self).function_builder.next_value == old(self).function_builder.next_value,
    {
        self.push_inst(InstData::stackalloc(result, size));
    }

    /// Jump to target block.
    pub fn jump(&mut self, target: usize, args: &[Value])
        requires
            old(self).function_builder.ready(old(self).block_index),
            target <= u32::MAX,
        ensures
            final(self).block_index == old(self).block_index,
            appended(
                old(self).function_builder.function,
                final(self).function_builder.function,
                old(self).block_index,
                inst_view(Opcode::Jump, args@, seq![], Some(seq![(Block(target as u32), args@)]), None, None),
            ),
            final(self).function_builder.next_value == old(self).function_builder.next_value,
    {
        self.push_inst(InstData::jump(Block(target as u32), values_of(args)));
    }

    /// Conditional branch: if condition, jump to target_true, else target_false
    pub fn br(
        &mut self,
        condition: Value,
        target_true: usize,
        args_true: &[Value],
        target_false: usize,
        args_false: &[Value],
    )
        requires
            old(self).function_builder.ready(old(self).block_index),
            target_true <= u32::MAX,
            target_false <= u32::MAX,
        ensures
            final(self).block_index == old(self).block_index,
            appended(
                old(self).function_builder.function,
                final(self).function_builder.function,
                old(self).block_index,
                inst_view(
                    Opcode::Br,
                    seq![condition] + args_true@ + args_false@,
                    seq![],
                    Some(seq![(Block(target_true as u32), args_true@), (Block(target_false as u32), args_false@)]),
                    None,
                    None,
                ),
            ),
            final(self).function_builder.next_value == old(self).function_builder.next_value,
    {
        self.push_inst(
            InstData::branch(
                condition,
                Block(target_true as u32),
                values_of(args_true),
                Block(target_false as u32),
                values_of(args_false),
            ),
        );
    }

    /// Return with values.
    pub fn return_(&mut self, values: &[Value])
        requires
            old(self).function_builder.ready(old(self).block_index),
        ensures
            final(self).block_index == old(self).block_index,
            appended(
                old(self).function_builder.function,
                final(self).function_builder.function,
                old(self).block_index,
                inst_view(Opcode::Return, values@, seq![], None, None, None),
            ),
            final(self).function_builder.next_value == old(self).function_builder.next_value,
    {
        self.push_inst(InstData::return_(values_of(values)));
    }

    /// Load from memory: result = mem[address]
    pub fn load(&mut self, result: Value, address: Value, ty: Type)
        requires
            old(self).function_builder.ready(old(self).block_index),
        ensures
            final(self).block_index == old(self).block_index,
            appended(
                old(self).function_builder.function,
                final(self).function_builder.function,
                old(self).block_index,
                inst_view(Opcode::Load, seq![address], seq![result], None, Some(ty), None),
            ),
            final(self).function_builder.next_value == old(self).function_builder.next_value,
    {
        self.push_inst(InstData::load(result, address, ty));
    }

    /// Store to memory: mem[address] = value
    pub fn store(&mut self, address: Value, value: Value, ty: Type)
        requires
            old(self).function_builder.ready(old(self).block_index),
        ensures
            final(self).block_index == old(self).block_index,
            appended(
                old(self).function_builder.function,
                final(self).function_builder.function,
                old(self).block_index,
                inst_view(Opcode::Store, seq![address, value], seq![], None, Some(ty), None),
            ),
            final(self).function_builder.next_value == old(self).function_builder.next_value,
    {
        self.push_inst(InstData::store(address, value, ty));
    }

    /// Function call: results = callee(args...)
    pub fn call(&mut self, callee: String, args: Vec<Value>, results: Vec<Value>)
        requires
            old(self).function_builder.ready(old(self).block_index),
        ensures
            final(self).block_index == old(self).block_index,
            appended(
                old(self).function_builder.function,
                final(self).function_builder.function,
                old(self).block_index,
                inst_view(Opcode::Call { callee }, args@, results@, None, None, None),
            ),
            final(self).function_builder.next_value == old(self).function_builder.next_value,
    {
        self.push_inst(InstData::call(callee, args, results));
    }

    /// System call: syscall(number, args...), with no results
    pub fn syscall(&mut self, number: i32, args: Vec<Value>)
        requires
            old(self).function_builder.ready(old(self).block_index),
        ensures
            final(self).block_index == old(self).block_index,
            appended(
                old(self).function_builder.function,
                final(self).function_builder.function,
                old(self).block_index,
                inst_view(Opcode::Syscall, args@, seq![], None, None, Some(Immediate::I32(number))),
            ),
            final(self).function_builder.next_value == old(self).function_builder.next_value,
    {
        self.push_inst(InstData::syscall(number, args, Vec::new()));
    }

    /// Halt execution (ebreak)
    pub fn halt(&mut self)
        requires
            old(self).function_builder.ready(old(self).block_index),
        ensures
            final(self).block_index == old(self).block_index,
            appended(
                old(self).function_builder.function,
                final(self).function_builder.function,
                old(self).block_index,
                inst_view(Opcode::Halt, seq![], seq![], None, None, None),
            ),
            final(self).function_builder.next_value == old(self).function_builder.next_value,
    {
        self.push_inst(InstData::halt());
    }
}

} // verus!
