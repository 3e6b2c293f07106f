//! Replace builder: puts new data in place of an existing instruction,
//! keeping its entity.

use vstd::prelude::*;

use crate::{
    builder::insert::{apply_reuse, next_index, with_reuse},
    condcodes::IntCC,
    dfg::{
        inst_data::{inst_view, InstDataView},
        Immediate, InstData, Opcode, DFG,
    },
    entity::{Block, Inst},
    types::Type,
    value::{copy_values, Value},
};

verus! {

/// Builder for replacing existing instructions: the data of the
/// instruction is replaced while its entity stays the same.
pub struct ReplaceBuilder<'f> {
    /// The data flow graph that holds the instruction
    pub dfg: &'f mut DFG,
    /// The instruction replaced
    pub inst: Inst,
    /// Results to use for the replacement
    pub reuse_results: Option<Vec<Value>>,
}

impl<'f> ReplaceBuilder<'f> {
    /// Whether a value index can be handed out.
    pub open spec fn ready(&self) -> bool {
        self.dfg.value_types@.len() <= u32::MAX
    }

    /// The value a replacement with a result gets.
    pub open spec fn fresh(&self) -> Value {
        Value(next_index(self.dfg.value_types@.len()))
    }

    /// Whether `after` is the data flow graph with the instruction's data
    /// replaced by `d` (results replaced by the reuse values); an
    /// instruction that is not in the graph leaves it as it is.
    pub open spec fn replaces(&self, after: DFG, d: InstDataView) -> bool {
        let before = *self.dfg;
        let k = self.inst.0 as int;
        &&& after.value_types@ == before.value_types@
        &&& after.insts@.len() == before.insts@.len()
        &&& forall|j: int|
            0 <= j < before.insts@.len() && j != k ==> after.insts@[j] == before.insts@[j]
        &&& k < before.insts@.len() ==> after.insts@[k]@ == with_reuse(self.reuse_results, d)
    }

    /// Create a new replace builder for the given instruction.
    pub fn new(dfg: &'f mut DFG, inst: Inst) -> (r: Self)
        ensures
            r.inst == inst,
            r.reuse_results is None,
            *r.dfg == *old(dfg),
            *final(dfg) == *final(r.dfg),
    {
        Self { dfg, inst, reuse_results: None }
    }

    /// Use these values as the results of the replacement.
    pub fn with_results(self, results: Vec<Value>) -> (r: Self)
        ensures
            r.inst == self.inst,
            r.reuse_results == Some(results),
            *r.dfg == *old(self.dfg),
            *final(self.dfg) == *final(r.dfg),
    {
        Self { dfg: self.dfg, inst: self.inst, reuse_results: Some(results) }
    }

    /// Use this value as the single result of the replacement.
    pub fn with_result(self, result: Value) -> (r: Self)
        ensures
            r.inst == self.inst,
            r.reuse_results matches Some(v) && v@ == seq![result],
            *r.dfg == *old(self.dfg),
            *final(self.dfg) == *final(r.dfg),
    {
        Self { dfg: self.dfg, inst: self.inst, reuse_results: Some(vec![result]) }
    }

    /// Put `data` in place of the instruction's data; gives back the
    /// instruction.
    pub fn build(self, data: InstData) -> (r: Inst)
        ensures
            r == self.inst,
            self.replaces(*final(self.dfg), data@),
    {
        let data = apply_reuse(self.reuse_results, data);
        let inst = self.inst;
        let dfg = self.dfg;
        match dfg.inst_data_mut(inst) {
            Some(d) => {
                *d = data;
            },
            None => {},
        }
        inst
    }

    /// The value a new result gets.
    fn next_value(&self) -> (r: Value)
        requires
            self.ready(),
        ensures
            r == self.fresh(),
    {
        Value::new(self.dfg.next_value_index())
    }

    /// Integer add: result = arg1 + arg2
    pub fn iadd(self, arg1: Value, arg2: Value) -> (r: Value)
        requires
            self.ready(),
        ensures
            r == self.fresh(),
            self.replaces(*final(self.dfg), inst_view(Opcode::Iadd, seq![arg1, arg2], seq![r], None, None, None)),
    {
        let result = self.next_value();
        let _ = self.build(InstData::arithmetic(Opcode::Iadd, result, arg1, arg2));
        result
    }

    /// Integer subtract: result = arg1 - arg2
    pub fn isub(self, arg1: Value, arg2: Value) -> (r: Value)
        requires
            self.ready(),
        ensures
            r == self.fresh(),
            self.replaces(*final(self.dfg), inst_view(Opcode::Isub, seq![arg1, arg2], seq![r], None, None, None)),
    {
        let result = self.next_value();
        let _ = self.build(InstData::arithmetic(Opcode::Isub, result, arg1, arg2));
        result
    }

    /// Integer multiply: result = arg1 * arg2
    pub fn imul(self, arg1: Value, arg2: Value) -> (r: Value)
        requires
            self.ready(),
        ensures
            r == self.fresh(),
            self.replaces(*final(self.dfg), inst_view(Opcode::Imul, seq![arg1, arg2], seq![r], None, None, None)),
    {
        let result = self.next_value();
        let _ = self.build(InstData::arithmetic(Opcode::Imul, result, arg1, arg2));
        result
    }

    /// Integer divide: result = arg1 / arg2
    pub fn idiv(self, arg1: Value, arg2: Value) -> (r: Value)
        requires
            self.ready(),
        ensures
            r == self.fresh(),
            self.replaces(*final(self.dfg), inst_view(Opcode::Idiv, seq![arg1, arg2], seq![r], None, None, None)),
    {
        let result = self.next_value();
        let _ = self.build(InstData::arithmetic(Opcode::Idiv, result, arg1, arg2));
        result
    }

    /// Integer remainder: result = arg1 % arg2
    pub fn irem(self, arg1: Value, arg2: Value) -> (r: Value)
        requires
            self.ready(),
        ensures
            r == self.fresh(),
            self.replaces(*final(self.dfg), inst_view(Opcode::Irem, seq![arg1, arg2], seq![r], None, None, None)),
    {
        let result = self.next_value();
        let _ = self.build(InstData::arithmetic(Opcode::Irem, result, arg1, arg2));
        result
    }

    /// Integer compare equal: result = (arg1 == arg2)
    pub fn icmp_eq(self, arg1: Value, arg2: Value) -> (r: Value)
        requires
            self.ready(),
        ensures
            r == self.fresh(),
            self.replaces(*final(self.dfg), inst_view(Opcode::Icmp { cond: IntCC::Equal }, seq![arg1, arg2], seq![r], None, None, Some(Immediate::IntCondCode(IntCC::Equal)))),
    {
        let result = self.next_value();
        let _ = self.build(InstData::comparison(Opcode::Icmp { cond: IntCC::Equal }, result, arg1, arg2));
        result
    }

    /// Integer compare not equal: result = (arg1 != arg2)
    pub fn icmp_ne(self, arg1: Value, arg2: Value) -> (r: Value)
        requires
            self.ready(),
        ensures
            r == self.fresh(),
            self.replaces(*final(self.dfg), inst_view(Opcode::Icmp { cond: IntCC::NotEqual }, seq![arg1, arg2], seq![r], None, None, Some(Immediate::IntCondCode(IntCC::NotEqual)))),
    {
        let result = self.next_value();
        let _ = self.build(InstData::comparison(Opcode::Icmp { cond: IntCC::NotEqual }, result, arg1, arg2));
        result
    }

    /// Integer compare less than: result = (arg1 < arg2)
    pub fn icmp_lt(self, arg1: Value, arg2: Value) -> (r: Value)
        requires
            self.ready(),
        ensures
            r == self.fresh(),
            self.replaces(*final(self.dfg), inst_view(Opcode::Icmp { cond: IntCC::SignedLessThan }, seq![arg1, arg2], seq![r], None, None, Some(Immediate::IntCondCode(IntCC::SignedLessThan)))),
    {
        let result = self.next_value();
        let _ = self.build(InstData::comparison(Opcode::Icmp { cond: IntCC::SignedLessThan }, result, arg1, arg2));
        result
    }

    /// Integer compare less than or equal: result = (arg1 <= arg2)
    pub fn icmp_le(self, arg1: Value, arg2: Value) -> (r: Value)
        requires
            self.ready(),
        ensures
            r == self.fresh(),
            self.replaces(*final(self.dfg), inst_view(Opcode::Icmp { cond: IntCC::SignedLessThanOrEqual }, seq![arg1, arg2], seq![r], None, None, Some(Immediate::IntCondCode(IntCC::SignedLessThanOrEqual)))),
    {
        let result = self.next_value();
        let _ = self.build(InstData::comparison(Opcode::Icmp { cond: IntCC::SignedLessThanOrEqual }, result, arg1, arg2));
        result
    }

    /// Integer compare greater than: result = (arg1 > arg2)
    pub fn icmp_gt(self, arg1: Value, arg2: Value) -> (r: Value)
        requires
            self.ready(),
        ensures
            r == self.fresh(),
            self.replaces(*final(self.dfg), inst_view(Opcode::Icmp { cond: IntCC::SignedGreaterThan }, seq![arg1, arg2], seq![r], None, None, Some(Immediate::IntCondCode(IntCC::SignedGreaterThan)))),
    {
        let result = self.next_value();
        let _ = self.build(InstData::comparison(Opcode::Icmp { cond: IntCC::SignedGreaterThan }, result, arg1, arg2));
        result
    }

    /// Integer compare greater than or equal: result = (arg1 >= arg2)
    pub fn icmp_ge(self, arg1: Value, arg2: Value) -> (r: Value)
        requires
            self.ready(),
        ensures
            r == self.fresh(),
            self.replaces(*final(self.dfg), inst_view(Opcode::Icmp { cond: IntCC::SignedGreaterThanOrEqual }, seq![arg1, arg2], seq![r], None, None, Some(Immediate::IntCondCode(IntCC::SignedGreaterThanOrEqual)))),
    {
        let result = self.next_value();
        let _ = self.build(InstData::comparison(Opcode::Icmp { cond: IntCC::SignedGreaterThanOrEqual }, result, arg1, arg2));
        result
    }

    /// Integer constant: result = value
    pub fn iconst(self, value: i64) -> (r: Value)
        requires
            self.ready(),
        ensures
            r == self.fresh(),
            self.replaces(*final(self.dfg), inst_view(Opcode::Iconst, seq![], seq![r], None, None, Some(Immediate::I64(value)))),
    {
        let result = self.next_value();
        let _ = self.build(InstData::constant(result, Immediate::I64(value)));
        result
    }

    /// Jump to target block
    pub fn jump(self, target: Block, args: Vec<Value>)
        requires
            self.ready(),
        ensures
            self.replaces(*final(self.dfg), inst_view(Opcode::Jump, args@, seq![], Some(seq![(target, args@)]), None, None)),
    {
        let _ = self.build(InstData::jump(target, args));
    }

    /// Conditional branch: if condition, jump to target_true, else target_false
    pub fn br(self, condition: Value, target_true: Block, args_true: Vec<Value>, target_false: Block, args_false: Vec<Value>)
        requires
            self.ready(),
        ensures
            self.replaces(*final(self.dfg), inst_view(Opcode::Br, seq![condition] + args_true@ + args_false@, seq![], Some(seq![(target_true, args_true@), (target_false, args_false@)]), None, None)),
    {
        let _ = self.build(InstData::branch(condition, target_true, args_true, target_false, args_false));
    }

    /// Return with values
    pub fn return_(self, values: Vec<Value>)
        requires
            self.ready(),
        ensures
            self.replaces(*final(self.dfg), inst_view(Opcode::Return, values@, seq![], None, None, None)),
    {
        let _ = self.build(InstData::return_(values));
    }

    /// Halt execution
    pub fn halt(self)
        requires
            self.ready(),
        ensures
            self.replaces(*final(self.dfg), inst_view(Opcode::Halt, seq![], seq![], None, None, None)),
    {
        let _ = self.build(InstData::halt());
    }

    /// Load from memory: result = mem[address]
    pub fn load(self, address: Value, ty: Type) -> (r: Value)
        requires
            self.ready(),
        ensures
            r == self.fresh(),
            self.replaces(*final(self.dfg), inst_view(Opcode::Load, seq![address], seq![r], None, Some(ty), None)),
    {
        let result = self.next_value();
        let _ = self.build(InstData::load(result, address, ty));
        result
    }

    /// Store to memory: mem[address] = value
    pub fn store(self, address: Value, value: Value, ty: Type)
        requires
            self.ready(),
        ensures
            self.replaces(*final(self.dfg), inst_view(Opcode::Store, seq![address, value], seq![], None, Some(ty), None)),
    {
        let _ = self.build(InstData::store(address, value, ty));
    }

    /// System call: syscall(number, args...), with no results
    pub fn syscall(self, number: i32, args: Vec<Value>)
        requires
            self.ready(),
        ensures
            self.replaces(*final(self.dfg), inst_view(Opcode::Syscall, args@, seq![], None, None, Some(Immediate::I32(number)))),
    {
        let _ = self.build(InstData::syscall(number, args, Vec::new()));
    }

    /// Function call: results = callee(args...); gives back the results.
    pub fn call(self, callee: String, args: Vec<Value>, results: Vec<Value>) -> (r: Vec<Value>)
        requires
            self.ready(),
        ensures
            r@ == results@,
            self.replaces(*final(self.dfg), inst_view(Opcode::Call { callee }, args@, results@, None, None, None)),
    {
        let out = copy_values(&results);
        let _ = self.build(InstData::call(callee, args, results));
        out
    }
}

} // verus!
