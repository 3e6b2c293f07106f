//! Insert builder: creates instructions and appends them to a block of a
//! function.

use vstd::prelude::*;

use crate::{
    builder::function_builder::appended,
    condcodes::IntCC,
    dfg::{
        inst_data::{inst_view, InstDataView},
        Immediate, InstData, Opcode,
    },
    entity::{Block, Inst},
    function::Function,
    layout::MAX_INSTS,
    types::Type,
    value::{copy_values, Value},
};

verus! {

/// The data of an instruction with its results replaced by `reuse`, when
/// there are reuse values and as many as the instruction has results.
pub open spec fn with_reuse(reuse: Option<Vec<Value>>, d: InstDataView) -> InstDataView {
    match reuse {
        Some(r) => if r@.len() == d.results.len() {
            InstDataView { results: r@, ..d }
        } else {
            d
        },
        None => d,
    }
}

/// The index `DFG::next_value_index` gives for value types of this length.
pub open spec fn next_index(n: nat) -> u32 {
    if n == 0 {
        1
    } else {
        n as u32
    }
}

/// Put the reuse values, if any, in place of the results of `data`, when
/// there are as many as it has results.
pub fn apply_reuse(reuse: Option<Vec<Value>>, data: InstData) -> (r: InstData)
    ensures
        r@ == with_reuse(reuse, data@),
{
    let mut data = data;
    if let Some(values) = reuse {
        if values.len() == data.results.len() {
            data.results = values;
        }
    }
    data
}

/// Concrete inserter that appends instructions to a block.
pub struct BlockAppendInserter<'f> {
    /// The function the instructions go to
    pub function: &'f mut Function,
    /// The block they are appended to
    pub block: Block,
}

impl<'f> BlockAppendInserter<'f> {
    /// Create a new inserter that appends to the given block.
    pub fn new(function: &'f mut Function, block: Block) -> (r: Self)
        ensures
            r.block == block,
            *r.function == *old(function),
            *final(function) == *final(r.function),
    {
        Self { function, block }
    }

    /// Append an instruction that was created in the function's data flow
    /// graph, and not yet placed, to the end of the block.
    pub fn insert_built_inst(self, inst: Inst)
        requires
            self.function.wf(),
            self.function.layout@.inserted(self.block.0 as nat),
            inst.0 < self.function.dfg.insts@.len(),
            self.function.layout@.block_of(inst.0 as nat) is None,
        ensures
            final(self.function).wf(),
            final(self.function).layout@ == old(self.function).layout@.with_contents(
                self.block.0 as nat,
                old(self.function).layout@.contents[self.block.0 as int].push(inst.0 as nat),
            ),
            final(self.function).blocks == old(self.function).blocks,
            final(self.function).dfg == old(self.function).dfg,
            final(self.function).signature == old(self.function).signature,
            final(self.function).name == old(self.function).name,
    {
        self.function.append_inst(inst, self.block);
    }
}

/// Builder for inserting instructions into a function: each instruction is
/// created in the data flow graph and appended to the inserter's block.
///
/// The results of the next instruction can be given beforehand with
/// `with_result` or `with_results`, in place of the value it creates.
pub struct InsertBuilder<'f> {
    /// Where the instructions go
    pub inserter: BlockAppendInserter<'f>,
    /// Results to use for the next instruction
    pub reuse_results: Option<Vec<Value>>,
}

impl<'f> InsertBuilder<'f> {
    /// Whether an instruction can be added: a well-formed function, the
    /// block in its layout, room for one more instruction, and a value index
    /// to hand out.
    pub open spec fn ready(&self) -> bool {
        &&& self.inserter.function.wf()
        &&& self.inserter.function.layout@.inserted(self.inserter.block.0 as nat)
        &&& self.inserter.function.dfg.insts@.len() < MAX_INSTS
        &&& self.inserter.function.dfg.value_types@.len() <= u32::MAX
    }

    /// The value an instruction with a result gets.
    pub open spec fn fresh(&self) -> Value {
        Value(next_index(self.inserter.function.dfg.value_types@.len()))
    }

    /// Whether `after` is the function with an instruction of data `d`
    /// (results replaced by the reuse values) appended to the block.
    pub open spec fn inserts(&self, after: Function, d: InstDataView) -> bool {
        appended(
            *self.inserter.function,
            after,
            self.inserter.block.0 as usize,
            with_reuse(self.reuse_results, d),
        )
    }

    /// Create a new insert builder wrapping the given inserter.
    pub fn new(inserter: BlockAppendInserter<'f>) -> (r: Self)
        ensures
            r.inserter == inserter,
            r.reuse_results is None,
    {
        Self { inserter, reuse_results: None }
    }

    /// Use these values as the results of the next instruction.
    pub fn with_results(self, results: Vec<Value>) -> (r: Self)
        ensures
            r.inserter == self.inserter,
            r.reuse_results == Some(results),
    {
        Self { inserter: self.inserter, reuse_results: Some(results) }
    }

    /// Use this value as the single result of the next instruction.
    pub fn with_result(self, result: Value) -> (r: Self)
        ensures
            r.inserter == self.inserter,
            r.reuse_results matches Some(v) && v@ == seq![result],
    {
        Self { inserter: self.inserter, reuse_results: Some(vec![result]) }
    }

    /// Create the instruction and append it to the block.
    pub fn build(self, data: InstData) -> (r: Inst)
        requires
            self.ready(),
        ensures
            r.0 == old(self.inserter.function).dfg.insts@.len(),
            self.inserts(*final(self.inserter.function), data@),
    {
        let data = apply_reuse(self.reuse_results, data);
        let ghost d = data@;
        let inserter = self.inserter;
        let ghost before = *inserter.function;
        proof {
            before.lemma_fresh();
        }
        let inst = inserter.function.create_inst(data);
        proof {
            let n = before.dfg.insts@.len();
            assert(inserter.function.layout@.block_of(n as nat) == before.layout@.block_of(n as nat));
        }
        inserter.insert_built_inst(inst);
        proof {
            let n = before.dfg.insts@.len();
            let after = *final(inserter.function);
            assert(after.dfg.insts@.subrange(0, n as int) =~= before.dfg.insts@);
            assert(after.dfg.insts@[n as int]@ == d);
        }
        inst
    }

    /// The value a new result gets.
    fn next_value(&self) -> (r: Value)
        requires
            self.ready(),
        ensures
            r == self.fresh(),
    {
        Value::new(self.inserter.function.dfg.next_value_index())
    }

    /// Integer add: result = arg1 + arg2
    pub fn iadd(self, arg1: Value, arg2: Value) -> (r: Value)
        requires
            self.ready(),
        ensures
            r == self.fresh(),
            self.inserts(*final(self.inserter.function), inst_view(Opcode::Iadd, seq![arg1, arg2], seq![r], None, None, None)),
    {
        let result = self.next_value();
        let _ = self.build(InstData::arithmetic(Opcode::Iadd, result, arg1, arg2));
        result
    }

    /// Integer subtract: result = arg1 - arg2
    pub fn isub(self, arg1: Value, arg2: Value) -> (r: Value)
        requires
            self.ready(),
        ensures
            r == self.fresh(),
            self.inserts(*final(self.inserter.function), inst_view(Opcode::Isub, seq![arg1, arg2], seq![r], None, None, None)),
    {
        let result = self.next_value();
        let _ = self.build(InstData::arithmetic(Opcode::Isub, result, arg1, arg2));
        result
    }

    /// Integer multiply: result = arg1 * arg2
    pub fn imul(self, arg1: Value, arg2: Value) -> (r: Value)
        requires
            self.ready(),
        ensures
            r == self.fresh(),
            self.inserts(*final(self.inserter.function), inst_view(Opcode::Imul, seq![arg1, arg2], seq![r], None, None, None)),
    {
        let result = self.next_value();
        let _ = self.build(InstData::arithmetic(Opcode::Imul, result, arg1, arg2));
        result
    }

    /// Integer divide: result = arg1 / arg2
    pub fn idiv(self, arg1: Value, arg2: Value) -> (r: Value)
        requires
            self.ready(),
        ensures
            r == self.fresh(),
            self.inserts(*final(self.inserter.function), inst_view(Opcode::Idiv, seq![arg1, arg2], seq![r], None, None, None)),
    {
        let result = self.next_value();
        let _ = self.build(InstData::arithmetic(Opcode::Idiv, result, arg1, arg2));
        result
    }

    /// Integer remainder: result = arg1 % arg2
    pub fn irem(self, arg1: Value, arg2: Value) -> (r: Value)
        requires
            self.ready(),
        ensures
            r == self.fresh(),
            self.inserts(*final(self.inserter.function), inst_view(Opcode::Irem, seq![arg1, arg2], seq![r], None, None, None)),
    {
        let result = self.next_value();
        let _ = self.build(InstData::arithmetic(Opcode::Irem, result, arg1, arg2));
        result
    }

    /// Integer compare equal: result = (arg1 == arg2)
    pub fn icmp_eq(self, arg1: Value, arg2: Value) -> (r: Value)
        requires
            self.ready(),
        ensures
            r == self.fresh(),
            self.inserts(*final(self.inserter.function), inst_view(Opcode::Icmp { cond: IntCC::Equal }, seq![arg1, arg2], seq![r], None, None, Some(Immediate::IntCondCode(IntCC::Equal)))),
    {
        let result = self.next_value();
        let _ = self.build(InstData::comparison(Opcode::Icmp { cond: IntCC::Equal }, result, arg1, arg2));
        result
    }

    /// Integer compare not equal: result = (arg1 != arg2)
    pub fn icmp_ne(self, arg1: Value, arg2: Value) -> (r: Value)
        requires
            self.ready(),
        ensures
            r == self.fresh(),
            self.inserts(*final(self.inserter.function), inst_view(Opcode::Icmp { cond: IntCC::NotEqual }, seq![arg1, arg2], seq![r], None, None, Some(Immediate::IntCondCode(IntCC::NotEqual)))),
    {
        let result = self.next_value();
        let _ = self.build(InstData::comparison(Opcode::Icmp { cond: IntCC::NotEqual }, result, arg1, arg2));
        result
    }

    /// Integer compare less than: result = (arg1 < arg2)
    pub fn icmp_lt(self, arg1: Value, arg2: Value) -> (r: Value)
        requires
            self.ready(),
        ensures
            r == self.fresh(),
            self.inserts(*final(self.inserter.function), inst_view(Opcode::Icmp { cond: IntCC::SignedLessThan }, seq![arg1, arg2], seq![r], None, None, Some(Immediate::IntCondCode(IntCC::SignedLessThan)))),
    {
        let result = self.next_value();
        let _ = self.build(InstData::comparison(Opcode::Icmp { cond: IntCC::SignedLessThan }, result, arg1, arg2));
        result
    }

    /// Integer compare less than or equal: result = (arg1 <= arg2)
    pub fn icmp_le(self, arg1: Value, arg2: Value) -> (r: Value)
        requires
            self.ready(),
        ensures
            r == self.fresh(),
            self.inserts(*final(self.inserter.function), inst_view(Opcode::Icmp { cond: IntCC::SignedLessThanOrEqual }, seq![arg1, arg2], seq![r], None, None, Some(Immediate::IntCondCode(IntCC::SignedLessThanOrEqual)))),
    {
        let result = self.next_value();
        let _ = self.build(InstData::comparison(Opcode::Icmp { cond: IntCC::SignedLessThanOrEqual }, result, arg1, arg2));
        result
    }

    /// Integer compare greater than: result = (arg1 > arg2)
    pub fn icmp_gt(self, arg1: Value, arg2: Value) -> (r: Value)
        requires
            self.ready(),
        ensures
            r == self.fresh(),
            self.inserts(*final(self.inserter.function), inst_view(Opcode::Icmp { cond: IntCC::SignedGreaterThan }, seq![arg1, arg2], seq![r], None, None, Some(Immediate::IntCondCode(IntCC::SignedGreaterThan)))),
    {
        let result = self.next_value();
        let _ = self.build(InstData::comparison(Opcode::Icmp { cond: IntCC::SignedGreaterThan }, result, arg1, arg2));
        result
    }

    /// Integer compare greater than or equal: result = (arg1 >= arg2)
    pub fn icmp_ge(self, arg1: Value, arg2: Value) -> (r: Value)
        requires
            self.ready(),
        ensures
            r == self.fresh(),
            self.inserts(*final(self.inserter.function), inst_view(Opcode::Icmp { cond: IntCC::SignedGreaterThanOrEqual }, seq![arg1, arg2], seq![r], None, None, Some(Immediate::IntCondCode(IntCC::SignedGreaterThanOrEqual)))),
    {
        let result = self.next_value();
        let _ = self.build(InstData::comparison(Opcode::Icmp { cond: IntCC::SignedGreaterThanOrEqual }, result, arg1, arg2));
        result
    }

    /// Integer constant: result = value
    pub fn iconst(self, value: i64) -> (r: Value)
        requires
            self.ready(),
        ensures
            r == self.fresh(),
            self.inserts(*final(self.inserter.function), inst_view(Opcode::Iconst, seq![], seq![r], None, None, Some(Immediate::I64(value)))),
    {
        let result = self.next_value();
        let _ = self.build(InstData::constant(result, Immediate::I64(value)));
        result
    }

    /// Jump to target block
    pub fn jump(self, target: Block, args: Vec<Value>)
        requires
            self.ready(),
        ensures
            self.inserts(*final(self.inserter.function), inst_view(Opcode::Jump, args@, seq![], Some(seq![(target, args@)]), None, None)),
    {
        let _ = self.build(InstData::jump(target, args));
    }

    /// Conditional branch: if condition, jump to target_true, else target_false
    pub fn br(self, condition: Value, target_true: Block, args_true: Vec<Value>, target_false: Block, args_false: Vec<Value>)
        requires
            self.ready(),
        ensures
            self.inserts(*final(self.inserter.function), inst_view(Opcode::Br, seq![condition] + args_true@ + args_false@, seq![], Some(seq![(target_true, args_true@), (target_false, args_false@)]), None, None)),
    {
        let _ = self.build(InstData::branch(condition, target_true, args_true, target_false, args_false));
    }

    /// Return with values
    pub fn return_(self, values: Vec<Value>)
        requires
            self.ready(),
        ensures
            self.inserts(*final(self.inserter.function), inst_view(Opcode::Return, values@, seq![], None, None, None)),
    {
        let _ = self.build(InstData::return_(values));
    }

    /// Halt execution
    pub fn halt(self)
        requires
            self.ready(),
        ensures
            self.inserts(*final(self.inserter.function), inst_view(Opcode::Halt, seq![], seq![], None, None, None)),
    {
        let _ = self.build(InstData::halt());
    }

    /// Load from memory: result = mem[address]
    pub fn load(self, address: Value, ty: Type) -> (r: Value)
        requires
            self.ready(),
        ensures
            r == self.fresh(),
            self.inserts(*final(self.inserter.function), inst_view(Opcode::Load, seq![address], seq![r], None, Some(ty), None)),
    {
        let result = self.next_value();
        let _ = self.build(InstData::load(result, address, ty));
        result
    }

    /// Store to memory: mem[address] = value
    pub fn store(self, address: Value, value: Value, ty: Type)
        requires
            self.ready(),
        ensures
            self.inserts(*final(self.inserter.function), inst_view(Opcode::Store, seq![address, value], seq![], None, Some(ty), None)),
    {
        let _ = self.build(InstData::store(address, value, ty));
    }

    /// System call: syscall(number, args...), with no results
    pub fn syscall(self, number: i32, args: Vec<Value>)
        requires
            self.ready(),
        ensures
            self.inserts(*final(self.inserter.function), inst_view(Opcode::Syscall, args@, seq![], None, None, Some(Immediate::I32(number)))),
    {
        let _ = self.build(InstData::syscall(number, args, Vec::new()));
    }

    /// Function call: results = callee(args...); gives back the results.
    pub fn call(self, callee: String, args: Vec<Value>, results: Vec<Value>) -> (r: Vec<Value>)
        requires
            self.ready(),
        ensures
            r@ == results@,
            self.inserts(*final(self.inserter.function), inst_view(Opcode::Call { callee }, args@, results@, None, None, None)),
    {
        let out = copy_values(&results);
        let _ = self.build(InstData::call(callee, args, results));
        out
    }
}

} // verus!

