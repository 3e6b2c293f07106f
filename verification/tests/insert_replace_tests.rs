//! Tests for the insert and replace builders.

use lpc_lpir::{
    dfg::{InstData, Opcode},
    BlockAppendInserter, Function, InsertBuilder, ReplaceBuilder, Signature, Type, Value,
};

#[test]
fn test_insert_builder_arithmetic() {
    let sig = Signature::empty();
    let mut func = Function::new(sig, String::from("test"));
    let block = func.create_block();
    func.append_block(block);

    let v1 = Value::new(1);
    let v2 = Value::new(2);
    func.dfg.set_value_type(v1, Type::I32);
    func.dfg.set_value_type(v2, Type::I32);

    let inserter = BlockAppendInserter::new(&mut func, block);
    let builder = InsertBuilder::new(inserter);

    let result = builder.iadd(v1, v2);
    assert_eq!(result.index(), 3); // Next value index

    // Verify instruction was created and inserted
    let insts = func.block_insts(block);
    assert_eq!(insts.len(), 1);
    let inst_data = func.dfg.inst_data(insts[0]).unwrap();
    assert_eq!(inst_data.opcode, Opcode::Iadd);
    assert_eq!(inst_data.args, vec![v1, v2]);
    assert_eq!(inst_data.results, vec![result]);
}

#[test]
fn test_insert_builder_with_result() {
    let sig = Signature::empty();
    let mut func = Function::new(sig, String::from("test"));
    let block = func.create_block();
    func.append_block(block);

    let v1 = Value::new(1);
    let v2 = Value::new(2);
    let reuse_result = Value::new(10);
    func.dfg.set_value_type(v1, Type::I32);
    func.dfg.set_value_type(v2, Type::I32);

    let inserter = BlockAppendInserter::new(&mut func, block);
    let builder = InsertBuilder::new(inserter).with_result(reuse_result);

    let result = builder.iadd(v1, v2);
    // Note: iadd returns the value it created, but the instruction will use the reused result

    // Verify instruction uses the reused result (not the one returned)
    let insts = func.block_insts(block);
    let inst_data = func.dfg.inst_data(insts[0]).unwrap();
    assert_eq!(inst_data.results, vec![reuse_result]);
    // The returned value is what was created, but the instruction uses the reused one
    assert_ne!(result, reuse_result); // They're different values
}

#[test]
fn test_insert_builder_constant() {
    let sig = Signature::empty();
    let mut func = Function::new(sig, String::from("test"));
    let block = func.create_block();
    func.append_block(block);

    let inserter = BlockAppendInserter::new(&mut func, block);
    let builder = InsertBuilder::new(inserter);

    let result = builder.iconst(42);
    assert_eq!(result.index(), 1);

    let insts = func.block_insts(block);
    let inst_data = func.dfg.inst_data(insts[0]).unwrap();
    assert_eq!(inst_data.opcode, Opcode::Iconst);
    assert_eq!(inst_data.results, vec![result]);
}

#[test]
fn test_insert_builder_load() {
    let sig = Signature::empty();
    let mut func = Function::new(sig, String::from("test"));
    let block = func.create_block();
    func.append_block(block);

    let addr = Value::new(1);
    func.dfg.set_value_type(addr, Type::I32);

    let inserter = BlockAppendInserter::new(&mut func, block);
    let builder = InsertBuilder::new(inserter);

    let result = builder.load(addr, Type::I32);
    assert_eq!(result.index(), 2);

    let insts = func.block_insts(block);
    let inst_data = func.dfg.inst_data(insts[0]).unwrap();
    assert_eq!(inst_data.opcode, Opcode::Load);
    assert_eq!(inst_data.args, vec![addr]);
    assert_eq!(inst_data.results, vec![result]);
    assert_eq!(inst_data.ty, Some(Type::I32));
}

#[test]
fn test_replace_builder_replace_instruction() {
    let sig = Signature::empty();
    let mut func = Function::new(sig, String::from("test"));
    let block = func.create_block();
    func.append_block(block);

    // Create initial instruction
    let v1 = Value::new(1);
    let v2 = Value::new(2);
    let v3 = Value::new(3);
    func.dfg.set_value_type(v1, Type::I32);
    func.dfg.set_value_type(v2, Type::I32);

    let inst_data1 = InstData::arithmetic(Opcode::Iadd, v3, v1, v2);
    let inst = func.create_inst(inst_data1);
    func.append_inst(inst, block);

    // Replace with subtraction
    let builder = ReplaceBuilder::new(&mut func.dfg, inst);
    builder.isub(v1, v2);

    // Verify instruction was replaced
    let inst_data = func.dfg.inst_data(inst).unwrap();
    assert_eq!(inst_data.opcode, Opcode::Isub);
    assert_eq!(inst_data.args, vec![v1, v2]);
    // Results should be updated to new value
    assert_eq!(inst_data.results.len(), 1);
}

#[test]
fn test_replace_builder_with_result() {
    let sig = Signature::empty();
    let mut func = Function::new(sig, String::from("test"));
    let block = func.create_block();
    func.append_block(block);

    // Create initial instruction
    let v1 = Value::new(1);
    let v2 = Value::new(2);
    let v3 = Value::new(3);
    func.dfg.set_value_type(v1, Type::I32);
    func.dfg.set_value_type(v2, Type::I32);

    let inst_data1 = InstData::arithmetic(Opcode::Iadd, v3, v1, v2);
    let inst = func.create_inst(inst_data1);
    func.append_inst(inst, block);

    // Replace with reuse result
    let reuse_result = Value::new(10);
    let builder = ReplaceBuilder::new(&mut func.dfg, inst).with_result(reuse_result);
    builder.isub(v1, v2);

    // Verify instruction uses reused result
    let inst_data = func.dfg.inst_data(inst).unwrap();
    assert_eq!(inst_data.opcode, Opcode::Isub);
    assert_eq!(inst_data.results, vec![reuse_result]);
}

#[test]
fn test_replace_builder_preserves_inst_entity() {
    let sig = Signature::empty();
    let mut func = Function::new(sig, String::from("test"));
    let block = func.create_block();
    func.append_block(block);

    // Create initial instruction
    let v1 = Value::new(1);
    let v2 = Value::new(2);
    let v3 = Value::new(3);
    func.dfg.set_value_type(v1, Type::I32);
    func.dfg.set_value_type(v2, Type::I32);

    let inst_data1 = InstData::arithmetic(Opcode::Iadd, v3, v1, v2);
    let inst = func.create_inst(inst_data1);
    func.append_inst(inst, block);

    let inst_index = inst.index();

    // Replace instruction
    let builder = ReplaceBuilder::new(&mut func.dfg, inst);
    builder.imul(v1, v2);

    // Verify same InstEntity is used
    let insts = func.block_insts(block);
    assert_eq!(insts.len(), 1);
    assert_eq!(insts[0].index(), inst_index);
}
