//! Tests for `function`.

use lpc_lpir::{
    dfg::{InstData, Opcode},
    sourceloc::SourceLoc,
    Function, Signature, Type, Value,
};

#[test]
fn test_function_new() {
    let sig = Signature::new(vec![Type::I32, Type::I32], vec![Type::I32]);
    let func = Function::new(sig.clone(), String::from("test"));
    assert_eq!(func.block_count(), 0);
    assert_eq!(func.name(), "test");
}

#[test]
fn test_function_create_block() {
    let sig = Signature::empty();
    let mut func = Function::new(sig, String::from("test"));
    let block = func.create_block();
    assert_eq!(func.block_count(), 1);
    assert!(func.block_data(block).is_some());
}

#[test]
fn test_function_create_block_with_params() {
    let sig = Signature::empty();
    let mut func = Function::new(sig, String::from("test"));
    let params = vec![Value::new(0), Value::new(1)];
    let block = func.create_block_with_params(params.clone());
    assert_eq!(func.block_count(), 1);
    let block_data = func.block_data(block).unwrap();
    assert_eq!(block_data.params.len(), 2);
}

#[test]
fn test_function_create_inst() {
    let sig = Signature::empty();
    let mut func = Function::new(sig, String::from("test"));
    let v1 = Value::new(1);
    let v2 = Value::new(2);
    let v3 = Value::new(3);
    let inst_data = InstData::arithmetic(Opcode::Iadd, v3, v1, v2);
    let inst = func.create_inst(inst_data);
    assert!(func.dfg.inst_data(inst).is_some());
}

#[test]
fn test_function_entry_block() {
    let sig = Signature::empty();
    let mut func = Function::new(sig, String::from("test"));
    let block = func.create_block();
    func.append_block(block);
    assert!(func.entry_block().is_some());
    assert_eq!(func.entry_block(), Some(block));
}

#[test]
fn test_function_block_insts() {
    let sig = Signature::empty();
    let mut func = Function::new(sig, String::from("test"));
    let block = func.create_block();
    func.append_block(block);

    let v1 = Value::new(1);
    let v2 = Value::new(2);
    let v3 = Value::new(3);
    let inst_data = InstData::arithmetic(Opcode::Iadd, v3, v1, v2);
    let inst = func.create_inst(inst_data);
    func.append_inst(inst, block);

    let insts: Vec<_> = func.block_insts(block);
    assert_eq!(insts.len(), 1);
    assert_eq!(insts[0], inst);
}

#[test]
fn test_function_base_srcloc_default() {
    let sig = Signature::empty();
    let func = Function::new(sig, String::from("test"));
    let base = func.base_srcloc();
    assert!(base.is_default());
}

#[test]
fn test_function_ensure_base_srcloc() {
    let sig = Signature::empty();
    let mut func = Function::new(sig, String::from("test"));
    let srcloc1 = SourceLoc::new(100);
    let base1 = func.ensure_base_srcloc(srcloc1);
    assert_eq!(base1.bits(), 100);
    assert_eq!(func.base_srcloc().bits(), 100);

    // Setting again should return the existing base
    let srcloc2 = SourceLoc::new(200);
    let base2 = func.ensure_base_srcloc(srcloc2);
    assert_eq!(base2.bits(), 100); // Should still be the first one
    assert_eq!(func.base_srcloc().bits(), 100);
}

#[test]
fn test_function_set_and_get_srcloc() {
    let sig = Signature::empty();
    let mut func = Function::new(sig, String::from("test"));
    let block = func.create_block();
    func.append_block(block);

    let v1 = Value::new(1);
    let v2 = Value::new(2);
    let v3 = Value::new(3);
    let inst_data = InstData::arithmetic(Opcode::Iadd, v3, v1, v2);
    let inst = func.create_inst(inst_data);

    // Initially, instruction should have default source location
    let default_srcloc = func.srcloc(inst);
    assert!(default_srcloc.is_default());

    // Set a source location
    let srcloc = SourceLoc::new(150);
    func.set_srcloc(inst, srcloc);

    // Retrieve it
    let retrieved = func.srcloc(inst);
    assert_eq!(retrieved.bits(), srcloc.bits());
    assert!(!retrieved.is_default());
}

#[test]
fn test_function_srcloc_without_base() {
    let sig = Signature::empty();
    let mut func = Function::new(sig, String::from("test"));
    let block = func.create_block();
    func.append_block(block);

    let v1 = Value::new(1);
    let v2 = Value::new(2);
    let v3 = Value::new(3);
    let inst_data = InstData::arithmetic(Opcode::Iadd, v3, v1, v2);
    let inst = func.create_inst(inst_data);

    // Set a source location - this should automatically set the base
    let srcloc = SourceLoc::new(200);
    func.set_srcloc(inst, srcloc);

    // Base should now be set
    assert_eq!(func.base_srcloc().bits(), 200);
    assert_eq!(func.srcloc(inst).bits(), 200);
}

#[test]
fn test_function_srcloc_relative() {
    let sig = Signature::empty();
    let mut func = Function::new(sig, String::from("test"));
    let block = func.create_block();
    func.append_block(block);

    // Set base source location
    let base = SourceLoc::new(1000);
    func.ensure_base_srcloc(base);

    let v1 = Value::new(1);
    let v2 = Value::new(2);
    let v3 = Value::new(3);
    let inst_data = InstData::arithmetic(Opcode::Iadd, v3, v1, v2);
    let inst = func.create_inst(inst_data);

    // Set a source location relative to base
    let srcloc = SourceLoc::new(1050);
    func.set_srcloc(inst, srcloc);

    // Retrieve it - should expand correctly
    let retrieved = func.srcloc(inst);
    assert_eq!(retrieved.bits(), 1050);
}

#[test]
fn test_function_srcloc_multiple_instructions() {
    let sig = Signature::empty();
    let mut func = Function::new(sig, String::from("test"));
    let block = func.create_block();
    func.append_block(block);

    let base = SourceLoc::new(500);
    func.ensure_base_srcloc(base);

    let v1 = Value::new(1);
    let v2 = Value::new(2);
    let v3 = Value::new(3);
    let v4 = Value::new(4);

    // Create two instructions
    let inst1_data = InstData::arithmetic(Opcode::Iadd, v3, v1, v2);
    let inst1 = func.create_inst(inst1_data);
    let inst2_data = InstData::arithmetic(Opcode::Isub, v4, v3, v1);
    let inst2 = func.create_inst(inst2_data);

    // Set different source locations
    func.set_srcloc(inst1, SourceLoc::new(600));
    func.set_srcloc(inst2, SourceLoc::new(700));

    // Verify both are stored correctly
    assert_eq!(func.srcloc(inst1).bits(), 600);
    assert_eq!(func.srcloc(inst2).bits(), 700);
}
