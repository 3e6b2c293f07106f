//! Tests for `dfg::inst_data`.

use lpc_lpir::{dfg::{Immediate, InstData, Opcode}, BlockEntity as Block, Type, Value};

#[test]
fn test_inst_data_arithmetic() {
    let v1 = Value::new(1);
    let v2 = Value::new(2);
    let v3 = Value::new(3);
    let data = InstData::arithmetic(Opcode::Iadd, v3, v1, v2);

    assert_eq!(data.opcode, Opcode::Iadd);
    assert_eq!(data.args, vec![v1, v2]);
    assert_eq!(data.results, vec![v3]);
}

#[test]
fn test_inst_data_branch() {
    let cond = Value::new(0);
    let v1 = Value::new(1);
    let v2 = Value::new(2);
    let target_true = Block::new(1);
    let target_false = Block::new(2);

    let data = InstData::branch(cond, target_true, vec![v1], target_false, vec![v2]);

    assert_eq!(data.opcode, Opcode::Br);
    assert!(data.block_args.is_some());
    let block_args = data.block_args.as_ref().unwrap();
    assert_eq!(block_args.targets.len(), 2);
    assert_eq!(block_args.targets[0].0, target_true);
    assert_eq!(block_args.targets[0].1, vec![v1]);
    assert_eq!(block_args.targets[1].0, target_false);
    assert_eq!(block_args.targets[1].1, vec![v2]);
}

#[test]
fn test_inst_data_call() {
    let v1 = Value::new(1);
    let v2 = Value::new(2);
    let v3 = Value::new(3);
    let data = InstData::call(String::from("foo"), vec![v1, v2], vec![v3]);

    match data.opcode {
        Opcode::Call { callee } => assert_eq!(callee, "foo"),
        _ => panic!("Expected Call opcode"),
    }
    assert_eq!(data.args, vec![v1, v2]);
    assert_eq!(data.results, vec![v3]);
}

#[test]
fn test_inst_data_load_store() {
    let v1 = Value::new(1);
    let v2 = Value::new(2);
    let load_data = InstData::load(v2, v1, Type::I32);
    let store_data = InstData::store(v1, v2, Type::I32);

    assert_eq!(load_data.opcode, Opcode::Load);
    assert_eq!(load_data.ty, Some(Type::I32));
    assert_eq!(load_data.args, vec![v1]);
    assert_eq!(load_data.results, vec![v2]);

    assert_eq!(store_data.opcode, Opcode::Store);
    assert_eq!(store_data.ty, Some(Type::I32));
    assert_eq!(store_data.args, vec![v1, v2]);
    assert_eq!(store_data.results, Vec::new());
}

#[test]
fn test_inst_data_constant() {
    let v1 = Value::new(1);
    let data = InstData::constant(v1, Immediate::I64(42));

    assert_eq!(data.opcode, Opcode::Iconst);
    assert_eq!(data.results, vec![v1]);
    assert_eq!(data.args, Vec::new());
    match data.imm {
        Some(Immediate::I64(val)) => assert_eq!(val, 42),
        _ => panic!("Expected I64 immediate"),
    }
}
