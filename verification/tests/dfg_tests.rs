//! Tests for `dfg::mod`.

use lpc_lpir::{dfg::{InstData, Opcode, DFG}, Type, Value};

#[test]
fn test_dfg_new() {
    let dfg = DFG::new();
    assert_eq!(dfg.insts.len(), 0);
    assert_eq!(dfg.value_types.len(), 0);
}

#[test]
fn test_dfg_create_inst() {
    let mut dfg = DFG::new();
    let v1 = Value::new(1);
    let v2 = Value::new(2);
    let v3 = Value::new(3);
    let data = InstData::arithmetic(Opcode::Iadd, v3, v1, v2);

    let inst = dfg.create_inst(data);

    assert_eq!(dfg.insts.len(), 1);
    let inst_data = dfg.inst_data(inst).unwrap();
    assert_eq!(inst_data.opcode, Opcode::Iadd);
}

#[test]
fn test_dfg_inst_data() {
    let mut dfg = DFG::new();
    let v1 = Value::new(1);
    let v2 = Value::new(2);
    let v3 = Value::new(3);
    let data = InstData::arithmetic(Opcode::Iadd, v3, v1, v2);

    let inst = dfg.create_inst(data);
    let retrieved = dfg.inst_data(inst).unwrap();

    assert_eq!(retrieved.opcode, Opcode::Iadd);
    assert_eq!(retrieved.args, vec![v1, v2]);
    assert_eq!(retrieved.results, vec![v3]);
}

#[test]
fn test_dfg_inst_args_results() {
    let mut dfg = DFG::new();
    let v1 = Value::new(1);
    let v2 = Value::new(2);
    let v3 = Value::new(3);
    let data = InstData::arithmetic(Opcode::Iadd, v3, v1, v2);

    let inst = dfg.create_inst(data);

    assert_eq!(dfg.inst_args(inst), &[v1, v2]);
    assert_eq!(dfg.inst_results(inst), &[v3]);
}

#[test]
fn test_dfg_value_type() {
    let mut dfg = DFG::new();
    let v1 = Value::new(1);
    let v2 = Value::new(2);
    let v3 = Value::new(3);
    let data = InstData::arithmetic(Opcode::Iadd, v3, v1, v2);

    let _inst = dfg.create_inst(data);

    // Type should be inferred for result
    assert_eq!(dfg.value_type(v3), Some(Type::I32));
}

#[test]
fn test_dfg_set_value_type() {
    let mut dfg = DFG::new();
    let v1 = Value::new(0);

    dfg.set_value_type(v1, Type::F32);
    assert_eq!(dfg.value_type(v1), Some(Type::F32));
}
