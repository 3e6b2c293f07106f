//! Tests for the IR verifier.

use lpc_lpir::{
    dfg::{Immediate, InstData, Opcode},
    ir_verifier::{
        entities::verify_entities, flow::verify_cfg, format::verify_format,
        params::verify_dominance, ssa::verify_ssa, types::verify_types, verify, verify_module,
        VerifierError,
    },
    BlockEntity as Block, Function, Module, Signature, Type, Value,
};


#[test]
fn test_verify_cfg_valid() {
    let sig = Signature::empty();
    let mut func = Function::new(sig, String::from("test"));
    let block0 = func.create_block();
    let block1 = func.create_block();
    func.append_block(block0);
    func.append_block(block1);

    let inst_data = InstData::jump(block1, Vec::new());
    let inst = func.create_inst(inst_data);
    func.append_inst(inst, block0);

    let mut errors = Vec::new();
    verify_cfg(&func, &mut errors);
    assert!(errors.is_empty());
}

#[test]
fn test_verify_cfg_invalid_block_reference() {
    let sig = Signature::empty();
    let mut func = Function::new(sig, String::from("test"));
    let block0 = func.create_block();
    func.append_block(block0);

    // Reference a block that doesn't exist
    let invalid_block = Block::new(999);
    let inst_data = InstData::jump(invalid_block, Vec::new());
    let inst = func.create_inst(inst_data);
    func.append_inst(inst, block0);

    let mut errors = Vec::new();
    verify_cfg(&func, &mut errors);
    assert!(!errors.is_empty());
    assert!(errors[0].message.contains("invalid block"));
}

#[test]
fn test_verify_cfg_block_argument_mismatch() {
    let sig = Signature::empty();
    let mut func = Function::new(sig, String::from("test"));
    let block0 = func.create_block();
    let block1 = func.create_block_with_params(vec![Value::new(0)]);
    func.append_block(block0);
    func.append_block(block1);

    // Jump with wrong number of arguments (0 instead of 1)
    let inst_data = InstData::jump(block1, Vec::new());
    let inst = func.create_inst(inst_data);
    func.append_inst(inst, block0);

    let mut errors = Vec::new();
    verify_cfg(&func, &mut errors);
    assert!(!errors.is_empty());
    assert!(errors[0].message.contains("expects"));
}

#[test]
fn test_verify_dominance_block_parameter_usage() {
    let sig = Signature::empty();
    let mut func = Function::new(sig, String::from("test"));
    let block0 = func.create_block();
    let param = Value::new(0);
    let block1 = func.create_block_with_params(vec![param]);
    func.append_block(block0);
    func.append_block(block1);

    // Use the parameter in its own block (valid)
    let v1 = Value::new(1);
    let inst_data = InstData::arithmetic(Opcode::Iadd, v1, param, param);
    let inst = func.create_inst(inst_data);
    func.append_inst(inst, block1);

    let mut errors = Vec::new();
    verify_dominance(&func, &mut errors);
    // Should be valid - parameter used in its own block
}


#[test]
fn test_verify_entities_valid() {
    let sig = Signature::empty();
    let mut func = Function::new(sig, String::from("test"));
    let block = func.create_block();
    func.append_block(block);

    let v1 = Value::new(1);
    let v2 = Value::new(2);
    let v3 = Value::new(3);
    let inst_data = InstData::arithmetic(Opcode::Iadd, v3, v1, v2);
    let inst = func.create_inst(inst_data);
    func.append_inst(inst, block);

    let mut errors = Vec::new();
    verify_entities(&func, &mut errors, None);
    // Should have errors for v1 and v2 being used before definition
    // This is expected - they're not defined yet
}

#[test]
fn test_verify_entities_invalid_block() {
    let sig = Signature::empty();
    let mut func = Function::new(sig, String::from("test"));
    let block0 = func.create_block();
    func.append_block(block0);

    // Reference a non-existent block
    let invalid_block = Block::new(999);
    let inst_data = InstData::jump(invalid_block, vec![]);
    let inst = func.create_inst(inst_data);
    func.append_inst(inst, block0);

    let mut errors = Vec::new();
    verify_entities(&func, &mut errors, None);
    assert!(!errors.is_empty());
    assert!(errors.iter().any(|e| e.message.contains("does not exist")));
}

#[test]
fn test_verify_entities_function_call() {
    let sig = Signature::empty();
    let mut func = Function::new(sig, String::from("test"));
    let block = func.create_block();
    func.append_block(block);

    let v1 = Value::new(1);
    let v2 = Value::new(2);
    let inst_data = InstData::call(String::from("nonexistent"), vec![v1], vec![v2]);
    let inst = func.create_inst(inst_data);
    func.append_inst(inst, block);

    // Create a module without the function
    let mut module = Module::new();
    module.add_function(String::from("test"), func.clone());

    let mut errors = Vec::new();
    verify_entities(
        &module.get_function("test").unwrap(),
        &mut errors,
        Some(&module),
    );
    assert!(!errors.is_empty());
    assert!(errors
        .iter()
        .any(|e| e.message.contains("does not exist in module")));
}

#[test]
fn test_verify_entities_function_call_valid() {
    let sig = Signature::empty();
    let mut func = Function::new(sig, String::from("test"));
    let block = func.create_block();
    func.append_block(block);

    let v1 = Value::new(1);
    let v2 = Value::new(2);
    let inst_data = InstData::call(String::from("callee"), vec![v1], vec![v2]);
    let inst = func.create_inst(inst_data);
    func.append_inst(inst, block);

    // Create a module with the called function
    let mut module = Module::new();
    let callee_sig = Signature::new(vec![Type::I32], vec![Type::I32]);
    let callee_func = Function::new(callee_sig, String::from("callee"));
    module.add_function(String::from("callee"), callee_func);
    module.add_function(String::from("test"), func.clone());

    let mut errors = Vec::new();
    verify_entities(
        &module.get_function("test").unwrap(),
        &mut errors,
        Some(&module),
    );
    // Should not error about missing function
    assert!(!errors
        .iter()
        .any(|e| e.message.contains("does not exist in module")));
}


#[test]
fn test_verify_format_arithmetic_valid() {
    let sig = Signature::empty();
    let mut func = Function::new(sig, String::from("test"));
    let block = func.create_block();
    func.append_block(block);

    let v1 = Value::new(1);
    let v2 = Value::new(2);
    let v3 = Value::new(3);
    let inst_data = InstData::arithmetic(Opcode::Iadd, v3, v1, v2);
    let inst = func.create_inst(inst_data);
    func.append_inst(inst, block);

    let mut errors = Vec::new();
    verify_format(&func, &mut errors);
    assert!(errors.is_empty());
}

#[test]
fn test_verify_format_arithmetic_wrong_args() {
    let sig = Signature::empty();
    let mut func = Function::new(sig, String::from("test"));
    let block = func.create_block();
    func.append_block(block);

    let v1 = Value::new(1);
    let v2 = Value::new(2);
    let v3 = Value::new(3);
    let mut inst_data = InstData::arithmetic(Opcode::Iadd, v3, v1, v2);
    inst_data.args.push(Value::new(4)); // Wrong number of args
    let inst = func.create_inst(inst_data);
    func.append_inst(inst, block);

    let mut errors = Vec::new();
    verify_format(&func, &mut errors);
    assert!(!errors.is_empty());
    assert!(errors[0].message.contains("expects 2 arguments"));
}

#[test]
fn test_verify_format_constant_missing_imm() {
    let sig = Signature::empty();
    let mut func = Function::new(sig, String::from("test"));
    let block = func.create_block();
    func.append_block(block);

    let v1 = Value::new(1);
    let mut inst_data = InstData::constant(v1, Immediate::I64(42));
    inst_data.imm = None; // Remove immediate
    let inst = func.create_inst(inst_data);
    func.append_inst(inst, block);

    let mut errors = Vec::new();
    verify_format(&func, &mut errors);
    assert!(!errors.is_empty());
    assert!(errors[0].message.contains("requires immediate value"));
}

#[test]
fn test_verify_format_load_missing_type() {
    let sig = Signature::empty();
    let mut func = Function::new(sig, String::from("test"));
    let block = func.create_block();
    func.append_block(block);

    let v1 = Value::new(1);
    let v2 = Value::new(2);
    let mut inst_data = InstData::load(v2, v1, Type::I32);
    inst_data.ty = None; // Remove type
    let inst = func.create_inst(inst_data);
    func.append_inst(inst, block);

    let mut errors = Vec::new();
    verify_format(&func, &mut errors);
    assert!(!errors.is_empty());
    assert!(errors[0].message.contains("requires type information"));
}

#[test]
fn test_verify_format_jump_missing_block_args() {
    let sig = Signature::empty();
    let mut func = Function::new(sig, String::from("test"));
    let block0 = func.create_block();
    let block1 = func.create_block();
    func.append_block(block0);
    func.append_block(block1);

    let mut inst_data = InstData::jump(block1, vec![]);
    inst_data.block_args = None; // Remove block_args
    let inst = func.create_inst(inst_data);
    func.append_inst(inst, block0);

    let mut errors = Vec::new();
    verify_format(&func, &mut errors);
    assert!(!errors.is_empty());
    assert!(errors[0].message.contains("requires block_args"));
}

#[test]
fn test_verify_format_syscall_missing_imm() {
    let sig = Signature::empty();
    let mut func = Function::new(sig, String::from("test"));
    let block = func.create_block();
    func.append_block(block);

    let mut inst_data = InstData::syscall(1, vec![], vec![]);
    inst_data.imm = None; // Remove immediate
    let inst = func.create_inst(inst_data);
    func.append_inst(inst, block);

    let mut errors = Vec::new();
    verify_format(&func, &mut errors);
    assert!(!errors.is_empty());
    assert!(errors[0].message.contains("requires immediate value"));
}

#[test]
fn test_verify_format_return_multi_return() {
    let sig = Signature::new(vec![], vec![Type::I32, Type::F32, Type::I32]);
    let mut func = Function::new(sig, String::from("test"));
    let block = func.create_block();
    func.append_block(block);

    let v1 = Value::new(1);
    let v2 = Value::new(2);
    let v3 = Value::new(3);
    func.dfg.set_value_type(v1, Type::I32);
    func.dfg.set_value_type(v2, Type::F32);
    func.dfg.set_value_type(v3, Type::I32);

    let inst_data = InstData::return_(vec![v1, v2, v3]);
    let inst = func.create_inst(inst_data);
    func.append_inst(inst, block);

    let mut errors = Vec::new();
    verify_format(&func, &mut errors);
    assert!(
        errors.is_empty(),
        "Multi-return with matching signature should pass"
    );
}

#[test]
fn test_verify_format_return_wrong_count() {
    let sig = Signature::new(vec![], vec![Type::I32, Type::F32]);
    let mut func = Function::new(sig, String::from("test"));
    let block = func.create_block();
    func.append_block(block);

    let v1 = Value::new(1);
    func.dfg.set_value_type(v1, Type::I32);

    // Return with wrong count (1 instead of 2)
    let inst_data = InstData::return_(vec![v1]);
    let inst = func.create_inst(inst_data);
    func.append_inst(inst, block);

    let mut errors = Vec::new();
    verify_format(&func, &mut errors);
    assert!(!errors.is_empty());
    assert!(errors
        .iter()
        .any(|e| e.message.contains("expects 2 arguments")));
}

#[test]
fn test_verify_format_return_wrong_types() {
    let sig = Signature::new(vec![], vec![Type::I32, Type::F32]);
    let mut func = Function::new(sig, String::from("test"));
    let block = func.create_block();
    func.append_block(block);

    let v1 = Value::new(1);
    let v2 = Value::new(2);
    func.dfg.set_value_type(v1, Type::I32);
    func.dfg.set_value_type(v2, Type::I32); // Wrong type, should be F32

    let inst_data = InstData::return_(vec![v1, v2]);
    let inst = func.create_inst(inst_data);
    func.append_inst(inst, block);

    let mut errors = Vec::new();
    verify_format(&func, &mut errors);
    assert!(!errors.is_empty());
    assert!(errors
        .iter()
        .any(|e| e.message.contains("has type i32, expected f32")));
}

#[test]
fn test_verify_format_return_void() {
    let sig = Signature::empty();
    let mut func = Function::new(sig, String::from("test"));
    let block = func.create_block();
    func.append_block(block);

    let inst_data = InstData::return_(vec![]);
    let inst = func.create_inst(inst_data);
    func.append_inst(inst, block);

    let mut errors = Vec::new();
    verify_format(&func, &mut errors);
    assert!(
        errors.is_empty(),
        "Return with 0 values for void function should pass"
    );
}

#[test]
fn test_verify_format_return_with_results() {
    let sig = Signature::new(vec![], vec![Type::I32]);
    let mut func = Function::new(sig, String::from("test"));
    let block = func.create_block();
    func.append_block(block);

    let v1 = Value::new(1);
    func.dfg.set_value_type(v1, Type::I32);

    let mut inst_data = InstData::return_(vec![v1]);
    inst_data.results.push(Value::new(999)); // Incorrectly add a result
    let inst = func.create_inst(inst_data);
    func.append_inst(inst, block);

    let mut errors = Vec::new();
    verify_format(&func, &mut errors);
    assert!(!errors.is_empty());
    assert!(errors
        .iter()
        .any(|e| e.message.contains("must have 0 results")));
}


#[test]
fn test_verify_valid_function() {
    let sig = Signature::empty();
    let mut func = Function::new(sig, String::from("test"));
    let block = func.create_block();
    func.append_block(block);

    let inst_data = InstData::halt();
    let inst = func.create_inst(inst_data);
    func.append_inst(inst, block);

    let result = verify(&func, None);
    assert!(result.is_ok());
}

#[test]
fn test_verify_missing_terminator() {
    let sig = Signature::empty();
    let mut func = Function::new(sig, String::from("test"));
    let block = func.create_block();
    func.append_block(block);

    // Block has no instructions, so no terminator
    let result = verify(&func, None);
    assert!(result.is_err());
    let errors = result.unwrap_err();
    assert_eq!(errors.len(), 1);
    assert!(errors[0].message.contains("no terminator"));
}

#[test]
fn test_verifier_error_creation() {
    let error = VerifierError::new(String::from("test error"));
    assert_eq!(error.message, "test error");
    assert_eq!(error.location, None);

    let error_with_loc =
        VerifierError::with_location(String::from("test error"), String::from("block0"));
    assert_eq!(error_with_loc.message, "test error");
    assert_eq!(error_with_loc.location, Some(String::from("block0")));
}

#[test]
fn test_verify_module_call_correct_signature() {
    let mut module = Module::new();

    // Create callee function with terminator and entry block
    let callee_sig = Signature::new(vec![Type::I32], vec![Type::I32]);
    let mut callee_func = Function::new(callee_sig, String::from("callee"));
    let callee_entry = callee_func.create_block_with_params(vec![Value::new(0)]);
    callee_func.append_block(callee_entry);
    if let Some(block_data) = callee_func.block_data_mut(callee_entry) {
        block_data.param_types = vec![Type::I32];
    }
    callee_func.dfg.set_value_type(Value::new(0), Type::I32);
    let callee_return = InstData::return_(vec![Value::new(0)]);
    let callee_return_inst = callee_func.create_inst(callee_return);
    callee_func.append_inst(callee_return_inst, callee_entry);
    module.add_function(String::from("callee"), callee_func);

    // Create caller function with entry block
    let caller_sig = Signature::empty();
    let mut caller_func = Function::new(caller_sig, String::from("caller"));
    let block = caller_func.create_block();
    caller_func.append_block(block);

    // Define values before using them
    let v1 = Value::new(1);
    let v2 = Value::new(2);
    caller_func.dfg.set_value_type(v1, Type::I32);
    caller_func.dfg.set_value_type(v2, Type::I32);
    // Create a constant to define v1
    let const_inst_data = InstData::constant(v1, Immediate::I64(42));
    let const_inst = caller_func.create_inst(const_inst_data);
    caller_func.append_inst(const_inst, block);
    // v2 will be the result of the call
    let inst_data = InstData::call(String::from("callee"), vec![v1], vec![v2]);
    let inst = caller_func.create_inst(inst_data);
    caller_func.append_inst(inst, block);
    let halt_inst = caller_func.create_inst(InstData::halt());
    caller_func.append_inst(halt_inst, block);

    module.add_function(String::from("caller"), caller_func);

    let result = verify_module(&module);
    assert!(result.is_ok(), "Call with correct signature should pass");
}

#[test]
fn test_verify_module_call_wrong_arg_count() {
    let mut module = Module::new();

    // Create callee function with 2 args and terminator and entry block
    let callee_sig = Signature::new(vec![Type::I32, Type::I32], vec![Type::I32]);
    let mut callee_func = Function::new(callee_sig, String::from("callee"));
    let callee_entry = callee_func.create_block_with_params(vec![Value::new(0), Value::new(1)]);
    callee_func.append_block(callee_entry);
    if let Some(block_data) = callee_func.block_data_mut(callee_entry) {
        block_data.param_types = vec![Type::I32, Type::I32];
    }
    callee_func.dfg.set_value_type(Value::new(0), Type::I32);
    let callee_return = InstData::return_(vec![Value::new(0)]);
    let callee_return_inst = callee_func.create_inst(callee_return);
    callee_func.append_inst(callee_return_inst, callee_entry);
    module.add_function(String::from("callee"), callee_func);

    // Create caller function with wrong arg count
    let caller_sig = Signature::empty();
    let mut caller_func = Function::new(caller_sig, String::from("caller"));
    let block = caller_func.create_block();
    caller_func.append_block(block);

    let v1 = Value::new(1);
    let v2 = Value::new(2);
    caller_func.dfg.set_value_type(v1, Type::I32);
    caller_func.dfg.set_value_type(v2, Type::I32);
    // Call with only 1 arg instead of 2
    let inst_data = InstData::call(String::from("callee"), vec![v1], vec![v2]);
    let inst = caller_func.create_inst(inst_data);
    caller_func.append_inst(inst, block);
    let halt_inst = caller_func.create_inst(InstData::halt());
    caller_func.append_inst(halt_inst, block);

    module.add_function(String::from("caller"), caller_func);

    let result = verify_module(&module);
    assert!(result.is_err(), "Call with wrong arg count should fail");
    let errors = result.unwrap_err();
    assert!(errors
        .iter()
        .any(|e| e.message.contains("expects 2 arguments")));
}

#[test]
fn test_verify_module_call_wrong_result_count() {
    let mut module = Module::new();

    // Create callee function with 2 results and terminator and entry block
    let callee_sig = Signature::new(vec![Type::I32], vec![Type::I32, Type::F32]);
    let mut callee_func = Function::new(callee_sig, String::from("callee"));
    let callee_entry = callee_func.create_block_with_params(vec![Value::new(0)]);
    callee_func.append_block(callee_entry);
    if let Some(block_data) = callee_func.block_data_mut(callee_entry) {
        block_data.param_types = vec![Type::I32];
    }
    let callee_ret1 = Value::new(1);
    let callee_ret2 = Value::new(2);
    callee_func.dfg.set_value_type(callee_ret1, Type::I32);
    callee_func.dfg.set_value_type(callee_ret2, Type::F32);
    let callee_return = InstData::return_(vec![callee_ret1, callee_ret2]);
    let callee_return_inst = callee_func.create_inst(callee_return);
    callee_func.append_inst(callee_return_inst, callee_entry);
    module.add_function(String::from("callee"), callee_func);

    // Create caller function with wrong result count
    let caller_sig = Signature::empty();
    let mut caller_func = Function::new(caller_sig, String::from("caller"));
    let block = caller_func.create_block();
    caller_func.append_block(block);

    let v1 = Value::new(1);
    let v2 = Value::new(2);
    caller_func.dfg.set_value_type(v1, Type::I32);
    caller_func.dfg.set_value_type(v2, Type::I32);
    // Call with only 1 result instead of 2
    let inst_data = InstData::call(String::from("callee"), vec![v1], vec![v2]);
    let inst = caller_func.create_inst(inst_data);
    caller_func.append_inst(inst, block);
    let halt_inst = caller_func.create_inst(InstData::halt());
    caller_func.append_inst(halt_inst, block);

    module.add_function(String::from("caller"), caller_func);

    let result = verify_module(&module);
    assert!(result.is_err(), "Call with wrong result count should fail");
    let errors = result.unwrap_err();
    assert!(errors
        .iter()
        .any(|e| e.message.contains("returns 2 values")));
}

#[test]
fn test_verify_module_call_multi_return() {
    let mut module = Module::new();

    // Create callee function with 3+ returns and terminator and entry block
    let callee_sig = Signature::new(vec![Type::I32], vec![Type::I32, Type::F32, Type::I32]);
    let mut callee_func = Function::new(callee_sig, String::from("callee"));
    let callee_entry = callee_func.create_block_with_params(vec![Value::new(0)]);
    callee_func.append_block(callee_entry);
    if let Some(block_data) = callee_func.block_data_mut(callee_entry) {
        block_data.param_types = vec![Type::I32];
    }
    // Define return values before returning them
    let callee_ret1 = Value::new(1);
    let callee_ret2 = Value::new(2);
    let callee_ret3 = Value::new(3);
    callee_func.dfg.set_value_type(callee_ret1, Type::I32);
    callee_func.dfg.set_value_type(callee_ret2, Type::F32);
    callee_func.dfg.set_value_type(callee_ret3, Type::I32);
    // Create constants to define the return values
    let const1 = InstData::constant(callee_ret1, Immediate::I64(1));
    let const1_inst = callee_func.create_inst(const1);
    callee_func.append_inst(const1_inst, callee_entry);
    let const2 = InstData::constant(callee_ret2, Immediate::F32Bits(0x40000000)); // 2.0
    let const2_inst = callee_func.create_inst(const2);
    callee_func.append_inst(const2_inst, callee_entry);
    let const3 = InstData::constant(callee_ret3, Immediate::I64(3));
    let const3_inst = callee_func.create_inst(const3);
    callee_func.append_inst(const3_inst, callee_entry);
    let callee_return = InstData::return_(vec![callee_ret1, callee_ret2, callee_ret3]);
    let callee_return_inst = callee_func.create_inst(callee_return);
    callee_func.append_inst(callee_return_inst, callee_entry);
    module.add_function(String::from("callee"), callee_func);

    // Create caller function with entry block
    let caller_sig = Signature::empty();
    let mut caller_func = Function::new(caller_sig, String::from("caller"));
    let block = caller_func.create_block();
    caller_func.append_block(block);

    // Define values before using them
    let v1 = Value::new(1);
    let v2 = Value::new(2);
    let v3 = Value::new(3);
    let v4 = Value::new(4);
    caller_func.dfg.set_value_type(v1, Type::I32);
    caller_func.dfg.set_value_type(v2, Type::I32);
    caller_func.dfg.set_value_type(v3, Type::F32);
    caller_func.dfg.set_value_type(v4, Type::I32);
    // Create a constant to define v1
    let const_inst_data = InstData::constant(v1, Immediate::I64(42));
    let const_inst = caller_func.create_inst(const_inst_data);
    caller_func.append_inst(const_inst, block);
    // v2, v3, v4 will be the results of the call
    let inst_data = InstData::call(String::from("callee"), vec![v1], vec![v2, v3, v4]);
    let inst = caller_func.create_inst(inst_data);
    caller_func.append_inst(inst, block);
    let halt_inst = caller_func.create_inst(InstData::halt());
    caller_func.append_inst(halt_inst, block);

    module.add_function(String::from("caller"), caller_func);

    let result = verify_module(&module);
    assert!(
        result.is_ok(),
        "Call with 3+ results (multi-return) should pass"
    );
}

#[test]
fn test_verify_module_multiple_functions() {
    let mut module = Module::new();

    // Create multiple functions with terminators and entry blocks
    let func1_sig = Signature::new(vec![Type::I32], vec![Type::I32]);
    let mut func1 = Function::new(func1_sig, String::from("func1"));
    let entry1 = func1.create_block_with_params(vec![Value::new(0)]);
    func1.append_block(entry1);
    if let Some(block_data) = func1.block_data_mut(entry1) {
        block_data.param_types = vec![Type::I32];
    }
    func1.dfg.set_value_type(Value::new(0), Type::I32);
    let return1 = InstData::return_(vec![Value::new(0)]);
    let return1_inst = func1.create_inst(return1);
    func1.append_inst(return1_inst, entry1);
    module.add_function(String::from("func1"), func1);

    let func2_sig = Signature::new(vec![Type::F32], vec![Type::F32]);
    let mut func2 = Function::new(func2_sig, String::from("func2"));
    let entry2 = func2.create_block_with_params(vec![Value::new(0)]);
    func2.append_block(entry2);
    if let Some(block_data) = func2.block_data_mut(entry2) {
        block_data.param_types = vec![Type::F32];
    }
    func2.dfg.set_value_type(Value::new(0), Type::F32);
    let return2 = InstData::return_(vec![Value::new(0)]);
    let return2_inst = func2.create_inst(return2);
    func2.append_inst(return2_inst, entry2);
    module.add_function(String::from("func2"), func2);

    let result = verify_module(&module);
    assert!(result.is_ok(), "Module with multiple functions should pass");
}


#[test]
fn test_verify_ssa_valid() {
    let sig = Signature::empty();
    let mut func = Function::new(sig, String::from("test"));
    let block = func.create_block();
    func.append_block(block);

    let v1 = Value::new(1);
    let v2 = Value::new(2);
    let v3 = Value::new(3);

    let inst1_data = InstData::arithmetic(Opcode::Iadd, v3, v1, v2);
    let inst1 = func.create_inst(inst1_data);
    func.append_inst(inst1, block);

    let mut errors = Vec::new();
    verify_ssa(&func, &mut errors);
    // Should have errors for v1 and v2 being used before definition
    // This is expected - we'd need to define them first in a real function
}

#[test]
fn test_verify_ssa_multiple_definitions() {
    let sig = Signature::empty();
    let mut func = Function::new(sig, String::from("test"));
    let block = func.create_block();
    func.append_block(block);

    let v1 = Value::new(1);
    let v2 = Value::new(2);
    let v3 = Value::new(3);

    // Define v3 twice
    let inst1_data = InstData::arithmetic(Opcode::Iadd, v3, v1, v2);
    let inst1 = func.create_inst(inst1_data);
    func.append_inst(inst1, block);

    let inst2_data = InstData::arithmetic(Opcode::Isub, v3, v1, v2);
    let inst2 = func.create_inst(inst2_data);
    func.append_inst(inst2, block);

    let mut errors = Vec::new();
    verify_ssa(&func, &mut errors);
    assert!(!errors.is_empty());
    assert!(errors
        .iter()
        .any(|e| e.message.contains("defined multiple times")));
}


#[test]
fn test_verify_types_load_without_type() {
    let sig = Signature::empty();
    let mut func = Function::new(sig, String::from("test"));
    let block = func.create_block();
    func.append_block(block);

    let v1 = Value::new(1);
    let v2 = Value::new(2);
    // Create a load without type information
    let mut inst_data = InstData::load(v2, v1, Type::I32);
    inst_data.ty = None; // Remove type info to test error
    let inst = func.create_inst(inst_data);
    func.append_inst(inst, block);

    let mut errors = Vec::new();
    verify_types(&func, &mut errors, None);
    assert!(!errors.is_empty());
    assert!(errors[0].message.contains("Load instruction requires type"));
}

#[test]
fn test_verify_types_block_argument_type_mismatch() {
    let sig = Signature::empty();
    let mut func = Function::new(sig, String::from("test"));
    let block0 = func.create_block();
    let param = Value::new(0);
    let block1 = func.create_block_with_params(vec![param]);
    func.append_block(block0);
    func.append_block(block1);

    // Set parameter type to F32
    if let Some(block_data) = func.block_data_mut(block1) {
        block_data.param_types[0] = Type::F32;
    }

    // Pass I32 value to F32 parameter
    let v1 = Value::new(1);
    func.dfg.set_value_type(v1, Type::I32);
    let inst_data = InstData::jump(block1, vec![v1]);
    let inst = func.create_inst(inst_data);
    func.append_inst(inst, block0);

    let mut errors = Vec::new();
    verify_types(&func, &mut errors, None);
    assert!(!errors.is_empty());
    assert!(errors
        .iter()
        .any(|e| e.message.contains("expects type f32")));
}

#[test]
fn test_verify_types_function_call_type_mismatch() {
    let mut module = Module::new();

    // Create callee function with i32 parameter
    let callee_sig = Signature::new(vec![Type::I32], vec![Type::I32]);
    let callee_func = Function::new(callee_sig, String::from("callee"));
    module.add_function(String::from("callee"), callee_func);

    // Create caller function
    let caller_sig = Signature::empty();
    let mut caller_func = Function::new(caller_sig, String::from("caller"));
    let block = caller_func.create_block();
    caller_func.append_block(block);

    // Call with f32 argument (wrong type)
    let v1 = Value::new(1);
    caller_func.dfg.set_value_type(v1, Type::F32);
    let v2 = Value::new(2);
    caller_func.dfg.set_value_type(v2, Type::I32);
    let inst_data = InstData::call(String::from("callee"), vec![v1], vec![v2]);
    let inst = caller_func.create_inst(inst_data);
    caller_func.append_inst(inst, block);

    let mut errors = Vec::new();
    verify_types(&caller_func, &mut errors, Some(&module));
    assert!(!errors.is_empty());
    assert!(errors
        .iter()
        .any(|e| e.message.contains("expects type i32")));
}
