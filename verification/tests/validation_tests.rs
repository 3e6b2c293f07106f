//! Tests for `parser::validation`.

use lpc_lpir::{parse_function, parser::validation::validate_value_scoping, Function, ParseError, Signature, Type, Value};

/// The outcome of a parse, for messages.
fn describe<T>(r: &Result<T, ParseError>) -> String {
    match r {
        Ok(_) => String::from("Ok"),
        Err(e) => e.message.clone(),
    }
}

/// The error of a parse that should have failed.
fn expect_err<T>(r: Result<T, ParseError>) -> ParseError {
    match r {
        Ok(_) => panic!("expected a parse error"),
        Err(e) => e,
    }
}

#[test]
fn test_validate_cross_block_usage_direct() {
    // Test validation directly with a manually constructed function
    // This should now PASS because block0 dominates block1 and block2


    let mut func = Function::new(
        Signature {
            params: vec![Type::I32],
            returns: vec![Type::I32],
        },
        String::from("test"),
    );

    // block0: defines v1
    let block0 = func.create_block_with_params(vec![Value::new(0)]); // v0 parameter
    func.append_block(block0);
    let v1 = Value::new(1);
    let v0 = Value::new(0);
    let inst0 = func.create_inst(lpc_lpir::dfg::InstData::constant(
        v1,
        lpc_lpir::dfg::Immediate::I64(42),
    ));
    func.append_inst(inst0, block0);
    let block1_entity = func.create_block();
    func.append_block(block1_entity);
    let block2_entity = func.create_block();
    func.append_block(block2_entity);
    let inst1 = func.create_inst(lpc_lpir::dfg::InstData::branch(
        v0,
        block1_entity,
        Vec::new(),
        block2_entity,
        Vec::new(),
    ));
    func.append_inst(inst1, block0);

    // block1: uses v1 (defined in block0) - should PASS (block0 dominates block1)
    let inst2 = func.create_inst(lpc_lpir::dfg::InstData::return_(vec![v1]));
    func.append_inst(inst2, block1_entity);

    // block2: uses v1 (defined in block0) - should PASS (block0 dominates block2)
    let inst3 = func.create_inst(lpc_lpir::dfg::InstData::return_(vec![v1]));
    func.append_inst(inst3, block2_entity);

    let result = validate_value_scoping(&func);
    assert!(
        result.is_ok(),
        "Should pass validation (block0 dominates block1 and block2), got: {:?}",
        result
    );
}

#[test]
fn test_validate_cross_block_usage() {
    // This should now PASS - CLIF-style cross-block usage is valid
    let input = r#"function %test(i32) -> i32 {
block0(v0: i32):
v1 = iconst 42
brif v0, block1, block2

block1:
return v1

block2:
return v1
}"#;
    // Note: parse_function will call validate_value_scoping internally
    // This should now pass because block0 dominates block1 and block2
    let result = parse_function(input.trim());
    assert!(
        result.is_ok(),
        "Should pass validation (CLIF-style cross-block usage), got: {}",
        describe(&result)
    );
}

#[test]
fn test_validate_dominance_violation() {
    // Test actual dominance violation: value defined in block that doesn't dominate use
    let input = r#"function %test(i32) -> i32 {
block0(v0: i32):
brif v0, block1, block2

block1:
v1 = iconst 42
jump block3

block2:
jump block3

block3:
return v1
}"#;
    // block1 doesn't dominate block3 (path through block2 doesn't go through block1)
    let result = parse_function(input.trim());
    assert!(
        result.is_err(),
        "Should fail validation (dominance violation)"
    );
    let err = expect_err(result);
    assert!(
        err.message.contains("Value 1 used in block")
            && err.message.contains("but defined in block")
            && err.message.contains("dominated"),
        "Error should mention dominance violation: {}",
        err.message
    );
}

#[test]
fn test_validate_block_param_count_mismatch() {
    // Test that jump with wrong arg count fails
    let input = r#"function %test() -> i32 {
block0:
v0 = iconst 42
jump block1(v0)

block1(v1: i32, v2: i32):
return v1
}"#;
    let result = parse_function(input.trim());
    assert!(result.is_err(), "Jump with wrong arg count should fail");
    let err = expect_err(result);
    assert!(
        err.message.contains("expects 2 parameters")
            && err.message.contains("1 arguments provided"),
        "Error should mention parameter count mismatch: {}",
        err.message
    );
}

#[test]
fn test_validate_block_index_invalid() {
    // Test that jump to non-existent block fails
    let input = r#"function %test() -> i32 {
block0:
v0 = iconst 42
jump block5
}"#;
    let result = parse_function(input.trim());
    assert!(result.is_err(), "Jump to non-existent block should fail");
    let err = expect_err(result);
    assert!(
        err.message.contains("block5") && err.message.contains("only has 1 blocks"),
        "Error should mention invalid block index: {}",
        err.message
    );
}

#[test]
fn test_validate_return_count_mismatch() {
    // Test that return with wrong value count fails
    let input = r#"function %test() -> i32, i32 {
block0:
v0 = iconst 42
return v0
}"#;
    let result = parse_function(input.trim());
    assert!(result.is_err(), "Return with wrong value count should fail");
    let err = expect_err(result);
    assert!(
        err.message.contains("returns 1 values") && err.message.contains("expects 2"),
        "Error should mention return count mismatch: {}",
        err.message
    );
}

#[test]
fn test_validate_value_from_unreachable_block() {
    // Test that values defined in unreachable blocks cannot be used in reachable blocks
    let input = r#"function %test() -> i32 {
block0:
return v0

block1:
v0 = iconst 42
return v0
}"#;
    let result = parse_function(input.trim());
    assert!(
        result.is_err(),
        "Using value from unreachable block should fail"
    );
    let err = expect_err(result);
    assert!(
        err.message.contains("unreachable block")
            || (err.message.contains("Value 0") && err.message.contains("not defined")),
        "Error should mention unreachable block or undefined value: {}",
        err.message
    );
}

#[test]
fn test_validate_value_from_unreachable_block_explicit() {
    // Test explicit case: value defined in unreachable block, used in reachable block


    let mut func = Function::new(
        Signature {
            params: Vec::new(),
            returns: vec![Type::I32],
        },
        String::from("test"),
    );

    // block0: reachable, uses v1
    let block0 = func.create_block();
    func.append_block(block0);
    let v1 = Value::new(1);
    let inst0 = func.create_inst(lpc_lpir::dfg::InstData::return_(vec![v1]));
    func.append_inst(inst0, block0);

    // block1: unreachable, defines v1
    let block1 = func.create_block();
    func.append_block(block1);
    let inst1 = func.create_inst(lpc_lpir::dfg::InstData::constant(
        v1,
        lpc_lpir::dfg::Immediate::I64(42),
    ));
    func.append_inst(inst1, block1);
    let inst2 = func.create_inst(lpc_lpir::dfg::InstData::return_(vec![v1]));
    func.append_inst(inst2, block1);

    let result = validate_value_scoping(&func);
    assert!(
        result.is_err(),
        "Using value from unreachable block should fail"
    );
    let err = result.unwrap_err();
    assert!(
        err.contains("unreachable block"),
        "Error should mention unreachable block: {}",
        err
    );
}

#[test]
fn test_validate_duplicate_value_definition() {
    // Test that same value defined twice fails
    let input = r#"function %test() -> i32 {
block0:
v0 = iconst 42
v0 = iconst 100
return v0
}"#;
    let result = parse_function(input.trim());
    assert!(result.is_err(), "Duplicate value definition should fail");
    let err = expect_err(result);
    assert!(
        err.message.contains("Value 0 defined multiple times")
            && err.message.contains("SSA violation"),
        "Error should mention duplicate definition: {}",
        err.message
    );
}

#[test]
fn test_validate_missing_terminator() {
    // Test that block without terminator fails
    let input = r#"function %test() -> i32 {
block0:
v0 = iconst 42
}"#;
    let result = parse_function(input.trim());
    assert!(result.is_err(), "Block without terminator should fail");
    let err = expect_err(result);
    assert!(
        err.message
            .contains("does not end with a terminating instruction"),
        "Error should mention missing terminator: {}",
        err.message
    );
}

#[test]
fn test_validate_entry_block_params() {
    // Test that entry block param mismatch fails
    let input = r#"function %test(i32, i32) -> i32 {
block0(v0: i32):
return v0
}"#;
    let result = parse_function(input.trim());
    assert!(result.is_err(), "Entry block param mismatch should fail");
    let err = expect_err(result);
    assert!(
        err.message.contains("Entry block has 1 parameters")
            && err.message.contains("expects 2"),
        "Error should mention entry block param mismatch: {}",
        err.message
    );
}

#[test]
fn test_validate_branch_param_count_mismatch() {
    // Test that branch with wrong arg count fails
    let input = r#"function %test() -> i32 {
block0:
v0 = iconst 1
v1 = iconst 42
brif v0, block1(v1), block2

block1(v2: i32, v3: i32):
return v2

block2:
v4 = iconst 0
return v4
}"#;
    let result = parse_function(input.trim());
    assert!(result.is_err(), "Branch with wrong arg count should fail");
    let err = expect_err(result);
    assert!(
        err.message.contains("expects 2 parameters")
            && err.message.contains("1 arguments provided"),
        "Error should mention branch parameter count mismatch: {}",
        err.message
    );
}

#[test]
fn test_validate_empty_block() {
    // Test that empty block fails
    let input = r#"function %test() -> i32 {
block0:
}"#;
    let result = parse_function(input.trim());
    assert!(result.is_err(), "Empty block should fail");
    let err = expect_err(result);
    assert!(
        err.message.contains("is empty")
            || err
                .message
                .contains("does not end with a terminating instruction"),
        "Error should mention empty block: {}",
        err.message
    );
}

#[test]
fn test_validate_branch_missing_args() {
    // Test that branch to block with parameters but no args provided fails
    let input = r#"function %test() -> i32 {
block0:
v0 = iconst 1
brif v0, block1, block2

block1:
v1 = iconst 42
return v1

block2(v2: i32):
return v2
}"#;
    let result = parse_function(input.trim());
    assert!(result.is_err(), "Branch with missing args should fail");
    let err = expect_err(result);
    assert!(
        err.message.contains("expects 1 parameters")
            && err.message.contains("0 arguments provided"),
        "Error should mention missing arguments: {}",
        err.message
    );
}

#[test]
fn test_validate_all_validations_pass() {
    // Test that valid IR passes all validations
    let input = r#"function %test(i32) -> i32 {
block0(v0: i32):
v1 = iconst 1
brif v0, block1(v1), block2(v1)

block1(v2: i32):
return v2

block2(v3: i32):
return v3
}"#;
    let result = parse_function(input.trim());
    assert!(
        result.is_ok(),
        "Valid IR should pass all validations: {}",
        describe(&result)
    );
}
