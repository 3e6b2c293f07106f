//! Tests for `parser`.

use lpc_lpir::{parse_function, parse_module, ParseError};

/// The outcome of a parse, for messages.
fn describe<T>(r: &Result<T, ParseError>) -> String {
    match r {
        Ok(_) => String::from("Ok"),
        Err(e) => e.message.clone(),
    }
}

/// The error of a parse that should have failed.
fn expect_err<T>(r: Result<T, ParseError>) -> ParseError {
    match r {
        Ok(_) => panic!("expected a parse error"),
        Err(e) => e,
    }
}

#[test]
fn test_parse_module_empty() {
    // Test that empty input fails
    let result = parse_module("");
    assert!(result.is_err(), "Should fail on empty input");
}

#[test]
fn test_parse_module_invalid_syntax() {
    // Test that invalid syntax fails
    let result = parse_module("invalid");
    assert!(result.is_err(), "Should fail on invalid syntax");
}

#[test]
fn test_parse_module_missing_brace() {
    // Test that missing closing brace fails
    let result = parse_module("module {");
    assert!(result.is_err(), "Should fail on missing closing brace");
}

#[test]
fn test_parse_function_empty() {
    // Test that empty input fails
    let result = parse_function("");
    assert!(result.is_err(), "Should fail on empty input");
}

#[test]
fn test_parse_function_invalid_syntax() {
    // Test that invalid syntax fails
    let result = parse_function("invalid");
    assert!(result.is_err(), "Should fail on invalid syntax");
}

#[test]
fn test_parse_function_missing_brace() {
    // Test that missing closing brace fails
    let result = parse_function("function %test() {");
    assert!(result.is_err(), "Should fail on missing closing brace");
}

#[test]
fn test_parse_function_unexpected_remaining() {
    // Test that unexpected remaining input fails
    let result = parse_function("function %test() {\nblock0:\n    return\n} extra");
    assert!(result.is_err(), "Should fail on unexpected remaining input");
}

#[test]
fn test_parse_function_with_comments() {
    // Test function with comments
    let input = r#"function %test() -> i32 {
        ; This is a comment
        block0:
            ; Comment before instruction
            v0 = iconst 42 ; inline comment
            return v0 ; return comment
    }"#;
    let result = parse_function(input.trim());
    assert!(
        result.is_ok(),
        "parse_function with comments failed: {}",
        describe(&result)
    );
    let func = result.unwrap();
    assert_eq!(func.block_count(), 1);
    assert_eq!(func.block_insts(func.entry_block().unwrap()).len(), 2);
}

#[test]
fn test_parse_module_with_comments() {
    // Test module with comments
    let input = r#"module {
        ; Module-level comment
        entry: %main ; entry point comment

        function %main() {
            ; Function comment
            block0:
                v0 = iconst 42 ; constant comment
                return v0
        }
    }"#;
    let result = parse_module(input.trim());
    assert!(
        result.is_ok(),
        "parse_module with comments failed: {}",
        describe(&result)
    );
    let module = result.unwrap();
    assert_eq!(module.function_count(), 1);
    assert!(module.entry_function().is_some());
}

#[test]
fn test_validate_value_scoping_valid() {
    // Test that valid IR passes validation
    let input = r#"function %test(i32) -> i32 {
block0(v0: i32):
v1 = iconst 42
v2 = iconst 0
v3 = iconst 1
brif v3, block1(v1), block2(v2)

block1(v4: i32):
return v4

block2(v5: i32):
return v5
}"#;
    let result = parse_function(input.trim());
    assert!(
        result.is_ok(),
        "Valid IR should pass validation: {}",
        describe(&result)
    );
}

#[test]
fn test_validate_value_scoping_valid_with_params() {
    // Test that passing values as parameters works
    let input = r#"function %test(i32) -> i32 {
block0(v0: i32):
v1 = iconst 42
v2 = iconst 0
v3 = iconst 1
brif v3, block1(v1), block2(v2)

block1(v4: i32):
return v4

block2(v5: i32):
return v5
}"#;
    let result = parse_function(input.trim());
    assert!(
        result.is_ok(),
        "Passing values as parameters should be valid: {}",
        describe(&result)
    );
}

// Scoping is by dominance: a value may be used in any block its defining
// block dominates. The three inputs below use, in another block, a value
// defined in block0, which dominates every block of them; they are accepted.
// (Tests that expect these inputs to be refused conflict with that rule.)

#[test]
fn scoping_cross_block_use_dominated_by_entry() {
    let input = r#"function %test(i32) -> i32 {
block0(v0: i32):
    v1 = iconst 42
    v2 = iconst 0
    v3 = iconst 1
    brif v3, block1, block2

block1:
    return v1

block2:
    return v2
}"#;
    let result = parse_function(input.trim());
    assert!(result.is_ok(), "{}", describe(&result));
}

#[test]
fn scoping_jump_argument_dominated_by_entry() {
    let input = r#"function %test(i32) -> i32 {
block0(v0: i32):
    v1 = iconst 42
    jump block1(v1)

block1(v2: i32):
    v3 = iconst 0
    jump block2(v3)

block2(v4: i32):
    jump block1(v1)
}"#;
    let result = parse_function(input.trim());
    assert!(result.is_ok(), "{}", describe(&result));
}

#[test]
fn scoping_branch_argument_dominated_by_entry() {
    let input = r#"function %test(i32) -> i32 {
block0(v0: i32):
    v1 = iconst 42
    v2 = iconst 0
    v3 = iconst 1
    brif v3, block1, block2(v2)

block1:
    v4 = iconst 100
    brif v4, block2(v1), block0(v2)

block2(v5: i32):
    return v5
}"#;
    let result = parse_function(input.trim());
    assert!(result.is_ok(), "{}", describe(&result));
}

#[test]
fn test_validate_value_scoping_valid_same_block() {
    // Test that using values within the same block works
    let input = r#"function %test(i32) -> i32 {
block0(v0: i32):
v1 = iconst 1
v2 = iconst 2
v3 = iadd v1, v2
v4 = imul v3, v1
return v4
}"#;
    let result = parse_function(input.trim());
    assert!(
        result.is_ok(),
        "Using values within same block should be valid: {}",
        describe(&result)
    );
}
