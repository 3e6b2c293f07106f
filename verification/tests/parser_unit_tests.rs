//! Tests for the text parser's pieces: blanks and comments, tokens,
//! instructions, signatures and functions.

use lpc_lpir::{
    condcodes::IntCC,
    dfg::{Immediate, Opcode},
    parser::{
        function::{parse_function_internal, parse_signature},
        instructions::{
            parse_bitwise, parse_bitwise_unary, parse_branch, parse_call, parse_comparison,
            parse_const, parse_halt, parse_instruction, parse_jump, parse_load, parse_return,
            parse_shift, parse_store, parse_syscall,
        },
        lexer::{
            chars_of, comment, parse_block_index, parse_function_name, parse_integer, parse_type,
            parse_value, skip_blank,
        },
    },
    Function, Type,
};

/// Run a parser on the whole of `input` from its start: what is left of the
/// input and the parsed item, or none when the parser fails.
fn run<T>(f: fn(&Vec<char>, usize) -> Option<(T, usize)>, input: &str) -> Option<(String, T)> {
    let s = chars_of(input);
    f(&s, 0).map(|(v, p)| (s[p..].iter().collect(), v))
}

/// Run the function parser on `input`.
fn run_function(input: &str, anon_counter: usize) -> Option<(String, Function)> {
    let s = chars_of(input);
    parse_function_internal(&s, 0, anon_counter).map(|(f, p)| (s[p..].iter().collect(), f))
}

/// The text of some characters, kept for the rest of the test run.
fn text(cs: &[char]) -> &'static str {
    Box::leak(cs.iter().collect::<String>().into_boxed_str())
}

/// Blanks at the start of `input`: what is left, and the blanks.
fn blank_space(input: &str) -> Result<(&'static str, &'static str), ()> {
    let s = chars_of(input);
    let p = skip_blank(&s, 0);
    Ok((text(&s[p..]), text(&s[..p])))
}

/// Blanks at the start of `input`: what is left.
fn blank(input: &str) -> Result<(&'static str, ()), ()> {
    blank_space(input).map(|(rest, _)| (rest, ()))
}

/// A comment at the start of `input`: what is left, and its text.
fn comment_at(input: &str) -> Result<(&'static str, &'static str), ()> {
    let s = chars_of(input);
    match comment(&s, 0) {
        Some(p) => Ok((text(&s[p..]), text(&s[1..p]))),
        None => Err(()),
    }
}

#[test]
fn test_parse_signature() {
    let input = "() -> i32";
    let result = run(parse_signature, input);
    assert!(result.is_some(), "parse_signature failed");
    let (remaining, sig) = result.unwrap();
    assert_eq!(remaining, "", "Should consume all input");
    assert_eq!(sig.params.len(), 0);
    assert_eq!(sig.returns.len(), 1);
}

#[test]
fn test_parse_signature_with_params() {
    let input = "(i32, i32) -> i32";
    let result = run(parse_signature, input);
    assert!(result.is_some());
    let (_, sig) = result.unwrap();
    assert_eq!(sig.params.len(), 2);
    assert_eq!(sig.returns.len(), 1);
}

#[test]
fn test_parse_function_internal_minimal() {
    let input = "function %test() -> i32 {\nblock0:\n    v0 = iconst 42\n    return v0\n}";
    let result = run_function(input, 0);
    assert!(
        result.is_some(),
        "parse_function_internal failed"
    );
    let (remaining, func) = result.unwrap();
    assert_eq!(
        remaining, "",
        "Should consume all input, got: {:?}",
        remaining
    );
    assert_eq!(func.block_count(), 1);
    let block = func.entry_block().unwrap();
    let insts = func.block_insts(block);
    assert_eq!(insts.len(), 2);
}

#[test]
fn test_parse_signature_multiple_returns() {
    let input = "() -> i32, i32, i32";
    let result = run(parse_signature, input);
    assert!(result.is_some(), "parse_signature failed");
    let (remaining, sig) = result.unwrap();
    assert_eq!(remaining, "", "Should consume all input");
    assert_eq!(sig.params.len(), 0);
    assert_eq!(sig.returns.len(), 3, "Expected 3 return types");
}

#[test]
fn test_parse_signature_many_returns() {
    let input = "(i32, i32) -> i32, i32, i32, i32, i32, i32, i32, i32, i32, i32";
    let result = run(parse_signature, input);
    assert!(result.is_some(), "parse_signature failed");
    let (remaining, sig) = result.unwrap();
    assert_eq!(remaining, "", "Should consume all input");
    assert_eq!(sig.params.len(), 2);
    assert_eq!(sig.returns.len(), 10, "Expected 10 return types");
}

#[test]
fn test_parse_function_with_multiple_returns() {
    let input = r#"function %test() -> i32, i32 {
block0:
v0 = iconst 1
v1 = iconst 2
return v0, v1
}"#;
    let result = run_function(input, 0);
    assert!(
        result.is_some(),
        "parse_function_internal failed"
    );
    let (remaining, func) = result.unwrap();
    assert_eq!(remaining, "", "Should consume all input");
    assert_eq!(func.signature.returns.len(), 2);
}

#[test]
fn test_parse_signature_void() {
    let input = "() -> void";
    let result = run(parse_signature, input);
    assert!(result.is_some(), "parse_signature failed");
    let (remaining, sig) = result.unwrap();
    assert_eq!(remaining, "", "Should consume all input");
    assert_eq!(sig.params.len(), 0);
    assert_eq!(
        sig.returns.len(),
        0,
        "void should result in empty return list"
    );
}

#[test]
fn test_parse_signature_with_params_void() {
    let input = "(i32, i32) -> void";
    let result = run(parse_signature, input);
    assert!(result.is_some(), "parse_signature failed");
    let (remaining, sig) = result.unwrap();
    assert_eq!(remaining, "", "Should consume all input");
    assert_eq!(sig.params.len(), 2);
    assert_eq!(
        sig.returns.len(),
        0,
        "void should result in empty return list"
    );
}

#[test]
fn test_parse_function_with_void() {
    let input = r#"function %test() -> void {
block0:
halt
}"#;
    let result = run_function(input, 0);
    assert!(
        result.is_some(),
        "parse_function_internal failed"
    );
    let (remaining, func) = result.unwrap();
    assert_eq!(remaining, "", "Should consume all input");
    assert_eq!(
        func.signature.returns.len(),
        0,
        "void function should have no returns"
    );
}

#[test]
fn test_parse_const_iconst() {
    let input = "v0 = iconst 42";
    let result = run(parse_const, input);
    assert!(result.is_some(), "parse_const failed: {:?}", result);
    let (remaining, inst_data) = result.unwrap();
    assert_eq!(
        remaining, "",
        "Should consume all input, got: {:?}",
        remaining
    );
    assert_eq!(inst_data.opcode, Opcode::Iconst);
    if let Some(Immediate::I64(value)) = inst_data.imm {
        assert_eq!(value, 42);
    } else {
        panic!("Expected I64 immediate, got: {:?}", inst_data.imm);
    }
}

#[test]
fn test_parse_const_fconst() {
    let input = "v0 = fconst 3.14";
    let result = run(parse_const, input);
    assert!(result.is_some(), "parse_const failed: {:?}", result);
    let (remaining, inst_data) = result.unwrap();
    assert_eq!(remaining, "", "Should consume all input");
    assert_eq!(inst_data.opcode, Opcode::Fconst);
    // Verify it's f32 (value_bits is u32)
    if let Some(Immediate::F32Bits(value_bits)) = inst_data.imm {
        let f32_value = f32::from_bits(value_bits);
        assert!((f32_value - 3.14f32).abs() < 0.01);
    } else {
        panic!("Expected F32Bits immediate, got: {:?}", inst_data.imm);
    }
}

#[test]
fn test_parse_instruction_iconst() {
    let input = "v0 = iconst 42";
    let result = run(parse_instruction, input);
    assert!(result.is_some(), "parse_instruction failed: {:?}", result);
    let (remaining, inst_data) = result.unwrap();
    assert_eq!(remaining, "", "Should consume all input");
    assert_eq!(inst_data.opcode, Opcode::Iconst);
}

#[test]
fn test_parse_arithmetic() {
    let input = "v0 = iadd v1, v2";
    let result = run(parse_instruction, input);
    assert!(result.is_some(), "parse_instruction failed: {:?}", result);
    let (_, inst_data) = result.unwrap();
    assert_eq!(inst_data.opcode, Opcode::Iadd);
}

#[test]
fn test_parse_bitwise() {
    let input = "v0 = iand v1, v2";
    let result = run(parse_bitwise, input);
    assert!(result.is_some(), "parse_bitwise failed: {:?}", result);
    let (_, inst_data) = result.unwrap();
    assert_eq!(inst_data.opcode, Opcode::Iand);

    let input = "v0 = ior v1, v2";
    let result = run(parse_bitwise, input);
    assert!(result.is_some(), "parse_bitwise failed: {:?}", result);
    let (_, inst_data) = result.unwrap();
    assert_eq!(inst_data.opcode, Opcode::Ior);

    let input = "v0 = ixor v1, v2";
    let result = run(parse_bitwise, input);
    assert!(result.is_some(), "parse_bitwise failed: {:?}", result);
    let (_, inst_data) = result.unwrap();
    assert_eq!(inst_data.opcode, Opcode::Ixor);
}

#[test]
fn test_parse_bitwise_unary() {
    let input = "v0 = inot v1";
    let result = run(parse_bitwise_unary, input);
    assert!(result.is_some(), "parse_bitwise_unary failed: {:?}", result);
    let (_, inst_data) = result.unwrap();
    assert_eq!(inst_data.opcode, Opcode::Inot);
}

#[test]
fn test_parse_shift() {
    let input = "v0 = ishl v1, v2";
    let result = run(parse_shift, input);
    assert!(result.is_some(), "parse_shift failed: {:?}", result);
    let (_, inst_data) = result.unwrap();
    assert_eq!(inst_data.opcode, Opcode::Ishl);

    let input = "v0 = ishr v1, v2";
    let result = run(parse_shift, input);
    assert!(result.is_some(), "parse_shift failed: {:?}", result);
    let (_, inst_data) = result.unwrap();
    assert_eq!(inst_data.opcode, Opcode::Ishr);

    let input = "v0 = iashr v1, v2";
    let result = run(parse_shift, input);
    assert!(result.is_some(), "parse_shift failed: {:?}", result);
    let (_, inst_data) = result.unwrap();
    assert_eq!(inst_data.opcode, Opcode::Iashr);
}

#[test]
fn test_parse_instruction_bitwise() {
    let input = "v0 = iand v1, v2";
    let result = run(parse_instruction, input);
    assert!(result.is_some(), "parse_instruction failed: {:?}", result);
    let (_, inst_data) = result.unwrap();
    assert_eq!(inst_data.opcode, Opcode::Iand);

    let input = "v0 = inot v1";
    let result = run(parse_instruction, input);
    assert!(result.is_some(), "parse_instruction failed: {:?}", result);
    let (_, inst_data) = result.unwrap();
    assert_eq!(inst_data.opcode, Opcode::Inot);

    let input = "v0 = ishl v1, v2";
    let result = run(parse_instruction, input);
    assert!(result.is_some(), "parse_instruction failed: {:?}", result);
    let (_, inst_data) = result.unwrap();
    assert_eq!(inst_data.opcode, Opcode::Ishl);
}

#[test]
fn test_parse_return() {
    let input = "return";
    let result = run(parse_return, input);
    assert!(result.is_some());
    let (_, inst_data) = result.unwrap();
    assert_eq!(inst_data.opcode, Opcode::Return);
    assert_eq!(inst_data.args.len(), 0);
}

#[test]
fn test_parse_return_with_values() {
    let input = "return v0, v1";
    let result = run(parse_return, input);
    assert!(result.is_some());
    let (_, inst_data) = result.unwrap();
    assert_eq!(inst_data.opcode, Opcode::Return);
    assert_eq!(inst_data.args.len(), 2);
}

#[test]
fn test_parse_comparison() {
    let input = "v0 = icmp eq v1, v2";
    let result = run(parse_comparison, input);
    assert!(result.is_some(), "parse_comparison failed: {:?}", result);
    let (_, inst_data) = result.unwrap();
    match &inst_data.opcode {
        Opcode::Icmp { cond } => assert_eq!(*cond, IntCC::Equal),
        _ => panic!("Expected Icmp opcode"),
    }
}

#[test]
fn test_parse_comparison_rejects_old_format() {
    // Old format should be rejected
    let input = "v0 = icmp_eq v1, v2";
    let result = run(parse_comparison, input);
    assert!(result.is_none(), "parse_comparison should reject old format");
}

#[test]
fn test_parse_jump() {
    let input = "jump block1";
    let result = run(parse_jump, input);
    assert!(result.is_some(), "parse_jump failed: {:?}", result);
    let (_, inst_data) = result.unwrap();
    assert_eq!(inst_data.opcode, Opcode::Jump);
    assert!(inst_data.block_args.is_some());
    let block_args = inst_data.block_args.as_ref().unwrap();
    assert_eq!(block_args.targets.len(), 1);
    assert_eq!(block_args.targets[0].0.index(), 1);
    assert_eq!(block_args.targets[0].1.len(), 0);
}

#[test]
fn test_parse_jump_with_args() {
    let input = "jump block3(v1, v2)";
    let result = run(parse_jump, input);
    assert!(result.is_some(), "parse_jump failed: {:?}", result);
    let (_, inst_data) = result.unwrap();
    assert_eq!(inst_data.opcode, Opcode::Jump);
    assert!(inst_data.block_args.is_some());
    let block_args = inst_data.block_args.as_ref().unwrap();
    assert_eq!(block_args.targets.len(), 1);
    assert_eq!(block_args.targets[0].0.index(), 3);
    assert_eq!(block_args.targets[0].1.len(), 2);
    assert_eq!(block_args.targets[0].1[0].index(), 1);
    assert_eq!(block_args.targets[0].1[1].index(), 2);
}

#[test]
fn test_parse_branch() {
    let input = "brif v0, block1, block2";
    let result = run(parse_branch, input);
    assert!(result.is_some(), "parse_branch failed: {:?}", result);
    let (_, inst_data) = result.unwrap();
    assert_eq!(inst_data.opcode, Opcode::Br);
    assert!(inst_data.block_args.is_some());
    let block_args = inst_data.block_args.as_ref().unwrap();
    assert_eq!(block_args.targets.len(), 2);
    assert_eq!(block_args.targets[0].0.index(), 1);
    assert_eq!(block_args.targets[0].1.len(), 0);
    assert_eq!(block_args.targets[1].0.index(), 2);
    assert_eq!(block_args.targets[1].1.len(), 0);
}

#[test]
fn test_parse_branch_with_args() {
    let input = "brif v0, block1(v1), block2(v2)";
    let result = run(parse_branch, input);
    assert!(result.is_some(), "parse_branch failed: {:?}", result);
    let (_, inst_data) = result.unwrap();
    assert_eq!(inst_data.opcode, Opcode::Br);
    assert_eq!(inst_data.args[0].index(), 0);
    assert!(inst_data.block_args.is_some());
    let block_args = inst_data.block_args.as_ref().unwrap();
    assert_eq!(block_args.targets.len(), 2);
    assert_eq!(block_args.targets[0].0.index(), 1);
    assert_eq!(block_args.targets[0].1.len(), 1);
    assert_eq!(block_args.targets[0].1[0].index(), 1);
    assert_eq!(block_args.targets[1].0.index(), 2);
    assert_eq!(block_args.targets[1].1.len(), 1);
    assert_eq!(block_args.targets[1].1[0].index(), 2);
}

#[test]
fn test_parse_branch_mixed_args() {
    // CLIF format: one target with args, one without (parentheses optional)
    let input = "brif v0, block1, block2(v1)";
    let result = run(parse_branch, input);
    assert!(result.is_some(), "parse_branch failed: {:?}", result);
    let (_, inst_data) = result.unwrap();
    assert_eq!(inst_data.opcode, Opcode::Br);
    assert!(inst_data.block_args.is_some());
    let block_args = inst_data.block_args.as_ref().unwrap();
    assert_eq!(block_args.targets[0].0.index(), 1);
    assert_eq!(
        block_args.targets[0].1.len(),
        0,
        "block1 should have no args"
    );
    assert_eq!(block_args.targets[1].0.index(), 2);
    assert_eq!(block_args.targets[1].1.len(), 1);
    assert_eq!(block_args.targets[1].1[0].index(), 1);
}

#[test]
fn test_parse_branch_mixed_args_reverse() {
    // CLIF format: one target with args, one without (reversed)
    let input = "brif v0, block1(v1), block2";
    let result = run(parse_branch, input);
    assert!(result.is_some(), "parse_branch failed: {:?}", result);
    let (_, inst_data) = result.unwrap();
    assert_eq!(inst_data.opcode, Opcode::Br);
    assert!(inst_data.block_args.is_some());
    let block_args = inst_data.block_args.as_ref().unwrap();
    assert_eq!(block_args.targets[0].0.index(), 1);
    assert_eq!(block_args.targets[0].1.len(), 1);
    assert_eq!(block_args.targets[0].1[0].index(), 1);
    assert_eq!(block_args.targets[1].0.index(), 2);
    assert_eq!(
        block_args.targets[1].1.len(),
        0,
        "block2 should have no args"
    );
}

#[test]
fn test_parse_call() {
    let input = "call %func(v0, v1) -> v2";
    let result = run(parse_call, input);
    assert!(result.is_some(), "parse_call failed: {:?}", result);
    let (remaining, inst_data) = result.unwrap();
    assert_eq!(
        remaining, "",
        "Should consume all input, got: {:?}",
        remaining
    );
    match &inst_data.opcode {
        Opcode::Call { callee } => {
            assert_eq!(callee, "func");
        }
        _ => panic!("Expected Call opcode"),
    }
    assert_eq!(inst_data.args.len(), 2);
    assert_eq!(
        inst_data.results.len(),
        1,
        "Expected 1 result, got: {:?}",
        inst_data.results
    );
}

#[test]
fn test_parse_call_no_results() {
    let input = "call %func(v0)";
    let result = run(parse_call, input);
    assert!(result.is_some(), "parse_call failed: {:?}", result);
    let (_, inst_data) = result.unwrap();
    assert_eq!(inst_data.results.len(), 0);
}

#[test]
fn test_parse_syscall() {
    let input = "syscall 1(v0, v1)";
    let result = run(parse_syscall, input);
    assert!(result.is_some(), "parse_syscall failed: {:?}", result);
    let (_, inst_data) = result.unwrap();
    assert_eq!(inst_data.opcode, Opcode::Syscall);
    if let Some(Immediate::I32(number)) = inst_data.imm {
        assert_eq!(number, 1);
    } else {
        panic!("Expected I32 immediate");
    }
    assert_eq!(inst_data.args.len(), 2);
    assert_eq!(
        inst_data.results.len(),
        0,
        "Syscall without return value should have empty results"
    );
}

#[test]
fn test_parse_syscall_with_return() {
    let input = "syscall 1(v0, v1) -> v2";
    let result = run(parse_syscall, input);
    assert!(result.is_some(), "parse_syscall failed: {:?}", result);
    let (_, inst_data) = result.unwrap();
    assert_eq!(inst_data.opcode, Opcode::Syscall);
    if let Some(Immediate::I32(number)) = inst_data.imm {
        assert_eq!(number, 1);
    } else {
        panic!("Expected I32 immediate");
    }
    assert_eq!(inst_data.args.len(), 2);
    assert_eq!(
        inst_data.results.len(),
        1,
        "Syscall with return value should have one result"
    );
    assert_eq!(inst_data.results[0].index(), 2);
}

#[test]
fn test_parse_load() {
    let input = "v0 = load.i32 v1";
    let result = run(parse_load, input);
    assert!(result.is_some(), "parse_load failed: {:?}", result);
    let (_, inst_data) = result.unwrap();
    assert_eq!(inst_data.opcode, Opcode::Load);
    assert_eq!(inst_data.ty, Some(Type::I32));
}

#[test]
fn test_parse_store() {
    let input = "store.i32 v0, v1";
    let result = run(parse_store, input);
    assert!(result.is_some(), "parse_store failed: {:?}", result);
    let (_, inst_data) = result.unwrap();
    assert_eq!(inst_data.opcode, Opcode::Store);
    assert_eq!(inst_data.ty, Some(Type::I32));
}

#[test]
fn test_parse_halt() {
    let input = "halt";
    let result = run(parse_halt, input);
    assert!(result.is_some(), "parse_halt failed: {:?}", result);
    let (_, inst_data) = result.unwrap();
    assert_eq!(inst_data.opcode, Opcode::Halt);
}

#[test]
fn test_parse_instruction_invalid() {
    // Test that invalid instruction fails
    let result = run(parse_instruction, "invalid");
    assert!(result.is_none(), "Should fail on invalid instruction");
}

#[test]
fn test_parse_instruction_empty() {
    // Test that empty input fails
    let result = run(parse_instruction, "");
    assert!(result.is_none(), "Should fail on empty input");
}

#[test]
fn test_parse_arithmetic_missing_args() {
    // Test that missing arguments fail
    let result = run(parse_instruction, "v0 = iadd");
    assert!(result.is_none(), "Should fail on missing arguments");
}

#[test]
fn test_parse_const_missing_value() {
    // Test that missing constant value fails
    let result = run(parse_instruction, "v0 = iconst");
    assert!(result.is_none(), "Should fail on missing constant value");
}

#[test]
fn test_parse_call_missing_parens() {
    // Test that missing parentheses fail
    let result = run(parse_instruction, "call %func");
    assert!(result.is_none(), "Should fail on missing parentheses");
}

#[test]
fn test_parse_call_with_whitespace_after() {
    // Test that call instruction consumes trailing whitespace correctly
    let input = "call %helper(v10) -> v11\n        v12 = iconst 100";
    let result = run(parse_call, input);
    assert!(result.is_some(), "parse_call failed: {:?}", result);
    let (remaining, inst_data) = result.unwrap();
    // Should consume the call and whitespace, leaving the next instruction
    assert!(
        remaining.trim_start().starts_with("v12"),
        "Should leave next instruction, got: {:?}",
        remaining
    );
    match &inst_data.opcode {
        Opcode::Call { callee } => {
            assert_eq!(callee, "helper");
        }
        _ => panic!("Expected Call opcode"),
    }
    assert_eq!(inst_data.args.len(), 1);
    assert_eq!(inst_data.results.len(), 1);
}

#[test]
fn test_parse_call_followed_by_instruction() {
    // Test parsing call followed by another instruction
    let input = "call %helper(v10) -> v11\n        v12 = iconst 100";
    let result = run(parse_instruction, input);
    assert!(result.is_some(), "parse_instruction failed: {:?}", result);
    let (remaining, inst_data) = result.unwrap();
    assert!(
        remaining.trim_start().starts_with("v12"),
        "Should leave next instruction, got: {:?}",
        remaining
    );
    match inst_data.opcode {
        Opcode::Call { .. } => {}
        _ => panic!("Expected Call opcode"),
    }
}

#[test]
fn test_parse_call_multiple_returns() {
    // Test call with multiple return values
    let input = "call %func(v0, v1) -> v2, v3, v4";
    let result = run(parse_call, input);
    assert!(result.is_some(), "parse_call failed: {:?}", result);
    let (remaining, inst_data) = result.unwrap();
    assert_eq!(
        remaining, "",
        "Should consume all input, got: {:?}",
        remaining
    );
    match &inst_data.opcode {
        Opcode::Call { callee } => {
            assert_eq!(callee, "func");
        }
        _ => panic!("Expected Call opcode"),
    }
    assert_eq!(inst_data.args.len(), 2);
    assert_eq!(
        inst_data.results.len(),
        3,
        "Expected 3 results, got: {:?}",
        inst_data.results
    );
}

#[test]
fn test_parse_call_multiple_returns_via_instruction() {
    // Test parsing call with multiple returns via parse_instruction
    let input = "call %helper(v10) -> v11, v12, v13";
    let result = run(parse_instruction, input);
    assert!(result.is_some(), "parse_instruction failed: {:?}", result);
    let (remaining, inst_data) = result.unwrap();
    assert_eq!(remaining, "", "Should consume all input");
    match inst_data.opcode {
        Opcode::Call { .. } => {
            assert_eq!(
                inst_data.results.len(),
                3,
                "Expected 3 results, got: {:?}",
                inst_data.results
            );
        }
        _ => panic!("Expected Call opcode"),
    }
}

#[test]
fn test_parse_return_multiple_values() {
    // Test return with multiple values (more than 2)
    let input = "return v0, v1, v2, v3";
    let result = run(parse_return, input);
    assert!(result.is_some());
    let (_, inst_data) = result.unwrap();
    assert_eq!(inst_data.opcode, Opcode::Return);
    assert_eq!(
        inst_data.args.len(),
        4,
        "Expected 4 values, got: {:?}",
        inst_data.args
    );
}

#[test]
fn test_parse_return_multiple_values_via_instruction() {
    // Test parsing return with multiple values via parse_instruction
    let input = "return v0, v1, v2, v3, v4";
    let result = run(parse_instruction, input);
    assert!(result.is_some(), "parse_instruction failed: {:?}", result);
    let (remaining, inst_data) = result.unwrap();
    assert_eq!(remaining, "", "Should consume all input");
    assert_eq!(inst_data.opcode, Opcode::Return);
    assert_eq!(
        inst_data.args.len(),
        5,
        "Expected 5 values, got: {:?}",
        inst_data.args
    );
}

#[test]
fn test_parse_return_empty() {
    // Test that return without values is valid
    let result = run(parse_instruction, "return");
    assert!(result.is_some(), "Return without values should be valid");
}

#[test]
fn test_blank_space() {
    assert_eq!(blank_space("   "), Ok(("", "   ")));
    assert_eq!(blank_space("\n\t  "), Ok(("", "\n\t  ")));
    assert_eq!(blank_space("  v0"), Ok(("v0", "  ")));
    assert_eq!(blank_space(""), Ok(("", "")));
}

#[test]
fn test_blank() {
    assert_eq!(blank("   "), Ok(("", ())));
    assert_eq!(blank("\n\t  "), Ok(("", ())));
    assert_eq!(blank("  v0"), Ok(("v0", ())));
    assert_eq!(blank(""), Ok(("", ())));
}

#[test]
fn test_comment_at() {
    // Single-line comment with text
    assert_eq!(comment_at("; comment\n"), Ok(("\n", " comment")));
    assert_eq!(
        comment_at("; this is a comment\nrest"),
        Ok(("\nrest", " this is a comment"))
    );

    // Empty comment
    assert_eq!(comment_at(";\n"), Ok(("\n", "")));
    // Comment at end of input (no newline) - consumes everything after ;
    assert_eq!(comment_at(";rest"), Ok(("", "rest")));

    // Comment with only whitespace
    assert_eq!(comment_at(";   \n"), Ok(("\n", "   ")));

    // Comment at end of input (no newline)
    assert_eq!(comment_at("; comment"), Ok(("", " comment")));
    assert_eq!(comment_at(";"), Ok(("", "")));

    // Comment with Windows line ending
    assert_eq!(comment_at("; comment\r\n"), Ok(("\r\n", " comment")));
}

#[test]
fn test_blank_space_with_comments() {
    // Comment alone
    assert_eq!(blank_space("; comment\n"), Ok(("", "; comment\n")));

    // Comment with whitespace
    assert_eq!(blank_space("  ; comment\n"), Ok(("", "  ; comment\n")));
    assert_eq!(blank_space("; comment\n  "), Ok(("", "; comment\n  ")));

    // Multiple comments
    assert_eq!(
        blank_space("; first\n; second\n"),
        Ok(("", "; first\n; second\n"))
    );

    // Comment between tokens
    assert_eq!(blank_space("  ; comment\n  "), Ok(("", "  ; comment\n  ")));

    // Comment at end of input
    assert_eq!(blank_space("; comment"), Ok(("", "; comment")));
}

#[test]
fn test_blank_with_comments() {
    // Comment should be treated as whitespace
    assert_eq!(blank("; comment\n"), Ok(("", ())));
    assert_eq!(blank("  ; comment\n  "), Ok(("", ())));
    assert_eq!(blank("; comment"), Ok(("", ())));

    // Comment followed by token
    let result = blank("; comment\nv0");
    assert!(result.is_ok());
    let (remaining, _) = result.unwrap();
    assert_eq!(remaining, "v0");
}

#[test]
fn test_integer_overflow() {
    // Test that very large integers fail to parse (would overflow i64)
    let result = run(parse_integer, "999999999999999999999999999999999999999");
    assert!(result.is_none(), "Should fail on overflow");
}

#[test]
fn test_integer_invalid() {
    // Test that non-numeric input fails
    let result = run(parse_integer, "abc");
    assert!(result.is_none(), "Should fail on non-numeric input");
}

#[test]
fn test_parse_value_invalid() {
    // Test that missing 'v' prefix fails
    let result = run(parse_value, "0");
    assert!(result.is_none(), "Should fail without 'v' prefix");
}

#[test]
fn test_parse_value_overflow() {
    // Test that very large value indices fail to parse (would overflow u32)
    let result = run(parse_value, "v999999999999999999999");
    assert!(result.is_none(), "Should fail on overflow");
}

#[test]
fn test_parse_block_index_invalid() {
    // Test that missing 'block' prefix fails
    let result = run(parse_block_index, "0");
    assert!(result.is_none(), "Should fail without 'block' prefix");
}

#[test]
fn test_parse_block_index_overflow() {
    // Test that very large block indices fail to parse (would overflow u32)
    let result = run(parse_block_index, "block999999999999999999999");
    assert!(result.is_none(), "Should fail on overflow");
}

#[test]
fn test_parse_type_invalid() {
    // Test that invalid type fails
    let result = run(parse_type, "invalid");
    assert!(result.is_none(), "Should fail on invalid type");
}

#[test]
fn test_parse_function_name_invalid() {
    // Test that missing '%' prefix fails
    let result = run(parse_function_name, "name");
    assert!(result.is_none(), "Should fail without '%' prefix");
}

#[test]
fn test_parse_function_name_empty() {
    // Test that empty name after '%' fails
    let result = run(parse_function_name, "%");
    assert!(result.is_none(), "Should fail on empty name");
}

#[test]
fn test_parse_assigned_call_results_first() {
    let result = run(parse_instruction, "v1, v2, v3 = call %callee(v0)");
    assert!(result.is_some());
    let (remaining, inst_data) = result.unwrap();
    assert_eq!(remaining, "");
    match &inst_data.opcode {
        Opcode::Call { callee } => assert_eq!(callee, "callee"),
        _ => panic!("Expected Call opcode"),
    }
    assert_eq!(inst_data.args.len(), 1);
    assert_eq!(inst_data.results.len(), 3);
    assert_eq!(inst_data.results[2].index(), 3);
}
