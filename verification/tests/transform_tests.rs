//! Tests for the float-to-fixed16x16 pass.

use lpc_lpir::{
    convert_floats_to_fixed16x16,
    dfg::{Immediate, InstData, Opcode},
    parse_function, Type,
};

/// The fixed16x16 value of the float with these bits, rounded half away
/// from zero and clamped to the representable range.
fn fixed_of_bits(bits: u32) -> i32 {
    let f = f32::from_bits(bits).clamp(-32768.0, 32767.9999847412109375);
    let scaled = f * 65536.0;
    if scaled >= 0.0 {
        (scaled + 0.5) as i32
    } else {
        (scaled - 0.5) as i32
    }
}

#[test]
fn test_transform_add_and_constants() {
    let input = "function %f() -> f32 {\nblock0:\n    v1 = fconst 1.5\n    v2 = fconst 2.0\n    v3 = fadd v1, v2\n    return v3\n}";
    let mut func = parse_function(input).ok().expect("parses");
    let result = convert_floats_to_fixed16x16(&mut func, fixed_of_bits);
    assert!(result.is_ok());
    assert_eq!(func.signature.returns, vec![Type::I32]);
    let block = func.entry_block().unwrap();
    let insts = func.block_insts(block);
    assert_eq!(insts.len(), 4);
    let c0 = func.dfg.inst_data(insts[0]).unwrap();
    assert_eq!(c0.opcode, Opcode::Iconst);
    assert_eq!(c0.imm, Some(Immediate::I64(98304)));
    let c1 = func.dfg.inst_data(insts[1]).unwrap();
    assert_eq!(c1.imm, Some(Immediate::I64(131072)));
    let add = func.dfg.inst_data(insts[2]).unwrap();
    assert_eq!(add.opcode, Opcode::Iadd);
    assert_eq!(func.dfg.value_type(add.results[0]), Some(Type::I32));
}

#[test]
fn test_transform_multiply_expands() {
    let input = "function %f(f32, f32) -> f32 {\nblock0(v0: f32, v1: f32):\n    v2 = fmul v0, v1\n    return v2\n}";
    let mut func = parse_function(input).ok().expect("parses");
    let result = convert_floats_to_fixed16x16(&mut func, fixed_of_bits);
    assert!(result.is_ok(), "{:?}", result.err().map(|e| e.message));
    let block = func.entry_block().unwrap();
    let insts = func.block_insts(block);
    // The multiplication becomes six instructions, then the return.
    assert_eq!(insts.len(), 7);
    let expected = [
        Opcode::Iconst,
        Opcode::Imulh,
        Opcode::Imul,
        Opcode::Ishl,
        Opcode::Ishr,
        Opcode::Ior,
        Opcode::Return,
    ];
    for (inst, opcode) in insts.iter().zip(expected.iter()) {
        assert_eq!(&func.dfg.inst_data(*inst).unwrap().opcode, opcode);
    }
    let last = func.dfg.inst_data(insts[5]).unwrap();
    assert_eq!(last.results[0].index(), 2);
    assert_eq!(func.signature.params, vec![Type::I32, Type::I32]);
}

#[test]
fn test_transform_divide_expands() {
    let input = "function %f(f32, f32) -> f32 {\nblock0(v0: f32, v1: f32):\n    v2 = fdiv v0, v1\n    return v2\n}";
    let mut func = parse_function(input).ok().expect("parses");
    assert!(convert_floats_to_fixed16x16(&mut func, fixed_of_bits).is_ok());
    let block = func.entry_block().unwrap();
    let insts = func.block_insts(block);
    assert_eq!(insts.len(), 4);
    let div = func.dfg.inst_data(insts[2]).unwrap();
    assert_eq!(div.opcode, Opcode::Idiv);
    assert_eq!(div.results[0].index(), 2);
}

#[test]
fn test_transform_compare_condition() {
    let input = "function %f(f32, f32) -> i32 {\nblock0(v0: f32, v1: f32):\n    v2 = fcmp lt v0, v1\n    return v2\n}";
    let mut func = parse_function(input).ok().expect("parses");
    assert!(convert_floats_to_fixed16x16(&mut func, fixed_of_bits).is_ok());
    let block = func.entry_block().unwrap();
    let insts = func.block_insts(block);
    let cmp = func.dfg.inst_data(insts[0]).unwrap();
    assert_eq!(
        cmp.opcode,
        Opcode::Icmp {
            cond: lpc_lpir::condcodes::IntCC::SignedLessThan
        }
    );
}

#[test]
fn test_transform_reports_verification_failure() {
    // A block without a terminator fails verification after the pass.
    let mut func = lpc_lpir::Function::new(
        lpc_lpir::Signature::empty(),
        String::from("broken"),
    );
    let block = func.create_block();
    func.append_block(block);
    let inst = func.create_inst(InstData::constant(
        lpc_lpir::Value::new(1),
        Immediate::F32Bits(0x3f80_0000),
    ));
    func.append_inst(inst, block);
    let err = convert_floats_to_fixed16x16(&mut func, fixed_of_bits).err().expect("fails");
    assert!(err
        .message
        .starts_with("Verification failed after transformation: "));
    assert_eq!(
        func.dfg.inst_data(inst).unwrap().imm,
        Some(Immediate::I64(65536))
    );
}

#[test]
fn compare_unordered_and_ordered_become_constants() {
    let input = "function %f(f32, f32) -> i32 {\nblock0(v0: f32, v1: f32):\n    v2 = fcmp uno v0, v1\n    v3 = fcmp ord v0, v1\n    v4 = iadd v2, v3\n    return v4\n}";
    let mut func = parse_function(input).ok().expect("parses");
    assert!(convert_floats_to_fixed16x16(&mut func, fixed_of_bits).is_ok());
    let block = func.entry_block().unwrap();
    let insts = func.block_insts(block);
    let uno = func.dfg.inst_data(insts[0]).unwrap();
    assert_eq!(uno.opcode, Opcode::Iconst);
    assert_eq!(uno.imm, Some(Immediate::I64(0)));
    let ord = func.dfg.inst_data(insts[1]).unwrap();
    assert_eq!(ord.opcode, Opcode::Iconst);
    assert_eq!(ord.imm, Some(Immediate::I64(1)));
    assert_eq!(func.dfg.value_type(uno.results[0]), Some(Type::I32));
}
