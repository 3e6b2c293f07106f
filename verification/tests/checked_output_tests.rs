//! Tests for error texts, source locations, packed options, the order of
//! validation errors and the float pass as a whole.

use lpc_lpir::{
    convert_floats_to_fixed16x16,
    dfg::{InstData, Opcode},
    ir_verifier::report::errors_text,
    layout::packed_option::PackedOption,
    parse_function,
    parser::validation::validate_return_values,
    sourceloc::SourceLoc,
    BlockEntity, Function, Signature, Type, Value, VerifierError,
};

#[test]
fn error_text_with_and_without_location() {
    let e1 = VerifierError {
        message: String::from("bad \"v1\""),
        location: Some(String::from("block0")),
    };
    assert_eq!(
        e1.to_text(),
        "VerifierError { message: \"bad \\\"v1\\\"\", location: Some(\"block0\") }"
    );
    let e2 = VerifierError {
        message: String::from("oops"),
        location: None,
    };
    assert_eq!(e2.to_text(), format!("{:?}", e2));
    assert_eq!(errors_text(&vec![e1.clone(), e2.clone()]), format!("{:?}", vec![e1, e2]));
    assert_eq!(errors_text(&Vec::new()), "[]");
}

#[test]
fn srcloc_gap_reads_default() {
    let mut func = Function::new(Signature::empty(), String::from("f"));
    let block = func.create_block();
    func.append_block(block);
    let i0 = func.create_inst(InstData::return_(vec![]));
    let i1 = func.create_inst(InstData::return_(vec![]));
    let i2 = func.create_inst(InstData::return_(vec![]));
    func.set_srcloc(i2, SourceLoc::new(10));
    assert!(func.srcloc(i0).is_default());
    assert!(func.srcloc(i1).is_default());
    assert_eq!(func.srcloc(i2).bits(), 10);
}

#[test]
fn packed_option_from_round_trip() {
    let p: PackedOption<BlockEntity> = PackedOption::from(Some(BlockEntity::new(7)));
    assert_eq!(p.expand(), Some(BlockEntity::new(7)));
    let q: PackedOption<BlockEntity> = PackedOption::from(None);
    assert_eq!(q.expand(), None);
}

#[test]
fn return_check_reports_first_bad_return() {
    let mut func = Function::new(Signature::new(vec![], vec![Type::I32]), String::from("f"));
    let b0 = func.create_block();
    func.append_block(b0);
    let b1 = func.create_block();
    func.append_block(b1);
    let r0 = func.create_inst(InstData::return_(vec![]));
    func.append_inst(r0, b0);
    let r1 = func.create_inst(InstData::return_(vec![Value::new(1), Value::new(2)]));
    func.append_inst(r1, b1);
    assert_eq!(
        validate_return_values(&func),
        Err(String::from(
            "Return instruction in block0 returns 0 values, but function signature expects 1"
        ))
    );
}

#[test]
fn float_pass_leaves_no_float() {
    let input = "function %f(f32, f32) -> f32 {\nblock0(v0: f32, v1: f32):\n    v2 = fconst 0x3f800000\n    v3 = fmul v0, v1\n    v4 = fdiv v3, v2\n    v5 = fsub v4, v0\n    return v5\n}";
    let mut func = parse_function(input).ok().expect("parses");
    let result = convert_floats_to_fixed16x16(&mut func, |bits: u32| if bits == 0x3f80_0000 { 65536 } else { 0 });
    assert!(result.is_ok());
    let block = func.entry_block().unwrap();
    for inst in func.block_insts(block) {
        let d = func.dfg.inst_data(inst).unwrap();
        assert!(!matches!(
            d.opcode,
            Opcode::Fconst | Opcode::Fadd | Opcode::Fsub | Opcode::Fmul | Opcode::Fdiv | Opcode::Fcmp { .. }
        ));
        for v in d.results.iter().chain(d.args.iter()) {
            assert_ne!(func.dfg.value_type(*v), Some(Type::F32));
        }
    }
}
