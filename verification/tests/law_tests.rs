//! Tests of the library's laws on concrete values.

use lpc_lpir::{
    parse_function, parse_module,
    parser::lexer::{chars_of, parse_block_index, parse_integer, parse_type, parse_value},
    verify, verify_module, BlockEntity, ControlFlowGraph, DominatorTree, InstEntity, Layout, Type,
    Value,
};

#[test]
fn test_law_remove_undoes_append() {
    let mut layout = Layout::new();
    let b0 = BlockEntity::new(0);
    let i0 = InstEntity::new(0);
    let i1 = InstEntity::new(1);
    layout.ensure_block(b0);
    layout.append_block(b0);
    layout.ensure_inst(i0);
    layout.ensure_inst(i1);
    layout.append_inst(i0, b0);
    let before: Vec<_> = layout.block_insts(b0);
    layout.append_inst(i1, b0);
    assert_eq!(layout.inst_block(i1), Some(b0));
    layout.remove_inst(i1);
    assert_eq!(layout.block_insts(b0), before);
    assert_eq!(layout.inst_block(i1), None);
}

#[test]
fn test_law_remove_undoes_insert() {
    let mut layout = Layout::new();
    let b0 = BlockEntity::new(0);
    let i0 = InstEntity::new(0);
    let i1 = InstEntity::new(1);
    let i2 = InstEntity::new(2);
    layout.ensure_block(b0);
    layout.append_block(b0);
    layout.ensure_inst(i0);
    layout.ensure_inst(i1);
    layout.ensure_inst(i2);
    layout.append_inst(i0, b0);
    layout.append_inst(i1, b0);
    let before = layout.block_insts(b0);
    layout.insert_inst(i2, i1);
    assert_eq!(layout.block_insts(b0), vec![i0, i2, i1]);
    layout.remove_inst(i2);
    assert_eq!(layout.block_insts(b0), before);
}

#[test]
fn test_law_edges_on_both_ends() {
    let input = "function %f(i32) -> i32 {\nblock0(v0: i32):\n    brif v0, block1, block2\nblock1:\n    jump block2\nblock2:\n    return v0\n}";
    let func = parse_function(input).ok().expect("parses");
    let cfg = ControlFlowGraph::from_function(&func);
    for a in 0..3 {
        for b in 0..3 {
            assert_eq!(
                cfg.successors(a).contains(&b),
                cfg.predecessors(b).contains(&a),
                "edge {} -> {}",
                a,
                b
            );
        }
    }
    let dom = DominatorTree::from_cfg(&cfg);
    for b in 0..3 {
        assert!(dom.dominates(0, b));
        assert!(dom.dominates(b, b));
    }
}

#[test]
fn test_law_names_read_back() {
    for n in [0u32, 7, 42, 1000, u32::MAX] {
        let s = chars_of(&format!("v{}, rest", n));
        assert_eq!(parse_value(&s, 0), Some((Value::new(n), format!("v{}", n).len())));
        let s = chars_of(&format!("block{}:", n));
        assert_eq!(parse_block_index(&s, 0), Some((n, format!("block{}", n).len())));
    }
    for x in [0i64, 5, -5, 123456789, i64::MAX, i64::MIN] {
        let text = format!("{}\n", x);
        let s = chars_of(&text);
        assert_eq!(parse_integer(&s, 0), Some((x, text.len())));
    }
    for (t, name) in [(Type::I32, "i32"), (Type::U32, "u32"), (Type::F32, "f32")] {
        let s = chars_of(&format!("{} v1", name));
        assert_eq!(parse_type(&s, 0), Some((t, 4)));
    }
}

#[test]
fn test_law_module_ok_functions_ok() {
    let input = "module {\nfunction %id(i32) -> i32 {\nblock0(v0: i32):\n    return v0\n}\n\nfunction %main() -> i32 {\nblock0:\n    v0 = iconst 1\n    call %id(v0) -> v1\n    return v1\n}\n}";
    let module = parse_module(input).ok().expect("parses");
    assert!(verify_module(&module).is_ok());
    for (_, f) in module.functions() {
        assert!(verify(f, Some(&module)).is_ok());
    }
}
