//! Tests for `analysis/cfg.rs`.

use lpc_lpir::{parser::inst_converter::inst_to_inst_data, ControlFlowGraph, Function, Inst, Signature, Value};

fn create_function() -> Function {
    Function::new(Signature::empty(), String::from("test"))
}

/// Append a block holding the given instructions.
fn add_block(func: &mut Function, insts: Vec<Inst>) {
    let block = func.create_block();
    func.append_block(block);
    for inst in insts {
        let data = inst_to_inst_data(inst);
        let i = func.create_inst(data);
        func.append_inst(i, block);
    }
}


#[test]
fn test_cfg_single_block() {
    let mut func = create_function();
    add_block(&mut func, vec![Inst::Return { values: Vec::new() }]);

    let cfg = ControlFlowGraph::from_function(&func);
    assert_eq!(cfg.num_blocks(), 1);
    assert_eq!(cfg.predecessors(0).len(), 0);
    assert_eq!(cfg.successors(0).len(), 0);
    assert!(cfg.is_reachable(0));
}

#[test]
fn test_cfg_linear_chain() {
    let mut func = create_function();
    // block0 -> block1 -> block2
    add_block(&mut func, vec![Inst::Jump {
        target: 1,
        args: Vec::new(),
    }]);

    add_block(&mut func, vec![Inst::Jump {
        target: 2,
        args: Vec::new(),
    }]);

    add_block(&mut func, vec![Inst::Return { values: Vec::new() }]);

    let cfg = ControlFlowGraph::from_function(&func);
    assert_eq!(cfg.num_blocks(), 3);
    assert_eq!(cfg.predecessors(0).len(), 0); // Entry has no predecessors
    assert_eq!(cfg.predecessors(1).len(), 1);
    assert!(cfg.predecessors(1).contains(&0));
    assert_eq!(cfg.predecessors(2).len(), 1);
    assert!(cfg.predecessors(2).contains(&1));

    assert_eq!(cfg.successors(0).len(), 1);
    assert!(cfg.successors(0).contains(&1));
    assert_eq!(cfg.successors(1).len(), 1);
    assert!(cfg.successors(1).contains(&2));
    assert_eq!(cfg.successors(2).len(), 0);

    assert!(cfg.is_reachable(0));
    assert!(cfg.is_reachable(1));
    assert!(cfg.is_reachable(2));
}

#[test]
fn test_cfg_diamond_pattern() {
    let mut func = create_function();
    // block0 -> block1, block2
    // block1 -> block3
    // block2 -> block3
    add_block(&mut func, vec![Inst::Br {
        condition: Value::new(0),
        target_true: 1,
        args_true: Vec::new(),
        target_false: 2,
        args_false: Vec::new(),
    }]);

    add_block(&mut func, vec![Inst::Jump {
        target: 3,
        args: Vec::new(),
    }]);

    add_block(&mut func, vec![Inst::Jump {
        target: 3,
        args: Vec::new(),
    }]);

    add_block(&mut func, vec![Inst::Return { values: Vec::new() }]);

    let cfg = ControlFlowGraph::from_function(&func);
    assert_eq!(cfg.num_blocks(), 4);
    assert_eq!(cfg.predecessors(3).len(), 2);
    assert!(cfg.predecessors(3).contains(&1));
    assert!(cfg.predecessors(3).contains(&2));

    assert_eq!(cfg.successors(0).len(), 2);
    assert!(cfg.successors(0).contains(&1));
    assert!(cfg.successors(0).contains(&2));
}

#[test]
fn test_cfg_loop() {
    let mut func = create_function();
    // block0 -> block1
    // block1 -> block1 (loop), block2
    add_block(&mut func, vec![Inst::Jump {
        target: 1,
        args: Vec::new(),
    }]);

    add_block(&mut func, vec![Inst::Br {
        condition: Value::new(0),
        target_true: 1, // Loop back
        args_true: Vec::new(),
        target_false: 2,
        args_false: Vec::new(),
    }]);

    add_block(&mut func, vec![Inst::Return { values: Vec::new() }]);

    let cfg = ControlFlowGraph::from_function(&func);
    assert_eq!(cfg.num_blocks(), 3);
    assert_eq!(cfg.predecessors(1).len(), 2);
    assert!(cfg.predecessors(1).contains(&0));
    assert!(cfg.predecessors(1).contains(&1)); // Self-loop

    assert_eq!(cfg.successors(1).len(), 2);
    assert!(cfg.successors(1).contains(&1)); // Self-loop
    assert!(cfg.successors(1).contains(&2));
}

#[test]
fn test_cfg_reverse_post_order() {
    let mut func = create_function();
    // block0 -> block1, block2
    // block1 -> block3
    // block2 -> block3
    add_block(&mut func, vec![Inst::Br {
        condition: Value::new(0),
        target_true: 1,
        args_true: Vec::new(),
        target_false: 2,
        args_false: Vec::new(),
    }]);

    add_block(&mut func, vec![Inst::Jump {
        target: 3,
        args: Vec::new(),
    }]);

    add_block(&mut func, vec![Inst::Jump {
        target: 3,
        args: Vec::new(),
    }]);

    add_block(&mut func, vec![Inst::Return { values: Vec::new() }]);

    let cfg = ControlFlowGraph::from_function(&func);
    let rpo = cfg.reverse_post_order();

    // Entry should be first
    assert_eq!(rpo[0], 0);
    // block3 should be last (all paths converge there)
    assert_eq!(rpo[rpo.len() - 1], 3);
    // All blocks should be present
    assert_eq!(rpo.len(), 4);
}

#[test]
fn test_cfg_unreachable_block() {
    let mut func = create_function();
    add_block(&mut func, vec![Inst::Return { values: Vec::new() }]);

    // block1 is unreachable (no path from entry)
    add_block(&mut func, vec![Inst::Return { values: Vec::new() }]);

    let cfg = ControlFlowGraph::from_function(&func);
    assert!(cfg.is_reachable(0));
    assert!(!cfg.is_reachable(1));
}
