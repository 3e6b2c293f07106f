//! Tests for `analysis/dominance.rs`.

use lpc_lpir::{parser::inst_converter::inst_to_inst_data, ControlFlowGraph, DominatorTree, Function, Inst, Signature, Value};

fn create_function() -> Function {
    Function::new(Signature::empty(), String::from("test"))
}

/// Append a block holding the given instructions.
fn add_block(func: &mut Function, insts: Vec<Inst>) {
    let block = func.create_block();
    func.append_block(block);
    for inst in insts {
        let data = inst_to_inst_data(inst);
        let i = func.create_inst(data);
        func.append_inst(i, block);
    }
}


#[test]
fn test_dominance_single_block() {
    let mut func = create_function();
    add_block(&mut func, vec![Inst::Return { values: Vec::new() }]);

    let cfg = ControlFlowGraph::from_function(&func);
    let domtree = DominatorTree::from_cfg(&cfg);

    assert!(domtree.dominates(0, 0)); // Self-dominance
}

#[test]
fn test_dominance_linear_chain() {
    let mut func = create_function();
    // block0 -> block1 -> block2
    add_block(&mut func, vec![Inst::Jump {
        target: 1,
        args: Vec::new(),
    }]);

    add_block(&mut func, vec![Inst::Jump {
        target: 2,
        args: Vec::new(),
    }]);

    add_block(&mut func, vec![Inst::Return { values: Vec::new() }]);

    let cfg = ControlFlowGraph::from_function(&func);
    let domtree = DominatorTree::from_cfg(&cfg);

    // Entry dominates all
    assert!(domtree.dominates(0, 0));
    assert!(domtree.dominates(0, 1));
    assert!(domtree.dominates(0, 2));

    // block1 dominates block2
    assert!(domtree.dominates(1, 2));

    // block2 doesn't dominate others
    assert!(!domtree.dominates(2, 0));
    assert!(!domtree.dominates(2, 1));
}

#[test]
fn test_dominance_diamond_pattern() {
    let mut func = create_function();
    // block0 -> block1, block2
    // block1 -> block3
    // block2 -> block3
    add_block(&mut func, vec![Inst::Br {
        condition: Value::new(0),
        target_true: 1,
        args_true: Vec::new(),
        target_false: 2,
        args_false: Vec::new(),
    }]);

    add_block(&mut func, vec![Inst::Jump {
        target: 3,
        args: Vec::new(),
    }]);

    add_block(&mut func, vec![Inst::Jump {
        target: 3,
        args: Vec::new(),
    }]);

    add_block(&mut func, vec![Inst::Return { values: Vec::new() }]);

    let cfg = ControlFlowGraph::from_function(&func);
    let domtree = DominatorTree::from_cfg(&cfg);

    // Entry dominates all
    assert!(domtree.dominates(0, 0));
    assert!(domtree.dominates(0, 1));
    assert!(domtree.dominates(0, 2));
    assert!(domtree.dominates(0, 3));

    // block0 dominates block3 (all paths go through block0)
    assert!(domtree.dominates(0, 3));

    // block1 doesn't dominate block3 (path through block2 doesn't go through block1)
    assert!(!domtree.dominates(1, 3));

    // block2 doesn't dominate block3 (path through block1 doesn't go through block2)
    assert!(!domtree.dominates(2, 3));
}

#[test]
fn test_dominance_loop() {
    let mut func = create_function();
    // block0 -> block1
    // block1 -> block1 (loop), block2
    add_block(&mut func, vec![Inst::Jump {
        target: 1,
        args: Vec::new(),
    }]);

    add_block(&mut func, vec![Inst::Br {
        condition: Value::new(0),
        target_true: 1, // Loop back
        args_true: Vec::new(),
        target_false: 2,
        args_false: Vec::new(),
    }]);

    add_block(&mut func, vec![Inst::Return { values: Vec::new() }]);

    let cfg = ControlFlowGraph::from_function(&func);
    let domtree = DominatorTree::from_cfg(&cfg);

    // Entry dominates all
    assert!(domtree.dominates(0, 1));
    assert!(domtree.dominates(0, 2));

    // block1 dominates block2 (all paths to block2 go through block1)
    assert!(domtree.dominates(1, 2));

    // block1 doesn't dominate itself via the loop (self-loop doesn't create self-dominance)
    // Actually, block1 does dominate itself (self-dominance), but the loop edge
    // doesn't affect the dominator tree structure
    assert!(domtree.dominates(1, 1)); // Self-dominance
}

#[test]
fn test_dominance_immediate_dominator() {
    let mut func = create_function();
    // block0 -> block1 -> block2
    add_block(&mut func, vec![Inst::Jump {
        target: 1,
        args: Vec::new(),
    }]);

    add_block(&mut func, vec![Inst::Jump {
        target: 2,
        args: Vec::new(),
    }]);

    add_block(&mut func, vec![Inst::Return { values: Vec::new() }]);

    let cfg = ControlFlowGraph::from_function(&func);
    let domtree = DominatorTree::from_cfg(&cfg);

    // Entry has no immediate dominator
    assert_eq!(domtree.immediate_dominator(0), None);

    // block1's immediate dominator is block0
    assert_eq!(domtree.immediate_dominator(1), Some(0));

    // block2's immediate dominator is block1
    assert_eq!(domtree.immediate_dominator(2), Some(1));
}

#[test]
fn test_dominance_dominated_blocks() {
    let mut func = create_function();
    // block0 -> block1 -> block2
    add_block(&mut func, vec![Inst::Jump {
        target: 1,
        args: Vec::new(),
    }]);

    add_block(&mut func, vec![Inst::Jump {
        target: 2,
        args: Vec::new(),
    }]);

    add_block(&mut func, vec![Inst::Return { values: Vec::new() }]);

    let cfg = ControlFlowGraph::from_function(&func);
    let domtree = DominatorTree::from_cfg(&cfg);

    let dominated_by_0 = domtree.dominated_blocks(0);
    assert!(dominated_by_0.contains(&0));
    assert!(dominated_by_0.contains(&1));
    assert!(dominated_by_0.contains(&2));

    let dominated_by_1 = domtree.dominated_blocks(1);
    assert!(dominated_by_1.contains(&1));
    assert!(dominated_by_1.contains(&2));
    assert!(!dominated_by_1.contains(&0));
}

#[test]
fn test_dominance_unreachable_blocks() {
    let mut func = create_function();
    add_block(&mut func, vec![Inst::Return { values: Vec::new() }]);

    // block1 is unreachable (no path from entry)
    add_block(&mut func, vec![Inst::Return { values: Vec::new() }]);

    let cfg = ControlFlowGraph::from_function(&func);
    let domtree = DominatorTree::from_cfg(&cfg);

    // Unreachable block dominates itself
    assert!(domtree.dominates(1, 1));

    // Unreachable block doesn't dominate reachable blocks
    assert!(!domtree.dominates(1, 0));

    // Reachable blocks don't dominate unreachable blocks
    assert!(!domtree.dominates(0, 1));

    // Entry doesn't dominate unreachable blocks
    assert!(!domtree.dominates(0, 1));

    // Unreachable block has no immediate dominator
    assert_eq!(domtree.immediate_dominator(1), None);

    // Unreachable block only dominates itself
    let dominated_by_1 = domtree.dominated_blocks(1);
    assert_eq!(dominated_by_1.len(), 1);
    assert!(dominated_by_1.contains(&1));
}

#[test]
fn test_dominance_nested_loops() {
    // Test dominance with nested loops
    // block0 -> block1 -> block2 -> block1 (inner loop)
    // block1 -> block3 -> block1 (outer loop)
    let mut func = create_function();
    add_block(&mut func, vec![Inst::Jump {
        target: 1,
        args: Vec::new(),
    }]);

    add_block(&mut func, vec![Inst::Br {
        condition: Value::new(0),
        target_true: 2,
        args_true: Vec::new(),
        target_false: 3,
        args_false: Vec::new(),
    }]);

    add_block(&mut func, vec![Inst::Jump {
        target: 1,
        args: Vec::new(),
    }]);

    add_block(&mut func, vec![Inst::Br {
        condition: Value::new(0),
        target_true: 1,
        args_true: Vec::new(),
        target_false: 4,
        args_false: Vec::new(),
    }]);

    add_block(&mut func, vec![Inst::Return { values: Vec::new() }]);

    let cfg = ControlFlowGraph::from_function(&func);
    let domtree = DominatorTree::from_cfg(&cfg);

    // Entry dominates all
    assert!(domtree.dominates(0, 1));
    assert!(domtree.dominates(0, 2));
    assert!(domtree.dominates(0, 3));
    assert!(domtree.dominates(0, 4));

    // block1 dominates block2 and block3 (they're in loops controlled by block1)
    assert!(domtree.dominates(1, 2));
    assert!(domtree.dominates(1, 3));

    // block1 dominates block4 (all paths go through block1)
    assert!(domtree.dominates(1, 4));

    // block2 doesn't dominate block3 (path block1->block3 doesn't go through block2)
    assert!(!domtree.dominates(2, 3));
}

#[test]
fn test_dominance_common_dominator_unreachable() {
    // Test that common_dominator handles unreachable blocks gracefully
    // (This tests the internal common_dominator function indirectly through dominance computation)
    let mut func = create_function();
    add_block(&mut func, vec![Inst::Return { values: Vec::new() }]);

    // block1 is unreachable
    add_block(&mut func, vec![Inst::Return { values: Vec::new() }]);

    // block2 is unreachable
    add_block(&mut func, vec![Inst::Return { values: Vec::new() }]);

    let cfg = ControlFlowGraph::from_function(&func);
    let domtree = DominatorTree::from_cfg(&cfg);

    // Unreachable blocks don't dominate each other
    assert!(!domtree.dominates(1, 2));
    assert!(!domtree.dominates(2, 1));

    // Unreachable blocks have no immediate dominator
    assert_eq!(domtree.immediate_dominator(1), None);
    assert_eq!(domtree.immediate_dominator(2), None);
}

#[test]
fn dominance_in_irreducible_loop() {
    // block0 -> block1, block2; block1 -> block2, block3; block2 -> block1
    let mut func = create_function();
    add_block(&mut func, vec![Inst::Br {
        condition: Value::new(0),
        target_true: 1,
        args_true: Vec::new(),
        target_false: 2,
        args_false: Vec::new(),
    }]);
    add_block(&mut func, vec![Inst::Br {
        condition: Value::new(0),
        target_true: 2,
        args_true: Vec::new(),
        target_false: 3,
        args_false: Vec::new(),
    }]);
    add_block(&mut func, vec![Inst::Jump { target: 1, args: Vec::new() }]);
    add_block(&mut func, vec![Inst::Return { values: Vec::new() }]);

    let cfg = ControlFlowGraph::from_function(&func);
    let domtree = DominatorTree::from_cfg(&cfg);
    assert_eq!(domtree.immediate_dominator(1), Some(0));
    assert_eq!(domtree.immediate_dominator(2), Some(0));
    assert_eq!(domtree.immediate_dominator(3), Some(1));
    assert!(!domtree.dominates(1, 2));
    assert!(!domtree.dominates(2, 1));
    assert_eq!(domtree.dominated_blocks(1), vec![1, 3]);
}
