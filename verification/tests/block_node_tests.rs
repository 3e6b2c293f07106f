//! Tests for `layout/block_node.rs`.

use lpc_lpir::{layout::{block_node::BlockNode, packed_option::PackedOption}, BlockEntity as Block, InstEntity as Inst};

#[test]
fn test_block_node_creation() {
    let node = BlockNode::new();
    assert!(node.prev.is_none());
    assert!(node.next.is_none());
    assert!(node.first_inst.is_none());
    assert!(node.last_inst.is_none());
    assert!(!node.cold);
    assert!(node.is_empty());
}

#[test]
fn test_block_node_links() {
    let mut node = BlockNode::new();
    let prev_block = Block::new(0);
    let next_block = Block::new(2);

    node.prev = PackedOption::some(prev_block);
    node.next = PackedOption::some(next_block);

    assert_eq!(node.prev.expand(), Some(prev_block));
    assert_eq!(node.next.expand(), Some(next_block));
}

#[test]
fn test_block_node_instructions() {
    let mut node = BlockNode::new();
    let first_inst = Inst::new(0);
    let last_inst = Inst::new(5);

    node.first_inst = PackedOption::some(first_inst);
    node.last_inst = PackedOption::some(last_inst);

    assert!(node.has_insts());
    assert!(!node.is_empty());
    assert_eq!(node.first_inst.expand(), Some(first_inst));
    assert_eq!(node.last_inst.expand(), Some(last_inst));
}

#[test]
fn test_block_node_cold() {
    let mut node = BlockNode::new();
    assert!(!node.cold);

    node.cold = true;
    assert!(node.cold);
}
