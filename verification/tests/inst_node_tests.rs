//! Tests for `layout/inst_node.rs`.

use lpc_lpir::{layout::{inst_node::InstNode, packed_option::PackedOption}, BlockEntity as Block, InstEntity as Inst};

#[test]
fn test_inst_node_creation() {
    let node = InstNode::new();
    assert!(node.block.is_none());
    assert!(node.prev.is_none());
    assert!(node.next.is_none());
    assert_eq!(node.seq, 0);
    assert!(!node.is_inserted());
}

#[test]
fn test_inst_node_links() {
    let mut node = InstNode::new();
    let prev_inst = Inst::new(0);
    let next_inst = Inst::new(2);

    node.prev = PackedOption::some(prev_inst);
    node.next = PackedOption::some(next_inst);

    assert_eq!(node.prev.expand(), Some(prev_inst));
    assert_eq!(node.next.expand(), Some(next_inst));
}

#[test]
fn test_inst_node_block() {
    let mut node = InstNode::new();
    let block = Block::new(5);

    node.block = PackedOption::some(block);

    assert!(node.is_inserted());
    assert_eq!(node.block.expand(), Some(block));
}

#[test]
fn test_inst_node_sequence() {
    let mut node = InstNode::new();
    node.seq = 42;

    assert_eq!(node.seq, 42);
}
