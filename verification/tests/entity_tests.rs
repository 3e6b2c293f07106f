//! Tests of entity references.

use lpc_lpir::{BlockEntity as Block, EntityRef, InstEntity as Inst};
use std::collections::BTreeSet;

#[test]
fn test_entity_ref_trait() {
    let block = <Block as EntityRef>::from_index(5);
    assert_eq!(block.index(), 5);

    let next = block.next_index();
    assert_eq!(next.index(), 6);

    let from_index = <Block as EntityRef>::from_index(10);
    assert_eq!(from_index.index(), 10);
}

#[test]
fn test_entity_ordering() {
    let b1 = Block::new(1);
    let b2 = Block::new(2);
    let b3 = Block::new(1);

    assert!(b1 < b2);
    assert!(b1 == b3);
    assert!(b2 > b1);
}

#[test]
fn test_entity_hashing() {
    let mut set = BTreeSet::new();
    set.insert(Block::new(1));
    set.insert(Block::new(2));
    set.insert(Block::new(1)); // Duplicate

    assert_eq!(set.len(), 2);
    assert!(set.contains(&Block::new(1)));
    assert!(set.contains(&Block::new(2)));
}

#[test]
fn test_block_creation() {
    let b1 = Block::new(0);
    let b2 = Block::new(1);

    assert_eq!(b1.index(), 0);
    assert_eq!(b2.index(), 1);
    assert_ne!(b1, b2);
}

#[test]
fn test_block_equality() {
    let b1 = Block::new(5);
    let b2 = Block::new(5);
    let b3 = Block::new(6);

    assert_eq!(b1, b2);
    assert_ne!(b1, b3);
}

#[test]
fn test_block_ordering() {
    let b1 = Block::new(1);
    let b2 = Block::new(2);
    let b3 = Block::new(3);

    assert!(b1 < b2);
    assert!(b2 < b3);
    assert!(b1 < b3);
}

#[test]
fn test_block_display() {
    let b = Block::new(42);
    assert_eq!(b.to_string(), "block42");
}

#[test]
fn test_inst_creation() {
    let i1 = Inst::new(0);
    let i2 = Inst::new(1);

    assert_eq!(i1.index(), 0);
    assert_eq!(i2.index(), 1);
    assert_ne!(i1, i2);
}

#[test]
fn test_inst_equality() {
    let i1 = Inst::new(5);
    let i2 = Inst::new(5);
    let i3 = Inst::new(6);

    assert_eq!(i1, i2);
    assert_ne!(i1, i3);
}

#[test]
fn test_inst_ordering() {
    let i1 = Inst::new(1);
    let i2 = Inst::new(2);
    let i3 = Inst::new(3);

    assert!(i1 < i2);
    assert!(i2 < i3);
    assert!(i1 < i3);
}

#[test]
fn test_inst_display() {
    let i = Inst::new(42);
    assert_eq!(i.to_string(), "inst42");
}

#[test]
fn test_type_safety() {
    let block = Block::new(5);
    let inst = Inst::new(5);
    assert_eq!(block.index(), inst.index());
}
