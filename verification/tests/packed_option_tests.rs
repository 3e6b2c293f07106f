//! Tests for `layout/packed_option.rs`.

use lpc_lpir::{layout::packed_option::PackedOption, BlockEntity as Block, InstEntity as Inst};

#[test]
fn test_packed_option_some() {
    let block = Block::new(5);
    let packed = PackedOption::some(block);

    assert!(packed.is_some());
    assert!(!packed.is_none());
    assert_eq!(packed.expand(), Some(block));
}

#[test]
fn test_packed_option_none() {
    let packed: PackedOption<Block> = PackedOption::none();

    assert!(!packed.is_some());
    assert!(packed.is_none());
    assert_eq!(packed.expand(), None);
}

#[test]
fn test_packed_option_roundtrip() {
    let block = Block::new(42);
    let packed = PackedOption::some(block);
    let expanded = packed.expand();

    assert_eq!(expanded, Some(block));

    let packed2: PackedOption<Block> = expanded.into();
    assert_eq!(packed, packed2);
}

#[test]
fn test_packed_option_default() {
    let packed: PackedOption<Block> = PackedOption::default();
    assert!(packed.is_none());
}

#[test]
fn test_packed_option_from_option() {
    let block = Block::new(10);
    let opt = Some(block);
    let packed: PackedOption<Block> = opt.into();

    assert_eq!(packed.expand(), Some(block));

    let opt_none: Option<Block> = None;
    let packed_none: PackedOption<Block> = opt_none.into();
    assert!(packed_none.is_none());
}

#[test]
fn test_packed_option_different_types() {
    let block = Block::new(5);
    let inst = Inst::new(5);

    let packed_block = PackedOption::some(block);
    let packed_inst = PackedOption::some(inst);

    // Different types, can't compare directly
    assert_eq!(packed_block.expand(), Some(block));
    assert_eq!(packed_inst.expand(), Some(inst));
}
