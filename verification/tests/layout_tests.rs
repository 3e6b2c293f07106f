//! Tests for `layout`.

use lpc_lpir::{layout::ProgramPoint, BlockEntity as Block, InstEntity as Inst, Layout};
use std::cmp::Ordering;

#[test]
fn test_layout_new() {
    let layout = Layout::new();
    assert_eq!(layout.entry_block(), None);
    assert_eq!(layout.last_block(), None);
    assert_eq!(layout.blocks().len(), 0);
}

#[test]
fn test_layout_append_block() {
    let mut layout = Layout::new();
    let b1 = Block::new(0);
    let b2 = Block::new(1);

    layout.ensure_block(b1);
    layout.ensure_block(b2);

    layout.append_block(b1);
    layout.append_block(b2);

    assert!(layout.is_block_inserted(b1));
    assert!(layout.is_block_inserted(b2));
    assert_eq!(layout.entry_block(), Some(b1));

    let blocks: Vec<_> = layout.blocks();
    assert_eq!(blocks, vec![b1, b2]);
}

#[test]
fn test_layout_insert_block() {
    let mut layout = Layout::new();
    let b1 = Block::new(0);
    let b2 = Block::new(1);
    let b3 = Block::new(2);

    layout.ensure_block(b1);
    layout.ensure_block(b2);
    layout.ensure_block(b3);

    layout.append_block(b1);
    layout.append_block(b3);
    layout.insert_block(b2, b3);

    let blocks: Vec<_> = layout.blocks();
    assert_eq!(blocks, vec![b1, b2, b3]);
}

#[test]
fn test_layout_insert_block_after() {
    let mut layout = Layout::new();
    let b1 = Block::new(0);
    let b2 = Block::new(1);
    let b3 = Block::new(2);

    layout.ensure_block(b1);
    layout.ensure_block(b2);
    layout.ensure_block(b3);

    layout.append_block(b1);
    layout.append_block(b3);
    layout.insert_block_after(b2, b1);

    let blocks: Vec<_> = layout.blocks();
    assert_eq!(blocks, vec![b1, b2, b3]);
}

#[test]
fn test_layout_remove_block() {
    let mut layout = Layout::new();
    let b1 = Block::new(0);
    let b2 = Block::new(1);

    layout.ensure_block(b1);
    layout.ensure_block(b2);

    layout.append_block(b1);
    layout.append_block(b2);

    layout.remove_block(b1);

    assert!(!layout.is_block_inserted(b1));
    assert!(layout.is_block_inserted(b2));
    assert_eq!(layout.entry_block(), Some(b2));
}

#[test]
fn test_layout_append_inst() {
    let mut layout = Layout::new();
    let b1 = Block::new(0);
    let i1 = Inst::new(0);
    let i2 = Inst::new(1);

    layout.ensure_block(b1);
    layout.ensure_inst(i1);
    layout.ensure_inst(i2);

    layout.append_block(b1);
    layout.append_inst(i1, b1);
    layout.append_inst(i2, b1);

    assert_eq!(layout.inst_block(i1), Some(b1));
    assert_eq!(layout.inst_block(i2), Some(b1));

    let insts: Vec<_> = layout.block_insts(b1);
    assert_eq!(insts, vec![i1, i2]);
}

#[test]
fn test_layout_insert_inst() {
    let mut layout = Layout::new();
    let b1 = Block::new(0);
    let i1 = Inst::new(0);
    let i2 = Inst::new(1);
    let i3 = Inst::new(2);

    layout.ensure_block(b1);
    layout.ensure_inst(i1);
    layout.ensure_inst(i2);
    layout.ensure_inst(i3);

    layout.append_block(b1);
    layout.append_inst(i1, b1);
    layout.append_inst(i3, b1);
    layout.insert_inst(i2, i3);

    let insts: Vec<_> = layout.block_insts(b1);
    assert_eq!(insts, vec![i1, i2, i3]);
}

#[test]
fn test_layout_remove_inst() {
    let mut layout = Layout::new();
    let b1 = Block::new(0);
    let i1 = Inst::new(0);
    let i2 = Inst::new(1);

    layout.ensure_block(b1);
    layout.ensure_inst(i1);
    layout.ensure_inst(i2);

    layout.append_block(b1);
    layout.append_inst(i1, b1);
    layout.append_inst(i2, b1);

    layout.remove_inst(i1);

    assert_eq!(layout.inst_block(i1), None);
    assert_eq!(layout.inst_block(i2), Some(b1));

    let insts: Vec<_> = layout.block_insts(b1);
    assert_eq!(insts, vec![i2]);
}

#[test]
fn test_layout_split_block() {
    let mut layout = Layout::new();
    let b1 = Block::new(0);
    let b2 = Block::new(1);
    let i1 = Inst::new(0);
    let i2 = Inst::new(1);
    let i3 = Inst::new(2);

    layout.ensure_block(b1);
    layout.ensure_block(b2);
    layout.ensure_inst(i1);
    layout.ensure_inst(i2);
    layout.ensure_inst(i3);

    layout.append_block(b1);
    layout.append_inst(i1, b1);
    layout.append_inst(i2, b1);
    layout.append_inst(i3, b1);

    layout.split_block(b2, i2);

    assert_eq!(layout.inst_block(i1), Some(b1));
    assert_eq!(layout.inst_block(i2), Some(b2));
    assert_eq!(layout.inst_block(i3), Some(b2));

    let insts1: Vec<_> = layout.block_insts(b1);
    let insts2: Vec<_> = layout.block_insts(b2);

    assert_eq!(insts1, vec![i1]);
    assert_eq!(insts2, vec![i2, i3]);
}

#[test]
fn test_layout_pp_cmp() {
    let mut layout = Layout::new();
    let b1 = Block::new(0);
    let i1 = Inst::new(0);
    let i2 = Inst::new(1);

    layout.ensure_block(b1);
    layout.ensure_inst(i1);
    layout.ensure_inst(i2);

    layout.append_block(b1);
    layout.append_inst(i1, b1);
    layout.append_inst(i2, b1);

    assert_eq!(layout.pp_cmp(ProgramPoint::from(i1), ProgramPoint::from(i2)), Ordering::Less);
    assert_eq!(layout.pp_cmp(ProgramPoint::from(i2), ProgramPoint::from(i1)), Ordering::Greater);
    assert_eq!(layout.pp_cmp(ProgramPoint::from(i1), ProgramPoint::from(i1)), Ordering::Equal);
}
