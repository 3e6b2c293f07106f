//! Tests for `sourceloc`.

use lpc_lpir::sourceloc::{RelSourceLoc, SourceLoc};

#[test]
fn test_srcloc_creation() {
    let srcloc = SourceLoc::new(42);
    assert_eq!(srcloc.bits(), 42);
    assert!(!srcloc.is_default());
}

#[test]
fn test_srcloc_default() {
    let default = SourceLoc::default();
    assert!(default.is_default());
    assert_eq!(default.bits(), !0);
}

#[test]
fn test_rel_srcloc_creation() {
    let rel = RelSourceLoc::new(10);
    assert_eq!(rel.offset, 10);
    assert!(!rel.is_default());
}

#[test]
fn test_rel_srcloc_default() {
    let default = RelSourceLoc::default();
    assert!(default.is_default());
    assert_eq!(default.offset, 0);
}

#[test]
fn test_rel_srcloc_from_base_offset() {
    let base = SourceLoc::new(100);
    let absolute = SourceLoc::new(150);
    let rel = RelSourceLoc::from_base_offset(base, absolute);
    assert_eq!(rel.offset, 50);
}

#[test]
fn test_rel_srcloc_expand() {
    let base = SourceLoc::new(100);
    let rel = RelSourceLoc::new(50);
    let absolute = rel.expand(base);
    assert_eq!(absolute.bits(), 150);
}

#[test]
fn test_rel_srcloc_with_default_base() {
    let base = SourceLoc::default();
    let absolute = SourceLoc::new(100);
    let rel = RelSourceLoc::from_base_offset(base, absolute);
    let expanded = rel.expand(base);
    assert!(expanded.is_default());
}

#[test]
fn test_rel_srcloc_with_default_absolute() {
    let base = SourceLoc::new(100);
    let absolute = SourceLoc::default();
    let rel = RelSourceLoc::from_base_offset(base, absolute);
    // When absolute is default, we use sentinel value, which expands to default
    let expanded = rel.expand(base);
    assert!(expanded.is_default());
}

#[test]
fn test_rel_srcloc_roundtrip() {
    let base = SourceLoc::new(1000);
    let absolute = SourceLoc::new(1050);
    let rel = RelSourceLoc::from_base_offset(base, absolute);
    let expanded = rel.expand(base);
    assert_eq!(expanded.bits(), absolute.bits());
}
