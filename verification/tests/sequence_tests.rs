//! Tests for `layout/sequence.rs`.

use lpc_lpir::layout::sequence::midpoint;

#[test]
fn test_midpoint_basic() {
    assert_eq!(midpoint(0, 2), Some(1));
    assert_eq!(midpoint(0, 4), Some(2));
    assert_eq!(midpoint(10, 30), Some(20));
    assert_eq!(midpoint(10, 20), Some(15));
}

#[test]
fn test_midpoint_edge_cases() {
    // No room between consecutive numbers
    assert_eq!(midpoint(0, 1), None);
    assert_eq!(midpoint(3, 4), None);

    // Large numbers
    assert_eq!(midpoint(1000, 2000), Some(1500));
}

#[test]
fn test_midpoint_ordering() {
    let a = 10;
    let b = 30;
    if let Some(m) = midpoint(a, b) {
        assert!(m > a);
        assert!(m < b);
    }
}


