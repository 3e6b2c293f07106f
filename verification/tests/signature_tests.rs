//! Tests for `signature`.

use lpc_lpir::{Signature, Type};

#[test]
fn test_signature_creation() {
    let sig = Signature::new(vec![Type::I32, Type::I32], vec![Type::I32]);
    assert_eq!(sig.param_count(), 2);
    assert_eq!(sig.return_count(), 1);
}

#[test]
fn test_empty_signature() {
    let sig = Signature::empty();
    assert_eq!(sig.param_count(), 0);
    assert_eq!(sig.return_count(), 0);
}
