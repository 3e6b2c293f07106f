//! Tests for `types`.

use lpc_lpir::Type;

#[test]
fn test_type_sizes() {
    assert_eq!(Type::I32.size_bytes(), 4);
    assert_eq!(Type::U32.size_bytes(), 4);
    assert_eq!(Type::F32.size_bytes(), 4);
}

#[test]
fn test_type_kinds() {
    assert!(Type::I32.is_integer());
    assert!(Type::U32.is_integer());
    assert!(!Type::I32.is_float());
    assert!(!Type::U32.is_float());
    assert!(Type::F32.is_float());
    assert!(!Type::F32.is_integer());
    assert!(Type::U32.is_unsigned());
    assert!(!Type::I32.is_unsigned());
    assert!(!Type::F32.is_unsigned());
}
