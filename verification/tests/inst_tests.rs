//! Tests for `inst`.

use lpc_lpir::{Inst, Value};

#[test]
fn test_iadd() {
    let v1 = Value::new(1);
    let v2 = Value::new(2);
    let v3 = Value::new(3);
    let inst = Inst::Iadd {
        result: v3,
        arg1: v1,
        arg2: v2,
    };
    // Note: Can't compare Inst directly due to f32 in Fconst, but we can test methods
    let results = inst.results();
    let args = inst.args();
    assert_eq!(results.len(), 1);
    assert_eq!(args.len(), 2);
}

#[test]
fn test_iconst() {
    let v1 = Value::new(1);
    let inst = Inst::Iconst {
        result: v1,
        value: 42,
    };
    assert_eq!(inst.results(), vec![v1]);
    assert_eq!(inst.args(), Vec::new());
}

#[test]
fn test_return() {
    let v1 = Value::new(1);
    let v2 = Value::new(2);
    let inst = Inst::Return {
        values: vec![v1, v2],
    };
    assert_eq!(inst.results(), vec![v1, v2]);
    assert_eq!(inst.args(), vec![v1, v2]);
}
