//! Tests for `dfg::opcode`.

use lpc_lpir::dfg::Opcode;

#[test]
fn test_opcode_equality() {
    assert_eq!(Opcode::Iadd, Opcode::Iadd);
    assert_eq!(Opcode::Isub, Opcode::Isub);
    assert_ne!(Opcode::Iadd, Opcode::Isub);
}

#[test]
fn test_opcode_call_with_name() {
    let call1 = Opcode::Call {
        callee: String::from("foo"),
    };
    let call2 = Opcode::Call {
        callee: String::from("foo"),
    };
    let call3 = Opcode::Call {
        callee: String::from("bar"),
    };

    assert_eq!(call1, call2);
    assert_ne!(call1, call3);
}

#[test]
fn test_is_call() {
    assert!(Opcode::Call {
        callee: String::from("foo")
    }
    .is_call());
    assert!(!Opcode::Iadd.is_call());
    assert!(!Opcode::Return.is_call());
    assert!(!Opcode::Jump.is_call());
}

#[test]
fn test_is_terminator() {
    assert!(Opcode::Jump.is_terminator());
    assert!(Opcode::Br.is_terminator());
    assert!(Opcode::Return.is_terminator());
    assert!(Opcode::Halt.is_terminator());
    assert!(Opcode::Trap {
        code: lpc_lpir::trapcode::TrapCode::STACK_OVERFLOW
    }
    .is_terminator());
    assert!(Opcode::Trapz {
        code: lpc_lpir::trapcode::TrapCode::STACK_OVERFLOW
    }
    .is_terminator());
    assert!(Opcode::Trapnz {
        code: lpc_lpir::trapcode::TrapCode::STACK_OVERFLOW
    }
    .is_terminator());

    assert!(!Opcode::Iadd.is_terminator());
    assert!(!Opcode::Call {
        callee: String::from("foo")
    }
    .is_terminator());
    assert!(!Opcode::Load.is_terminator());
}

#[test]
fn test_is_memory_access() {
    assert!(Opcode::Load.is_memory_access());
    assert!(Opcode::Store.is_memory_access());

    assert!(!Opcode::Iadd.is_memory_access());
    assert!(!Opcode::Call {
        callee: String::from("foo")
    }
    .is_memory_access());
    assert!(!Opcode::Return.is_memory_access());
}

#[test]
fn test_has_side_effects() {
    assert!(Opcode::Store.has_side_effects());
    assert!(Opcode::Call {
        callee: String::from("foo")
    }
    .has_side_effects());
    assert!(Opcode::Syscall.has_side_effects());
    assert!(Opcode::Return.has_side_effects());
    assert!(Opcode::Trap {
        code: lpc_lpir::trapcode::TrapCode::STACK_OVERFLOW
    }
    .has_side_effects());
    assert!(Opcode::Trapz {
        code: lpc_lpir::trapcode::TrapCode::STACK_OVERFLOW
    }
    .has_side_effects());
    assert!(Opcode::Trapnz {
        code: lpc_lpir::trapcode::TrapCode::STACK_OVERFLOW
    }
    .has_side_effects());

    assert!(!Opcode::Iadd.has_side_effects());
    assert!(!Opcode::Load.has_side_effects());
    assert!(!Opcode::Iconst.has_side_effects());
    assert!(!Opcode::Icmp {
        cond: lpc_lpir::condcodes::IntCC::Equal
    }
    .has_side_effects());
}
