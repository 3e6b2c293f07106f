//! Trap codes: why execution was stopped.

use vstd::prelude::*;

use crate::text::{dec, push_dec};

verus! {

/// A trap code.
#[allow(non_camel_case_types)]
#[derive(Debug, Clone, Copy, PartialEq, Eq, Hash, Structural)]
pub enum TrapCode {
    /// Stack overflow (`stk_ovf`)
    STACK_OVERFLOW,
    /// Heap access out of bounds (`heap_oob`)
    HEAP_OUT_OF_BOUNDS,
    /// Integer overflow (`int_ovf`)
    INTEGER_OVERFLOW,
    /// Integer division by zero (`int_divz`)
    INTEGER_DIVISION_BY_ZERO,
    /// Failed conversion to integer (`bad_toint`)
    BAD_CONVERSION_TO_INTEGER,
    /// A user-defined trap code (`userN`)
    User(u8),
}

impl TrapCode {
    /// The text form of this trap code (`stk_ovf`, `user7`, ...).
    pub open spec fn spec_text(self) -> Seq<char> {
        match self {
            TrapCode::STACK_OVERFLOW => "stk_ovf"@,
            TrapCode::HEAP_OUT_OF_BOUNDS => "heap_oob"@,
            TrapCode::INTEGER_OVERFLOW => "int_ovf"@,
            TrapCode::INTEGER_DIVISION_BY_ZERO => "int_divz"@,
            TrapCode::BAD_CONVERSION_TO_INTEGER => "bad_toint"@,
            TrapCode::User(n) => "user"@ + dec(n as nat),
        }
    }

    /// Append the text form of this trap code.
    pub fn push_text(self, out: &mut String)
        ensures
            final(out)@ == old(out)@ + self.spec_text(),
    {
        match self {
            TrapCode::STACK_OVERFLOW => out.append("stk_ovf"),
            TrapCode::HEAP_OUT_OF_BOUNDS => out.append("heap_oob"),
            TrapCode::INTEGER_OVERFLOW => out.append("int_ovf"),
            TrapCode::INTEGER_DIVISION_BY_ZERO => out.append("int_divz"),
            TrapCode::BAD_CONVERSION_TO_INTEGER => out.append("bad_toint"),
            TrapCode::User(n) => {
                out.append("user");
                push_dec(out, n as u64);
                proof {
                    assert(out@ =~= old(out)@ + self.spec_text());
                }
            },
        }
    }

    /// A user-defined trap code.
    pub fn unwrap_user(code: u8) -> (r: TrapCode)
        ensures
            r == TrapCode::User(code),
    {
        TrapCode::User(code)
    }
}

} // verus!
