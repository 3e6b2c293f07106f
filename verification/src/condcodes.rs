//! Condition codes for comparisons.

use vstd::prelude::*;

verus! {

/// Integer comparison condition codes.
#[derive(Debug, Clone, Copy, PartialEq, Eq, Hash, Structural)]
pub enum IntCC {
    Equal,
    NotEqual,
    SignedLessThan,
    SignedGreaterThanOrEqual,
    SignedGreaterThan,
    SignedLessThanOrEqual,
    UnsignedLessThan,
    UnsignedGreaterThanOrEqual,
    UnsignedGreaterThan,
    UnsignedLessThanOrEqual,
}

/// Floating point comparison condition codes.
#[derive(Debug, Clone, Copy, PartialEq, Eq, Hash, Structural)]
pub enum FloatCC {
    Ordered,
    Unordered,
    Equal,
    NotEqual,
    OrderedNotEqual,
    UnorderedOrEqual,
    LessThan,
    LessThanOrEqual,
    GreaterThan,
    GreaterThanOrEqual,
    UnorderedOrLessThan,
    UnorderedOrLessThanOrEqual,
    UnorderedOrGreaterThan,
    UnorderedOrGreaterThanOrEqual,
}

impl IntCC {
    /// The text form of this condition code (`eq`, `slt`, ...).
    pub open spec fn spec_mnemonic(self) -> Seq<char> {
        match self {
            IntCC::Equal => seq!['e', 'q'],
            IntCC::NotEqual => seq!['n', 'e'],
            IntCC::SignedLessThan => seq!['s', 'l', 't'],
            IntCC::SignedGreaterThanOrEqual => seq!['s', 'g', 'e'],
            IntCC::SignedGreaterThan => seq!['s', 'g', 't'],
            IntCC::SignedLessThanOrEqual => seq!['s', 'l', 'e'],
            IntCC::UnsignedLessThan => seq!['u', 'l', 't'],
            IntCC::UnsignedGreaterThanOrEqual => seq!['u', 'g', 'e'],
            IntCC::UnsignedGreaterThan => seq!['u', 'g', 't'],
            IntCC::UnsignedLessThanOrEqual => seq!['u', 'l', 'e'],
        }
    }

    /// Whether the condition holds between two 32-bit integers: signed
    /// codes compare them as signed, unsigned codes as their unsigned bit
    /// patterns.
    pub open spec fn spec_holds(self, a: i32, b: i32) -> bool {
        let ua = a as u32;
        let ub = b as u32;
        match self {
            IntCC::Equal => a == b,
            IntCC::NotEqual => a != b,
            IntCC::SignedLessThan => a < b,
            IntCC::SignedGreaterThanOrEqual => a >= b,
            IntCC::SignedGreaterThan => a > b,
            IntCC::SignedLessThanOrEqual => a <= b,
            IntCC::UnsignedLessThan => ua < ub,
            IntCC::UnsignedGreaterThanOrEqual => ua >= ub,
            IntCC::UnsignedGreaterThan => ua > ub,
            IntCC::UnsignedLessThanOrEqual => ua <= ub,
        }
    }

    /// The text form of this condition code.
    pub fn mnemonic(self) -> (r: &'static str)
        ensures
            r@ == self.spec_mnemonic(),
    {
        proof {
            reveal_strlit("eq");
            reveal_strlit("ne");
            reveal_strlit("slt");
            reveal_strlit("sge");
            reveal_strlit("sgt");
            reveal_strlit("sle");
            reveal_strlit("ult");
            reveal_strlit("uge");
            reveal_strlit("ugt");
            reveal_strlit("ule");
        }
        match self {
            IntCC::Equal => "eq",
            IntCC::NotEqual => "ne",
            IntCC::SignedLessThan => "slt",
            IntCC::SignedGreaterThanOrEqual => "sge",
            IntCC::SignedGreaterThan => "sgt",
            IntCC::SignedLessThanOrEqual => "sle",
            IntCC::UnsignedLessThan => "ult",
            IntCC::UnsignedGreaterThanOrEqual => "uge",
            IntCC::UnsignedGreaterThan => "ugt",
            IntCC::UnsignedLessThanOrEqual => "ule",
        }
    }
}

impl FloatCC {
    /// Whether the condition holds between two ordered values (neither a
    /// NaN), given as numbers in the same order as the values: `ord` always
    /// does, `uno` never does, and an unordered-or variant holds exactly
    /// when its ordered comparison does.
    pub open spec fn spec_holds_ordered(self, x: i32, y: i32) -> bool {
        match self {
            FloatCC::Ordered => true,
            FloatCC::Unordered => false,
            FloatCC::Equal | FloatCC::UnorderedOrEqual => x == y,
            FloatCC::NotEqual | FloatCC::OrderedNotEqual => x != y,
            FloatCC::LessThan | FloatCC::UnorderedOrLessThan => x < y,
            FloatCC::LessThanOrEqual | FloatCC::UnorderedOrLessThanOrEqual => x <= y,
            FloatCC::GreaterThan | FloatCC::UnorderedOrGreaterThan => x > y,
            FloatCC::GreaterThanOrEqual | FloatCC::UnorderedOrGreaterThanOrEqual => x >= y,
        }
    }

    /// The text form of this condition code (`eq`, `ord`, ...).
    pub open spec fn spec_mnemonic(self) -> Seq<char> {
        match self {
            FloatCC::Ordered => "ord"@,
            FloatCC::Unordered => "uno"@,
            FloatCC::Equal => "eq"@,
            FloatCC::NotEqual => "ne"@,
            FloatCC::OrderedNotEqual => "one"@,
            FloatCC::UnorderedOrEqual => "ueq"@,
            FloatCC::LessThan => "lt"@,
            FloatCC::LessThanOrEqual => "le"@,
            FloatCC::GreaterThan => "gt"@,
            FloatCC::GreaterThanOrEqual => "ge"@,
            FloatCC::UnorderedOrLessThan => "ult"@,
            FloatCC::UnorderedOrLessThanOrEqual => "ule"@,
            FloatCC::UnorderedOrGreaterThan => "ugt"@,
            FloatCC::UnorderedOrGreaterThanOrEqual => "uge"@,
        }
    }

    /// The text form of this condition code.
    pub fn mnemonic(self) -> (r: &'static str)
        ensures
            r@ == self.spec_mnemonic(),
    {
        match self {
            FloatCC::Ordered => "ord",
            FloatCC::Unordered => "uno",
            FloatCC::Equal => "eq",
            FloatCC::NotEqual => "ne",
            FloatCC::OrderedNotEqual => "one",
            FloatCC::UnorderedOrEqual => "ueq",
            FloatCC::LessThan => "lt",
            FloatCC::LessThanOrEqual => "le",
            FloatCC::GreaterThan => "gt",
            FloatCC::GreaterThanOrEqual => "ge",
            FloatCC::UnorderedOrLessThan => "ult",
            FloatCC::UnorderedOrLessThanOrEqual => "ule",
            FloatCC::UnorderedOrGreaterThan => "ugt",
            FloatCC::UnorderedOrGreaterThanOrEqual => "uge",
        }
    }
}

} // verus!
