//! Sequence numbers for program order comparison.
//!
//! Sequence numbers are assigned like BASIC line numbers (10, 20, 30...)
//! so that program order can be compared in O(1) while leaving room for
//! insertions.

use vstd::prelude::*;

verus! {

/// Sequence number type (BASIC-style: 10, 20, 30...)
pub type SequenceNumber = u32;

/// Initial stride for sequence numbers
pub const MAJOR_STRIDE: u32 = 10;

/// Minor stride for renumbering when space runs out
pub const MINOR_STRIDE: u32 = 2;

/// Limit for local renumbering before full block renumber
pub const LOCAL_LIMIT: u32 = 200;

/// Compute the midpoint between two sequence numbers `a < b`.
///
/// Returns `None` if there is no number strictly between them.
pub fn midpoint(a: u32, b: u32) -> (r: Option<u32>)
    requires
        a < b,
    ensures
        r == (if a + (b - a) / 2 > a {
            Some((a + (b - a) / 2) as u32)
        } else {
            None::<u32>
        }),
        r matches Some(m) ==> a < m < b,
        r is None <==> b == a + 1,
{
    let m = a + (b - a) / 2;
    if m > a {
        Some(m)
    } else {
        None
    }
}

} // verus!
