//! Source location tracking for IR instructions.
//!
//! Instructions may carry the position of the source code they came from.
//! Locations are stored relative to a per-function base location.

use vstd::prelude::*;

verus! {

/// Opaque source location identifier.
///
/// The all-ones value `!0` represents an invalid/unknown location.
#[derive(Debug, Clone, Copy, PartialEq, Eq, Hash, Structural)]
pub struct SourceLoc(pub u32);

impl SourceLoc {
    /// Whether this is the unknown location.
    pub open spec fn unknown(self) -> bool {
        self.0 == u32::MAX
    }

    /// Create a new source location from raw bits.
    pub fn new(bits: u32) -> (r: Self)
        ensures
            r.0 == bits,
    {
        SourceLoc(bits)
    }

    /// Get the raw bits of this source location.
    pub fn bits(self) -> (r: u32)
        ensures
            r == self.0,
    {
        self.0
    }

    /// Check if this is the default (invalid) source location.
    pub fn is_default(self) -> (r: bool)
        ensures
            r == self.unknown(),
    {
        self.0 == u32::MAX
    }
}

impl Default for SourceLoc {
    fn default() -> (r: Self)
        ensures
            r.0 == u32::MAX,
    {
        SourceLoc(u32::MAX)
    }
}

/// Relative source location: an offset from a base location.
///
/// The offset `i32::MIN` is a sentinel meaning "no source location".
#[derive(Debug, Clone, Copy, PartialEq, Eq, Hash, Structural)]
pub struct RelSourceLoc {
    /// Offset relative to the base source location; `i32::MIN` means none.
    pub offset: i32,
}

/// The offset from `base` to `absolute`, computed with 32-bit wrapping
/// arithmetic on the bits read as signed integers.
pub open spec fn wrapped_offset(base: u32, absolute: u32) -> i32 {
    (absolute as i32).wrapping_sub(base as i32)
}

/// The location `offset` away from `base`, with 32-bit wrapping arithmetic.
pub open spec fn wrapped_target(base: u32, offset: i32) -> u32 {
    (base as i32).wrapping_add(offset) as u32
}

impl RelSourceLoc {
    /// The relative location a pair (base, absolute) is stored as.
    pub open spec fn spec_from_base(base: SourceLoc, absolute: SourceLoc) -> RelSourceLoc {
        if absolute.unknown() || base.unknown() {
            RelSourceLoc { offset: i32::MIN }
        } else {
            RelSourceLoc { offset: wrapped_offset(base.0, absolute.0) }
        }
    }

    /// The absolute location this relative location stands for under `base`.
    pub open spec fn spec_expand(self, base: SourceLoc) -> SourceLoc {
        if self.offset == i32::MIN || base.unknown() {
            SourceLoc(u32::MAX)
        } else {
            SourceLoc(wrapped_target(base.0, self.offset))
        }
    }

    /// Create a new relative source location with the given offset.
    pub fn new(offset: i32) -> (r: Self)
        ensures
            r.offset == offset,
    {
        RelSourceLoc { offset }
    }

    /// Create a relative source location from a base and absolute source location.
    pub fn from_base_offset(base: SourceLoc, absolute: SourceLoc) -> (r: Self)
        ensures
            r == Self::spec_from_base(base, absolute),
    {
        if absolute.is_default() {
            RelSourceLoc { offset: i32::MIN }
        } else if base.is_default() {
            RelSourceLoc { offset: i32::MIN }
        } else {
            let base_bits = base.bits() as i32;
            let abs_bits = absolute.bits() as i32;
            RelSourceLoc { offset: abs_bits.wrapping_sub(base_bits) }
        }
    }

    /// Expand this relative source location to an absolute source location
    /// given a base source location.
    pub fn expand(self, base: SourceLoc) -> (r: SourceLoc)
        ensures
            r == self.spec_expand(base),
    {
        if self.offset == i32::MIN {
            return SourceLoc::default();
        }
        if base.is_default() {
            SourceLoc::default()
        } else {
            let base_bits = base.bits() as i32;
            let result = base_bits.wrapping_add(self.offset);
            SourceLoc::new(result as u32)
        }
    }

    /// Check if this is the default (zero offset or sentinel) relative source location.
    pub fn is_default(self) -> (r: bool)
        ensures
            r == (self.offset == 0 || self.offset == i32::MIN),
    {
        self.offset == 0 || self.offset == i32::MIN
    }
}

impl Default for RelSourceLoc {
    fn default() -> (r: Self)
        ensures
            r.offset == 0,
    {
        RelSourceLoc { offset: 0 }
    }
}

/// Storing a known location relative to a known base and expanding it again
/// gives the location back, unless the offset happens to be the sentinel.
pub proof fn lemma_rel_srcloc_roundtrip(base: SourceLoc, absolute: SourceLoc)
    requires
        !base.unknown(),
        !absolute.unknown(),
        wrapped_offset(base.0, absolute.0) != i32::MIN,
    ensures
        RelSourceLoc::spec_from_base(base, absolute).spec_expand(base) == absolute,
{
    let b = base.0;
    let a = absolute.0;
    assert((b as i32).wrapping_add((a as i32).wrapping_sub(b as i32)) as u32 == a) by (bit_vector);
}

/// An unknown location, or any location under an unknown base, expands to
/// the unknown location.
pub proof fn lemma_rel_srcloc_unknown(base: SourceLoc, absolute: SourceLoc)
    requires
        base.unknown() || absolute.unknown(),
    ensures
        RelSourceLoc::spec_from_base(base, absolute).spec_expand(base).unknown(),
{
}

} // verus!
