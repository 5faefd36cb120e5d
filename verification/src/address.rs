//! Tagged addresses: 64-bit words whose upper 16 bits are metadata.

use vstd::prelude::*;

verus! {

/// Bits of a tagged address that form the real address.
pub const ADDRESS_MASK: u64 = 0x0000_ffff_ffff_ffff;

/// Number of distinct real addresses (two to the power 48).
pub const ADDRESS_SPACE: u64 = 0x0001_0000_0000_0000;

/// The real address carried by the raw word `raw`: its low 48 bits.
pub open spec fn resolved(raw: u64) -> u64 {
    raw % ADDRESS_SPACE
}

/// A raw 64-bit pointer field. The upper 16 bits do not belong to the
/// address and must be cleared before the address is used.
#[derive(Clone, Copy, Debug, PartialEq, Eq)]
pub struct TaggedAddress {
    pub raw: u64,
}

impl TaggedAddress {
    /// The address with the metadata bits cleared.
    ///
    /// The upper 16 bits of the result are zero and its lower 48 bits are
    /// those of the raw word.
    pub fn address(self) -> (a: u64)
        ensures
            a == resolved(self.raw),
            a == self.raw & ADDRESS_MASK,
            a >> 48 == 0,
            a & ADDRESS_MASK == self.raw & ADDRESS_MASK,
            a < ADDRESS_SPACE,
    {
        let raw: u64 = self.raw;
        assert(raw & 0x0000_ffff_ffff_ffff == raw % 0x0001_0000_0000_0000) by (bit_vector);
        assert((raw & 0x0000_ffff_ffff_ffff) >> 48 == 0) by (bit_vector);
        assert((raw & 0x0000_ffff_ffff_ffff) & 0x0000_ffff_ffff_ffff == raw & 0x0000_ffff_ffff_ffff)
            by (bit_vector);
        raw & ADDRESS_MASK
    }
}

/// Clearing the metadata bits keeps the low 48 bits, zeroes the upper 16 and
/// is idempotent, whatever the upper bits held.
pub proof fn lemma_resolved_masks(raw: u64)
    ensures
        resolved(raw) == raw & ADDRESS_MASK,
        resolved(raw) >> 48 == 0,
        resolved(raw) & ADDRESS_MASK == raw & ADDRESS_MASK,
        resolved(resolved(raw)) == resolved(raw),
        raw >> 48 == 0 ==> resolved(raw) == raw,
{
    assert(raw % 0x0001_0000_0000_0000 == raw & 0x0000_ffff_ffff_ffff) by (bit_vector);
    assert((raw & 0x0000_ffff_ffff_ffff) >> 48 == 0) by (bit_vector);
    assert((raw & 0x0000_ffff_ffff_ffff) & 0x0000_ffff_ffff_ffff == raw & 0x0000_ffff_ffff_ffff)
        by (bit_vector);
    assert(raw >> 48 == 0 ==> raw % 0x0001_0000_0000_0000 == raw) by (bit_vector);
}

} // verus!
