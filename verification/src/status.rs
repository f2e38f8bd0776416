//! Entry status flags: a fixed-width bitset over `u32`.
//!
//! Bit 0 (`READ_BIT`) marks an entry as read, bit 1 (`STARRED_BIT`) as
//! starred; all higher bits are reserved for future flags and are preserved
//! by `set` and `clear`, which touch only the requested bit.

use vstd::prelude::*;

verus! {

pub type StatusType = u32;

pub const READ_BIT: StatusType = 1;

pub const STARRED_BIT: StatusType = 2;

/// Application-owned per-entry flags, stored as one unsigned integer.
#[derive(Clone, Copy, PartialEq, Eq, Structural, Debug)]
pub struct Status(pub StatusType);

impl Status {
    /// The freshly-ingested state: no flag set.
    pub fn new() -> (r: Status)
        ensures
            r.0 == 0,
    {
        Status(0)
    }

    /// Whether any bit of `bit` is set in `self`.
    pub fn get(&self, bit: StatusType) -> (r: bool)
        ensures
            r == ((self.0 & bit) != 0),
    {
        self.0 & bit != 0
    }

    /// Sets the bits of `bit`, leaving every other bit unchanged.
    pub fn set(&mut self, bit: StatusType)
        ensures
            final(self).0 == (old(self).0 | bit),
    {
        self.0 = self.0 | bit;
    }

    /// Clears the bits of `bit`, leaving every other bit unchanged.
    pub fn clear(&mut self, bit: StatusType)
        ensures
            final(self).0 == (old(self).0 & !bit),
    {
        self.0 = self.0 & !bit;
    }
}

/// Setting a nonzero flag makes `get` of that flag true, and setting is
/// idempotent: a second `set` of the same flag changes nothing.
pub proof fn lemma_set_idempotent(v: StatusType, bit: StatusType)
    ensures
        bit != 0 ==> ((v | bit) & bit) != 0,
        ((v | bit) | bit) == (v | bit),
{
    assert(bit != 0 ==> ((v | bit) & bit) != 0) by (bit_vector);
    assert(((v | bit) | bit) == (v | bit)) by (bit_vector);
}

/// Clearing a flag makes `get` of that flag false, and clearing is idempotent.
pub proof fn lemma_clear_idempotent(v: StatusType, bit: StatusType)
    ensures
        ((v & !bit) & bit) == 0,
        ((v & !bit) & !bit) == (v & !bit),
{
    assert(((v & !bit) & bit) == 0) by (bit_vector);
    assert(((v & !bit) & !bit) == (v & !bit)) by (bit_vector);
}

/// `set` and `clear` of one flag never disturb a disjoint flag: reserved
/// bits survive every read-modify-write cycle.
pub proof fn lemma_other_bits_preserved(v: StatusType, bit: StatusType, other: StatusType)
    requires
        bit & other == 0,
    ensures
        ((v | bit) & other) == (v & other),
        ((v & !bit) & other) == (v & other),
{
    assert(bit & other == 0 ==> ((v | bit) & other) == (v & other)) by (bit_vector);
    assert(bit & other == 0 ==> ((v & !bit) & other) == (v & other)) by (bit_vector);
}

} // verus!
