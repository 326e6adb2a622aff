//! Entity handles.
//!
//! An entity is a dense slot index together with a generation counter. The
//! generation tells successive occupants of one slot apart, so a handle that
//! outlives its entity is recognised as stale.

use vstd::prelude::*;

verus! {

/// A lightweight handle: `(index, generation)`.
///
/// Handles are plain values. They own no state of the world that issued them.
#[derive(Debug, Copy, Clone, Eq, PartialEq, Hash, Structural)]
pub struct Entity {
    /// Dense slot index.
    pub index: u32,
    /// Generation of the slot at the time the handle was issued.
    pub generation: u32,
}

/// The 64-bit value that packs a generation above an index.
pub open spec fn packed(index: u32, generation: u32) -> int {
    generation as int * 0x1_0000_0000 + index as int
}

impl Entity {
    /// Creates a handle from its two parts. Handles that address a live entity
    /// come from a world; this constructor serves tests and external keying.
    pub fn from_raw_parts(id: u32, generation: u32) -> (r: Self)
        ensures
            r.index == id,
            r.generation == generation,
    {
        Entity { index: id, generation }
    }

    /// The packed identifier `(generation << 32) | index`.
    pub fn id(&self) -> (r: u64)
        ensures
            r as int == packed(self.index, self.generation),
    {
        let index = self.index;
        let generation = self.generation;
        let r = ((generation as u64) << 32) | (index as u64);
        assert(((generation as u64) << 32) | (index as u64) == (generation as u64) * 0x1_0000_0000
            + (index as u64)) by (bit_vector);
        r
    }

    /// The slot index.
    pub fn index(&self) -> (r: u32)
        ensures
            r == self.index,
    {
        self.index
    }

    /// The generation.
    pub fn generation(&self) -> (r: u32)
        ensures
            r == self.generation,
    {
        self.generation
    }
}

/// Two handles have the same packed identifier only if they are the same
/// handle.
pub proof fn lemma_packed_injective(a: Entity, b: Entity)
    requires
        packed(a.index, a.generation) == packed(b.index, b.generation),
    ensures
        a == b,
{
}

} // verus!
