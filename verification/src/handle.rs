use vstd::prelude::*;

verus! {

/// The packed value that stands for "no handle".
pub const INVALID_HANDLE: u32 = 0xFFFF_FFFFu32;

/// A generational slot handle: `slot` indexes a pool, `generation` tells a
/// live occupant of that slot from an earlier, released one.
#[derive(Clone, Copy, Debug, PartialEq, Eq, Structural, Hash)]
pub struct Handle {
    pub slot: u16,
    pub generation: u16,
}

/// The 32-bit encoding of a handle: generation in the high half, slot in the
/// low half.
pub open spec fn packed_value(h: Handle) -> int {
    h.generation as int * 0x10000 + h.slot as int
}

impl Handle {
    /// The handle that refers to nothing.
    pub open spec fn spec_invalid() -> Handle {
        Handle { slot: 0xFFFFu16, generation: 0xFFFFu16 }
    }

    /// A handle is valid when its slot is not the reserved sentinel slot.
    pub open spec fn is_valid(self) -> bool {
        self.slot != 0xFFFFu16
    }

    pub fn new(slot: u16, generation: u16) -> (h: Handle)
        ensures
            h.slot == slot,
            h.generation == generation,
    {
        Handle { slot, generation }
    }

    pub fn invalid() -> (h: Handle)
        ensures
            h == Handle::spec_invalid(),
    {
        Handle { slot: 0xFFFF, generation: 0xFFFF }
    }

    pub fn valid(&self) -> (b: bool)
        ensures
            b == self.is_valid(),
    {
        self.slot != 0xFFFF
    }
}

impl Default for Handle {
    fn default() -> (h: Handle)
        ensures
            h == Handle::spec_invalid(),
    {
        Handle::invalid()
    }
}

/// Packs a handle into one `u32`: `(generation << 16) | slot`.
pub fn pack_handle(handle: Handle) -> (packed: u32)
    ensures
        packed as int == packed_value(handle),
        packed / 0x10000 == handle.generation,
        packed % 0x10000 == handle.slot,
{
    let g: u32 = handle.generation as u32;
    let s: u32 = handle.slot as u32;
    assert(((g << 16u32) | s) == g * 0x10000u32 + s) by (bit_vector)
        requires
            g < 0x10000u32,
            s < 0x10000u32,
    ;
    (g << 16u32) | s
}

/// The handle whose packed value is `packed`.
pub open spec fn unpacked(packed: u32) -> Handle {
    Handle { slot: (packed % 0x10000) as u16, generation: (packed / 0x10000) as u16 }
}

/// Unpacks a `u32` into a handle; `INVALID_HANDLE` gives the invalid handle.
pub fn unpack_handle(packed: u32) -> (h: Handle)
    ensures
        h == unpacked(packed),
        packed_value(h) == packed as int,
        packed == INVALID_HANDLE ==> h == Handle::spec_invalid(),
        h.generation == packed / 0x10000,
        h.slot == packed % 0x10000,
{
    if packed == INVALID_HANDLE {
        return Handle::invalid();
    }
    let s: u32 = packed & 0xFFFFu32;
    let g: u32 = packed >> 16u32;
    assert(s < 0x10000u32 && g < 0x10000u32 && packed == g * 0x10000u32 + s) by (bit_vector)
        requires
            s == packed & 0xFFFFu32,
            g == packed >> 16u32,
    ;
    Handle { slot: s as u16, generation: g as u16 }
}

/// Packing is injective and `unpack_handle` undoes it, for every handle.
pub proof fn lemma_pack_roundtrip(h: Handle, k: Handle)
    ensures
        unpacked(packed_value(h) as u32) == h,
        packed_value(h) == packed_value(k) ==> h == k,
        0 <= packed_value(h) <= INVALID_HANDLE as int,
        packed_value(h) == INVALID_HANDLE as int <==> h == Handle::spec_invalid(),
{
}

} // verus!
