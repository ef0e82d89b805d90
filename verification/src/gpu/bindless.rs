//! Slots of the bindless texture array.
use vstd::prelude::*;

verus! {

/// Size of the bindless texture array.
pub const MAX_TEXTURES: u32 = 4096;

/// The next free slot after an image is written at `slot` when `next` was free.
pub open spec fn slot_after(next: u32, slot: u32) -> u32 {
    if slot >= next {
        (slot + 1) as u32
    } else {
        next
    }
}

/// Allocation of slots in the bindless texture array: slots are handed out in
/// increasing order; an image written at an explicit slot moves the next free
/// slot past it.
pub struct BindlessSlots {
    next_slot: u32,
}

impl BindlessSlots {
    /// The next slot `register_view` hands out.
    pub closed spec fn next_view(&self) -> u32 {
        self.next_slot
    }

    /// No slot used yet.
    pub fn new() -> (s: Self)
        ensures
            s.next_view() == 0,
    {
        BindlessSlots { next_slot: 0 }
    }

    /// The next slot `register_view` hands out.
    pub fn next_slot(&self) -> (n: u32)
        ensures
            n == self.next_view(),
    {
        self.next_slot
    }

    /// Take the next free slot for an image. The array must not be full.
    pub fn register_view(&mut self) -> (slot: u32)
        requires
            old(self).next_view() < MAX_TEXTURES,
        ensures
            slot == old(self).next_view(),
            final(self).next_view() == slot + 1,
    {
        let slot = self.next_slot;
        self.next_slot = slot + 1;
        slot
    }

    /// Record an image written at `slot`, which must lie in the array.
    pub fn register_view_at(&mut self, slot: u32)
        requires
            slot < MAX_TEXTURES,
        ensures
            final(self).next_view() == slot_after(old(self).next_view(), slot),
    {
        if slot >= self.next_slot {
            self.next_slot = slot + 1;
        }
    }
}

/// A slot handed out is never one already written: after images were written
/// at slot `s` (explicitly or not), the next free slot lies beyond `s`, and it
/// never moves back.
pub proof fn law_slots_not_reused(next: u32, s: u32)
    requires
        s < MAX_TEXTURES,
    ensures
        slot_after(next, s) > s,
        slot_after(next, s) >= next,
{
}

} // verus!
