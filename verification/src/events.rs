//! The cast trigger: a player's primary-action swing becomes a cast
//! request exactly when the selected inventory slot is the designated
//! control slot.
use vstd::prelude::*;

verus! {

/// The inventory slot number of hotbar slot zero, the only slot a wand
/// cast fires from; a stand-in for a future selected-ability choice.
pub const WAND_SLOT: u16 = 36;

/// A request to spawn one projectile, consumed in the tick it is made.
#[derive(Clone, Copy, PartialEq, Eq, Structural, Debug)]
pub struct WandCastEvent {
    /// The casting player's handle.
    pub client: u64,
    /// The inventory slot held when the cast fired.
    pub slot: u16,
}

/// The cast request one swing produces: one exactly when the held slot
/// is hotbar slot zero, nothing otherwise.
pub open spec fn cast_for(client: u64, held_slot: u16) -> Option<WandCastEvent> {
    if held_slot == WAND_SLOT {
        Some(WandCastEvent { client, slot: held_slot })
    } else {
        None
    }
}

/// Turn one primary-action swing into a cast request, or into nothing:
/// the event fires exactly when the held slot is hotbar slot zero; every
/// other slot is ignored.
pub fn cast_event_for_swing(client: u64, held_slot: u16) -> (r: Option<WandCastEvent>)
    ensures
        r == cast_for(client, held_slot),
{
    if held_slot == WAND_SLOT {
        Some(WandCastEvent { client, slot: held_slot })
    } else {
        None
    }
}

} // verus!
