//! Beacon block height: a slot's distance above the genesis slot, as its
//! own `u64` newtype with saturating arithmetic.

use crate::slot_epoch::{sat_add, sat_sub, Epoch, Slot};
use vstd::prelude::*;

verus! {

/// A block height above genesis.
#[derive(Clone, Copy, PartialEq, Eq, Structural, Hash, Debug)]
pub struct SlotHeight(pub u64);

impl SlotHeight {
    /// Wrap a raw height.
    pub fn new(slot: u64) -> (r: SlotHeight)
        ensures
            r.0 == slot,
    {
        SlotHeight(slot)
    }

    /// The slot this height stands for, given the genesis slot.
    pub fn slot(self, genesis_slot: Slot) -> (r: Slot)
        ensures
            r.0 == sat_add(self.0, genesis_slot.0),
    {
        Slot::new(self.0.saturating_add(genesis_slot.as_u64()))
    }

    /// The epoch this height falls in, given the genesis slot and the epoch
    /// length.
    pub fn epoch(self, genesis_slot: u64, epoch_length: u64) -> (r: Epoch)
        requires
            epoch_length > 0,
        ensures
            r.0 == sat_add(self.0, genesis_slot) / epoch_length,
    {
        Epoch::new(self.0.saturating_add(genesis_slot) / epoch_length)
    }

    /// The greatest representable height.
    pub fn max_value() -> (r: SlotHeight)
        ensures
            r.0 == u64::MAX,
    {
        SlotHeight(u64::MAX)
    }

    /// The raw height.
    pub fn as_u64(self) -> (r: u64)
        ensures
            r == self.0,
    {
        self.0
    }
}

} // verus!
