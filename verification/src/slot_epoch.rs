//! `Slot` and `Epoch` are newtypes over `u64` that keep slot and epoch
//! bookkeeping from being mixed up by the compiler.  All arithmetic on them
//! saturates: it never wraps.

use crate::slot_height::SlotHeight;
use vstd::prelude::*;

verus! {

/// `a + b`, stopping at `u64::MAX`.
pub open spec fn sat_add(a: u64, b: u64) -> u64 {
    if a + b > u64::MAX {
        u64::MAX
    } else {
        (a + b) as u64
    }
}

/// `a - b`, stopping at zero.
pub open spec fn sat_sub(a: u64, b: u64) -> u64 {
    if a < b {
        0
    } else {
        (a - b) as u64
    }
}

/// `a * b`, stopping at `u64::MAX`.
pub open spec fn sat_mul(a: u64, b: u64) -> u64 {
    if a * b > u64::MAX {
        u64::MAX
    } else {
        (a * b) as u64
    }
}

/// The last slot of an epoch: `(epoch + 1) * epoch_length - 1`, each step
/// saturating.
pub open spec fn spec_end_slot(epoch: u64, epoch_length: u64) -> u64 {
    sat_sub(sat_mul(sat_add(epoch, 1), epoch_length), 1)
}

/// A slot number.
#[derive(Clone, Copy, PartialEq, Eq, Structural, Hash, Debug)]
pub struct Slot(pub u64);

/// An epoch number.
#[derive(Clone, Copy, PartialEq, Eq, Structural, Hash, Debug)]
pub struct Epoch(pub u64);

/// Saturating multiply, as the newtype arithmetic requires.
fn saturating_mul_u64(a: u64, b: u64) -> (r: u64)
    ensures
        r == sat_mul(a, b),
{
    match a.checked_mul(b) {
        Some(v) => v,
        None => u64::MAX,
    }
}

impl Slot {
    /// Wrap a raw slot number.
    pub fn new(slot: u64) -> (r: Slot)
        ensures
            r.0 == slot,
    {
        Slot(slot)
    }

    /// The epoch this slot belongs to.
    pub fn epoch(self, epoch_length: u64) -> (r: Epoch)
        requires
            epoch_length > 0,
        ensures
            r.0 == self.0 / epoch_length,
    {
        Epoch(self.0 / epoch_length)
    }

    /// This slot's height above the genesis slot, zero when it is below.
    pub fn height(self, genesis_slot: Slot) -> (r: SlotHeight)
        ensures
            r.0 == sat_sub(self.0, genesis_slot.0),
    {
        SlotHeight(self.0.saturating_sub(genesis_slot.as_u64()))
    }

    /// The greatest representable slot.
    pub fn max_value() -> (r: Slot)
        ensures
            r.0 == u64::MAX,
    {
        Slot(u64::MAX)
    }

    /// The raw slot number.
    pub fn as_u64(self) -> (r: u64)
        ensures
            r == self.0,
    {
        self.0
    }
}

impl Epoch {
    /// Wrap a raw epoch number.
    pub fn new(slot: u64) -> (r: Epoch)
        ensures
            r.0 == slot,
    {
        Epoch(slot)
    }

    /// The greatest representable epoch.
    pub fn max_value() -> (r: Epoch)
        ensures
            r.0 == u64::MAX,
    {
        Epoch(u64::MAX)
    }

    /// The first slot of this epoch: `epoch * epoch_length`, saturating.
    pub fn start_slot(self, epoch_length: u64) -> (r: Slot)
        ensures
            r.0 == sat_mul(self.0, epoch_length),
    {
        Slot(saturating_mul_u64(self.0, epoch_length))
    }

    /// The last slot of this epoch: `(epoch + 1) * epoch_length - 1`, each
    /// step saturating.
    pub fn end_slot(self, epoch_length: u64) -> (r: Slot)
        ensures
            r.0 == spec_end_slot(self.0, epoch_length),
    {
        let next = self.0.saturating_add(1);
        let scaled = saturating_mul_u64(next, epoch_length);
        Slot(scaled.saturating_sub(1))
    }

    /// Iterate over the slots of this epoch, from its first slot up to and
    /// excluding its last.
    pub fn slot_iter(&self, epoch_length: u64) -> (r: SlotIter)
        ensures
            r.current.0 == sat_mul(self.0, epoch_length),
            r.epoch == *self,
            r.epoch_length == epoch_length,
    {
        SlotIter { current: self.start_slot(epoch_length), epoch: *self, epoch_length }
    }

    /// The raw epoch number.
    pub fn as_u64(self) -> (r: u64)
        ensures
            r == self.0,
    {
        self.0
    }
}

/// An iterator over the slots of one epoch.
pub struct SlotIter {
    pub current: Slot,
    pub epoch: Epoch,
    pub epoch_length: u64,
}

impl SlotIter {
    /// The next slot of the epoch, or nothing once the epoch's last slot is
    /// reached.
    pub fn next(&mut self) -> (r: Option<Slot>)
        ensures
            old(self).current.0 == spec_end_slot(old(self).epoch.0, old(self).epoch_length)
                ==> r is None && *final(self) == *old(self),
            old(self).current.0 != spec_end_slot(old(self).epoch.0, old(self).epoch_length) ==> r
                == Some(old(self).current) && final(self).current.0 == sat_add(
                old(self).current.0,
                1,
            ) && final(self).epoch == old(self).epoch && final(self).epoch_length == old(
                self,
            ).epoch_length,
    {
        let end = self.epoch.end_slot(self.epoch_length);
        if self.current == end {
            None
        } else {
            let previous = self.current;
            self.current = Slot(self.current.0.saturating_add(1));
            Some(previous)
        }
    }
}

} // verus!
