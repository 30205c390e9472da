//! Checks of the Slot, Epoch and SlotHeight newtypes and their saturating
//! arithmetic.

use cached_tree_hash::slot_epoch::{Epoch, Slot, SlotIter};
use cached_tree_hash::slot_height::SlotHeight;

#[test]
fn slot_new_and_as_u64() {
    assert_eq!(Slot::new(0).as_u64(), 0);
    assert_eq!(Slot::new(3).as_u64(), 3);
    assert_eq!(Slot::new(u64::MAX).as_u64(), u64::MAX);
    assert_eq!(Slot::max_value().as_u64(), u64::MAX);
}

#[test]
fn epoch_new_and_as_u64() {
    assert_eq!(Epoch::new(0).as_u64(), 0);
    assert_eq!(Epoch::new(3).as_u64(), 3);
    assert_eq!(Epoch::max_value().as_u64(), u64::MAX);
}

#[test]
fn slot_epoch_is_division() {
    assert_eq!(Slot::new(0).epoch(8), Epoch::new(0));
    assert_eq!(Slot::new(7).epoch(8), Epoch::new(0));
    assert_eq!(Slot::new(8).epoch(8), Epoch::new(1));
    assert_eq!(Slot::new(100).epoch(8), Epoch::new(12));
}

#[test]
fn slot_height_saturates_below_genesis() {
    assert_eq!(Slot::new(10).height(Slot::new(4)), SlotHeight::new(6));
    assert_eq!(Slot::new(4).height(Slot::new(10)), SlotHeight::new(0));
    assert_eq!(
        Slot::new(u64::MAX).height(Slot::new(1)),
        SlotHeight::new(u64::MAX - 1)
    );
}

#[test]
fn epoch_start_slot_saturates() {
    assert_eq!(Epoch::new(0).start_slot(8), Slot::new(0));
    assert_eq!(Epoch::new(3).start_slot(8), Slot::new(24));
    assert_eq!(Epoch::new(u64::MAX).start_slot(2), Slot::new(u64::MAX));
}

#[test]
fn epoch_end_slot_saturates() {
    assert_eq!(Epoch::new(0).end_slot(8), Slot::new(7));
    assert_eq!(Epoch::new(3).end_slot(8), Slot::new(31));
    assert_eq!(Epoch::new(u64::MAX).end_slot(2), Slot::new(u64::MAX - 1));
    assert_eq!(Epoch::new(0).end_slot(0), Slot::new(0));
}

#[test]
fn slot_iter_walks_the_epoch() {
    let epoch = Epoch::new(2);
    let mut iter: SlotIter = epoch.slot_iter(4);
    let mut seen: Vec<u64> = Vec::new();
    while let Some(slot) = iter.next() {
        seen.push(slot.as_u64());
        assert!(seen.len() <= 16);
    }
    assert_eq!(seen, vec![8, 9, 10]);
}

#[test]
fn slot_height_slot_and_epoch() {
    assert_eq!(SlotHeight::new(6).slot(Slot::new(4)), Slot::new(10));
    assert_eq!(SlotHeight::new(6).epoch(4, 5), Epoch::new(2));
    assert_eq!(SlotHeight::new(u64::MAX).slot(Slot::new(1)), Slot::new(u64::MAX));
    assert_eq!(SlotHeight::max_value().as_u64(), u64::MAX);
}
