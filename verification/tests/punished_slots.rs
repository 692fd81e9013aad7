use history_sync::punished_slots::{PenalizedSlot, PunishedSlots, SlashedValidator};
use history_sync::receipts::{JailValidatorReceipt, SlashReceipt};
use history_sync::slot_set::SlotSet;
use std::collections::BTreeMap;

fn sorted(set: &SlotSet) -> Vec<u16> {
    let mut slots = set.slots.clone();
    slots.sort();
    slots
}

fn current(slots: &PunishedSlots) -> Vec<(u64, Vec<u16>)> {
    let mut entries: Vec<(u64, Vec<u16>)> = slots
        .current_batch_punished_slots
        .iter()
        .map(|entry| (entry.validator, sorted(&entry.slots)))
        .collect();
    entries.sort();
    entries
}

#[test]
fn a_set_of_slots_holds_each_slot_once() {
    let mut set = SlotSet::new();
    assert!(set.is_empty());
    assert!(set.insert(4));
    assert!(!set.insert(4));
    set.insert_range(2, 6);
    set.insert_range(9, 3);
    assert_eq!(sorted(&set), vec![2, 3, 4, 5]);
    assert_eq!(set.len(), 4);
    assert!(set.contains(5));
    assert!(!set.contains(6));
    assert!(set.remove(3));
    assert!(!set.remove(3));
    let mut other = SlotSet::new();
    other.insert(2);
    other.insert(7);
    set.insert_all(&other);
    assert_eq!(sorted(&set), vec![2, 4, 5, 7]);
    assert_eq!(sorted(&set.copy()), sorted(&set));
}

#[test]
fn a_slash_of_the_same_batch_punishes_the_current_batch() {
    let mut slots = PunishedSlots::new();
    let slash = SlashedValidator { slots: 3..6, validator: 1, event_batch: 10 };
    let (old_previous, old_current) = slots.register_slash(&slash, 10, &Some(20..22));
    assert!(old_previous.is_empty());
    assert!(old_current.is_none());
    assert_eq!(current(&slots), vec![(1, vec![3, 4, 5])]);
    assert!(slots.previous_batch_punished_slots().is_empty());
    assert_eq!(sorted(&slots.current_batch_punished_slots()), vec![3, 4, 5]);
    // Taking it back leaves nothing.
    slots.revert_register_slash(&slash, old_previous, old_current);
    assert!(current(&slots).is_empty());
}

#[test]
fn a_slash_of_the_batch_before_punishes_both_batches() {
    let mut slots = PunishedSlots::new();
    slots.register_penalty(
        &PenalizedSlot { slot: 21, validator: 1, event_batch: 11, event_epoch: 2 },
        11,
        2,
    );
    let slash = SlashedValidator { slots: 3..6, validator: 1, event_batch: 10 };
    let (old_previous, old_current) = slots.register_slash(&slash, 11, &Some(20..22));
    assert_eq!(sorted(slots.previous_batch_punished_slots()), vec![3, 4, 5]);
    assert_eq!(current(&slots), vec![(1, vec![20, 21])]);
    assert_eq!(old_current.as_ref().map(sorted), Some(vec![21]));
    slots.revert_register_slash(&slash, old_previous, old_current);
    assert!(slots.previous_batch_punished_slots().is_empty());
    assert_eq!(current(&slots), vec![(1, vec![21])]);
    // A validator that is not elected again keeps its slots of the current batch.
    slots.register_slash(&slash, 11, &None);
    assert_eq!(sorted(slots.previous_batch_punished_slots()), vec![3, 4, 5]);
    assert_eq!(current(&slots), vec![(1, vec![21])]);
    // An older slash punishes nothing.
    let mut slots = PunishedSlots::new();
    slots.register_slash(&slash, 12, &Some(20..22));
    assert!(slots.previous_batch_punished_slots().is_empty());
    assert!(current(&slots).is_empty());
    slots.register_slash(&SlashedValidator { slots: 3..6, validator: 1, event_batch: 0 }, 0, &None);
    assert_eq!(current(&slots), vec![(1, vec![3, 4, 5])]);
}

#[test]
fn a_penalty_punishes_by_batch_and_by_epoch() {
    let mut slots = PunishedSlots::new();
    let penalty = PenalizedSlot { slot: 7, validator: 2, event_batch: 4, event_epoch: 1 };
    // Reported in the next batch of the same epoch: both batches.
    assert_eq!(slots.register_penalty(&penalty, 5, 1), (true, true));
    assert_eq!(sorted(slots.previous_batch_punished_slots()), vec![7]);
    assert_eq!(current(&slots), vec![(2, vec![7])]);
    // Again: nothing new.
    assert_eq!(slots.register_penalty(&penalty, 5, 1), (false, false));
    // Reported in the same batch: the current batch only.
    let other = PenalizedSlot { slot: 8, validator: 2, event_batch: 5, event_epoch: 1 };
    assert_eq!(slots.register_penalty(&other, 5, 1), (true, true));
    assert_eq!(sorted(slots.previous_batch_punished_slots()), vec![7]);
    assert_eq!(current(&slots), vec![(2, vec![7, 8])]);
    // Reported in the next epoch: the previous batch only.
    let late = PenalizedSlot { slot: 9, validator: 3, event_batch: 5, event_epoch: 1 };
    assert_eq!(slots.register_penalty(&late, 6, 2), (true, false));
    assert_eq!(sorted(slots.previous_batch_punished_slots()), vec![7, 9]);
    assert_eq!(current(&slots), vec![(2, vec![7, 8])]);
    // Taking the penalties back, the last first.
    slots.revert_register_penalty(&late, true, false);
    slots.revert_register_penalty(&other, true, true);
    assert_eq!(sorted(slots.previous_batch_punished_slots()), vec![7]);
    assert_eq!(current(&slots), vec![(2, vec![7])]);
    slots.revert_register_penalty(&penalty, true, true);
    assert!(slots.previous_batch_punished_slots().is_empty());
    assert!(current(&slots).is_empty());
}

#[test]
fn the_end_of_a_batch_moves_the_current_batch_on() {
    let mut slots = PunishedSlots::new();
    slots.register_slash(&SlashedValidator { slots: 0..2, validator: 1, event_batch: 3 }, 3, &None);
    slots.register_slash(&SlashedValidator { slots: 5..7, validator: 2, event_batch: 3 }, 3, &None);
    slots.register_slash(&SlashedValidator { slots: 9..10, validator: 3, event_batch: 3 }, 3, &None);
    let mut active = BTreeMap::new();
    active.insert(2u64, 1000u64);
    active.insert(8u64, 1000u64);
    slots.finalize_batch(&active);
    assert_eq!(sorted(slots.previous_batch_punished_slots()), vec![0, 1, 5, 6, 9]);
    assert_eq!(current(&slots), vec![(1, vec![0, 1]), (3, vec![9])]);
    slots.finalize_epoch();
    assert_eq!(sorted(slots.previous_batch_punished_slots()), vec![0, 1, 9]);
    assert!(current(&slots).is_empty());
    slots.finalize_epoch();
    assert!(slots.previous_batch_punished_slots().is_empty());
}

#[test]
fn the_receipt_of_a_slash_gives_the_receipt_of_a_jailing() {
    let slash = SlashReceipt {
        newly_deactivated: true,
        old_previous_batch_punished_slots: SlotSet::new(),
        old_current_batch_punished_slots: None,
        old_jail_release: Some(77),
    };
    assert_eq!(
        JailValidatorReceipt::from(&slash),
        JailValidatorReceipt { newly_deactivated: true, old_jail_release: Some(77) }
    );
}
