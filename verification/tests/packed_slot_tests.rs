use shared::fully_optimized::slot::{Free, Occupied, Slot, FREE_NONE_VALUE};

#[test]
fn occupied_slot_keeps_value_under_tag() {
    let slot = Slot::<Occupied>::new(42).to_tagged();
    assert!(slot.is_occupied());
    assert!(!slot.is_free());
    assert_eq!(slot.value(), 42);
}

#[test]
fn free_slot_links_and_none() {
    let slot = Slot::<Free>::new(7);
    assert_eq!(slot.optional_value(), Some(7));
    let none = Slot::<Free>::new_none();
    assert_eq!(none.optional_value(), None);
    assert_eq!(none.value(), FREE_NONE_VALUE);
    assert!(none.to_tagged().is_free());
}

#[test]
fn try_as_free_and_occupied() {
    let free = Slot::<Free>::new(3).to_tagged();
    let as_free = free.try_as_free();
    assert!(as_free.is_some());
    assert_eq!(as_free.unwrap().optional_value(), Some(3));
    assert!(free.try_as_occupied().is_none());

    let occupied = Slot::<Occupied>::new(9).to_tagged();
    assert!(occupied.try_as_free().is_none());
    let as_occupied = occupied.try_as_occupied();
    assert!(as_occupied.is_some());
    assert_eq!(as_occupied.unwrap().value(), 9);
}

#[test]
fn retagging_keeps_value() {
    let mut slot = Slot::<Free>::new(11).to_tagged();
    slot.make_occupied();
    assert!(slot.is_occupied());
    assert_eq!(slot.value(), 11);
    slot.set_value(12);
    assert!(slot.is_occupied());
    assert_eq!(slot.value(), 12);
    slot.make_free();
    assert!(slot.is_free());
    assert_eq!(slot.value(), 12);
}
