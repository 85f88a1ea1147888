use std::fmt::Debug;

use shared::slot_map::optimized::SlotMapOptimized;
use shared::slot_map::standard::SlotMapStandard;
use shared::slot_map::{Linkable, SlotMap, TestableSlotMap};

pub trait TestSlotMap<U>: SlotMap<Data = u32, Id = U> + TestableSlotMap<Data = u32, Utype = U> {}

impl<T, U> TestSlotMap<U> for T where T: SlotMap<Data = u32, Id = U> + TestableSlotMap<Data = u32, Utype = U> {}

pub trait TestUtype: TryFrom<usize> + TryInto<usize> + Debug + PartialEq + Copy {}

impl<T> TestUtype for T where T: TryFrom<usize> + TryInto<usize> + Debug + PartialEq + Copy {}

fn default_equiv_new<SM, U>()
where
    SM: TestSlotMap<U> + Default,
    U: TestUtype,
{
    let slot_map_new = SM::new();
    let slot_map_default = SM::default();

    assert_eq!(slot_map_default.head(), None, "Default head should be None");
    assert_eq!(slot_map_default.free_head(), None, "Default free_head should be None");
    assert_eq!(slot_map_default.capacity(), 0);

    assert_eq!(slot_map_new.head(), slot_map_default.head());
    assert_eq!(slot_map_new.tail(), slot_map_default.tail());
    assert_eq!(slot_map_new.free_head(), slot_map_default.free_head());
}

fn init_arena<SM, U>()
where
    SM: TestSlotMap<U>,
    U: TestUtype,
{
    let slot_map = SM::new();

    assert_eq!(None, slot_map.head());
    assert_eq!(None, slot_map.tail());
    assert_eq!(None, slot_map.free_head());
    assert_eq!(0, slot_map.total());
    assert_eq!(0, slot_map.capacity());
    assert!(slot_map.is_empty());
}

fn insert_single<SM, U>()
where
    SM: TestSlotMap<U>,
    U: TestUtype,
{
    let mut slot_map = SM::new();
    let idx = slot_map.insert(0);

    assert_eq!(Some(idx), slot_map.head());
    assert_eq!(Some(idx), slot_map.tail());
    assert_eq!(None, slot_map.free_head());
    assert_eq!(1, slot_map.total());
    assert_eq!(1, slot_map.capacity());
    assert!(!slot_map.is_empty());

    let link = slot_map.get_link(0);
    assert_links(link, None, None);

    assert!(slot_map.is_occupied(idx.try_into().ok().unwrap(), 0));
}

fn insert_multiple<SM, U>()
where
    SM: TestSlotMap<U>,
    U: TestUtype,
{
    let mut slot_map = SM::new();
    let idx1 = slot_map.insert(0);
    let _idx2 = slot_map.insert(1);
    let idx3 = slot_map.insert(2);

    assert_eq!(Some(idx1), slot_map.head());
    assert_eq!(Some(idx3), slot_map.tail());
    assert_eq!(None, slot_map.free_head());
    assert_eq!(3, slot_map.total());
    assert_eq!(3, slot_map.capacity());
    assert!(!slot_map.is_empty());

    assert_links(slot_map.get_link(0), None, Some(1));
    assert_links(slot_map.get_link(1), Some(0), Some(2));
    assert_links(slot_map.get_link(2), Some(1), None);
}

fn insert_middle<SM, U>()
where
    SM: TestSlotMap<U>,
    U: TestUtype,
{
    let mut slot_map = SM::new();
    let idx1 = slot_map.insert(0);
    let idx2 = slot_map.insert(1);
    let _idx3 = slot_map.insert(2);
    slot_map.remove(idx2);

    let idx4 = slot_map.insert(3);

    assert_eq!(Some(idx1), slot_map.head());
    assert_eq!(Some(idx4), slot_map.tail());
    assert_eq!(None, slot_map.free_head());
    assert_eq!(3, slot_map.total());
    assert_eq!(3, slot_map.capacity());
    assert!(!slot_map.is_empty());

    assert_links(slot_map.get_link(0), None, Some(2));
    assert_links(slot_map.get_link(2), Some(0), Some(1));
    assert_links(slot_map.get_link(1), Some(2), None);
}

fn remove_middle<SM, U>()
where
    SM: TestSlotMap<U>,
    U: TestUtype,
{
    let mut slot_map = SM::new();
    let idx1 = slot_map.insert(0);
    let idx2 = slot_map.insert(1);
    let idx3 = slot_map.insert(2);

    slot_map.remove(idx2);

    assert_eq!(Some(idx1), slot_map.head());
    assert_eq!(Some(idx3), slot_map.tail());
    assert_eq!(U::try_from(1).ok(), slot_map.free_head());
    assert_eq!(3, slot_map.total());
    assert_eq!(2, slot_map.capacity());
    assert!(!slot_map.is_empty());

    assert_links(slot_map.get_link(0), None, Some(2));
    assert!(slot_map.get_link(1).is_none());
    assert_links(slot_map.get_link(2), Some(0), None);
}

fn remove_head<SM, U>()
where
    SM: TestSlotMap<U>,
    U: TestUtype,
{
    let mut slot_map = SM::new();
    let idx1 = slot_map.insert(0);
    let idx2 = slot_map.insert(1);
    let idx3 = slot_map.insert(2);
    slot_map.remove(idx1);

    assert_eq!(Some(idx2), slot_map.head());
    assert_eq!(Some(idx3), slot_map.tail());
    assert_eq!(U::try_from(0).ok(), slot_map.free_head());
    assert_eq!(3, slot_map.total());
    assert_eq!(2, slot_map.capacity());
    assert!(!slot_map.is_empty());

    assert!(slot_map.get_link(0).is_none());
    assert_links(slot_map.get_link(1), None, Some(2));
    assert_links(slot_map.get_link(2), Some(1), None);
}

fn remove_tail<SM, U>()
where
    SM: TestSlotMap<U>,
    U: TestUtype,
{
    let mut slot_map = SM::new();
    let idx1 = slot_map.insert(0);
    let idx2 = slot_map.insert(1);
    let idx3 = slot_map.insert(2);
    slot_map.remove(idx3);

    assert_eq!(Some(idx1), slot_map.head());
    assert_eq!(Some(idx2), slot_map.tail());
    assert_eq!(U::try_from(2).ok(), slot_map.free_head());
    assert_eq!(3, slot_map.total());
    assert_eq!(2, slot_map.capacity());
    assert!(!slot_map.is_empty());

    assert_links(slot_map.get_link(0), None, Some(1));
    assert_links(slot_map.get_link(1), Some(0), None);
    assert!(slot_map.get_link(2).is_none());
}

fn remove_last<SM, U>()
where
    SM: TestSlotMap<U>,
    U: TestUtype,
{
    let mut slot_map = SM::new();
    let idx1 = slot_map.insert(0);
    slot_map.remove(idx1);

    assert!(slot_map.head().is_none());
    assert!(slot_map.tail().is_none());
    assert_eq!(U::try_from(0).ok(), slot_map.free_head());
    assert_eq!(1, slot_map.total());
    assert_eq!(0, slot_map.capacity());
    assert!(slot_map.is_empty());

    assert!(slot_map.get_link(0).is_none());
}

fn assert_links<L: Linkable>(link: Option<&L>, expected_prev: Option<usize>, expected_next: Option<usize>) {
    assert!(link.is_some());
    assert_eq!(link.unwrap().prev(), expected_prev);
    assert_eq!(link.unwrap().next(), expected_next);
}

#[test]
fn sm_standard_default_equiv_new_test() {
    default_equiv_new::<SlotMapStandard<u32>, u32>();
}

#[test]
fn sm_standard_init_arena_test() {
    init_arena::<SlotMapStandard<u32>, u32>();
}

#[test]
fn sm_standard_insert_single_test() {
    insert_single::<SlotMapStandard<u32>, u32>();
}

#[test]
fn sm_standard_insert_multiple_test() {
    insert_multiple::<SlotMapStandard<u32>, u32>();
}

#[test]
fn sm_standard_insert_middle_test() {
    insert_middle::<SlotMapStandard<u32>, u32>();
}

#[test]
fn sm_standard_remove_middle_test() {
    remove_middle::<SlotMapStandard<u32>, u32>();
}

#[test]
fn sm_standard_remove_head_test() {
    remove_head::<SlotMapStandard<u32>, u32>();
}

#[test]
fn sm_standard_remove_tail_test() {
    remove_tail::<SlotMapStandard<u32>, u32>();
}

#[test]
fn sm_standard_remove_last_test() {
    remove_last::<SlotMapStandard<u32>, u32>();
}

#[test]
fn sm_optimized_default_equiv_new_test() {
    default_equiv_new::<SlotMapOptimized<u32>, u32>();
}

#[test]
fn sm_optimized_init_arena_test() {
    init_arena::<SlotMapOptimized<u32>, u32>();
}

#[test]
fn sm_optimized_insert_single_test() {
    insert_single::<SlotMapOptimized<u32>, u32>();
}

#[test]
fn sm_optimized_insert_multiple_test() {
    insert_multiple::<SlotMapOptimized<u32>, u32>();
}

#[test]
fn sm_optimized_insert_middle_test() {
    insert_middle::<SlotMapOptimized<u32>, u32>();
}

#[test]
fn sm_optimized_remove_middle_test() {
    remove_middle::<SlotMapOptimized<u32>, u32>();
}

#[test]
fn sm_optimized_remove_head_test() {
    remove_head::<SlotMapOptimized<u32>, u32>();
}

#[test]
fn sm_optimized_remove_tail_test() {
    remove_tail::<SlotMapOptimized<u32>, u32>();
}

#[test]
fn sm_optimized_remove_last_test() {
    remove_last::<SlotMapOptimized<u32>, u32>();
}
