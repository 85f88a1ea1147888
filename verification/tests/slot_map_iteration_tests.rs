use shared::slot_map::SlotMap;
use shared::slot_map::TestableSlotMap;
use shared::slot_map::optimized::SlotMapOptimized;
use shared::slot_map::standard::SlotMapStandard;
use shared::slot_map_unsafe::SlotMapUnsafe;

fn values(map: &SlotMapUnsafe<u32>) -> Vec<u32> {
    let mut it = map.iter();
    let mut out = Vec::new();
    while let Some(v) = it.next() {
        out.push(*v);
    }
    out
}

#[test]
fn law_insert_appends_to_iteration_example() {
    let mut map = SlotMapUnsafe::<u32>::new();
    map.insert(10);
    map.insert(20);
    assert_eq!(vec![10, 20], values(&map));
    map.insert(30);
    assert_eq!(vec![10, 20, 30], values(&map));
}

#[test]
fn law_remove_drops_from_iteration_example() {
    let mut map = SlotMapUnsafe::<u32>::new();
    map.insert(10);
    let middle = map.insert(20);
    map.insert(30);
    map.remove(middle);
    assert_eq!(vec![10, 30], values(&map));
    let reused = map.insert(40);
    assert_eq!(middle, reused);
    assert_eq!(vec![10, 30, 40], values(&map));
}

#[test]
fn occupied_indices_give_mutable_access_in_order() {
    let mut map = SlotMapOptimized::<u32>::new();
    let a = map.insert(1);
    let b = map.insert(2);
    let c = map.insert(3);
    map.remove(b);
    let indices = map.occupied_indices();
    assert_eq!(vec![a as usize, c as usize], indices);
    for i in &indices {
        if let Some(v) = map.get_mut(*i) {
            *v += 10;
        }
    }
    assert_eq!(Some(&11), map.get(a as usize));
    assert_eq!(Some(&13), map.get(c as usize));
}

#[test]
fn whole_iteration_yields_insertion_order() {
    let mut map = SlotMapOptimized::<u32>::new();
    let a = map.insert(1);
    map.insert(2);
    map.insert(3);
    map.remove(a);
    map.insert(4);
    let vals: Vec<u32> = map.values().into_iter().copied().collect();
    assert_eq!(vec![2, 3, 4], vals);

    let mut map = SlotMapStandard::<u32>::new();
    map.insert(7);
    let b = map.insert(8);
    map.insert(9);
    map.remove(b);
    let vals: Vec<u32> = map.values().into_iter().copied().collect();
    assert_eq!(vec![7, 9], vals);
}

#[test]
fn occupied_slots_ascend() {
    let mut map = SlotMapOptimized::<u32>::new();
    let a = map.insert(1);
    map.insert(2);
    map.insert(3);
    map.remove(a);
    map.insert(4);
    assert_eq!(vec![0, 1, 2], map.occupied_slots());
    assert_eq!(vec![1, 2, 0], map.occupied_indices());
}

#[test]
fn law_with_capacity_behaves_like_new_example() {
    let mut a = SlotMapStandard::<u32>::with_capacity(64);
    let mut b = SlotMapStandard::<u32>::new();
    assert_eq!(a.insert(1), b.insert(1));
    let ia = a.insert(2);
    let ib = b.insert(2);
    assert_eq!(ia, ib);
    a.remove(ia);
    b.remove(ib);
    assert_eq!(a.insert(3), b.insert(3));
    assert_eq!(a.head(), b.head());
    assert_eq!(a.tail(), b.tail());
    assert_eq!(a.free_head(), b.free_head());
    assert_eq!(a.total(), b.total());
    assert_eq!(a.capacity(), b.capacity());
}
