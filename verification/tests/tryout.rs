use shared::final_ver::arena_slot_map::ArenaSlot;
use shared::ob_arena_slot_map::ArenaId;
use shared::slot_map::optimized::Slot;
use shared::LimitOrder;

#[test]
pub fn tryout_random() {
    println!("Slot<u32>: {}", std::mem::size_of::<Slot<u32>>());
    println!("Slot<usize>: {}", std::mem::size_of::<Slot<usize>>());
    println!("Slot<LimitOrder<u32>>: {}", std::mem::size_of::<Slot<LimitOrder<u32>>>());

    println!("Slot<LimitOrder<ArenaId>>: {}", std::mem::size_of::<Slot<LimitOrder<ArenaId>>>());

    println!("ArenaSlot<LimitOrder>-size: {}", std::mem::size_of::<ArenaSlot>());
    println!("ArenaSlot<LimitOrder>-align: {}", std::mem::align_of::<ArenaSlot>());
}
