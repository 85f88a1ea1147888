use shared::final_ver::arena_slot_allocator::ArenaSlotAllocator;

#[test]
fn test_init() {
    let arena = ArenaSlotAllocator::new(1, 2);

    assert_eq!(1, arena.chunk_count());
    assert_eq!(2, arena.chunk_size());
    assert_eq!(1, arena.free_count());
    assert_eq!(2, arena.slot_count());
}

#[test]
fn test_release() {
    let mut arena = ArenaSlotAllocator::new(1, 2);

    assert_eq!(1, arena.free_count());
    let chunk_index = arena.claim_chunk();
    arena.release_chunk(chunk_index);
    assert_eq!(1, arena.free_count());
}

#[test]
fn test_multi_chunk_claim_order() {
    let mut arena = ArenaSlotAllocator::new(3, 2);
    assert_eq!(3, arena.free_count());

    let chunk1 = arena.claim_chunk();
    let chunk2 = arena.claim_chunk();
    let chunk3 = arena.claim_chunk();

    assert_eq!(0, arena.free_count());
    assert_ne!(chunk1.0, chunk2.0);
    assert_ne!(chunk2.0, chunk3.0);
}

#[test]
fn test_fragmented_release_and_reclaim() {
    let mut arena = ArenaSlotAllocator::new(3, 2);

    let _chunk0 = arena.claim_chunk();
    let chunk1 = arena.claim_chunk();
    let _chunk2 = arena.claim_chunk();

    let chunk1_val = chunk1.0;
    arena.release_chunk(chunk1);
    assert_eq!(1, arena.free_count());

    let recycled_chunk = arena.claim_chunk();
    assert_eq!(chunk1_val, recycled_chunk.0);
    assert_eq!(0, arena.free_count());
}

#[test]
fn claim_takes_lowest_fresh_chunk_first() {
    let mut arena = ArenaSlotAllocator::new(3, 4);
    assert_eq!(0, arena.claim_chunk().0);
    assert_eq!(1, arena.claim_chunk().0);
    assert_eq!(2, arena.claim_chunk().0);
    assert_eq!(12, arena.slot_count());
}
