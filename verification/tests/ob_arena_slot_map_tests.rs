use shared::ob_arena_slot_map::{ArenaId, OrderMatcher, PriceLevel, SlotArena};
use shared::{LimitOrderRequest, MatcherCommand, OrderBookExt, OrderMatcherExt, OrderSide};

fn limit_order(side: OrderSide, limit: u64, amount: u64) -> MatcherCommand<LimitOrderRequest, ArenaId> {
    MatcherCommand::PlaceOrder(LimitOrderRequest { side, limit, amount })
}

#[test]
fn arena_unresolved_spread() {
    let mut matcher = OrderMatcher::new();
    matcher.process(limit_order(OrderSide::Bid, 10, 1));
    matcher.process(limit_order(OrderSide::Ask, 100, 1));

    assert_eq!(Some(10), matcher.best_bid());
    assert_eq!(Some(100), matcher.best_ask());
    assert_eq!(1, matcher.total_volume_at(OrderSide::Bid, 10));
    assert_eq!(1, matcher.total_volume_at(OrderSide::Ask, 100));
}

#[test]
fn arena_full_sweep_orders() {
    let mut matcher = OrderMatcher::new();
    matcher.process(limit_order(OrderSide::Bid, 100, 10));
    matcher.process(limit_order(OrderSide::Bid, 101, 10));
    matcher.process(limit_order(OrderSide::Bid, 102, 10));
    let rest = matcher.process(limit_order(OrderSide::Ask, 90, 30));

    assert_eq!(None, rest);
    assert_eq!(None, matcher.best_bid());
    assert_eq!(None, matcher.best_ask());
    assert_eq!(0, matcher.order_book().capacity());
}

#[test]
fn arena_highest_bid_fills_first() {
    let mut matcher = OrderMatcher::new();
    matcher.process(limit_order(OrderSide::Bid, 110, 1));
    matcher.process(limit_order(OrderSide::Bid, 100, 1));
    matcher.process(limit_order(OrderSide::Ask, 100, 1));

    assert_eq!(Some(100), matcher.best_bid());
    assert_eq!(0, matcher.total_volume_at(OrderSide::Bid, 110));
    assert_eq!(1, matcher.total_volume_at(OrderSide::Bid, 100));
}

#[test]
fn arena_partial_fill_rests_remainder() {
    let mut matcher = OrderMatcher::new();
    matcher.process(limit_order(OrderSide::Ask, 50, 3));
    let id = matcher.process(limit_order(OrderSide::Bid, 60, 5)).unwrap();

    let order = matcher.order_book().get_order(id).unwrap();
    assert_eq!(2, order.amount);
    assert_eq!(Some(60), matcher.best_bid());
    assert_eq!(None, matcher.best_ask());
}

#[test]
fn arena_cancel_removes_order_and_level() {
    let mut matcher = OrderMatcher::new();
    let id = matcher.process(limit_order(OrderSide::Ask, 70, 4)).unwrap();
    assert_eq!(1, matcher.order_book().capacity());
    assert_eq!(None, matcher.process(MatcherCommand::CancelOrder(id)));
    assert!(matcher.order_book().get_order(id).is_none());
    assert_eq!(None, matcher.best_ask());
}

#[test]
fn arena_best_bid_is_lowest_bid_price() {
    let mut matcher = OrderMatcher::new();
    matcher.process(limit_order(OrderSide::Bid, 100, 1));
    matcher.process(limit_order(OrderSide::Bid, 90, 1));
    assert_eq!(Some(90), matcher.best_bid());
}

#[test]
fn arena_fifo_within_level() {
    let mut matcher = OrderMatcher::new();
    let first = matcher.process(limit_order(OrderSide::Ask, 50, 2)).unwrap();
    let second = matcher.process(limit_order(OrderSide::Ask, 50, 3)).unwrap();
    matcher.process(limit_order(OrderSide::Bid, 50, 3));
    assert!(matcher.order_book().get_order(first).is_none());
    assert_eq!(2, matcher.order_book().get_order(second).unwrap().amount);
    assert_eq!(2, matcher.total_volume_at(OrderSide::Ask, 50));
}

#[test]
fn arena_order_records_its_position() {
    let mut matcher = OrderMatcher::new();
    let id = matcher.process(limit_order(OrderSide::Bid, 42, 7)).unwrap();
    let order = matcher.order_book().get_order(id).unwrap();
    assert_eq!(id.chunk_id, order.id.chunk_id);
    assert_eq!(id.slot_id, order.id.slot_id);
    assert_eq!(42, order.limit);
}

#[test]
fn arena_slot_arena_claim_release() {
    let mut arena: SlotArena<u32> = SlotArena::with_capacity(3, 4);
    assert_eq!(3, arena.chunks.len());
    assert_eq!(vec![0, 1, 2], arena.free_chunks);
    assert_eq!(2, arena.claim());
    assert_eq!(1, arena.claim());
    arena.release(2);
    assert_eq!(vec![0, 2], arena.free_chunks);
}

#[test]
fn arena_price_level_spills_into_new_chunk() {
    let mut arena: SlotArena<u32> = SlotArena::with_capacity(3, 2);
    let mut level = PriceLevel::new(7, &mut arena);
    assert_eq!(vec![2], level.chunk_ids);
    let a = level.insert(&mut arena, 10);
    let b = level.insert(&mut arena, 11);
    let c = level.insert(&mut arena, 12);
    assert_eq!((2, 0), (a.chunk_id, a.slot_id));
    assert_eq!((2, 1), (b.chunk_id, b.slot_id));
    assert_eq!((1, 0), (c.chunk_id, c.slot_id));
    assert_eq!(vec![2, 1], level.chunk_ids);
    assert_eq!(Some(&12), arena.get(c));
    assert!(!level.is_empty(&arena));

    level.remove(&mut arena, c);
    assert_eq!(vec![2], level.chunk_ids);
    assert_eq!(vec![0, 1], arena.free_chunks);
    level.remove(&mut arena, a);
    level.remove(&mut arena, b);
    assert!(level.chunk_ids.is_empty());
    assert!(level.is_empty(&arena));
}

#[test]
fn arena_id_new_keeps_fields() {
    let id = ArenaId::new(3, 9);
    assert_eq!(3, id.chunk_id);
    assert_eq!(9, id.slot_id);
}
