use shared::{
    OrderSide,
    final_ver::order_matcher::{MatcherCommand, OrderMatcher},
};

#[test]
fn unresolved_spread() {
    let mut matcher = OrderMatcher::new(16, 16);
    matcher.process(MatcherCommand::new_limit_order(OrderSide::Bid, 10, 1));
    matcher.process(MatcherCommand::new_limit_order(OrderSide::Ask, 100, 1));

    assert_eq!(Some(10), matcher.best_bid());
    assert_eq!(Some(100), matcher.best_ask());
    assert_eq!(1, matcher.total_volume_at(OrderSide::Bid, 10));
    assert_eq!(1, matcher.total_volume_at(OrderSide::Ask, 100));
}

#[test]
fn full_fill_order() {
    let mut matcher = OrderMatcher::new(16, 16);
    matcher.process(MatcherCommand::new_limit_order(OrderSide::Bid, 100, 1));
    matcher.process(MatcherCommand::new_limit_order(OrderSide::Ask, 100, 1));

    assert_eq!(None, matcher.best_bid());
    assert_eq!(None, matcher.best_ask());
    assert_eq!(0, matcher.total_volume_at(OrderSide::Bid, 100));
    assert_eq!(0, matcher.total_volume_at(OrderSide::Ask, 100));
}

#[test]
fn partial_fill_order() {
    let mut matcher = OrderMatcher::new(16, 16);
    matcher.process(MatcherCommand::new_limit_order(OrderSide::Bid, 100, 2));
    matcher.process(MatcherCommand::new_limit_order(OrderSide::Ask, 100, 1));

    assert_eq!(Some(100), matcher.best_bid());
    assert_eq!(None, matcher.best_ask());
    assert_eq!(1, matcher.total_volume_at(OrderSide::Bid, 100));
    assert_eq!(0, matcher.total_volume_at(OrderSide::Ask, 100));
}

#[test]
fn full_sweep_orders() {
    let mut matcher = OrderMatcher::new(16, 16);
    matcher.process(MatcherCommand::new_limit_order(OrderSide::Bid, 100, 10));
    matcher.process(MatcherCommand::new_limit_order(OrderSide::Bid, 101, 10));
    matcher.process(MatcherCommand::new_limit_order(OrderSide::Bid, 102, 10));
    matcher.process(MatcherCommand::new_limit_order(OrderSide::Ask, 90, 30));

    assert_eq!(None, matcher.best_bid());
    assert_eq!(None, matcher.best_ask());
    assert_eq!(0, matcher.total_volume_at(OrderSide::Bid, 100));
    assert_eq!(0, matcher.total_volume_at(OrderSide::Bid, 101));
    assert_eq!(0, matcher.total_volume_at(OrderSide::Bid, 102));
    assert_eq!(0, matcher.total_volume_at(OrderSide::Ask, 100));
}

#[test]
fn partial_sweep_orders() {
    let mut matcher = OrderMatcher::new(16, 16);
    matcher.process(MatcherCommand::new_limit_order(OrderSide::Bid, 100, 1000));
    matcher.process(MatcherCommand::new_limit_order(OrderSide::Ask, 100, 10));

    assert_eq!(Some(100), matcher.best_bid());
    assert_eq!(None, matcher.best_ask());
    assert_eq!(990, matcher.total_volume_at(OrderSide::Bid, 100));
    assert_eq!(0, matcher.total_volume_at(OrderSide::Ask, 100));
}

#[test]
fn highest_price_first() {
    let mut matcher = OrderMatcher::new(16, 16);
    matcher.process(MatcherCommand::new_limit_order(OrderSide::Bid, 110, 1));
    matcher.process(MatcherCommand::new_limit_order(OrderSide::Bid, 100, 1));
    matcher.process(MatcherCommand::new_limit_order(OrderSide::Ask, 100, 1));

    assert_eq!(Some(100), matcher.best_bid());
    assert_eq!(None, matcher.best_ask());
    assert_eq!(0, matcher.total_volume_at(OrderSide::Bid, 110));
    assert_eq!(1, matcher.total_volume_at(OrderSide::Bid, 100));
    assert_eq!(0, matcher.total_volume_at(OrderSide::Ask, 100));
}

#[test]
fn orders_fifo_sorted() {
    let mut matcher = OrderMatcher::new(16, 16);
    let first_bid_id = matcher.process(MatcherCommand::new_limit_order(OrderSide::Bid, 100, 1));
    let last_bid_id = matcher.process(MatcherCommand::new_limit_order(OrderSide::Bid, 100, 1));
    matcher.process(MatcherCommand::new_limit_order(OrderSide::Ask, 100, 1));

    let first_bid = matcher.order_book.get_order(first_bid_id.unwrap());
    let last_bid = matcher.order_book.get_order(last_bid_id.unwrap());

    assert!(first_bid.is_none());
    assert!(last_bid.is_some());
    assert_eq!(1, matcher.total_volume_at(OrderSide::Bid, 100));
    assert_eq!(0, matcher.total_volume_at(OrderSide::Ask, 100));
}

#[test]
fn cancel_head_keeps_fifo_sorted() {
    let mut matcher = OrderMatcher::new(16, 16);
    let first_bid_id = matcher.process(MatcherCommand::new_limit_order(OrderSide::Bid, 100, 1));
    let last_bid_id = matcher.process(MatcherCommand::new_limit_order(OrderSide::Bid, 100, 1));
    matcher.process(MatcherCommand::CancelOrder(first_bid_id.clone().unwrap()));
    matcher.process(MatcherCommand::new_limit_order(OrderSide::Ask, 100, 1));

    let first_bid = matcher.order_book.get_order(first_bid_id.unwrap());
    let last_bid = matcher.order_book.get_order(last_bid_id.unwrap());

    assert!(first_bid.is_none());
    assert!(last_bid.is_none());
    assert_eq!(0, matcher.total_volume_at(OrderSide::Bid, 100));
    assert_eq!(0, matcher.total_volume_at(OrderSide::Ask, 100));
}

#[test]
fn cancel_middle_keeps_fifo_sorted() {
    let mut matcher = OrderMatcher::new(16, 16);
    let first_bid_id = matcher.process(MatcherCommand::new_limit_order(OrderSide::Bid, 100, 1));
    let mid_bid_id = matcher.process(MatcherCommand::new_limit_order(OrderSide::Bid, 100, 1));
    let last_bid_id = matcher.process(MatcherCommand::new_limit_order(OrderSide::Bid, 100, 1));

    matcher.process(MatcherCommand::CancelOrder(mid_bid_id.clone().unwrap()));
    matcher.process(MatcherCommand::new_limit_order(OrderSide::Ask, 100, 2));

    let first_bid = matcher.order_book.get_order(first_bid_id.unwrap());
    let mid_bid = matcher.order_book.get_order(mid_bid_id.unwrap());
    let last_bid = matcher.order_book.get_order(last_bid_id.unwrap());

    assert!(first_bid.is_none());
    assert!(mid_bid.is_none());
    assert!(last_bid.is_none());
    assert_eq!(0, matcher.total_volume_at(OrderSide::Bid, 100));
    assert_eq!(0, matcher.total_volume_at(OrderSide::Ask, 100));
}

#[test]
fn cancel_of_last_order_gives_chunk_back() {
    let mut matcher = OrderMatcher::new(2, 2);
    assert_eq!(2, matcher.order_book.arena.free_count());
    let id = matcher.process(MatcherCommand::new_limit_order(OrderSide::Bid, 100, 1)).unwrap();
    assert_eq!(1, matcher.order_book.arena.free_count());
    matcher.process(MatcherCommand::CancelOrder(id));
    assert_eq!(2, matcher.order_book.arena.free_count());
    assert_eq!(None, matcher.best_bid());
}

#[test]
fn freed_slot_of_a_level_is_reused_first() {
    let mut matcher = OrderMatcher::new(4, 4);
    let a = matcher.process(MatcherCommand::new_limit_order(OrderSide::Bid, 100, 1)).unwrap();
    let _b = matcher.process(MatcherCommand::new_limit_order(OrderSide::Bid, 100, 1)).unwrap();
    matcher.process(MatcherCommand::CancelOrder(a.clone()));
    let c = matcher.process(MatcherCommand::new_limit_order(OrderSide::Bid, 100, 1)).unwrap();
    assert_eq!(a.index, c.index);
    assert_eq!(3, matcher.order_book.arena.free_count());
    assert_eq!(2, matcher.total_volume_at(OrderSide::Bid, 100));
}

#[test]
fn matcher_over_a_given_arena() {
    let arena = shared::final_ver::arena_slot_allocator::ArenaSlotAllocator::new(4, 8);
    let mut matcher = OrderMatcher::from_arena(arena);
    matcher.process(MatcherCommand::new_limit_order(OrderSide::Ask, 50, 3));
    let rest = matcher.process(MatcherCommand::new_limit_order(OrderSide::Bid, 60, 5));
    assert!(rest.is_some());
    assert_eq!(None, matcher.best_ask());
    assert_eq!(Some(60), matcher.best_bid());
    assert_eq!(2, matcher.total_volume_at(OrderSide::Bid, 60));
}

#[test]
fn final_process_takes_min_from_other_side() {
    let mut matcher = OrderMatcher::new(16, 16);
    matcher.process(MatcherCommand::new_limit_order(OrderSide::Ask, 100, 4));
    matcher.process(MatcherCommand::new_limit_order(OrderSide::Ask, 105, 6));
    matcher.process(MatcherCommand::new_limit_order(OrderSide::Ask, 120, 9));
    let rest = matcher.process(MatcherCommand::new_limit_order(OrderSide::Bid, 110, 15));
    assert!(rest.is_some());
    assert_eq!(0, matcher.total_volume_at(OrderSide::Ask, 100));
    assert_eq!(0, matcher.total_volume_at(OrderSide::Ask, 105));
    assert_eq!(9, matcher.total_volume_at(OrderSide::Ask, 120));
    assert_eq!(5, matcher.total_volume_at(OrderSide::Bid, 110));
}

#[test]
fn final_book_stays_uncrossed_with_positive_levels() {
    let mut matcher = OrderMatcher::new(16, 16);
    matcher.process(MatcherCommand::new_limit_order(OrderSide::Bid, 100, 5));
    matcher.process(MatcherCommand::new_limit_order(OrderSide::Ask, 110, 5));
    matcher.process(MatcherCommand::new_limit_order(OrderSide::Ask, 95, 3));
    let ask = matcher.best_ask().unwrap();
    let bid = matcher.best_bid().unwrap();
    assert!(bid < ask);
    assert!(matcher.total_volume_at(OrderSide::Ask, ask as u32) > 0);
    assert!(matcher.total_volume_at(OrderSide::Bid, bid as u32) > 0);
    assert_eq!(2, matcher.total_volume_at(OrderSide::Bid, 100));
}
