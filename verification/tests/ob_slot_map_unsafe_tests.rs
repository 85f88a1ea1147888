use shared::ob_slot_map_unsafe::OrderMatcher;
use shared::{LimitOrderRequest, MatcherCommand, OrderBookExt, OrderMatcherExt, OrderSide};

fn limit_order(side: OrderSide, limit: u64, amount: u64) -> MatcherCommand<LimitOrderRequest, u32> {
    MatcherCommand::PlaceOrder(LimitOrderRequest { side, limit, amount })
}

#[test]
fn slot_map_unsafe_unresolved_spread() {
    let mut matcher = OrderMatcher::new();
    matcher.process(limit_order(OrderSide::Bid, 10, 1));
    matcher.process(limit_order(OrderSide::Ask, 100, 1));

    assert_eq!(Some(10), matcher.best_bid());
    assert_eq!(Some(100), matcher.best_ask());
    assert_eq!(1, matcher.total_volume_at(OrderSide::Bid, 10));
    assert_eq!(1, matcher.total_volume_at(OrderSide::Ask, 100));
}

#[test]
fn slot_map_unsafe_full_sweep_orders() {
    let mut matcher = OrderMatcher::new();
    matcher.process(limit_order(OrderSide::Bid, 100, 10));
    matcher.process(limit_order(OrderSide::Bid, 101, 10));
    matcher.process(limit_order(OrderSide::Bid, 102, 10));
    let rest = matcher.process(limit_order(OrderSide::Ask, 90, 30));

    assert_eq!(None, rest);
    assert_eq!(None, matcher.best_bid());
    assert_eq!(None, matcher.best_ask());
    assert_eq!(0, matcher.order_book().capacity());
}

#[test]
fn slot_map_unsafe_highest_bid_fills_first() {
    let mut matcher = OrderMatcher::new();
    matcher.process(limit_order(OrderSide::Bid, 110, 1));
    matcher.process(limit_order(OrderSide::Bid, 100, 1));
    matcher.process(limit_order(OrderSide::Ask, 100, 1));

    assert_eq!(Some(100), matcher.best_bid());
    assert_eq!(0, matcher.total_volume_at(OrderSide::Bid, 110));
    assert!(matcher.order_book().bids.len() == 2);
    assert_eq!(1, matcher.total_volume_at(OrderSide::Bid, 100));
}

#[test]
fn slot_map_unsafe_partial_fill_rests_remainder() {
    let mut matcher = OrderMatcher::new();
    matcher.process(limit_order(OrderSide::Ask, 50, 3));
    let id = matcher.process(limit_order(OrderSide::Bid, 60, 5)).unwrap();

    let order = matcher.order_book().get_order(id).unwrap();
    assert_eq!(2, order.amount);
    assert_eq!(Some(60), matcher.best_bid());
    assert_eq!(None, matcher.best_ask());
}

#[test]
fn slot_map_unsafe_cancel_removes_order_and_level() {
    let mut matcher = OrderMatcher::new();
    let id = matcher.process(limit_order(OrderSide::Ask, 70, 4)).unwrap();
    assert_eq!(1, matcher.order_book().capacity());
    assert_eq!(None, matcher.process(MatcherCommand::CancelOrder(id)));
    assert!(matcher.order_book().get_order(id).is_none());
    assert_eq!(None, matcher.best_ask());
}

#[test]
fn slot_map_unsafe_best_bid_is_lowest_kept_level() {
    let mut matcher = OrderMatcher::new();
    matcher.process(limit_order(OrderSide::Bid, 100, 1));
    matcher.process(limit_order(OrderSide::Bid, 90, 1));
    assert_eq!(Some(90), matcher.best_bid());
    matcher.process(limit_order(OrderSide::Ask, 80, 1));
    // The level at 100 was filled first and stays, empty; 90 is still the lowest.
    assert_eq!(Some(90), matcher.best_bid());
    assert_eq!(0, matcher.total_volume_at(OrderSide::Bid, 100));
}

#[test]
fn slot_map_unsafe_empty_level_hides_best_price() {
    let mut matcher = OrderMatcher::new();
    let id = matcher.process(limit_order(OrderSide::Ask, 70, 4)).unwrap();
    matcher.process(limit_order(OrderSide::Ask, 75, 4));
    matcher.process(MatcherCommand::CancelOrder(id));
    // The emptied level at 70 is kept, and as the lowest ask level it answers.
    assert_eq!(None, matcher.best_ask());
    assert_eq!(4, matcher.total_volume_at(OrderSide::Ask, 75));
}

#[test]
fn slot_map_unsafe_order_records_its_level_slot() {
    let mut matcher = OrderMatcher::new();
    let a = matcher.process(limit_order(OrderSide::Ask, 70, 4)).unwrap();
    let b = matcher.process(limit_order(OrderSide::Ask, 70, 5)).unwrap();
    assert_eq!(0, matcher.order_book().get_order(a).unwrap().id);
    assert_eq!(1, matcher.order_book().get_order(b).unwrap().id);
    assert_eq!(9, matcher.total_volume_at(OrderSide::Ask, 70));
}
