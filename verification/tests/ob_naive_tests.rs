use shared::ob_naive::{OrderMatcher, PriceLevel};
use shared::{LimitOrderRequest, MatcherCommand, OrderBookExt, OrderMatcherExt, OrderSide};

fn limit_order(side: OrderSide, limit: u64, amount: u64) -> MatcherCommand<LimitOrderRequest, u64> {
    MatcherCommand::PlaceOrder(LimitOrderRequest { side, limit, amount })
}

#[test]
fn naive_unresolved_spread() {
    let mut matcher = OrderMatcher::new();
    matcher.process(limit_order(OrderSide::Bid, 10, 1));
    matcher.process(limit_order(OrderSide::Ask, 100, 1));

    assert_eq!(Some(10), matcher.best_bid());
    assert_eq!(Some(100), matcher.best_ask());
    assert_eq!(1, matcher.total_volume_at(OrderSide::Bid, 10));
    assert_eq!(1, matcher.total_volume_at(OrderSide::Ask, 100));
}

#[test]
fn naive_full_sweep_orders() {
    let mut matcher = OrderMatcher::new();
    matcher.process(limit_order(OrderSide::Bid, 100, 10));
    matcher.process(limit_order(OrderSide::Bid, 101, 10));
    matcher.process(limit_order(OrderSide::Bid, 102, 10));
    let rest = matcher.process(limit_order(OrderSide::Ask, 90, 30));

    assert_eq!(None, rest);
    assert_eq!(None, matcher.best_bid());
    assert_eq!(None, matcher.best_ask());
    assert_eq!(0, matcher.order_book().capacity());
}

#[test]
fn naive_highest_bid_fills_first() {
    let mut matcher = OrderMatcher::new();
    matcher.process(limit_order(OrderSide::Bid, 110, 1));
    matcher.process(limit_order(OrderSide::Bid, 100, 1));
    matcher.process(limit_order(OrderSide::Ask, 100, 1));

    assert_eq!(Some(100), matcher.best_bid());
    assert_eq!(0, matcher.total_volume_at(OrderSide::Bid, 110));
    assert_eq!(1, matcher.total_volume_at(OrderSide::Bid, 100));
}

#[test]
fn naive_partial_fill_rests_remainder() {
    let mut matcher = OrderMatcher::new();
    matcher.process(limit_order(OrderSide::Ask, 50, 3));
    let id = matcher.process(limit_order(OrderSide::Bid, 60, 5)).unwrap();

    let order = matcher.order_book().get_order(id).unwrap();
    assert_eq!(2, order.amount);
    assert_eq!(Some(60), matcher.best_bid());
    assert_eq!(None, matcher.best_ask());
}

#[test]
fn naive_cancel_removes_order_and_level() {
    let mut matcher = OrderMatcher::new();
    let id = matcher.process(limit_order(OrderSide::Ask, 70, 4)).unwrap();
    assert_eq!(1, matcher.order_book().capacity());
    assert_eq!(None, matcher.process(MatcherCommand::CancelOrder(id)));
    assert!(matcher.order_book().get_order(id).is_none());
    assert_eq!(None, matcher.best_ask());
}

#[test]
fn naive_levels_kept_in_serving_order() {
    let mut matcher = OrderMatcher::new();
    matcher.process(limit_order(OrderSide::Bid, 100, 1));
    matcher.process(limit_order(OrderSide::Bid, 120, 1));
    matcher.process(limit_order(OrderSide::Bid, 110, 1));
    matcher.process(limit_order(OrderSide::Ask, 130, 1));
    matcher.process(limit_order(OrderSide::Ask, 125, 1));

    let bids: Vec<u64> = matcher.order_book().bids.iter().map(|l| l.price).collect();
    let asks: Vec<u64> = matcher.order_book().asks.iter().map(|l| l.price).collect();
    assert_eq!(vec![120, 110, 100], bids);
    assert_eq!(vec![125, 130], asks);
}

#[test]
fn naive_price_level_constructors() {
    let empty = PriceLevel::empty(42);
    assert_eq!(42, empty.price);
    assert!(empty.order_ids.is_empty());
    let single = PriceLevel::from_order(43, 7);
    assert_eq!(43, single.price);
    assert_eq!(vec![7], single.order_ids);
}
