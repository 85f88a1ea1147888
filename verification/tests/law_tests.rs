use shared::ob_standard::OrderMatcher;
use shared::{LimitOrderRequest, MatcherCommand, OrderBookExt, OrderMatcherExt, OrderSide};

fn limit_order(side: OrderSide, limit: u64, amount: u64) -> MatcherCommand<LimitOrderRequest, u64> {
    MatcherCommand::PlaceOrder(LimitOrderRequest { side, limit, amount })
}

#[test]
fn law_place_then_cancel_restores_book() {
    let mut matcher = OrderMatcher::new();
    matcher.process(limit_order(OrderSide::Bid, 90, 5));
    let before_bid = matcher.total_volume_at(OrderSide::Bid, 90);
    let id = matcher.process(limit_order(OrderSide::Bid, 90, 7)).unwrap();
    matcher.process(MatcherCommand::CancelOrder(id));
    assert_eq!(before_bid, matcher.total_volume_at(OrderSide::Bid, 90));
    assert_eq!(1, matcher.order_book().capacity());
    assert_eq!(Some(90), matcher.best_bid());
}

#[test]
fn law_place_adds_volume_example() {
    let mut matcher = OrderMatcher::new();
    matcher.process(limit_order(OrderSide::Ask, 120, 5));
    matcher.process(limit_order(OrderSide::Ask, 120, 8));
    assert_eq!(13, matcher.total_volume_at(OrderSide::Ask, 120));
}

#[test]
fn law_fill_conserves_example() {
    let mut matcher = OrderMatcher::new();
    matcher.process(limit_order(OrderSide::Ask, 100, 4));
    matcher.process(limit_order(OrderSide::Ask, 101, 6));
    let resting_before = matcher.total_volume_at(OrderSide::Ask, 100) + matcher.total_volume_at(OrderSide::Ask, 101);
    let id = matcher.process(limit_order(OrderSide::Bid, 101, 7)).unwrap_or(u64::MAX);
    let resting_after = matcher.total_volume_at(OrderSide::Ask, 100) + matcher.total_volume_at(OrderSide::Ask, 101);
    assert_eq!(u64::MAX, id);
    assert_eq!(7, resting_before - resting_after);
}

#[test]
fn law_rest_not_crossed_example() {
    let mut matcher = OrderMatcher::new();
    matcher.process(limit_order(OrderSide::Ask, 100, 4));
    matcher.process(limit_order(OrderSide::Ask, 105, 4));
    let id = matcher.process(limit_order(OrderSide::Bid, 102, 10)).unwrap();
    assert_eq!(6, matcher.order_book().get_order(id).unwrap().amount);
    assert_eq!(Some(105), matcher.best_ask());
    assert_eq!(Some(102), matcher.best_bid());
}

#[test]
fn law_fill_takes_min_example() {
    let mut matcher = OrderMatcher::new();
    matcher.process(limit_order(OrderSide::Bid, 100, 10));
    let rest = matcher.process(limit_order(OrderSide::Ask, 100, 25));
    assert!(rest.is_some());
    assert_eq!(15, matcher.total_volume_at(OrderSide::Ask, 100));
    assert_eq!(0, matcher.total_volume_at(OrderSide::Bid, 100));

    let mut matcher = OrderMatcher::new();
    matcher.process(limit_order(OrderSide::Bid, 100, 10));
    let rest = matcher.process(limit_order(OrderSide::Ask, 100, 4));
    assert!(rest.is_none());
    assert_eq!(6, matcher.total_volume_at(OrderSide::Bid, 100));
}

#[test]
fn fresh_matcher_has_room() {
    let mut matcher = OrderMatcher::new();
    assert!(matcher.has_room());
    matcher.process(limit_order(OrderSide::Bid, 100, 10));
    assert!(matcher.has_room());
}

#[test]
fn law_process_keeps_uncrossed_example() {
    let mut matcher = OrderMatcher::new();
    matcher.process(limit_order(OrderSide::Bid, 100, 5));
    matcher.process(limit_order(OrderSide::Ask, 110, 5));
    matcher.process(limit_order(OrderSide::Bid, 115, 8));
    let bid = matcher.best_bid().unwrap();
    assert_eq!(115, bid);
    assert_eq!(None, matcher.best_ask());
    matcher.process(limit_order(OrderSide::Ask, 90, 20));
    assert_eq!(None, matcher.best_bid());
    assert_eq!(Some(90), matcher.best_ask());
}

#[test]
fn law_process_keeps_amounts_positive_example() {
    let mut matcher = OrderMatcher::new();
    matcher.process(limit_order(OrderSide::Ask, 100, 4));
    matcher.process(limit_order(OrderSide::Ask, 100, 6));
    matcher.process(limit_order(OrderSide::Bid, 100, 7));
    assert_eq!(3, matcher.total_volume_at(OrderSide::Ask, 100));
    assert_eq!(1, matcher.order_book().capacity());
}

#[test]
fn law_levels_have_volume_example() {
    let mut matcher = OrderMatcher::new();
    matcher.process(limit_order(OrderSide::Ask, 101, 1));
    matcher.process(limit_order(OrderSide::Ask, 103, 2));
    matcher.process(limit_order(OrderSide::Bid, 101, 1));
    let best = matcher.best_ask().unwrap();
    assert_eq!(103, best);
    assert!(matcher.total_volume_at(OrderSide::Ask, best) > 0);
}
