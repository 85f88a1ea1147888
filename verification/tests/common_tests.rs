use shared::{LimitOrder, OrderSide};

#[test]
fn side_from_signed_byte() {
    assert_eq!(OrderSide::Bid, OrderSide::from(1i8));
    let ask: OrderSide = 0i8.into();
    assert_eq!(OrderSide::Ask, ask);
    assert_eq!(OrderSide::Ask, OrderSide::from(-1i8));
}

#[test]
fn limit_order_new_keeps_fields() {
    let order = LimitOrder::new(7u64, OrderSide::Ask, 99, 3);
    assert_eq!((7, OrderSide::Ask, 99, 3), (order.id, order.side, order.limit, order.amount));
}

#[test]
fn record_to_request() {
    let r = shared::request_of_record(1, 1, 5, 100).unwrap();
    assert_eq!(OrderSide::Bid, r.side);
    assert_eq!(5, r.amount);
    assert_eq!(100, r.limit);
    let r = shared::request_of_record(1, -1, 5, 100).unwrap();
    assert_eq!(OrderSide::Ask, r.side);
    assert!(shared::request_of_record(2, 1, 5, 100).is_none());
}
