use shared::engine::v3_slot_map::book::OrderBook;
use shared::{LimitOrderRequest, OrderBookExt, OrderSide};

fn request(side: OrderSide, limit: u64, amount: u64) -> LimitOrderRequest {
    LimitOrderRequest { side, limit, amount }
}

#[test]
fn engine_v3_place_and_get() {
    let mut book = OrderBook::new();
    let a = book.place_order(request(OrderSide::Bid, 10, 3));
    let b = book.place_order(request(OrderSide::Bid, 10, 4));
    assert_eq!(2, book.capacity());
    let oa = book.get_order(a).unwrap();
    assert_eq!((10, 3, 0), (oa.limit, oa.amount, oa.id));
    let ob = book.get_order(b).unwrap();
    assert_eq!((10, 4, 1), (ob.limit, ob.amount, ob.id));
}

#[test]
fn engine_v3_cancel_removes_empty_level() {
    let mut book = OrderBook::new();
    let a = book.place_order(request(OrderSide::Ask, 20, 1));
    assert_eq!(1, book.asks.len());
    book.cancel_order(a);
    assert_eq!(0, book.asks.len());
    assert_eq!(0, book.capacity());
    assert!(book.get_order(a).is_none());
}

#[test]
fn engine_v3_cancel_unknown_is_ignored() {
    let mut book = OrderBook::new();
    let a = book.place_order(request(OrderSide::Ask, 20, 1));
    book.cancel_order(a);
    book.cancel_order(a);
    assert_eq!(0, book.capacity());
}

#[test]
fn engine_v3_freed_slot_reused() {
    let mut book = OrderBook::new();
    let a = book.place_order(request(OrderSide::Ask, 20, 1));
    let _b = book.place_order(request(OrderSide::Ask, 21, 1));
    book.cancel_order(a);
    let c = book.place_order(request(OrderSide::Bid, 5, 2));
    assert_eq!(a, c);
}
