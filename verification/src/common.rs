use vstd::prelude::*;

verus! {

/// Identifier of an order in a book that counts its orders.
#[derive(Default, Debug, Clone, Copy, PartialEq, Eq, Hash)]
pub struct OrderId(pub usize);

/// The side of an order: a bid buys, an ask sells.
#[derive(Clone, Copy, Debug, PartialEq, Eq, Structural)]
pub enum OrderSide {
    Bid,
    Ask,
}

impl OrderSide {
    /// The other side.
    pub open spec fn opposite(self) -> OrderSide {
        match self {
            OrderSide::Bid => OrderSide::Ask,
            OrderSide::Ask => OrderSide::Bid,
        }
    }
}

/// The side that a record of a market data file gives as a signed byte:
/// `1` is a bid, every other value an ask.
impl From<i8> for OrderSide {
    fn from(val: i8) -> (side: Self) {
        if val == 1 {
            Self::Bid
        } else {
            Self::Ask
        }
    }
}

impl vstd::std_specs::convert::FromSpecImpl<i8> for OrderSide {
    open spec fn obeys_from_spec() -> bool {
        true
    }

    open spec fn from_spec(val: i8) -> OrderSide {
        if val == 1 {
            OrderSide::Bid
        } else {
            OrderSide::Ask
        }
    }
}

/// A resting limit order: who placed it, on which side, at which limit price,
/// and how much of it is still open.
pub struct LimitOrder<ID> {
    pub id: ID,
    pub side: OrderSide,
    pub limit: u64,
    pub amount: u64,
}

impl<ID> LimitOrder<ID> {
    pub fn new(id: ID, side: OrderSide, limit: u64, amount: u64) -> (order: Self)
        ensures
            order.id == id,
            order.side == side,
            order.limit == limit,
            order.amount == amount,
    {
        Self { id, side, limit, amount }
    }
}

/// A command for an order matcher: place a new limit order or cancel a resting one.
#[derive(Debug)]
pub enum MatcherCommand<Order, Id> {
    PlaceOrder(Order),
    CancelOrder(Id),
}

} // verus!
