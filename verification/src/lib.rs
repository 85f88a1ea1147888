//! Limit order books and the slot maps they are built on.
//!
//! A slot map stores values in a vector of slots; the occupied slots form a
//! doubly linked list in insertion order and the free slots form a singly linked
//! free list that is reused last-in, first-out.  The order books keep, for each
//! side and price, the resting orders in arrival order and match incoming limit
//! orders against the opposite side by price, then time priority.
pub mod common;
pub mod engine;
pub mod final_ver;
pub mod fully_optimized;
pub mod laws;
pub mod book_match;
pub mod matching;
pub mod ob_arena_optimized;
pub mod ob_arena_slot_map;
pub mod ob_naive;
pub mod ob_slot_map_unsafe;
pub mod ob_standard;
pub mod slot_map;
pub mod slot_map_naive;
pub mod slot_map_optimized;
pub mod slot_map_unsafe;
pub mod sorted_keys;

pub use common::{LimitOrder, MatcherCommand, OrderId, OrderSide};

use vstd::prelude::*;

use crate::book_match::{book_cancelled, book_placed};
use crate::matching::{eligible_queue, fill_amounts, fill_count, fill_left, side_queue, total};

verus! {

/// A limit order as it is asked for: a side, a limit price and an amount.
#[derive(Debug)]
pub struct LimitOrderRequest {
    pub side: OrderSide,
    pub limit: u64,
    pub amount: u64,
}

/// The limit order that a record of a market data file asks for: only a
/// record of type `1` places an order; its side is `1` for a bid, anything
/// else for an ask.
pub fn request_of_record(order_type: i8, side: i8, size: u64, price: u64) -> (r: Option<LimitOrderRequest>)
    ensures
        r is Some <==> order_type == 1,
        r matches Some(q) ==> q == (LimitOrderRequest {
            side: if side == 1 { OrderSide::Bid } else { OrderSide::Ask },
            limit: price,
            amount: size,
        }),
{
    if order_type == 1 {
        Some(LimitOrderRequest { side: OrderSide::from(side), amount: size, limit: price })
    } else {
        None
    }
}

/// The key of the level of `side` at `price` in a book with `u64` prices:
/// asks are keyed by their price, bids by its complement, so that on both
/// sides the level served first has the lowest key.
pub open spec fn book_key(side: OrderSide, price: u64) -> u64 {
    match side {
        OrderSide::Bid => (0xffff_ffff_ffff_ffffu64 - price) as u64,
        OrderSide::Ask => price,
    }
}

/// An order book: resting orders by side and price level, each level in
/// arrival order.
///
/// The contract of each operation is stated here over the model that every
/// book gives: for each side, the orders of each level (by level key) as
/// order indices in arrival order, and the order, if any, that each order
/// index names.
pub trait OrderBookExt: Sized {
    type OrderId;
    type Order;

    /// The order index that an identifier names.
    spec fn index_of(id: Self::OrderId) -> int;

    /// What a stored order says: its side, limit and open amount.
    spec fn order_view(order: Self::Order) -> LimitOrderRequest;

    /// The orders of each level of `side`, by level key, in arrival order.
    spec fn levels(&self, side: OrderSide) -> Map<u64, Seq<int>>;

    /// The resting order with index `i`, if any.
    spec fn order_at(&self, i: int) -> Option<LimitOrderRequest>;

    /// The number of resting orders.
    spec fn order_count(&self) -> nat;

    /// The book's internal structure agrees with the model.
    spec fn wf(&self) -> bool;

    /// There is room for one more order.
    spec fn can_place(&self) -> bool;

    /// What `cancel_order` needs of its argument.
    spec fn can_cancel(&self, order_id: Self::OrderId) -> bool;

    /// An empty book.
    fn new() -> (book: Self)
        ensures
            book.wf(),
            book.levels(OrderSide::Bid) == Map::<u64, Seq<int>>::empty(),
            book.levels(OrderSide::Ask) == Map::<u64, Seq<int>>::empty(),
            forall|i: int| #[trigger] book.order_at(i) is None,
            book.order_count() == 0,
            book.can_place(),
    ;

    /// Rests an order at the tail of the level of its side and price, and
    /// returns its identifier, which names no resting order before.
    fn place_order(&mut self, request: LimitOrderRequest) -> (id: Self::OrderId)
        requires
            old(self).wf(),
            old(self).can_place(),
        ensures
            final(self).wf(),
            old(self).order_at(Self::index_of(id)) is None,
            final(self).order_at(Self::index_of(id)) == Some(request),
            forall|j: int| j != Self::index_of(id) ==> #[trigger] final(self).order_at(j) == old(self).order_at(j),
            final(self).levels(request.side) == old(self).levels(request.side).insert(
                book_key(request.side, request.limit),
                (if old(self).levels(request.side).contains_key(book_key(request.side, request.limit)) {
                    old(self).levels(request.side)[book_key(request.side, request.limit)]
                } else {
                    Seq::<int>::empty()
                }).push(Self::index_of(id)),
            ),
            final(self).levels(request.side.opposite()) == old(self).levels(request.side.opposite()),
            final(self).order_count() == old(self).order_count() + 1,
    ;

    /// Removes the order that `order_id` names from its level; a level left
    /// empty disappears.  An identifier that names no resting order changes
    /// nothing.
    fn cancel_order(&mut self, order_id: Self::OrderId)
        requires
            old(self).wf(),
            old(self).can_cancel(order_id),
        ensures
            final(self).wf(),
            final(self).order_at(Self::index_of(order_id)) is None,
            forall|j: int| j != Self::index_of(order_id) ==> #[trigger] final(self).order_at(j) == old(self).order_at(j),
            old(self).can_place() ==> final(self).can_place(),
            old(self).order_at(Self::index_of(order_id)) is None ==> {
                &&& final(self).levels(OrderSide::Bid) == old(self).levels(OrderSide::Bid)
                &&& final(self).levels(OrderSide::Ask) == old(self).levels(OrderSide::Ask)
                &&& final(self).order_count() == old(self).order_count()
            },
            old(self).order_at(Self::index_of(order_id)) matches Some(o) ==> ({
                let i = Self::index_of(order_id);
                let k = book_key(o.side, o.limit);
                let lv = old(self).levels(o.side)[k];
                &&& old(self).levels(o.side).contains_key(k)
                &&& lv.contains(i)
                &&& forall|t: int|
                    0 <= t < lv.len() && lv[t] == i ==> #[trigger] final(self).levels(o.side) == (if lv.len() == 1 {
                        old(self).levels(o.side).remove(k)
                    } else {
                        old(self).levels(o.side).insert(k, lv.remove(t))
                    })
                &&& final(self).levels(o.side.opposite()) == old(self).levels(o.side.opposite())
                &&& final(self).order_count() + 1 == old(self).order_count()
            }),
    ;

    /// What well-formedness says of the levels of a side: finitely many,
    /// none empty, none holding an order twice, no order at two levels, and
    /// each order resting at the level of its side and price.
    proof fn lemma_levels_facts(&self, side: OrderSide)
        requires
            self.wf(),
        ensures
            self.levels(side).dom().finite(),
            forall|k: u64| #[trigger]
                self.levels(side).contains_key(k) ==> self.levels(side)[k].len() > 0
                    && self.levels(side)[k].no_duplicates(),
            forall|k: u64, t: int|
                #![trigger self.levels(side)[k][t]]
                self.levels(side).contains_key(k) && 0 <= t < self.levels(side)[k].len() ==> {
                    let o = self.order_at(self.levels(side)[k][t]);
                    &&& o is Some
                    &&& o->0.side == side
                    &&& book_key(side, o->0.limit) == k
                },
            forall|k1: u64, k2: u64, i: int|
                k1 != k2 && self.levels(side).contains_key(k1) && self.levels(side).contains_key(k2)
                    && #[trigger] self.levels(side)[k1].contains(i)
                    ==> !#[trigger] self.levels(side)[k2].contains(i),
    ;

    /// An identifier that names a resting order can be cancelled.
    proof fn lemma_can_cancel(&self, order_id: Self::OrderId)
        requires
            self.wf(),
            self.order_at(Self::index_of(order_id)) is Some,
        ensures
            self.can_cancel(order_id),
    ;

    /// The resting order that `order_id` names, if any.
    fn get_order(&self, order_id: Self::OrderId) -> (r: Option<&Self::Order>)
        requires
            self.wf(),
        ensures
            r is Some == self.order_at(Self::index_of(order_id)) is Some,
            r matches Some(o) ==> Self::order_view(*o) == self.order_at(Self::index_of(order_id))->0,
    ;

    /// The number of resting orders.
    fn capacity(&self) -> (n: usize)
        requires
            self.wf(),
        ensures
            n == self.order_count(),
    ;
}

/// The amounts of the orders with indices `q` in `book`.
pub open spec fn book_amounts<B: OrderBookExt>(book: B, q: Seq<int>) -> Seq<nat> {
    q.map_values(|i: int| book.order_at(i)->0.amount as nat)
}

/// The orders that an incoming order `o` reaches in `book`: the front of the
/// other side's queue, up to the last level whose price `o`'s limit accepts.
pub open spec fn book_reach<B: OrderBookExt>(book: B, o: LimitOrderRequest) -> Seq<int> {
    eligible_queue(book.levels(o.side.opposite()), book_key(o.side.opposite(), o.limit))
}

/// What is left of `o` after it has filled what it reaches in `book`.
pub open spec fn book_left<B: OrderBookExt>(book: B, o: LimitOrderRequest) -> nat {
    fill_left(book_amounts(book, book_reach(book, o)), o.amount as nat)
}

/// What an incoming order `o` does to the book `b0`, giving `b1`: it fills
/// the orders it reaches in price, then time priority; those filled
/// completely leave the book from the front of the other side's queue, a
/// partly filled one keeps what is left of it, and nothing else changes.
pub open spec fn book_swept<B: OrderBookExt>(b0: B, o: LimitOrderRequest, b1: B) -> bool {
    let other = o.side.opposite();
    let q = book_reach(b0, o);
    let a = book_amounts(b0, q);
    let n = fill_count(a, o.amount as nat);
    let kept = fill_amounts(a, o.amount as nat);
    &&& b1.wf()
    &&& side_queue(b1.levels(other)) == side_queue(b0.levels(other)).skip(n as int)
    &&& b1.levels(o.side) == b0.levels(o.side)
    &&& forall|t: int| 0 <= t < n ==> #[trigger] b1.order_at(q[t]) is None
    &&& forall|t: int|
        n <= t < q.len() ==> #[trigger] b1.order_at(q[t]) == Some(
            LimitOrderRequest { side: other, limit: b0.order_at(q[t])->0.limit, amount: kept[t] as u64 },
        )
    &&& forall|j: int| !q.contains(j) ==> #[trigger] b1.order_at(j) == b0.order_at(j)
    &&& b0.can_place() ==> b1.can_place()
}

/// The total amount resting at the level of `side` at `price` in `book`,
/// zero where there is no such level.
pub open spec fn book_volume<B: OrderBookExt>(book: B, side: OrderSide, price: u64) -> nat {
    let k = book_key(side, price);
    if book.levels(side).contains_key(k) {
        total(book_amounts(book, book.levels(side)[k]))
    } else {
        0
    }
}

/// A matcher: places limit orders after matching them against its book, and
/// cancels resting orders.
pub trait OrderMatcherExt: Sized {
    type OrderId: Copy;
    type OrderBook: OrderBookExt<OrderId = Self::OrderId>;

    /// The book of resting orders.
    spec fn book(&self) -> Self::OrderBook;

    /// The matcher's internal structure agrees with its book.
    spec fn wf(&self) -> bool;

    /// Whether an order may be placed.
    spec fn can_place(&self) -> bool;

    /// Whether `order_id` may be cancelled.
    spec fn can_cancel(&self, order_id: Self::OrderId) -> bool;

    /// A well formed matcher has a well formed book.
    proof fn lemma_wf(&self)
        requires
            self.wf(),
        ensures
            self.book().wf(),
    ;

    /// A matcher with an empty book.
    fn new() -> (matcher: Self)
        ensures
            matcher.wf(),
            matcher.book().levels(OrderSide::Bid) == Map::<u64, Seq<int>>::empty(),
            matcher.book().levels(OrderSide::Ask) == Map::<u64, Seq<int>>::empty(),
            forall|i: int| #[trigger] matcher.book().order_at(i) is None,
            matcher.can_place(),
    ;

    /// Carries out a command: a limit order first fills what it reaches on
    /// the other side; what is left of it, if anything, rests in the book and
    /// its identifier is returned.  A cancellation removes the order.
    fn process(&mut self, command: MatcherCommand<LimitOrderRequest, Self::OrderId>) -> (r: Option<Self::OrderId>)
        requires
            old(self).wf(),
            command matches MatcherCommand::PlaceOrder(o) ==> old(self).can_place(),
            command matches MatcherCommand::CancelOrder(id) ==> old(self).can_cancel(id),
        ensures
            final(self).wf(),
            command matches MatcherCommand::PlaceOrder(o) ==> {
                let left = book_left(old(self).book(), o);
                &&& r is Some <==> left > 0
                &&& r matches Some(id) ==> final(self).book().order_at(Self::OrderBook::index_of(id)) == Some(
                    LimitOrderRequest { side: o.side, limit: o.limit, amount: left as u64 },
                )
                &&& left == 0 ==> book_swept(old(self).book(), o, final(self).book())
                &&& r matches Some(id) ==> exists|b1: Self::OrderBook|
                    #[trigger] book_swept(old(self).book(), o, b1) && book_placed(
                        b1,
                        LimitOrderRequest { side: o.side, limit: o.limit, amount: left as u64 },
                        Self::OrderBook::index_of(id),
                        final(self).book(),
                    )
            },
            command matches MatcherCommand::CancelOrder(id) ==> {
                &&& r is None
                &&& book_cancelled(old(self).book(), Self::OrderBook::index_of(id), final(self).book())
            },
    {
        proof {
            self.lemma_wf();
        }
        match command {
            MatcherCommand::PlaceOrder(order) => {
                let ghost b0 = self.book();
                let rest = self.process_limit_order(order);
                let ghost b1 = self.book();
                if rest.amount > 0 {
                    let id = self.place_order(rest);
                    proof {
                        assert(book_swept(b0, order, b1));
                    }
                    Some(id)
                } else {
                    None
                }
            },
            MatcherCommand::CancelOrder(id) => {
                self.cancel_order(id);
                None
            },
        }
    }

    /// Whether an order may be placed now.
    fn has_room(&self) -> (r: bool)
        requires
            self.wf(),
        ensures
            r == self.can_place(),
    ;

    /// Rests an order in the book without matching it.
    fn place_order(&mut self, request: LimitOrderRequest) -> (id: Self::OrderId)
        requires
            old(self).wf(),
            old(self).can_place(),
        ensures
            final(self).wf(),
            old(self).book().order_at(Self::OrderBook::index_of(id)) is None,
            final(self).book().order_at(Self::OrderBook::index_of(id)) == Some(request),
            book_placed(old(self).book(), request, Self::OrderBook::index_of(id), final(self).book()),
    ;

    /// Cancels a resting order.
    fn cancel_order(&mut self, order_id: Self::OrderId)
        requires
            old(self).wf(),
            old(self).can_cancel(order_id),
        ensures
            final(self).wf(),
            book_cancelled(old(self).book(), Self::OrderBook::index_of(order_id), final(self).book()),
    ;

    /// Fills what an incoming order reaches and cancels the orders it filled
    /// completely; returns the order with what is left of its amount.
    fn process_limit_order(&mut self, request: LimitOrderRequest) -> (r: LimitOrderRequest)
        requires
            old(self).wf(),
        ensures
            final(self).wf(),
            book_swept(old(self).book(), request, final(self).book()),
            r == (LimitOrderRequest {
                side: request.side,
                limit: request.limit,
                amount: book_left(old(self).book(), request) as u64,
            }),
            book_left(old(self).book(), request) <= request.amount,
            old(self).can_place() ==> final(self).can_place(),
    ;

    /// The price of the best bid level, if any.
    fn best_bid(&self) -> Option<usize>
        requires
            self.wf(),
    ;

    /// The price of the best ask level, if any.
    fn best_ask(&self) -> Option<usize>
        requires
            self.wf(),
    ;

    /// The total amount resting at the level of `side` at `price`.
    fn total_volume_at(&self, side: OrderSide, price: usize) -> (v: usize)
        requires
            self.wf(),
            book_volume(self.book(), side, price as u64) <= usize::MAX,
        ensures
            v == book_volume(self.book(), side, price as u64),
    ;

    /// The book.
    fn order_book(&self) -> (r: &Self::OrderBook)
        ensures
            *r == self.book(),
    ;
}

} // verus!
