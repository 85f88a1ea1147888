//! The matcher of the first engine: it matches against its book directly,
//! with no record of its own of the orders placed.
use vstd::prelude::*;

use crate::book_match::{book_cleaned, lemma_cancel_head, lemma_queue_member, lemma_sweep_compose};
use crate::engine::v1_vec_only::book::OrderBook;
use crate::matching::side_queue;
use crate::ob_naive::{fill_book, OrderId};
use crate::{book_key, LimitOrderRequest, OrderBookExt, OrderMatcherExt, OrderSide};

verus! {

/// A matcher over a book.
pub struct OrderMatcher {
    order_book: OrderBook,
}

impl OrderMatcher {
    /// Cancels, one by one, the orders `ids`, which are the first orders of
    /// the queue of `side`.
    fn cancel_filled(&mut self, ids: &Vec<OrderId>, Ghost(side): Ghost<OrderSide>)
        requires
            old(self).order_book.wf(),
            ids@.len() <= side_queue(old(self).order_book.levels(side)).len(),
            forall|u: int|
                0 <= u < ids@.len() ==> OrderBook::index_of(#[trigger] ids@[u]) == side_queue(
                    old(self).order_book.levels(side),
                )[u],
        ensures
            final(self).order_book.wf(),
            book_cleaned(old(self).order_book, side, ids@.len(), final(self).order_book),
    {
        let ghost b0 = self.order_book;
        let ghost s = side_queue(b0.levels(side));
        let ghost n = ids@.len();
        proof {
            assert(s.skip(0) =~= s);
        }
        let mut i: usize = 0;
        while i < ids.len()
            invariant
                self.order_book.wf(),
                s == side_queue(b0.levels(side)),
                n == ids@.len(),
                n <= s.len(),
                forall|u: int| 0 <= u < ids@.len() ==> OrderBook::index_of(#[trigger] ids@[u]) == s[u],
                0 <= i <= n,
                side_queue(self.order_book.levels(side)) == s.skip(i as int),
                self.order_book.levels(side.opposite()) == b0.levels(side.opposite()),
                forall|u: int| 0 <= u < i ==> #[trigger] self.order_book.order_at(s[u]) is None,
                forall|j: int| !s.take(i as int).contains(j) ==> #[trigger] self.order_book.order_at(j) == b0.order_at(j),
                b0.can_place() ==> self.order_book.can_place(),
            decreases n - i,
        {
            let id = ids[i];
            let ghost b1 = self.order_book;
            proof {
                assert(OrderBook::index_of(id) == s[i as int]);
                assert(s.skip(i as int)[0] == s[i as int]);
                assert(side_queue(b1.levels(side))[0] == s[i as int]);
                assert(side_queue(b1.levels(side)).contains(s[i as int]));
                lemma_queue_member(b1, side, s[i as int]);
                b1.lemma_can_cancel(id);
            }
            self.order_book.cancel_order(id);
            proof {
                let b2 = self.order_book;
                lemma_cancel_head(b1, b2, side);
                assert(s.skip(i as int).drop_first() =~= s.skip(i + 1));
                let x = s[i as int];
                assert forall|j: int| !s.take(i + 1).contains(j) implies #[trigger] b2.order_at(j) == b0.order_at(j) by {
                    assert(s.take(i + 1)[i as int] == x);
                    if s.take(i as int).contains(j) {
                        let u = choose|u: int| 0 <= u < i && s.take(i as int)[u] == j;
                        assert(s.take(i + 1)[u] == j);
                    }
                }
            }
            i = i + 1;
        }
    }
}

impl OrderMatcher {
    /// The matcher can take another order exactly while its book's
    /// identifiers have not run out.
    pub proof fn law_room_until_ids_run_out(&self)
        ensures
            self.can_place() <==> self.book().ids_issued() < u64::MAX,
    {
        self.order_book.law_room_until_ids_run_out();
    }
}

impl OrderMatcherExt for OrderMatcher {
    type OrderId = OrderId;
    type OrderBook = OrderBook;

    fn has_room(&self) -> (r: bool) {
        self.order_book.has_room()
    }

    closed spec fn book(&self) -> OrderBook {
        self.order_book
    }

    closed spec fn wf(&self) -> bool {
        self.order_book.wf()
    }

    /// The book must be able to take an order.
    closed spec fn can_place(&self) -> bool {
        self.order_book.can_place()
    }

    /// What the book needs of the identifier.
    closed spec fn can_cancel(&self, order_id: OrderId) -> bool {
        self.order_book.can_cancel(order_id)
    }

    proof fn lemma_wf(&self) {
    }

    fn new() -> (matcher: Self) {
        Self { order_book: OrderBook::new() }
    }

    fn place_order(&mut self, request: LimitOrderRequest) -> (id: OrderId) {
        self.order_book.place_order(request)
    }

    fn cancel_order(&mut self, order_id: OrderId) {
        self.order_book.cancel_order(order_id);
    }

    fn process_limit_order(&mut self, request: LimitOrderRequest) -> (r: LimitOrderRequest) {
        let mut request = request;
        let ghost b0 = self.order_book;
        let ghost o = request;
        let other = match request.side {
            OrderSide::Bid => OrderSide::Ask,
            OrderSide::Ask => OrderSide::Bid,
        };
        let (remaining, orders_to_remove) = fill_book(&mut self.order_book, &request);
        let ghost b1 = self.order_book;
        proof {
            assert(other == o.side.opposite());
        }
        self.cancel_filled(&orders_to_remove, Ghost(other));
        proof {
            lemma_sweep_compose(b0, o, b1, self.order_book);
        }
        request.amount = remaining;
        request
    }

    /// The highest bid price, if there is a bid.
    fn best_bid(&self) -> (r: Option<usize>)
        ensures
            r is None <==> self.book().levels(OrderSide::Bid).dom().len() == 0,
            r matches Some(p) ==> exists|price: u64| #![trigger book_key(OrderSide::Bid, price)]
                p == price as usize && self.book().levels(OrderSide::Bid).contains_key(book_key(OrderSide::Bid, price))
                    && forall|q: u64| #[trigger] self.book().levels(OrderSide::Bid).contains_key(book_key(OrderSide::Bid, q))
                    ==> q <= price,
    {
        match self.order_book.first_level_price(OrderSide::Bid) {
            Some(price) => {
                proof {
                    assert forall|q: u64| #[trigger] self.book().levels(OrderSide::Bid).contains_key(book_key(OrderSide::Bid, q))
                        implies q <= price by {
                        assert(book_key(OrderSide::Bid, price) <= book_key(OrderSide::Bid, q));
                    }
                }
                Some(price as usize)
            },
            None => None,
        }
    }

    /// The lowest ask price, if there is an ask.
    fn best_ask(&self) -> (r: Option<usize>)
        ensures
            r is None <==> self.book().levels(OrderSide::Ask).dom().len() == 0,
            r matches Some(p) ==> exists|price: u64| #![trigger book_key(OrderSide::Ask, price)]
                p == price as usize && self.book().levels(OrderSide::Ask).contains_key(book_key(OrderSide::Ask, price))
                    && forall|q: u64| #[trigger] self.book().levels(OrderSide::Ask).contains_key(book_key(OrderSide::Ask, q))
                    ==> price <= q,
    {
        match self.order_book.first_level_price(OrderSide::Ask) {
            Some(price) => {
                proof {
                    assert forall|q: u64| #[trigger] self.book().levels(OrderSide::Ask).contains_key(book_key(OrderSide::Ask, q))
                        implies price <= q by {
                        assert(book_key(OrderSide::Ask, price) <= book_key(OrderSide::Ask, q));
                    }
                }
                Some(price as usize)
            },
            None => None,
        }
    }

    fn total_volume_at(&self, side: OrderSide, price: usize) -> (v: usize) {
        self.order_book.level_volume(side, price as u64)
    }

    fn order_book(&self) -> (r: &OrderBook) {
        &self.order_book
    }
}

} // verus!
