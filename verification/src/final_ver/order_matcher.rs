use vstd::prelude::*;

use crate::final_ver::arena_slot_allocator::{ArenaId, ArenaSlotAllocator};
use crate::final_ver::level_fill::slot_ids;
use crate::final_ver::order_book::{key_of, level_key, LimitOrder, OrderBook};
use crate::matching::{
    eligible_queue, fill_amounts, fill_count, fill_left, lemma_eligible_prefix,
    lemma_side_queue_drop_head, lemma_side_queue_no_dups, side_queue, sorted_keys, drop_head, drop_queue,
};
use crate::OrderSide;

verus! {

/// A command for the matcher: place a limit order, or cancel a resting one.
pub enum MatcherCommand {
    PlaceOrder(LimitOrder),
    CancelOrder(ArenaId),
}

impl MatcherCommand {
    /// The command that places a limit order of `side` at `limit` for `amount`.
    pub fn new_limit_order(side: OrderSide, limit: u32, amount: u32) -> (command: Self)
        ensures
            command == MatcherCommand::PlaceOrder(LimitOrder { limit, amount, side }),
    {
        Self::PlaceOrder(LimitOrder { limit, amount, side })
    }
}

/// The orders that an incoming order `o` reaches in `book`: the front of the
/// other side's queue, up to the last level whose price `o`'s limit accepts.
pub open spec fn reach(book: OrderBook, o: LimitOrder) -> Seq<int> {
    eligible_queue(book.levels(o.side.opposite()), level_key(o.side.opposite(), o.limit))
}

/// The amounts of the orders that `o` reaches in `book`.
pub open spec fn reach_amounts(book: OrderBook, o: LimitOrder) -> Seq<nat> {
    book.amounts(reach(book, o))
}

/// How many of the orders that `o` reaches it fills completely.
pub open spec fn filled_count(book: OrderBook, o: LimitOrder) -> nat {
    fill_count(reach_amounts(book, o), o.amount as nat)
}

/// What is left of `o` after it has filled what it reaches in `book`.
pub open spec fn left_over(book: OrderBook, o: LimitOrder) -> nat {
    fill_left(reach_amounts(book, o), o.amount as nat)
}

/// The amounts that the orders `o` reaches keep after it has filled them.
pub open spec fn kept_amounts(book: OrderBook, o: LimitOrder) -> Seq<nat> {
    fill_amounts(reach_amounts(book, o), o.amount as nat)
}

/// What an incoming order `o` does to the book `b0`, giving `b1`: it fills
/// the orders it reaches in price, then time priority; those filled completely
/// leave the book from the front of the other side's queue, a partly filled
/// one keeps what is left of it, and nothing else changes.
pub open spec fn swept(b0: OrderBook, o: LimitOrder, b1: OrderBook) -> bool {
    let other = o.side.opposite();
    let q = reach(b0, o);
    let n = filled_count(b0, o);
    let kept = kept_amounts(b0, o);
    &&& b1.wf()
    &&& b1.slot_count() == b0.slot_count()
    &&& side_queue(b1.levels(other)) == side_queue(b0.levels(other)).skip(n as int)
    &&& b1.levels(other) == drop_queue(b0.levels(other), n)
    &&& b1.levels(o.side) == b0.levels(o.side)
    &&& forall|t: int| 0 <= t < n ==> #[trigger] b1.order_at(q[t]) is None
    &&& forall|t: int|
        n <= t < q.len() ==> #[trigger] b1.order_at(q[t]) == Some(
            LimitOrder { limit: b0.order_at(q[t])->0.limit, amount: kept[t] as u32, side: other },
        )
    &&& forall|j: int| !q.contains(j) ==> #[trigger] b1.order_at(j) == b0.order_at(j)
    &&& forall|p: u32| b0.can_place(o.side, p) ==> #[trigger] b1.can_place(o.side, p)
}

/// An order on the queue of a side of a well formed book rests on that side.
proof fn lemma_queue_member(b: OrderBook, side: OrderSide, x: int)
    requires
        b.wf(),
        side_queue(b.levels(side)).contains(x),
    ensures
        0 <= x < b.slot_count(),
        b.order_at(x) is Some,
        b.order_at(x)->0.side == side,
{
    let levels = b.levels(side);
    b.lemma_levels_facts(side);
    let ks = sorted_keys(levels.dom());
    crate::matching::lemma_sorted_keys_exist(levels.dom());
    crate::matching::lemma_queue_contains(levels, ks, x);
    let j = choose|j: int| 0 <= j < ks.len() && #[trigger] levels[ks[j]].contains(x);
    assert(ks.contains(ks[j]));
    let t = choose|t: int| 0 <= t < levels[ks[j]].len() && levels[ks[j]][t] == x;
    assert(levels.contains_key(ks[j]));
    assert(levels[ks[j]][t] == x);
}

/// What carrying out the limit order `o` does to the book `b0`, giving `b1`
/// and the answer `r`: it fills what it reaches in price, then time priority;
/// the orders filled completely leave from the front of the other side's
/// queue, a partly filled one keeps what is left of it; what is left of `o`,
/// if anything, rests at the end of its level and `r` names it.
pub open spec fn limit_processed(b0: OrderBook, o: LimitOrder, r: Option<ArenaId>, b1: OrderBook) -> bool {
    let left = left_over(b0, o);
    let k = level_key(o.side, o.limit);
    let other = o.side.opposite();
    let q = reach(b0, o);
    let n = filled_count(b0, o);
    let kept = kept_amounts(b0, o);
    &&& r is Some <==> left > 0
    &&& b1.free_chunk_count() + (if r is Some { 1int } else { 0int }) >= b0.free_chunk_count()
    &&& side_queue(b1.levels(other)) == side_queue(b0.levels(other)).skip(n as int)
    &&& b1.levels(other) == drop_queue(b0.levels(other), n)
    &&& forall|t: int| n <= t < q.len() ==> #[trigger] b1.order_at(q[t]) == Some(
        LimitOrder { limit: b0.order_at(q[t])->0.limit, amount: kept[t] as u32, side: other },
    )
    &&& r is None ==> {
        &&& b1.levels(o.side) == b0.levels(o.side)
        &&& forall|t: int| 0 <= t < n ==> #[trigger] b1.order_at(q[t]) is None
        &&& forall|j: int| !q.contains(j) ==> #[trigger] b1.order_at(j) == b0.order_at(j)
    }
    &&& r matches Some(id) ==> {
        &&& id.generation == 0
        &&& id.index < b0.slot_count()
        &&& (b0.order_at(id.index as int) is Some ==> exists|t: int| 0 <= t < n && q[t] == id.index)
        &&& b1.order_at(id.index as int) == Some(
            LimitOrder { limit: o.limit, amount: left as u32, side: o.side },
        )
        &&& b1.levels(o.side) == b0.levels(o.side).insert(
            k,
            (if b0.levels(o.side).contains_key(k) {
                b0.levels(o.side)[k]
            } else {
                Seq::<int>::empty()
            }).push(id.index as int),
        )
        &&& forall|t: int| 0 <= t < n && q[t] != id.index ==> #[trigger] b1.order_at(q[t]) is None
        &&& forall|j: int| !q.contains(j) && j != id.index ==> #[trigger] b1.order_at(j) == b0.order_at(j)
    }
}

/// What cancelling the order in the slot of `id` does to the book `b0`,
/// giving `b1`: the order leaves its level, a level left empty leaves the book
/// and gives its chunks back; a slot holding no order changes nothing.
pub open spec fn cancel_processed(b0: OrderBook, id: ArenaId, b1: OrderBook) -> bool {
    &&& b1.order_at(id.index as int) is None
    &&& b0.order_at(id.index as int) is None ==> b1.free_chunk_count() == b0.free_chunk_count()
    &&& forall|j: int| j != id.index ==> #[trigger] b1.order_at(j) == b0.order_at(j)
    &&& b0.order_at(id.index as int) is None ==> {
        &&& b1.levels(OrderSide::Bid) == b0.levels(OrderSide::Bid)
        &&& b1.levels(OrderSide::Ask) == b0.levels(OrderSide::Ask)
    }
    &&& b0.order_at(id.index as int) matches Some(o) ==> ({
        let i = id.index as int;
        let k = level_key(o.side, o.limit);
        let lv = b0.levels(o.side)[k];
        &&& b0.levels(o.side).contains_key(k)
        &&& lv.contains(i)
        &&& b1.free_chunk_count() == b0.free_chunk_count() + (if lv.len() == 1 {
            b0.level_chunk_count(o.side, k)
        } else {
            0
        })
        &&& forall|t: int|
            0 <= t < lv.len() && lv[t] == i ==> #[trigger] b1.levels(o.side) == (if lv.len() == 1 {
                b0.levels(o.side).remove(k)
            } else {
                b0.levels(o.side).insert(k, lv.remove(t))
            })
        &&& b1.levels(o.side.opposite()) == b0.levels(o.side.opposite())
    })
}

/// Matches incoming limit orders against a book and rests what is left of them.
pub struct OrderMatcher {
    pub order_book: OrderBook,
    /// Identifiers of filled orders waiting to be cancelled; empty between
    /// commands.
    pub cancelation_buffer: Vec<ArenaId>,
}

impl OrderMatcher {
    /// The book of resting orders.
    pub open spec fn book(&self) -> OrderBook {
        self.order_book
    }

    /// The matcher is well formed: its book is, and no cancellation is pending.
    pub closed spec fn wf(&self) -> bool {
        &&& self.order_book.wf()
        &&& self.cancelation_buffer@.len() == 0
    }

    /// A matcher with an empty book over `arena`, none of whose slots holds an
    /// order.
    pub fn from_arena(arena: ArenaSlotAllocator) -> (matcher: Self)
        requires
            arena.wf(),
            arena.chunk_size_spec() > 0,
            forall|i: int| 0 <= i < arena.slots().len() ==> #[trigger] arena.slots()[i] is Free,
        ensures
            matcher.wf(),
            matcher.book().levels(OrderSide::Bid) == Map::<u32, Seq<int>>::empty(),
            matcher.book().levels(OrderSide::Ask) == Map::<u32, Seq<int>>::empty(),
            matcher.book().slot_count() == arena.slots().len(),
            matcher.book().free_chunk_count() == arena.free_chunks().len(),
            forall|i: int| #[trigger] matcher.book().order_at(i) is None,
    {
        Self { order_book: OrderBook::from_arena(arena), cancelation_buffer: Vec::with_capacity(1024) }
    }

    /// A matcher with an empty book over an arena of `chunk_count` chunks of
    /// `chunk_size` slots.
    pub fn new(chunk_count: usize, chunk_size: usize) -> (matcher: Self)
        requires
            chunk_count * chunk_size < crate::slot_map::NONE_VALUE,
            chunk_size > 0,
        ensures
            matcher.wf(),
            matcher.book().levels(OrderSide::Bid) == Map::<u32, Seq<int>>::empty(),
            matcher.book().levels(OrderSide::Ask) == Map::<u32, Seq<int>>::empty(),
            matcher.book().slot_count() == chunk_count * chunk_size,
            matcher.book().free_chunk_count() == chunk_count,
            forall|i: int| #[trigger] matcher.book().order_at(i) is None,
    {
        Self { order_book: OrderBook::new(chunk_count, chunk_size), cancelation_buffer: Vec::with_capacity(1024) }
    }

    /// Cancels the `n` orders at the front of the queue of `side`, whose
    /// identifiers are pending in the cancellation buffer, and empties it.
    fn clean_up(&mut self, Ghost(side): Ghost<OrderSide>, Ghost(n): Ghost<nat>)
        requires
            old(self).order_book.wf(),
            n <= side_queue(old(self).order_book.levels(side)).len(),
            old(self).cancelation_buffer@ == slot_ids(side_queue(old(self).order_book.levels(side)).take(n as int)),
        ensures
            final(self).wf(),
            ({
                let s = side_queue(old(self).order_book.levels(side));
                let b0 = old(self).order_book;
                let b1 = final(self).order_book;
                &&& b1.slot_count() == b0.slot_count()
                &&& b1.free_chunk_count() >= b0.free_chunk_count()
                &&& side_queue(b1.levels(side)) == s.skip(n as int)
                &&& b1.levels(side) == drop_queue(b0.levels(side), n)
                &&& b1.levels(side.opposite()) == b0.levels(side.opposite())
                &&& forall|u: int| 0 <= u < n ==> #[trigger] b1.order_at(s[u]) is None
                &&& forall|j: int| !s.take(n as int).contains(j) ==> #[trigger] b1.order_at(j) == b0.order_at(j)
                &&& forall|p: u32| b0.can_place(side.opposite(), p) ==> #[trigger] b1.can_place(side.opposite(), p)
            }),
    {
        let ghost b0 = self.order_book;
        let ghost s = side_queue(b0.levels(side));
        let mut i: usize = 0;
        proof {
            assert(s.skip(0) =~= s);
        }
        while i < self.cancelation_buffer.len()
            invariant
                self.order_book.wf(),
                self.cancelation_buffer@ == slot_ids(s.take(n as int)),
                s == side_queue(b0.levels(side)),
                n <= s.len(),
                0 <= i <= n,
                self.order_book.slot_count() == b0.slot_count(),
                self.order_book.free_chunk_count() >= b0.free_chunk_count(),
                side_queue(self.order_book.levels(side)) == s.skip(i as int),
                self.order_book.levels(side) == drop_queue(b0.levels(side), i as nat),
                self.order_book.levels(side.opposite()) == b0.levels(side.opposite()),
                forall|u: int| 0 <= u < i ==> #[trigger] self.order_book.order_at(s[u]) is None,
                forall|j: int| !s.take(i as int).contains(j) ==> #[trigger] self.order_book.order_at(j) == b0.order_at(j),
                forall|p: u32| b0.can_place(side.opposite(), p) ==> #[trigger] self.order_book.can_place(side.opposite(), p),
            decreases n - i,
        {
            let id = self.cancelation_buffer[i];
            let ghost b1 = self.order_book;
            let ghost levels = b1.levels(side);
            proof {
                assert(id == slot_ids(s.take(n as int))[i as int]);
                assert(id.index == s[i as int] as u32);
                b1.lemma_levels_facts(side);
                lemma_side_queue_drop_head(levels);
                let k = sorted_keys(levels.dom())[0];
                let lv = levels[k];
                assert(s.skip(i as int)[0] == s[i as int]);
                assert(lv[0] == s[i as int]);
                assert(0 <= lv[0] < b1.slot_count());
                assert(id.index == lv[0]);
            }
            self.order_book.cancel_order(&id);
            proof {
                let k = sorted_keys(levels.dom())[0];
                let lv = levels[k];
                let x = s[i as int];
                assert(levels[k][0] == x);
                let o = b1.order_at(x)->0;
                assert(o.side == side && level_key(side, o.limit) == k);
                assert(lv.remove(0) =~= lv.drop_first());
                assert(self.order_book.levels(side) == (if lv.len() == 1 {
                    levels.remove(k)
                } else {
                    levels.insert(k, lv.drop_first())
                }));
                assert(s.skip(i as int).drop_first() =~= s.skip(i + 1));
                assert forall|j: int| !s.take(i + 1).contains(j) implies #[trigger] self.order_book.order_at(j)
                    == b0.order_at(j) by {
                    assert(s.take(i + 1)[i as int] == x);
                    if s.take(i as int).contains(j) {
                        let u = choose|u: int| 0 <= u < i && s.take(i as int)[u] == j;
                        assert(s.take(i + 1)[u] == j);
                    }
                }
            }
            i = i + 1;
        }
        self.cancelation_buffer.clear();
        proof {
            assert(i == n) by {
                assert(slot_ids(s.take(n as int)).len() == n);
            }
        }
    }

    /// Fills what the incoming order reaches on the other side of the book and
    /// cancels the orders filled completely; `order` keeps what is left of it.
    fn sweep(&mut self, order: &mut LimitOrder)
        requires
            old(self).wf(),
        ensures
            final(self).wf(),
            final(self).order_book.free_chunk_count() >= old(self).order_book.free_chunk_count(),
            swept(old(self).order_book, *old(order), final(self).order_book),
            left_over(old(self).order_book, *old(order)) <= old(order).amount,
            *final(order) == (LimitOrder {
                limit: old(order).limit,
                amount: left_over(old(self).order_book, *old(order)) as u32,
                side: old(order).side,
            }),
    {
        let ghost b0 = self.order_book;
        let ghost o = *order;
        let other = match order.side {
            OrderSide::Bid => OrderSide::Ask,
            OrderSide::Ask => OrderSide::Bid,
        };
        let bound = key_of(other, order.limit);
        let left = self.order_book.match_orders(other, bound, order.amount, &mut self.cancelation_buffer);
        order.amount = left;
        let ghost b1 = self.order_book;
        let ghost q = reach(b0, o);
        let ghost n = filled_count(b0, o);
        let ghost s = side_queue(b0.levels(other));
        proof {
            assert(other == o.side.opposite());
            b0.lemma_levels_facts(other);
            lemma_eligible_prefix(b0.levels(other), bound);
            crate::matching::lemma_fill_split(reach_amounts(b0, o), Seq::<nat>::empty(), o.amount as nat);
            crate::matching::lemma_fill_left_bound(reach_amounts(b0, o), o.amount as nat);
            assert(n <= q.len());
            assert(q.take(n as int) =~= s.take(n as int));
            assert(Seq::<ArenaId>::empty() + slot_ids(q.take(n as int)) =~= slot_ids(s.take(n as int)));
            assert(b1.levels(other) == b0.levels(other));
        }
        self.clean_up(Ghost(other), Ghost(n));
        proof {
            let b2 = self.order_book;
            let kept = kept_amounts(b0, o);
            lemma_side_queue_no_dups(b0.levels(other));
            assert forall|t: int| 0 <= t < n implies #[trigger] b2.order_at(q[t]) is None by {
                assert(q[t] == s[t]);
            }
            assert forall|t: int| n <= t < q.len() implies #[trigger] b2.order_at(q[t]) == Some(
                LimitOrder { limit: b0.order_at(q[t])->0.limit, amount: kept[t] as u32, side: other },
            ) by {
                assert(q[t] == s[t]);
                assert(!s.take(n as int).contains(s[t])) by {
                    if s.take(n as int).contains(s[t]) {
                        let u = choose|u: int| 0 <= u < n && s.take(n as int)[u] == s[t];
                        assert(s[u] == s[t]);
                    }
                }
                assert(s.contains(s[t]));
                lemma_queue_member(b0, other, s[t]);
            }
            assert forall|j: int| !q.contains(j) implies #[trigger] b2.order_at(j) == b0.order_at(j) by {
                if s.take(n as int).contains(j) {
                    let u = choose|u: int| 0 <= u < n && s.take(n as int)[u] == j;
                    assert(q[u] == j);
                }
            }
        }
    }

    /// A bid sweeps the ask side: it fills the asks whose price is at most
    /// its limit, lowest price first, and keeps what is left of it.
    fn process_bid(&mut self, order: &mut LimitOrder)
        requires
            old(self).wf(),
            old(order).side == OrderSide::Bid,
        ensures
            final(self).wf(),
            final(self).order_book.free_chunk_count() >= old(self).order_book.free_chunk_count(),
            swept(old(self).order_book, *old(order), final(self).order_book),
            left_over(old(self).order_book, *old(order)) <= old(order).amount,
            *final(order) == (LimitOrder {
                limit: old(order).limit,
                amount: left_over(old(self).order_book, *old(order)) as u32,
                side: OrderSide::Bid,
            }),
    {
        self.sweep(order);
    }

    /// An ask sweeps the bid side: it fills the bids whose price is at least
    /// its limit, highest price first, and keeps what is left of it.
    fn process_ask(&mut self, order: &mut LimitOrder)
        requires
            old(self).wf(),
            old(order).side == OrderSide::Ask,
        ensures
            final(self).wf(),
            final(self).order_book.free_chunk_count() >= old(self).order_book.free_chunk_count(),
            swept(old(self).order_book, *old(order), final(self).order_book),
            left_over(old(self).order_book, *old(order)) <= old(order).amount,
            *final(order) == (LimitOrder {
                limit: old(order).limit,
                amount: left_over(old(self).order_book, *old(order)) as u32,
                side: OrderSide::Ask,
            }),
    {
        self.sweep(order);
    }

    /// Carries out a command.  A limit order first fills what it reaches on
    /// the other side, in price, then time priority; what is left of it, if
    /// anything, rests in the book and its identifier is returned.  A
    /// cancellation removes the order from the book and returns `None`.
    pub fn process(&mut self, command: MatcherCommand) -> (r: Option<ArenaId>)
        requires
            old(self).wf(),
            command matches MatcherCommand::PlaceOrder(o) ==> left_over(old(self).book(), o) > 0
                ==> old(self).book().can_place(o.side, o.limit),
            command matches MatcherCommand::CancelOrder(id) ==> id.index < old(self).book().slot_count(),
        ensures
            final(self).wf(),
            final(self).book().slot_count() == old(self).book().slot_count(),
            command matches MatcherCommand::PlaceOrder(o) ==> limit_processed(old(self).book(), o, r, final(self).book()),
            command matches MatcherCommand::CancelOrder(id) ==> r is None && cancel_processed(
                old(self).book(),
                id,
                final(self).book(),
            ),
    {
        match command {
            MatcherCommand::PlaceOrder(mut order) => {
                let ghost b0 = self.order_book;
                let ghost o = order;
                match order.side {
                    OrderSide::Bid => self.process_bid(&mut order),
                    OrderSide::Ask => self.process_ask(&mut order),
                }
                if order.amount > 0 {
                    let ghost b1 = self.order_book;
                    let id = self.order_book.place_order(order);
                    proof {
                        let b2 = self.order_book;
                        let q = reach(b0, o);
                        let n = filled_count(b0, o);
                        assert forall|t: int| 0 <= t < n && q[t] != id.index implies #[trigger] b2.order_at(q[t]) is None by {
                            assert(b1.order_at(q[t]) is None);
                        }
                        assert forall|t: int| n <= t < q.len() implies #[trigger] b2.order_at(q[t]) == b1.order_at(q[t]) by {
                            assert(b1.order_at(q[t]) is Some);
                        }
                        assert(b2.levels(o.side.opposite()) == b1.levels(o.side.opposite()));
                        let f = id.index as int;
                        if b0.order_at(f) is Some {
                            assert(b1.order_at(f) is None);
                            if q.contains(f) {
                                let t = choose|t: int| 0 <= t < q.len() && q[t] == f;
                                if t >= n {
                                    assert(b1.order_at(q[t]) is Some);
                                }
                                assert(0 <= t < n && q[t] == f);
                            } else {
                                assert(b1.order_at(f) == b0.order_at(f));
                            }
                        }
                    }
                    Some(id)
                } else {
                    None
                }
            },
            MatcherCommand::CancelOrder(order_id) => {
                self.order_book.cancel_order(&order_id);
                None
            },
        }
    }

    /// The price of the bid level the book serves last: the lowest bid price.
    pub fn best_bid(&self) -> (r: Option<usize>)
        ensures
            r is None <==> self.book().levels(OrderSide::Bid).dom().len() == 0,
            r matches Some(p) ==> p <= u32::MAX && self.book().levels(OrderSide::Bid).contains_key(
                level_key(OrderSide::Bid, p as u32),
            ) && forall|q: u32| #[trigger]
                self.book().levels(OrderSide::Bid).contains_key(level_key(OrderSide::Bid, q)) ==> p <= q,
    {
        match self.order_book.last_level_price(OrderSide::Bid) {
            Some(p) => Some(p as usize),
            None => None,
        }
    }

    /// The price of the ask level the book serves first: the lowest ask price.
    pub fn best_ask(&self) -> (r: Option<usize>)
        ensures
            r is None <==> self.book().levels(OrderSide::Ask).dom().len() == 0,
            r matches Some(p) ==> p <= u32::MAX && self.book().levels(OrderSide::Ask).contains_key(
                level_key(OrderSide::Ask, p as u32),
            ) && forall|q: u32| #[trigger]
                self.book().levels(OrderSide::Ask).contains_key(level_key(OrderSide::Ask, q)) ==> p <= q,
    {
        match self.order_book.first_level_price(OrderSide::Ask) {
            Some(p) => Some(p as usize),
            None => None,
        }
    }

    /// The total amount resting at the level of `side` at `price`.
    pub fn total_volume_at(&mut self, side: OrderSide, price: u32) -> (v: u32)
        requires
            old(self).wf(),
            old(self).book().volume(side, price) <= u32::MAX,
        ensures
            v == old(self).book().volume(side, price),
            *final(self) == *old(self),
    {
        self.order_book.volume_at(side, price)
    }
}

} // verus!
