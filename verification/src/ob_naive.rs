//! A book whose price levels are kept in vectors sorted in serving order and
//! found by binary search, with the orders in a `HashMap`.
use vstd::prelude::*;

use std::collections::HashMap;

use crate::book_match::{
    book_cleaned, book_filled, lemma_cancel_head, lemma_queue_member, lemma_sweep_compose,
};
use crate::matching::{
    count_upto, eligible_queue, fill_amounts, fill_count, fill_left, lemma_count_upto,
    lemma_eligible_prefix, lemma_fill_split, lemma_fill_zero, lemma_queue_contains,
    lemma_queue_snoc, lemma_queue_take, lemma_sorted_keys_is, lemma_total_prefix, levels_upto,
    queue_of, side_queue, total,
};
use crate::ob_standard::{amounts_in, fill_ids, filled_in, id_seq, key_of, view_of, with_amount};
use crate::{
    book_amounts, book_key, book_left, book_reach, book_volume, LimitOrder, LimitOrderRequest, OrderBookExt, OrderMatcherExt,
    OrderSide,
};

verus! {

broadcast use vstd::std_specs::hash::group_hash_axioms;

pub type OrderId = u64;

/// The book: for each side its levels in serving order (bids by falling,
/// asks by rising price), the orders by identifier, and the next identifier
/// to hand out.
pub struct OrderBook {
    pub bids: Vec<PriceLevel>,
    pub asks: Vec<PriceLevel>,
    pub orders: HashMap<u64, LimitOrder<OrderId>>,
    next_order_id: OrderId,
}

/// A price level: its price and the identifiers of its orders in arrival order.
#[derive(Debug)]
pub struct PriceLevel {
    pub price: u64,
    pub order_ids: Vec<OrderId>,
}

impl PriceLevel {
    /// A level at `price` without orders.
    pub fn empty(price: u64) -> (level: Self)
        ensures
            level.price == price,
            level.order_ids@ == Seq::<OrderId>::empty(),
    {
        Self { price, order_ids: Vec::new() }
    }

    /// A level at `price` holding the one order `order_id`.
    pub fn from_order(price: u64, order_id: OrderId) -> (level: Self)
        ensures
            level.price == price,
            level.order_ids@ == seq![order_id],
    {
        let mut order_ids = Vec::new();
        order_ids.push(order_id);
        Self { price, order_ids }
    }
}

/// The level keys of the levels `v` of `side`.
pub open spec fn keys_of(side: OrderSide, v: Seq<PriceLevel>) -> Seq<u64> {
    v.map_values(|l: PriceLevel| book_key(side, l.price))
}

/// The orders of each level of `v`, by level key.
pub open spec fn levels_of(side: OrderSide, v: Seq<PriceLevel>) -> Map<u64, Seq<int>> {
    Map::new(
        |k: u64| keys_of(side, v).contains(k),
        |k: u64| id_seq(v[keys_of(side, v).index_of(k)].order_ids@),
    )
}

/// Increasing keys: the level at position `i` is the one of its key.
proof fn lemma_index_of(side: OrderSide, v: Seq<PriceLevel>, i: int)
    requires
        forall|a: int, b: int| 0 <= a < b < v.len() ==> keys_of(side, v)[a] < keys_of(side, v)[b],
        0 <= i < v.len(),
    ensures
        keys_of(side, v).contains(keys_of(side, v)[i]),
        keys_of(side, v).index_of(keys_of(side, v)[i]) == i,
        levels_of(side, v).contains_key(keys_of(side, v)[i]),
        levels_of(side, v)[keys_of(side, v)[i]] == id_seq(v[i].order_ids@),
{
    let ks = keys_of(side, v);
    assert(ks.contains(ks[i]));
    let j = ks.index_of(ks[i]);
    assert(ks[j] == ks[i]);
    if j < i {
        assert(ks[j] < ks[i]);
    }
    if i < j {
        assert(ks[i] < ks[j]);
    }
}

impl OrderBook {
    /// The levels of a side in serving order.
    pub closed spec fn side_vec(&self, side: OrderSide) -> Seq<PriceLevel> {
        match side {
            OrderSide::Bid => self.bids@,
            OrderSide::Ask => self.asks@,
        }
    }

    pub closed spec fn level_ok(&self, s: OrderSide, i: int) -> bool {
        let v = self.side_vec(s)[i].order_ids@;
        let k = keys_of(s, self.side_vec(s))[i];
        &&& v.len() > 0
        &&& v.no_duplicates()
        &&& forall|t: int|
            0 <= t < v.len() ==> {
                let id = #[trigger] v[t];
                &&& self.orders@.contains_key(id)
                &&& self.orders@[id].side == s
                &&& book_key(s, self.orders@[id].limit) == k
            }
    }

    pub closed spec fn order_ok(&self, id: OrderId) -> bool {
        let o = self.orders@[id];
        let k = book_key(o.side, o.limit);
        let ks = keys_of(o.side, self.side_vec(o.side));
        &&& id < self.next_order_id
        &&& o.id == id
        &&& ks.contains(k)
        &&& self.side_vec(o.side)[ks.index_of(k)].order_ids@.contains(id)
    }

    pub closed spec fn sorted(&self, s: OrderSide) -> bool {
        forall|a: int, b: int|
            0 <= a < b < self.side_vec(s).len() ==> keys_of(s, self.side_vec(s))[a] < keys_of(s, self.side_vec(s))[b]
    }

    /// Hands out the next identifier.
    fn next_order_id(&mut self) -> (id: OrderId)
        requires
            old(self).next_order_id < u64::MAX,
        ensures
            id == old(self).next_order_id,
            final(self).next_order_id == id + 1,
            final(self).bids == old(self).bids,
            final(self).asks == old(self).asks,
            final(self).orders == old(self).orders,
    {
        let id = self.next_order_id;
        self.next_order_id = self.next_order_id + 1;
        id
    }

    /// Where the level of `side` at `price` is: `Ok` with its position, or
    /// `Err` with the position at which it would be inserted.
    fn find_level(&self, side: OrderSide, price: u64) -> (r: Result<usize, usize>)
        requires
            self.sorted(side),
        ensures
            ({
                let ks = keys_of(side, self.side_vec(side));
                let k = book_key(side, price);
                match r {
                    Ok(i) => i < ks.len() && ks[i as int] == k,
                    Err(i) => i <= ks.len() && (forall|j: int| 0 <= j < i ==> ks[j] < k) && (forall|j: int|
                        i <= j < ks.len() ==> ks[j] > k),
                }
            }),
    {
        let levels = match side {
            OrderSide::Bid => &self.bids,
            OrderSide::Ask => &self.asks,
        };
        let key = key_of(side, price);
        let ghost ks = keys_of(side, self.side_vec(side));
        let mut lo: usize = 0;
        let mut hi: usize = levels.len();
        while lo < hi
            invariant
                ks == keys_of(side, levels@),
                self.sorted(side),
                levels@ == self.side_vec(side),
                0 <= lo <= hi <= ks.len(),
                forall|j: int| 0 <= j < lo ==> ks[j] < key,
                forall|j: int| hi <= j < ks.len() ==> ks[j] > key,
                key == book_key(side, price),
            decreases hi - lo,
        {
            let mid = lo + (hi - lo) / 2;
            let mid_key = key_of(side, levels[mid].price);
            proof {
                assert(ks[mid as int] == mid_key);
            }
            if mid_key == key {
                proof {
                    assert(ks[mid as int] == key);
                    assert(key == book_key(side, price));
                }
                return Ok(mid);
            } else if mid_key < key {
                proof {
                    assert forall|j: int| 0 <= j < mid + 1 implies ks[j] < key by {
                        if j < mid {
                            assert(ks[j] < ks[mid as int]);
                        }
                    }
                }
                lo = mid + 1;
            } else {
                proof {
                    assert forall|j: int| mid <= j < ks.len() implies ks[j] > key by {
                        if j > mid {
                            assert(ks[mid as int] < ks[j]);
                        }
                    }
                }
                hi = mid;
            }
        }
        Err(lo)
    }
}

/// Placing the order `id` at position `found` of its side keeps the book
/// well formed and appends it to the level of its price.
#[verifier::rlimit(50)]
proof fn lemma_placed(
    old_book: OrderBook,
    new_book: OrderBook,
    side: OrderSide,
    limit: u64,
    amount: u64,
    id: OrderId,
    found: Result<usize, usize>,
)
    requires
        old_book.wf(),
        !old_book.orders@.contains_key(id),
        id == old_book.next_order_id,
        new_book.next_order_id == id + 1,
        new_book.orders@ == old_book.orders@.insert(id, LimitOrder { id, side, limit, amount }),
        new_book.side_vec(side.opposite()) == old_book.side_vec(side.opposite()),
        ({
            let v0 = old_book.side_vec(side);
            let ks = keys_of(side, v0);
            let k = book_key(side, limit);
            match found {
                Ok(i) => i < ks.len() && ks[i as int] == k && new_book.side_vec(side) == v0.update(
                    i as int,
                    PriceLevel { price: v0[i as int].price, order_ids: new_book.side_vec(side)[i as int].order_ids },
                ) && new_book.side_vec(side)[i as int].order_ids@ == v0[i as int].order_ids@.push(id),
                Err(i) => i <= ks.len() && (forall|j: int| 0 <= j < i ==> ks[j] < k) && (forall|j: int|
                    i <= j < ks.len() ==> ks[j] > k) && new_book.side_vec(side) == v0.insert(
                    i as int,
                    new_book.side_vec(side)[i as int],
                ) && new_book.side_vec(side)[i as int].price == limit
                    && new_book.side_vec(side)[i as int].order_ids@ == seq![id],
            }
        }),
    ensures
        new_book.wf(),
        new_book.levels(side) == old_book.levels(side).insert(
            book_key(side, limit),
            (if old_book.levels(side).contains_key(book_key(side, limit)) {
                old_book.levels(side)[book_key(side, limit)]
            } else {
                Seq::<int>::empty()
            }).push(id as int),
        ),
        new_book.levels(side.opposite()) == old_book.levels(side.opposite()),
        forall|j: int| j != id as int ==> #[trigger] new_book.order_at(j) == old_book.order_at(j),
        new_book.order_at(id as int) == Some(LimitOrderRequest { side, limit, amount }),
        new_book.orders@.dom() == old_book.orders@.dom().insert(id),
{
    let self_ = new_book;
    let key = book_key(side, limit);
    let v0 = old_book.side_vec(side);
    let ks0 = keys_of(side, v0);
    let v1 = self_.side_vec(side);
    let ks1 = keys_of(side, v1);
    // Position of the level of the new order, before and after.
    let p = match found {
        Ok(i) => i as int,
        Err(i) => i as int,
    };
    let had = found is Ok;
    assert(ks1.len() == if had { ks0.len() } else { ks0.len() + 1 });
    assert forall|j: int| 0 <= j < ks1.len() implies #[trigger] ks1[j] == (if had {
        ks0[j]
    } else if j < p {
        ks0[j]
    } else if j == p {
        key
    } else {
        ks0[j - 1]
    }) by {
        if !had && j > p {
            assert(v1[j] == v0[j - 1]);
        }
    }
    assert forall|j: int| 0 <= j < v1.len() && j != p implies #[trigger] v1[j] == (if had || j < p {
        v0[j]
    } else {
        v0[j - 1]
    }) by {
    }
    assert(ks1[p] == key);
    assert(self_.sorted(side)) by {
        assert forall|a: int, b: int| 0 <= a < b < v1.len() implies ks1[a] < ks1[b] by {
            if !had {
                if a < p && b == p {
                } else if a == p && b > p {
                    assert(ks1[b] == ks0[b - 1]);
                } else if a < p && b > p {
                    assert(ks0[a] < ks0[b - 1] || a == b - 1);
                } else if a > p {
                    assert(ks0[a - 1] < ks0[b - 1]);
                }
            }
        }
    }
    assert(self_.sorted(side.opposite())) by {
        assert(self_.side_vec(side.opposite()) == old_book.side_vec(side.opposite()));
    }
    assert(v1[p].order_ids@ == (if had {
        v0[p].order_ids@
    } else {
        Seq::<OrderId>::empty()
    }).push(id)) by {
        if !had {
            assert(v1[p].order_ids@ =~= seq![id]);
        }
    }
    lemma_index_of(side, v1, p);
    if had {
        lemma_index_of(side, v0, p);
        assert(!v0[p].order_ids@.contains(id)) by {
            assert(old_book.level_ok(side, p));
            if v0[p].order_ids@.contains(id) {
                let t = choose|t: int| 0 <= t < v0[p].order_ids@.len() && v0[p].order_ids@[t] == id;
                assert(old_book.orders@.contains_key(v0[p].order_ids@[t]));
            }
        }
    } else {
        assert(!ks0.contains(key)) by {
            if ks0.contains(key) {
                let j = choose|j: int| 0 <= j < ks0.len() && ks0[j] == key;
            }
        }
    }
    // Levels stay well formed.
    assert forall|s: OrderSide, j: int| 0 <= j < self_.side_vec(s).len() implies #[trigger] self_.level_ok(s, j) by {
        if s == side {
            if j == p {
                let w = v1[p].order_ids@;
                if had {
                    assert(old_book.level_ok(side, p));
                    let w0 = v0[p].order_ids@;
                    assert forall|t: int| 0 <= t < w.len() implies {
                        let x = #[trigger] w[t];
                        &&& self_.orders@.contains_key(x)
                        &&& self_.orders@[x].side == s
                        &&& book_key(s, self_.orders@[x].limit) == ks1[p]
                    } by {
                        if t < w0.len() {
                            assert(w[t] == w0[t]);
                            assert(old_book.orders@.contains_key(w0[t]));
                            assert(w0[t] != id);
                        }
                    }
                }
            } else {
                let j0 = if had || j < p { j } else { j - 1 };
                assert(old_book.level_ok(side, j0));
                assert(v1[j] == v0[j0]);
                assert(ks1[j] == ks0[j0]);
                let w = v1[j].order_ids@;
                assert forall|t: int| 0 <= t < w.len() implies {
                    let x = #[trigger] w[t];
                    &&& self_.orders@.contains_key(x)
                    &&& self_.orders@[x].side == s
                    &&& book_key(s, self_.orders@[x].limit) == ks1[j]
                } by {
                    assert(old_book.orders@.contains_key(w[t]));
                    assert(w[t] != id);
                }
            }
        } else {
            assert(old_book.level_ok(s, j));
            assert(self_.side_vec(s) == old_book.side_vec(s));
            let w = self_.side_vec(s)[j].order_ids@;
            assert forall|t: int| 0 <= t < w.len() implies {
                let x = #[trigger] w[t];
                &&& self_.orders@.contains_key(x)
                &&& self_.orders@[x].side == s
                &&& book_key(s, self_.orders@[x].limit) == keys_of(s, self_.side_vec(s))[j]
            } by {
                assert(old_book.orders@.contains_key(w[t]));
                assert(w[t] != id);
            }
        }
    }
    // Every order is at its level.
    assert forall|x: OrderId| #[trigger] self_.orders@.contains_key(x) implies self_.order_ok(x) by {
        if x != id {
            assert(old_book.order_ok(x));
            let o = old_book.orders@[x];
            let k = book_key(o.side, o.limit);
            let kso = keys_of(o.side, old_book.side_vec(o.side));
            let j0 = kso.index_of(k);
            if o.side == side {
                let j1 = if had || j0 < p { j0 } else { j0 + 1 };
                assert(ks1[j1] == k);
                lemma_index_of(side, v1, j1);
                if had && j0 == p {
                    assert(v1[p].order_ids@ == v0[p].order_ids@.push(id));
                    let t = choose|t: int| 0 <= t < v0[p].order_ids@.len() && v0[p].order_ids@[t] == x;
                    assert(v1[p].order_ids@[t] == x);
                } else {
                    assert(v1[j1] == v0[j0]);
                }
            } else {
                assert(self_.side_vec(o.side) == old_book.side_vec(o.side));
            }
        } else {
            assert(v1[p].order_ids@[v1[p].order_ids@.len() - 1] == id);
        }
    }
    // The model.
    assert(self_.levels(side) =~= old_book.levels(side).insert(
        key,
        (if old_book.levels(side).contains_key(key) {
            old_book.levels(side)[key]
        } else {
            Seq::<int>::empty()
        }).push(id as int),
    )) by {
        assert forall|k: u64| #[trigger] self_.levels(side).contains_key(k) <==> (old_book.levels(side).contains_key(k) || k == key) by {
            if ks1.contains(k) && k != key {
                let j = choose|j: int| 0 <= j < ks1.len() && ks1[j] == k;
                let j0 = if had || j < p { j } else { j - 1 };
                assert(ks0[j0] == k);
            }
            if ks0.contains(k) {
                let j0 = choose|j: int| 0 <= j < ks0.len() && ks0[j] == k;
                let j1 = if had || j0 < p { j0 } else { j0 + 1 };
                assert(ks1[j1] == k);
            }
        }
        assert forall|k: u64| #[trigger] self_.levels(side).contains_key(k) implies self_.levels(side)[k] == old_book.levels(side).insert(
            key,
            (if old_book.levels(side).contains_key(key) {
                old_book.levels(side)[key]
            } else {
                Seq::<int>::empty()
            }).push(id as int),
        )[k] by {
            if k == key {
                assert(id_seq(v1[p].order_ids@) =~= (if had {
                    id_seq(v0[p].order_ids@)
                } else {
                    Seq::<int>::empty()
                }).push(id as int));
            } else {
                let j = choose|j: int| 0 <= j < ks1.len() && ks1[j] == k;
                let j0 = if had || j < p { j } else { j - 1 };
                lemma_index_of(side, v1, j);
                lemma_index_of(side, v0, j0);
                assert(v1[j] == v0[j0]);
            }
        }
    }
    assert(self_.levels(side.opposite()) =~= old_book.levels(side.opposite())) by {
        assert(self_.side_vec(side.opposite()) == old_book.side_vec(side.opposite()));
    }
    assert forall|j: int| j != id as int implies #[trigger] self_.order_at(j) == old_book.order_at(j) by {
    }
    assert(self_.orders@.dom() =~= old_book.orders@.dom().insert(id));
}

/// An order of the queue over keys `ks` of `levels` is one of `orders`.
proof fn lemma_level_in_orders(
    levels: Map<u64, Seq<int>>,
    orders: Map<OrderId, LimitOrder<OrderId>>,
    ks: Seq<u64>,
    x: int,
)
    requires
        forall|i: int| 0 <= i < ks.len() ==> levels.contains_key(#[trigger] ks[i]),
        forall|k: u64, t: int|
            levels.contains_key(k) && 0 <= t < levels[k].len() ==> 0 <= #[trigger] levels[k][t] <= u64::MAX
                && orders.contains_key(levels[k][t] as u64),
        queue_of(levels, ks).contains(x),
    ensures
        0 <= x <= u64::MAX,
        orders.contains_key(x as u64),
{
    lemma_queue_contains(levels, ks, x);
    let j = choose|j: int| 0 <= j < ks.len() && #[trigger] levels[ks[j]].contains(x);
    let k = ks[j];
    let t = choose|t: int| 0 <= t < levels[k].len() && levels[k][t] == x;
    assert(levels.contains_key(k));
    assert(0 <= levels[k][t] <= u64::MAX && orders.contains_key(levels[k][t] as u64));
}

/// Fills the levels `v` of `side` whose key is at most `bound`, in serving
/// order and each oldest order first, with the incoming `amount`; the
/// identifier of each order filled completely is appended to `filled`.
/// Returns what is left of `amount`.
fn fill_levels(
    v: &Vec<PriceLevel>,
    side: OrderSide,
    orders: &mut HashMap<OrderId, LimitOrder<OrderId>>,
    bound: u64,
    amount: u64,
    filled: &mut Vec<OrderId>,
) -> (left: u64)
    requires
        forall|a: int, b: int| 0 <= a < b < v@.len() ==> keys_of(side, v@)[a] < keys_of(side, v@)[b],
        forall|i: int| 0 <= i < v@.len() ==> (#[trigger] v@[i]).order_ids@.no_duplicates(),
        forall|i: int, t: int|
            0 <= i < v@.len() && 0 <= t < v@[i].order_ids@.len() ==> old(orders)@.contains_key(
                #[trigger] v@[i].order_ids@[t],
            ),
        forall|k1: u64, k2: u64, i: int|
            k1 != k2 && levels_of(side, v@).contains_key(k1) && levels_of(side, v@).contains_key(k2)
                && #[trigger] levels_of(side, v@)[k1].contains(i) ==> !#[trigger] levels_of(side, v@)[k2].contains(i),
    ensures
        ({
            let q = eligible_queue(levels_of(side, v@), bound);
            let a = amounts_in(old(orders)@, q);
            &&& left == fill_left(a, amount as nat)
            &&& filled_in(old(orders)@, final(orders)@, q, fill_amounts(a, amount as nat))
            &&& id_seq(final(filled)@) == id_seq(old(filled)@) + q.take(fill_count(a, amount as nat) as int)
        }),
{
    let ghost o0 = orders@;
    let ghost levels = levels_of(side, v@);
    let ghost buf0 = filled@;
    let ghost ks = keys_of(side, v@);
    let ghost c = count_upto(ks, bound);
    let ghost ksq = ks.take(c as int);
    proof {
        lemma_count_upto(ks, bound);
        let up = levels_upto(levels, bound);
        assert forall|k: u64| up.dom().contains(k) <==> ksq.contains(k) by {
            if ksq.contains(k) {
                let i = choose|i: int| 0 <= i < ksq.len() && ksq[i] == k;
                assert(ks[i] == k);
                assert(ks.contains(k));
            }
            if up.dom().contains(k) {
                let j = choose|j: int| 0 <= j < ks.len() && ks[j] == k;
                assert(j < c);
                assert(ksq[j] == k);
            }
        }
        lemma_sorted_keys_is(ksq, up.dom());
        assert(ksq.map_values(|k: u64| up[k]) =~= ksq.map_values(|k: u64| levels[k])) by {
            assert forall|i: int| 0 <= i < ksq.len() implies up[ksq[i]] == levels[ksq[i]] by {
                assert(ks.contains(ks[i]));
            }
        }
        assert(eligible_queue(levels, bound) == queue_of(levels, ksq));
        assert forall|k: u64, t: int|
            levels.contains_key(k) && 0 <= t < levels[k].len() implies 0 <= #[trigger] levels[k][t] <= u64::MAX
                && o0.contains_key(levels[k][t] as u64) by {
            let j = choose|j: int| 0 <= j < ks.len() && ks[j] == k;
            lemma_index_of(side, v@, j);
            assert(o0.contains_key(v@[j].order_ids@[t]));
        }
        assert(ksq.take(0) =~= Seq::<u64>::empty());
        assert(queue_of(levels, ksq.take(0)) =~= Seq::<int>::empty()) by {
            assert(ksq.take(0).map_values(|k: u64| levels[k]) =~= Seq::<Seq<int>>::empty());
        }
        let q0 = queue_of(levels, ksq.take(0));
        assert(amounts_in(o0, q0) =~= Seq::<nat>::empty());
        assert(fill_amounts(amounts_in(o0, q0), amount as nat) =~= Seq::<nat>::empty());
        assert(q0.take(0) =~= Seq::<int>::empty());
        assert(id_seq(buf0) + q0.take(0) =~= id_seq(buf0));
    }
    let mut remaining = amount;
    let mut m: usize = 0;
    while m < v.len() && key_of(side, v[m].price) <= bound && remaining > 0
        invariant
            o0 == old(orders)@,
            buf0 == old(filled)@,
            levels == levels_of(side, v@),
            ks == keys_of(side, v@),
            c == count_upto(ks, bound),
            c <= ks.len(),
            ksq == ks.take(c as int),
            forall|i: int| 0 <= i < c ==> ks[i] <= bound,
            forall|i: int| c <= i < ks.len() ==> ks[i] > bound,
            forall|i: int| 0 <= i < ksq.len() ==> levels.contains_key(#[trigger] ksq[i]),
            forall|i: int, j: int| 0 <= i < j < ksq.len() ==> ksq[i] < ksq[j],
            forall|a: int, b: int| 0 <= a < b < v@.len() ==> keys_of(side, v@)[a] < keys_of(side, v@)[b],
            forall|i: int| 0 <= i < v@.len() ==> (#[trigger] v@[i]).order_ids@.no_duplicates(),
            forall|i: int, t: int|
                0 <= i < v@.len() && 0 <= t < v@[i].order_ids@.len() ==> o0.contains_key(#[trigger] v@[i].order_ids@[t]),
            forall|k: u64, t: int|
                levels.contains_key(k) && 0 <= t < levels[k].len() ==> 0 <= #[trigger] levels[k][t] <= u64::MAX
                    && o0.contains_key(levels[k][t] as u64),
            forall|k1: u64, k2: u64, i: int|
                k1 != k2 && levels.contains_key(k1) && levels.contains_key(k2) && #[trigger] levels[k1].contains(i)
                    ==> !#[trigger] levels[k2].contains(i),
            0 <= m <= c,
            ({
                let qm = queue_of(levels, ksq.take(m as int));
                let am = amounts_in(o0, qm);
                &&& remaining == fill_left(am, amount as nat)
                &&& filled_in(o0, orders@, qm, fill_amounts(am, amount as nat))
                &&& id_seq(filled@) == id_seq(buf0) + qm.take(fill_count(am, amount as nat) as int)
                &&& remaining > 0 ==> fill_count(am, amount as nat) == qm.len()
            }),
        decreases v@.len() - m,
    {
        let key = key_of(side, v[m].price);
        let ids = &v[m].order_ids;
        let ghost o1 = orders@;
        let ghost qm = queue_of(levels, ksq.take(m as int));
        let ghost am = amounts_in(o0, qm);
        let ghost lq = id_seq(ids@);
        let ghost f1 = filled@;
        proof {
            assert(ks[m as int] == key);
            assert(m < c);
            assert(ksq[m as int] == key);
            lemma_index_of(side, v@, m as int);
            assert(levels.contains_key(key));
            assert(levels[key] == lq);
            assert forall|i: int| #[trigger] lq.contains(i) implies !qm.contains(i) by {
                if qm.contains(i) {
                    lemma_queue_contains(levels, ksq.take(m as int), i);
                    let j = choose|j: int| 0 <= j < m && #[trigger] levels[ksq.take(m as int)[j]].contains(i);
                    assert(ksq.take(m as int)[j] == ksq[j]);
                    assert(ksq[j] < ksq[m as int]);
                }
            }
            assert forall|t: int| 0 <= t < ids@.len() implies o1.contains_key(#[trigger] ids@[t]) by {
                assert(o0.contains_key(v@[m as int].order_ids@[t]));
            }
            assert forall|u: int| 0 <= u < lq.len() implies #[trigger] o1[lq[u] as u64] == o0[lq[u] as u64] by {
                assert(lq.contains(lq[u]));
                assert(lq[u] as u64 == ids@[u]);
                assert(o0.contains_key(v@[m as int].order_ids@[u]));
            }
            assert(amounts_in(o1, lq) =~= amounts_in(o0, lq));
        }
        let ghost l1 = remaining as nat;
        remaining = fill_ids(ids, orders, remaining, filled);
        proof {
            let o2 = orders@;
            let al = amounts_in(o0, lq);
            let qm1 = queue_of(levels, ksq.take(m + 1));
            assert(ksq.take(m + 1) =~= ksq.take(m as int).push(key));
            lemma_queue_snoc(levels, ksq.take(m as int), key);
            assert(qm1 == qm + lq);
            assert(amounts_in(o0, qm1) =~= am + al);
            lemma_fill_split(am, al, amount as nat);
            let fam = fill_amounts(am, amount as nat);
            let fal = fill_amounts(al, l1);
            let fa1 = fill_amounts(am + al, amount as nat);
            assert(fa1 == fam + fal);
            assert(fam.len() == qm.len());
            lemma_fill_split(al, Seq::<nat>::empty(), l1);
            assert(o2.dom() =~= o0.dom());
            assert forall|u: int| 0 <= u < qm1.len() implies #[trigger] o2[qm1[u] as u64] == with_amount(
                o0[qm1[u] as u64],
                fa1[u],
            ) by {
                if u < qm.len() {
                    assert(qm1[u] == qm[u]);
                    assert(qm.contains(qm[u]));
                    lemma_level_in_orders(levels, o0, ksq.take(m as int), qm[u]);
                    assert(!lq.contains(qm[u]));
                    assert(o1[qm[u] as u64] == with_amount(o0[qm[u] as u64], fam[u]));
                    assert(o2[qm[u] as u64] == o1[qm[u] as u64]);
                    assert(fa1[u] == fam[u]);
                } else {
                    let v = u - qm.len();
                    assert(qm1[u] == lq[v]);
                    assert(lq.contains(lq[v]));
                    assert(o1[lq[v] as u64] == o0[lq[v] as u64]);
                    assert(fa1[u] == fal[v]);
                }
            }
            assert forall|x: OrderId| o0.contains_key(x) && !qm1.contains(x as int) implies #[trigger] o2[x] == o0[x] by {
                if qm.contains(x as int) {
                    let u = choose|u: int| 0 <= u < qm.len() && qm[u] == x as int;
                    assert(qm1[u] == x as int);
                }
                if lq.contains(x as int) {
                    let v = choose|v: int| 0 <= v < lq.len() && lq[v] == x as int;
                    assert(qm1[qm.len() + v] == x as int);
                }
            }
            let c0 = fill_count(am, amount as nat);
            assert(c0 == qm.len());
            let cl = fill_count(al, l1);
            assert(fill_count(am + al, amount as nat) == qm.len() + cl);
            assert(qm1.take((qm.len() + cl) as int) =~= qm + lq.take(cl as int));
            assert(qm.take(c0 as int) =~= qm);
            assert(id_seq(filled@) =~= id_seq(f1) + id_seq(ids@.take(cl as int)));
            assert(id_seq(ids@.take(cl as int)) =~= lq.take(cl as int));
            assert(id_seq(filled@) =~= id_seq(buf0) + qm1.take(fill_count(am + al, amount as nat) as int));
        }
        m = m + 1;
    }
    proof {
        let q = queue_of(levels, ksq);
        let qm = queue_of(levels, ksq.take(m as int));
        let am = amounts_in(o0, qm);
        if m < ksq.len() {
            assert(ks[m as int] == book_key(side, v@[m as int].price));
            assert(remaining == 0);
            let qr = queue_of(levels, ksq.skip(m as int));
            lemma_queue_take(levels, ksq, m as int);
            let ar = amounts_in(o0, qr);
            assert(amounts_in(o0, q) =~= am + ar);
            lemma_fill_split(am, ar, amount as nat);
            lemma_fill_zero(ar);
            let fa = fill_amounts(am + ar, amount as nat);
            assert forall|u: int| 0 <= u < q.len() implies #[trigger] orders@[q[u] as u64] == with_amount(
                o0[q[u] as u64],
                fa[u],
            ) by {
                if u < qm.len() {
                    assert(q[u] == qm[u]);
                } else {
                    let v = u - qm.len();
                    let x = qr[v];
                    assert(q[u] == x);
                    assert(fa[u] == ar[v]);
                    assert(qr.contains(x));
                    lemma_queue_contains(levels, ksq.skip(m as int), x);
                    let j = choose|j: int| 0 <= j < ksq.len() - m && #[trigger] levels[ksq.skip(m as int)[j]].contains(x);
                    let k = ksq[m + j];
                    assert(ksq.skip(m as int)[j] == k);
                    lemma_level_in_orders(levels, o0, ksq.skip(m as int), x);
                    assert(!qm.contains(x)) by {
                        if qm.contains(x) {
                            lemma_queue_contains(levels, ksq.take(m as int), x);
                            let j2 = choose|j2: int| 0 <= j2 < m && #[trigger] levels[ksq.take(m as int)[j2]].contains(x);
                            assert(ksq.take(m as int)[j2] == ksq[j2]);
                            assert(ksq[j2] < ksq[m + j]);
                        }
                    }
                    assert(orders@[x as u64] == o0[x as u64]);
                }
            }
            assert forall|x: OrderId| o0.contains_key(x) && !q.contains(x as int) implies #[trigger] orders@[x] == o0[x] by {
                if qm.contains(x as int) {
                    let u = choose|u: int| 0 <= u < qm.len() && qm[u] == x as int;
                    assert(q[u] == x as int);
                }
            }
            let c0 = fill_count(am, amount as nat);
            assert(fill_count(am + ar, amount as nat) == c0);
            assert(q.take(c0 as int) =~= qm.take(c0 as int));
        } else {
            assert(ksq.take(m as int) =~= ksq);
        }
    }
    remaining
}

/// Taking the order `order_id` out of position `t` of level `p` of its side
/// keeps the book well formed and removes it from the model.
#[verifier::rlimit(60)]
proof fn lemma_removed(old_book: OrderBook, new_book: OrderBook, side: OrderSide, order_id: OrderId, p: int, t: int)
    requires
        old_book.wf(),
        old_book.orders@.contains_key(order_id),
        old_book.orders@[order_id].side == side,
        0 <= p < old_book.side_vec(side).len(),
        keys_of(side, old_book.side_vec(side))[p] == book_key(side, old_book.orders@[order_id].limit),
        0 <= t < old_book.side_vec(side)[p].order_ids@.len(),
        old_book.side_vec(side)[p].order_ids@[t] == order_id,
        new_book.orders@ == old_book.orders@.remove(order_id),
        new_book.next_order_id == old_book.next_order_id,
        new_book.side_vec(side.opposite()) == old_book.side_vec(side.opposite()),
        ({
            let v0 = old_book.side_vec(side);
            let v1 = new_book.side_vec(side);
            if v0[p].order_ids@.len() == 1 {
                v1 == v0.remove(p)
            } else {
                &&& v1 == v0.update(p, PriceLevel { price: v0[p].price, order_ids: v1[p].order_ids })
                &&& v1[p].order_ids@ == v0[p].order_ids@.remove(t)
            }
        }),
    ensures
        new_book.wf(),
        ({
            let key = book_key(side, old_book.orders@[order_id].limit);
            let lv = old_book.levels(side)[key];
            &&& old_book.levels(side).contains_key(key)
            &&& lv.contains(order_id as int)
            &&& forall|tt: int|
                0 <= tt < lv.len() && lv[tt] == order_id as int ==> #[trigger] new_book.levels(side) == (if lv.len() == 1 {
                    old_book.levels(side).remove(key)
                } else {
                    old_book.levels(side).insert(key, lv.remove(tt))
                })
        }),
        new_book.levels(side.opposite()) == old_book.levels(side.opposite()),
        new_book.orders@.dom() == old_book.orders@.dom().remove(order_id),
{
    let key = book_key(side, old_book.orders@[order_id].limit);
    let v0 = old_book.side_vec(side);
    let ks0 = keys_of(side, v0);
    let w0 = v0[p].order_ids@;
    lemma_index_of(side, v0, p);
    assert(old_book.level_ok(side, p));
    assert(w0.no_duplicates());
    let v1 = new_book.side_vec(side);
    let ks1 = keys_of(side, v1);
    let emptied = w0.len() == 1;
    let w1 = w0.remove(t);
    assert(v1.len() == if emptied { v0.len() - 1 } else { v0.len() as int });
    assert forall|j: int| 0 <= j < v1.len() implies #[trigger] v1[j] == (if !emptied && j == p {
        PriceLevel { price: v0[p].price, order_ids: v1[p].order_ids }
    } else if emptied && j >= p {
        v0[j + 1]
    } else {
        v0[j]
    }) by {
    }
    assert(!emptied ==> v1[p].order_ids@ == w1);
    assert forall|j: int| 0 <= j < ks1.len() implies #[trigger] ks1[j] == (if emptied && j >= p {
        ks0[j + 1]
    } else {
        ks0[j]
    }) by {
    }
    assert(new_book.sorted(side)) by {
        assert forall|a: int, b: int| 0 <= a < b < v1.len() implies ks1[a] < ks1[b] by {
            if emptied && a >= p {
                assert(ks0[a + 1] < ks0[b + 1]);
            } else if emptied && b >= p {
                assert(ks0[a] < ks0[b + 1]);
            }
        }
    }
    assert(new_book.sorted(side.opposite())) by {
        assert(new_book.side_vec(side.opposite()) == old_book.side_vec(side.opposite()));
    }
    assert(w0[t] == order_id);
    assert forall|u: int| 0 <= u < w1.len() implies #[trigger] w1[u] != order_id by {
        let u2 = if u < t { u } else { u + 1 };
        assert(w1[u] == w0[u2]);
        assert(u2 != t);
        assert(w0.no_duplicates());
        assert(w0[u2] != w0[t]);
    }
    assert forall|s: OrderSide, j: int| 0 <= j < new_book.side_vec(s).len() implies #[trigger] new_book.level_ok(s, j) by {
        if s == side {
            let j0 = if emptied && j >= p { j + 1 } else { j };
            assert(old_book.level_ok(side, j0));
            assert(ks1[j] == ks0[j0]);
            let w = v1[j].order_ids@;
            if !emptied && j == p {
                assert(w == w1);
                assert forall|a: int, b: int| 0 <= a < b < w.len() implies w[a] != w[b] by {
                    let a2 = if a < t { a } else { a + 1 };
                    let b2 = if b < t { b } else { b + 1 };
                    assert(w[a] == w0[a2]);
                    assert(w[b] == w0[b2]);
                }
                assert forall|u: int| 0 <= u < w.len() implies {
                    let x = #[trigger] w[u];
                    &&& new_book.orders@.contains_key(x)
                    &&& new_book.orders@[x].side == s
                    &&& book_key(s, new_book.orders@[x].limit) == ks1[j]
                } by {
                    let u2 = if u < t { u } else { u + 1 };
                    assert(w[u] == w0[u2]);
                    assert(old_book.orders@.contains_key(w0[u2]));
                }
            } else {
                assert(v1[j] == v0[j0]);
                assert forall|u: int| 0 <= u < w.len() implies {
                    let x = #[trigger] w[u];
                    &&& new_book.orders@.contains_key(x)
                    &&& new_book.orders@[x].side == s
                    &&& book_key(s, new_book.orders@[x].limit) == ks1[j]
                } by {
                    assert(old_book.orders@.contains_key(w[u]));
                    assert(w[u] != order_id) by {
                        if w[u] == order_id {
                            assert(ks0[j0] == key);
                            assert(j0 != p);
                            assert(ks0[p] == key);
                            if j0 < p {
                                assert(ks0[j0] < ks0[p]);
                            } else {
                                assert(ks0[p] < ks0[j0]);
                            }
                        }
                    }
                }
            }
        } else {
            assert(old_book.level_ok(s, j));
            assert(new_book.side_vec(s) == old_book.side_vec(s));
            let w = new_book.side_vec(s)[j].order_ids@;
            assert forall|u: int| 0 <= u < w.len() implies {
                let x = #[trigger] w[u];
                &&& new_book.orders@.contains_key(x)
                &&& new_book.orders@[x].side == s
                &&& book_key(s, new_book.orders@[x].limit) == keys_of(s, new_book.side_vec(s))[j]
            } by {
                assert(old_book.orders@.contains_key(w[u]));
                assert(w[u] != order_id) by {
                    if w[u] == order_id {
                        assert(old_book.orders@[order_id].side == s);
                    }
                }
            }
        }
    }
    assert forall|x: OrderId| #[trigger] new_book.orders@.contains_key(x) implies new_book.order_ok(x) by {
        assert(x != order_id);
        assert(old_book.order_ok(x));
        let o = old_book.orders@[x];
        let k = book_key(o.side, o.limit);
        if o.side == side {
            let kso = keys_of(side, v0);
            let j0 = kso.index_of(k);
            assert(ks0[j0] == k);
            lemma_index_of(side, v0, j0);
            if j0 == p {
                let u = choose|u: int| 0 <= u < w0.len() && w0[u] == x;
                assert(u != t);
                assert(!emptied);
                let u2 = if u < t { u } else { u - 1 };
                assert(w1[u2] == x);
                lemma_index_of(side, v1, p);
                assert(ks1[p] == k);
            } else {
                let j1 = if emptied && j0 > p { j0 - 1 } else { j0 };
                assert(ks1[j1] == k);
                lemma_index_of(side, v1, j1);
                assert(v1[j1] == v0[j0]);
            }
        } else {
            assert(new_book.side_vec(o.side) == old_book.side_vec(o.side));
        }
    }
    let lv = old_book.levels(side)[key];
    assert(lv == id_seq(w0));
    assert(lv.contains(order_id as int)) by {
        assert(lv[t] == order_id as int);
    }
    assert forall|tt: int| 0 <= tt < lv.len() && lv[tt] == order_id as int implies #[trigger] new_book.levels(side)
        == (if lv.len() == 1 {
        old_book.levels(side).remove(key)
    } else {
        old_book.levels(side).insert(key, lv.remove(tt))
    }) by {
        assert(w0[tt] == order_id);
        assert(w0.no_duplicates());
        assert(tt == t);
        let target = if lv.len() == 1 {
            old_book.levels(side).remove(key)
        } else {
            old_book.levels(side).insert(key, lv.remove(tt))
        };
        assert forall|k: u64| #[trigger] new_book.levels(side).contains_key(k) <==> target.contains_key(k) by {
            if ks1.contains(k) {
                let j = choose|j: int| 0 <= j < ks1.len() && ks1[j] == k;
                let j0 = if emptied && j >= p { j + 1 } else { j };
                assert(ks0[j0] == k);
                if emptied {
                    assert(j0 != p);
                    if j0 < p {
                        assert(ks0[j0] < ks0[p]);
                    } else {
                        assert(ks0[p] < ks0[j0]);
                    }
                }
            }
            if target.contains_key(k) {
                let j0 = choose|j: int| 0 <= j < ks0.len() && ks0[j] == k;
                if emptied {
                    assert(j0 != p);
                    let j1 = if j0 > p { j0 - 1 } else { j0 };
                    assert(ks1[j1] == k);
                } else {
                    assert(ks1[j0] == k);
                }
            }
        }
        assert forall|k: u64| #[trigger] new_book.levels(side).contains_key(k) implies new_book.levels(side)[k] == target[k] by {
            let j = choose|j: int| 0 <= j < ks1.len() && ks1[j] == k;
            let j0 = if emptied && j >= p { j + 1 } else { j };
            lemma_index_of(side, v1, j);
            lemma_index_of(side, v0, j0);
            if !emptied && j == p {
                assert(id_seq(w1) =~= lv.remove(tt));
            } else {
                assert(v1[j] == v0[j0]);
            }
        }
        assert(new_book.levels(side) =~= target);
    }
    assert(new_book.levels(side.opposite()) =~= old_book.levels(side.opposite())) by {
        assert(new_book.side_vec(side.opposite()) == old_book.side_vec(side.opposite()));
    }
    assert(new_book.orders@.dom() =~= old_book.orders@.dom().remove(order_id));
}

impl OrderBook {
    /// How many identifiers the book has handed out: every placed order took
    /// the next one, starting from 0, and none is ever handed out twice.
    pub closed spec fn ids_issued(&self) -> nat {
        self.next_order_id as nat
    }

    /// The book can take another order exactly while its identifiers have not
    /// run out: fewer than `u64::MAX` of them have been handed out.
    pub proof fn law_room_until_ids_run_out(&self)
        ensures
            self.can_place() <==> self.ids_issued() < u64::MAX,
    {
    }

    /// Whether one more order can be placed: an identifier is still free.
    pub fn has_room(&self) -> (r: bool)
        ensures
            r == self.can_place(),
    {
        self.next_order_id < u64::MAX
    }
}

impl OrderBookExt for OrderBook {
    type OrderId = OrderId;
    type Order = LimitOrder<OrderId>;

    open spec fn index_of(id: OrderId) -> int {
        id as int
    }

    open spec fn order_view(order: LimitOrder<OrderId>) -> LimitOrderRequest {
        view_of(order)
    }

    closed spec fn levels(&self, side: OrderSide) -> Map<u64, Seq<int>> {
        levels_of(side, self.side_vec(side))
    }

    closed spec fn order_at(&self, i: int) -> Option<LimitOrderRequest> {
        if 0 <= i <= u64::MAX && self.orders@.contains_key(i as u64) {
            Some(view_of(self.orders@[i as u64]))
        } else {
            None
        }
    }

    closed spec fn order_count(&self) -> nat {
        self.orders@.len()
    }

    closed spec fn wf(&self) -> bool {
        &&& self.sorted(OrderSide::Bid)
        &&& self.sorted(OrderSide::Ask)
        &&& forall|s: OrderSide, i: int| 0 <= i < self.side_vec(s).len() ==> #[trigger] self.level_ok(s, i)
        &&& forall|id: OrderId| #[trigger] self.orders@.contains_key(id) ==> self.order_ok(id)
    }

    /// The identifiers handed out must not run out.
    closed spec fn can_place(&self) -> bool {
        self.next_order_id < u64::MAX
    }

    /// Any identifier can be cancelled: one that names no order is ignored.
    closed spec fn can_cancel(&self, order_id: OrderId) -> bool {
        true
    }

    fn new() -> (book: Self)
        ensures
            book.ids_issued() == 0,
    {
        let book = Self { bids: Vec::new(), asks: Vec::new(), orders: HashMap::new(), next_order_id: 0 };
        proof {
            assert(book.levels(OrderSide::Bid) =~= Map::<u64, Seq<int>>::empty());
            assert(book.levels(OrderSide::Ask) =~= Map::<u64, Seq<int>>::empty());
        }
        book
    }

    fn place_order(&mut self, request: LimitOrderRequest) -> (id: OrderId)
        ensures
            id as nat == old(self).ids_issued(),
            final(self).ids_issued() == old(self).ids_issued() + 1,
    {
        let ghost old_book = *self;
        let LimitOrderRequest { side, limit, amount } = request;
        let new_order_id = self.next_order_id();
        let new_order = LimitOrder::new(new_order_id, side, limit, amount);
        let key = key_of(side, limit);
        proof {
            assert(!old_book.orders@.contains_key(new_order_id)) by {
                if old_book.orders@.contains_key(new_order_id) {
                    assert(old_book.order_ok(new_order_id));
                }
            }
        }
        proof {
            assert(self.side_vec(side) == old_book.side_vec(side));
        }
        let found = self.find_level(side, limit);
        match found {
            Ok(i) => {
                match side {
                    OrderSide::Bid => self.bids[i].order_ids.push(new_order_id),
                    OrderSide::Ask => self.asks[i].order_ids.push(new_order_id),
                }
            },
            Err(i) => {
                let level = PriceLevel::from_order(limit, new_order_id);
                match side {
                    OrderSide::Bid => self.bids.insert(i, level),
                    OrderSide::Ask => self.asks.insert(i, level),
                }
            },
        }
        self.orders.insert(new_order_id, new_order);
        proof {
            lemma_placed(old_book, *self, side, limit, amount, new_order_id, found);
        }
        new_order_id
    }

    fn cancel_order(&mut self, order_id: OrderId)
        ensures
            final(self).ids_issued() == old(self).ids_issued(),
    {
        let ghost old_book = *self;
        let (price, side) = match self.orders.get(&order_id) {
            Some(order) => (order.limit, order.side),
            None => {
                return ;
            },
        };
        let key = key_of(side, price);
        let ghost v0 = old_book.side_vec(side);
        let ghost ks0 = keys_of(side, v0);
        proof {
            assert(old_book.order_ok(order_id));
        }
        let found = self.find_level(side, price);
        let i = match found {
            Ok(i) => i,
            Err(_) => {
                proof {
                    let j = choose|j: int| 0 <= j < ks0.len() && ks0[j] == key;
                }
                return ;
            },
        };
        proof {
            lemma_index_of(side, v0, i as int);
            assert(old_book.level_ok(side, i as int));
        }
        let ghost w0 = v0[i as int].order_ids@;
        let levels = match side {
            OrderSide::Bid => &mut self.bids,
            OrderSide::Ask => &mut self.asks,
        };
        let mut pos: usize = 0;
        while pos < levels[i].order_ids.len() && levels[i].order_ids[pos] != order_id
            invariant
                i < levels@.len(),
                levels@[i as int].order_ids@ == w0,
                w0.contains(order_id),
                0 <= pos <= w0.len(),
                forall|u: int| 0 <= u < pos ==> w0[u] != order_id,
            decreases w0.len() - pos,
        {
            pos = pos + 1;
        }
        proof {
            if pos == w0.len() {
                let u = choose|u: int| 0 <= u < w0.len() && w0[u] == order_id;
                assert(w0[u] != order_id);
            }
        }
        levels[i].order_ids.remove(pos);
        if levels[i].order_ids.len() == 0 {
            levels.remove(i);
        }
        self.orders.remove(&order_id);
        proof {
            let v1 = self.side_vec(side);
            if w0.len() == 1 {
                assert(v1 =~= v0.remove(i as int));
            } else {
                assert(v1 =~= v0.update(i as int, PriceLevel { price: v0[i as int].price, order_ids: v1[i as int].order_ids }));
            }
            lemma_removed(old_book, *self, side, order_id, i as int, pos as int);
        }
    }

    proof fn lemma_levels_facts(&self, side: OrderSide) {
        let v = self.side_vec(side);
        let ks = keys_of(side, v);
        assert(self.levels(side).dom() =~= ks.to_set());
        assert forall|k: u64| #[trigger]
            self.levels(side).contains_key(k) implies self.levels(side)[k].len() > 0
                && self.levels(side)[k].no_duplicates() by {
            let j = choose|j: int| 0 <= j < ks.len() && ks[j] == k;
            lemma_index_of(side, v, j);
            assert(self.level_ok(side, j));
            let w = v[j].order_ids@;
            assert forall|a: int, b: int| 0 <= a < b < w.len() implies id_seq(w)[a] != id_seq(w)[b] by {
                assert(w[a] != w[b]);
            }
        }
        assert forall|k: u64, t: int|
            self.levels(side).contains_key(k) && 0 <= t < self.levels(side)[k].len() implies {
                let o = self.order_at(#[trigger] self.levels(side)[k][t]);
                &&& o is Some
                &&& o->0.side == side
                &&& book_key(side, o->0.limit) == k
            } by {
            let j = choose|j: int| 0 <= j < ks.len() && ks[j] == k;
            lemma_index_of(side, v, j);
            assert(self.level_ok(side, j));
            let w = v[j].order_ids@;
            assert(self.levels(side)[k][t] == w[t] as int);
            assert(self.orders@.contains_key(w[t]));
        }
        assert forall|k1: u64, k2: u64, i: int|
            k1 != k2 && self.levels(side).contains_key(k1) && self.levels(side).contains_key(k2)
                && #[trigger] self.levels(side)[k1].contains(i) implies !#[trigger] self.levels(side)[k2].contains(i) by {
            let j1 = choose|j: int| 0 <= j < ks.len() && ks[j] == k1;
            let j2 = choose|j: int| 0 <= j < ks.len() && ks[j] == k2;
            lemma_index_of(side, v, j1);
            lemma_index_of(side, v, j2);
            assert(self.level_ok(side, j1));
            assert(self.level_ok(side, j2));
            let t1 = choose|t: int| 0 <= t < self.levels(side)[k1].len() && self.levels(side)[k1][t] == i;
            let w1 = v[j1].order_ids@;
            assert(w1[t1] as int == i);
            assert(self.orders@.contains_key(w1[t1]));
            if self.levels(side)[k2].contains(i) {
                let t2 = choose|t: int| 0 <= t < self.levels(side)[k2].len() && self.levels(side)[k2][t] == i;
                let w2 = v[j2].order_ids@;
                assert(w2[t2] as int == i);
                assert(w2[t2] == w1[t1]);
            }
        }
    }

    proof fn lemma_can_cancel(&self, order_id: OrderId) {
    }

    fn get_order(&self, order_id: OrderId) -> (r: Option<&LimitOrder<OrderId>>)
        ensures
            r matches Some(o) ==> o.id == order_id,
    {
        let r = self.orders.get(&order_id);
        proof {
            if r is Some {
                assert(self.orders@.contains_key(order_id));
                assert(self.order_ok(order_id));
            }
        }
        r
    }

    fn capacity(&self) -> (n: usize) {
        self.orders.len()
    }
}

impl OrderBook {
    /// The first level of a side holds the least key of the side.
    /// The price of the level of `side` served first, if there is one.
    pub fn first_level_price(&self, side: OrderSide) -> (r: Option<u64>)
        requires
            self.wf(),
        ensures
            r is None <==> self.levels(side).dom().len() == 0,
            r matches Some(p) ==> self.levels(side).contains_key(book_key(side, p)) && forall|k: u64|
                #[trigger] self.levels(side).contains_key(k) ==> book_key(side, p) <= k,
    {
        proof {
            self.lemma_first_level(side);
        }
        let levels = match side {
            OrderSide::Bid => &self.bids,
            OrderSide::Ask => &self.asks,
        };
        if levels.len() == 0 {
            None
        } else {
            Some(levels[0].price)
        }
    }

    /// The total amount resting at the level of `side` at `price`.
    pub fn level_volume(&self, side: OrderSide, price: u64) -> (v: usize)
        requires
            self.wf(),
            book_volume(*self, side, price) <= usize::MAX,
        ensures
            v == book_volume(*self, side, price),
    {
        let ghost b = *self;
        let found = self.find_level(side, price);
        let i = match found {
            Ok(i) => i,
            Err(_) => {
                proof {
                    let k = book_key(side, price);
                    let ks = keys_of(side, b.side_vec(side));
                    if b.levels(side).contains_key(k) {
                        let j = choose|j: int| 0 <= j < ks.len() && ks[j] == k;
                    }
                }
                return 0;
            },
        };
        let ids = match side {
            OrderSide::Bid => &self.bids[i].order_ids,
            OrderSide::Ask => &self.asks[i].order_ids,
        };
        let ghost key = book_key(side, price);
        let ghost q = b.levels(side)[key];
        let ghost a = book_amounts(b, q);
        proof {
            lemma_index_of(side, b.side_vec(side), i as int);
            assert(b.level_ok(side, i as int));
            assert(q == id_seq(ids@));
            assert(a.take(0) =~= Seq::<nat>::empty());
        }
        let mut total_volume: usize = 0;
        let mut t: usize = 0;
        while t < ids.len()
            invariant
                b == *self,
                b.wf(),
                0 <= i < b.side_vec(side).len(),
                b.side_vec(side)[i as int].order_ids == *ids,
                b.level_ok(side, i as int),
                q == id_seq(ids@),
                a == book_amounts(b, q),
                total(a) <= usize::MAX,
                0 <= t <= ids@.len(),
                total_volume == total(a.take(t as int)),
            decreases ids@.len() - t,
        {
            let id = ids[t];
            proof {
                crate::matching::lemma_total_prefix(a, t + 1);
                assert(a.take(t + 1).drop_last() =~= a.take(t as int));
                assert(b.orders@.contains_key(id));
            }
            let amount = match self.orders.get(&id) {
                Some(order) => order.amount,
                None => vstd::pervasive::unreached(),
            };
            total_volume = total_volume + amount as usize;
            t = t + 1;
        }
        proof {
            assert(a.take(t as int) =~= a);
        }
        total_volume
    }

    proof fn lemma_first_level(&self, side: OrderSide)
        requires
            self.wf(),
        ensures
            self.levels(side).dom().finite(),
            self.side_vec(side).len() == 0 <==> self.levels(side).dom().len() == 0,
            self.side_vec(side).len() > 0 ==> {
                let k0 = book_key(side, self.side_vec(side)[0].price);
                &&& self.levels(side).contains_key(k0)
                &&& forall|k: u64| #[trigger] self.levels(side).contains_key(k) ==> k0 <= k
            },
    {
        let v = self.side_vec(side);
        let ks = keys_of(side, v);
        assert(self.levels(side).dom() =~= ks.to_set());
        ks.lemma_cardinality_of_set();
        if v.len() > 0 {
            assert(ks[0] == book_key(side, v[0].price));
            assert(ks.contains(ks[0]));
            assert forall|k: u64| #[trigger] self.levels(side).contains_key(k) implies ks[0] <= k by {
                let j = choose|j: int| 0 <= j < ks.len() && ks[j] == k;
                if j > 0 {
                    assert(ks[0] < ks[j]);
                }
            }
            assert(self.levels(side).dom().len() > 0) by {
                assert(self.levels(side).dom().contains(ks[0]));
            }
        } else {
            assert(ks.to_set() =~= Set::<u64>::empty());
        }
    }
}

/// Fills what the incoming order `o` reaches in `book`: returns what is
/// left of its amount and the identifiers of the orders it filled
/// completely, which are the front of the other side's queue.
pub(crate) fn fill_book(book: &mut OrderBook, o: &LimitOrderRequest) -> (r: (u64, Vec<OrderId>))
    requires
        old(book).wf(),
    ensures
        final(book).ids_issued() == old(book).ids_issued(),
        book_filled(*old(book), *o, *final(book)),
        r.0 == book_left(*old(book), *o),
        r.0 <= o.amount,
        r.1@.len() == fill_count(book_amounts(*old(book), book_reach(*old(book), *o)), o.amount as nat),
        r.1@.len() <= side_queue(final(book).levels(o.side.opposite())).len(),
        forall|u: int|
            0 <= u < r.1@.len() ==> OrderBook::index_of(#[trigger] r.1@[u]) == side_queue(
                final(book).levels(o.side.opposite()),
            )[u],
{
    let ghost b0 = *book;
    let ghost ov = *o;
    let other = match o.side {
        OrderSide::Bid => OrderSide::Ask,
        OrderSide::Ask => OrderSide::Bid,
    };
    let bound = key_of(other, o.limit);
    let mut orders_to_remove: Vec<OrderId> = Vec::new();
    proof {
        assert(other == o.side.opposite());
        let v = b0.side_vec(other);
        assert forall|i: int| 0 <= i < v.len() implies (#[trigger] v[i]).order_ids@.no_duplicates() by {
            assert(b0.level_ok(other, i));
        }
        assert forall|i: int, t: int| 0 <= i < v.len() && 0 <= t < v[i].order_ids@.len() implies b0.orders@.contains_key(
            #[trigger] v[i].order_ids@[t]) by {
            assert(b0.level_ok(other, i));
        }
        b0.lemma_levels_facts(other);
    }
    let remaining = match other {
        OrderSide::Bid => fill_levels(
            &book.bids,
            other,
            &mut book.orders,
            bound,
            o.amount,
            &mut orders_to_remove,
        ),
        OrderSide::Ask => fill_levels(
            &book.asks,
            other,
            &mut book.orders,
            bound,
            o.amount,
            &mut orders_to_remove,
        ),
    };
    let ghost b1 = *book;
    proof {
        let q = book_reach(b0, ov);
        let a = book_amounts(b0, q);
        let fa = fill_amounts(a, o.amount as nat);
        assert(q == eligible_queue(levels_of(other, b0.side_vec(other)), bound));
        lemma_eligible_prefix(b0.levels(other), bound);
        assert forall|u: int| 0 <= u < q.len() implies 0 <= #[trigger] q[u] <= u64::MAX && b0.orders@.contains_key(q[u] as u64) by {
            let s = side_queue(b0.levels(other));
            assert(q[u] == s[u]);
            assert(s.contains(s[u]));
            lemma_queue_member(b0, other, s[u]);
        }
        assert(amounts_in(b0.orders@, q) =~= a);
        // The book is still well formed: only amounts changed.
        assert forall|s2: OrderSide, j: int| 0 <= j < b1.side_vec(s2).len() implies #[trigger] b1.level_ok(s2, j) by {
            assert(b0.level_ok(s2, j));
            let v = b1.side_vec(s2)[j].order_ids@;
            assert forall|t: int| 0 <= t < v.len() implies {
                let x = #[trigger] v[t];
                &&& b1.orders@.contains_key(x)
                &&& b1.orders@[x].side == s2
                &&& book_key(s2, b1.orders@[x].limit) == keys_of(s2, b1.side_vec(s2))[j]
            } by {
                let x = v[t];
                assert(b0.orders@.contains_key(x));
                if q.contains(x as int) {
                    let u = choose|u: int| 0 <= u < q.len() && q[u] == x as int;
                    assert(b1.orders@[q[u] as u64] == with_amount(b0.orders@[q[u] as u64], fa[u]));
                }
            }
        }
        assert forall|x: OrderId| #[trigger] b1.orders@.contains_key(x) implies b1.order_ok(x) by {
            assert(b0.order_ok(x));
            if q.contains(x as int) {
                let u = choose|u: int| 0 <= u < q.len() && q[u] == x as int;
                assert(b1.orders@[q[u] as u64] == with_amount(b0.orders@[q[u] as u64], fa[u]));
            }
        }
        assert(b1.levels(OrderSide::Bid) == b0.levels(OrderSide::Bid));
        assert(b1.levels(OrderSide::Ask) == b0.levels(OrderSide::Ask));
        assert forall|t: int| 0 <= t < q.len() implies #[trigger] b1.order_at(q[t]) == Some(
            LimitOrderRequest {
                side: b0.order_at(q[t])->0.side,
                limit: b0.order_at(q[t])->0.limit,
                amount: fa[t] as u64,
            },
        ) by {
            assert(b1.orders@[q[t] as u64] == with_amount(b0.orders@[q[t] as u64], fa[t]));
        }
        assert forall|j: int| !q.contains(j) implies #[trigger] b1.order_at(j) == b0.order_at(j) by {
            if 0 <= j <= u64::MAX && b0.orders@.contains_key(j as u64) {
                assert(b1.orders@[j as u64] == b0.orders@[j as u64]);
            }
        }
        assert(book_filled(b0, ov, b1));
        let n = fill_count(a, o.amount as nat);
        crate::matching::lemma_fill_split(a, Seq::<nat>::empty(), o.amount as nat);
        assert forall|u: int| 0 <= u < orders_to_remove@.len() implies OrderBook::index_of(
            #[trigger] orders_to_remove@[u],
        ) == side_queue(b1.levels(other))[u] by {
            assert(id_seq(orders_to_remove@)[u] == q.take(n as int)[u]);
            assert(q[u] == side_queue(b0.levels(other))[u]);
        }
        assert(id_seq(orders_to_remove@).len() == n);
    }
    proof {
        let a = book_amounts(b0, book_reach(b0, ov));
        assert(orders_to_remove@.len() == fill_count(a, o.amount as nat)) by {
            assert(id_seq(orders_to_remove@).len() == orders_to_remove@.len());
        }
        crate::matching::lemma_fill_left_bound(a, o.amount as nat);
        b0.lemma_levels_facts(o.side.opposite());
        lemma_eligible_prefix(b0.levels(o.side.opposite()), book_key(o.side.opposite(), o.limit));
        crate::matching::lemma_fill_split(a, Seq::<nat>::empty(), o.amount as nat);
    }
    (remaining, orders_to_remove)
}

/// A matcher over a book, with the identifiers of all resting orders in the
/// order in which they were placed.
pub struct OrderMatcher {
    pub order_book: OrderBook,
    pub queue: Vec<OrderId>,
}

impl OrderMatcher {
    /// The queue holds each resting order once.
    pub closed spec fn queue_ok(&self) -> bool {
        &&& self.queue@.no_duplicates()
        &&& forall|id: OrderId| #[trigger] self.queue@.contains(id) <==> self.order_book.orders@.contains_key(id)
    }
}

impl OrderMatcher {
    /// Cancels, one by one, the orders `ids`, which are the first orders of
    /// the queue of `side`.
    fn cancel_filled(&mut self, ids: &Vec<OrderId>, Ghost(side): Ghost<OrderSide>)
        requires
            old(self).wf(),
            ids@.len() <= side_queue(old(self).book().levels(side)).len(),
            forall|u: int|
                0 <= u < ids@.len() ==> OrderBook::index_of(#[trigger] ids@[u]) == side_queue(
                    old(self).book().levels(side),
                )[u],
        ensures
            final(self).order_book.ids_issued() == old(self).order_book.ids_issued(),
            final(self).wf(),
            book_cleaned(old(self).book(), side, ids@.len(), final(self).book()),
    {
        let ghost b0 = self.book();
        let ghost s = side_queue(b0.levels(side));
        let ghost n = ids@.len();
        let ghost ids0 = self.order_book.ids_issued();
        proof {
            assert(s.skip(0) =~= s);
        }
        let mut i: usize = 0;
        while i < ids.len()
            invariant
                self.wf(),
                s == side_queue(b0.levels(side)),
                n == ids@.len(),
                n <= s.len(),
                self.order_book.ids_issued() == ids0,
                forall|u: int| 0 <= u < ids@.len() ==> OrderBook::index_of(#[trigger] ids@[u]) == s[u],
                0 <= i <= n,
                side_queue(self.book().levels(side)) == s.skip(i as int),
                self.book().levels(side.opposite()) == b0.levels(side.opposite()),
                forall|u: int| 0 <= u < i ==> #[trigger] self.book().order_at(s[u]) is None,
                forall|j: int| !s.take(i as int).contains(j) ==> #[trigger] self.book().order_at(j) == b0.order_at(j),
                b0.can_place() ==> self.book().can_place(),
            decreases n - i,
        {
            let id = ids[i];
            let ghost b1 = self.book();
            proof {
                assert(OrderBook::index_of(id) == s[i as int]);
                assert(s.skip(i as int)[0] == s[i as int]);
                assert(side_queue(b1.levels(side))[0] == s[i as int]);
                assert(side_queue(b1.levels(side)).contains(s[i as int]));
                lemma_queue_member(b1, side, s[i as int]);
                assert(self.order_book.orders@.contains_key(id));
            }
            self.cancel_order(id);
            proof {
                let b2 = self.book();
                lemma_cancel_head(b1, b2, side);
                assert(s.skip(i as int).drop_first() =~= s.skip(i + 1));
                let x = s[i as int];
                assert forall|j: int| !s.take(i + 1).contains(j) implies #[trigger] b2.order_at(j) == b0.order_at(j) by {
                    assert(s.take(i + 1)[i as int] == x);
                    if s.take(i as int).contains(j) {
                        let u = choose|u: int| 0 <= u < i && s.take(i as int)[u] == j;
                        assert(s.take(i + 1)[u] == j);
                    }
                }
            }
            i = i + 1;
        }
    }
}

impl Default for OrderMatcher {
    fn default() -> (m: Self)
        ensures
            m.wf(),
            m.book().levels(OrderSide::Bid) == Map::<u64, Seq<int>>::empty(),
            m.book().levels(OrderSide::Ask) == Map::<u64, Seq<int>>::empty(),
    {
        <Self as OrderMatcherExt>::new()
    }
}

impl OrderMatcher {
    /// The matcher can take another order exactly while its book's
    /// identifiers have not run out.
    pub proof fn law_room_until_ids_run_out(&self)
        ensures
            self.can_place() <==> self.order_book.ids_issued() < u64::MAX,
    {
        self.order_book.law_room_until_ids_run_out();
    }
}

impl OrderMatcherExt for OrderMatcher {
    type OrderId = OrderId;
    type OrderBook = OrderBook;

    fn has_room(&self) -> (r: bool) {
        self.order_book.has_room()
    }

    open spec fn book(&self) -> OrderBook {
        self.order_book
    }

    closed spec fn wf(&self) -> bool {
        &&& self.order_book.wf()
        &&& self.queue_ok()
    }

    /// The book must be able to take an order.
    open spec fn can_place(&self) -> bool {
        self.order_book.can_place()
    }

    /// The identifier must name a resting order.
    closed spec fn can_cancel(&self, order_id: OrderId) -> bool {
        self.order_book.orders@.contains_key(order_id)
    }

    proof fn lemma_wf(&self) {
    }

    fn new() -> (matcher: Self)
        ensures
            matcher.order_book.ids_issued() == 0,
    {
        let matcher = Self { order_book: OrderBook::new(), queue: Vec::new() };
        proof {
            assert forall|id: OrderId| #[trigger] matcher.queue@.contains(id) <==> matcher.order_book.orders@.contains_key(id) by {
                assert(matcher.order_book.order_at(id as int) is None);
            }
        }
        matcher
    }

    fn place_order(&mut self, request: LimitOrderRequest) -> (id: OrderId)
        ensures
            id as nat == old(self).order_book.ids_issued(),
            final(self).order_book.ids_issued() == old(self).order_book.ids_issued() + 1,
    {
        let id = self.order_book.place_order(request);
        proof {
            assert(!old(self).order_book.orders@.contains_key(id)) by {
                assert(old(self).order_book.order_at(id as int) is None);
            }
        }
        self.queue.push(id);
        proof {
            assert(!old(self).queue@.contains(id));
            assert forall|a: int, b: int| 0 <= a < b < self.queue@.len() implies self.queue@[a] != self.queue@[b] by {
                if b == self.queue@.len() - 1 {
                    assert(old(self).queue@.contains(self.queue@[a]));
                }
            }
            assert forall|x: OrderId| #[trigger] self.queue@.contains(x) <==> self.order_book.orders@.contains_key(x) by {
                if x != id {
                    assert(self.order_book.order_at(x as int) == old(self).order_book.order_at(x as int));
                    if self.queue@.contains(x) {
                        let u = choose|u: int| 0 <= u < self.queue@.len() && self.queue@[u] == x;
                        assert(old(self).queue@[u] == x);
                    }
                    if old(self).queue@.contains(x) {
                        let u = choose|u: int| 0 <= u < old(self).queue@.len() && old(self).queue@[u] == x;
                        assert(self.queue@[u] == x);
                    }
                } else {
                    assert(self.queue@[self.queue@.len() - 1] == id);
                    assert(self.order_book.order_at(id as int) is Some);
                }
            }
        }
        id
    }

    fn cancel_order(&mut self, order_id: OrderId)
        ensures
            final(self).order_book.ids_issued() == old(self).order_book.ids_issued(),
    {
        let ghost q0 = self.queue@;
        let mut pos: usize = 0;
        while pos < self.queue.len() && self.queue[pos] != order_id
            invariant
                self.queue@ == q0,
                q0.contains(order_id),
                0 <= pos <= q0.len(),
                forall|u: int| 0 <= u < pos ==> q0[u] != order_id,
            decreases q0.len() - pos,
        {
            pos = pos + 1;
        }
        proof {
            if pos == q0.len() {
                let u = choose|u: int| 0 <= u < q0.len() && q0[u] == order_id;
                assert(q0[u] != order_id);
            }
        }
        self.queue.remove(pos);
        self.order_book.cancel_order(order_id);
        proof {
            let q1 = self.queue@;
            assert(q1 == q0.remove(pos as int));
            assert forall|a: int, b: int| 0 <= a < b < q1.len() implies q1[a] != q1[b] by {
                let a2 = if a < pos { a } else { a + 1 };
                let b2 = if b < pos { b } else { b + 1 };
                assert(q1[a] == q0[a2]);
                assert(q1[b] == q0[b2]);
            }
            assert forall|x: OrderId| #[trigger] q1.contains(x) <==> self.order_book.orders@.contains_key(x) by {
                assert(self.order_book.order_at(x as int) is Some == self.order_book.orders@.contains_key(x));
                if x != order_id {
                    assert(self.order_book.order_at(x as int) == old(self).order_book.order_at(x as int));
                    assert(old(self).order_book.order_at(x as int) is Some == old(self).order_book.orders@.contains_key(x));
                    if q1.contains(x) {
                        let u = choose|u: int| 0 <= u < q1.len() && q1[u] == x;
                        let u2 = if u < pos { u } else { u + 1 };
                        assert(q0[u2] == x);
                    }
                    if q0.contains(x) {
                        let u = choose|u: int| 0 <= u < q0.len() && q0[u] == x;
                        assert(u != pos);
                        let u2 = if u < pos { u } else { u - 1 };
                        assert(q1[u2] == x);
                    }
                } else {
                    assert(self.order_book.order_at(order_id as int) is None);
                    if q1.contains(x) {
                        let u = choose|u: int| 0 <= u < q1.len() && q1[u] == x;
                        let u2 = if u < pos { u } else { u + 1 };
                        assert(q0[u2] == x);
                        assert(q0[pos as int] == x);
                    }
                }
            }
        }
    }

    fn process_limit_order(&mut self, request: LimitOrderRequest) -> (r: LimitOrderRequest)
        ensures
            final(self).order_book.ids_issued() == old(self).order_book.ids_issued(),
    {
        let mut request = request;
        let ghost b0 = self.order_book;
        let ghost o = request;
        let other = match request.side {
            OrderSide::Bid => OrderSide::Ask,
            OrderSide::Ask => OrderSide::Bid,
        };
        let (remaining, orders_to_remove) = fill_book(&mut self.order_book, &request);
        let ghost b1 = self.order_book;
        proof {
            assert(other == o.side.opposite());
            let q = book_reach(b0, o);
            assert forall|x: OrderId| #[trigger] self.queue@.contains(x) <==> self.order_book.orders@.contains_key(x) by {
                assert(old(self).queue@.contains(x) <==> b0.orders@.contains_key(x));
                assert(b0.order_at(x as int) is Some <==> b0.orders@.contains_key(x));
                assert(b1.order_at(x as int) is Some <==> b1.orders@.contains_key(x));
                if q.contains(x as int) {
                    let t = choose|t: int| 0 <= t < q.len() && q[t] == x as int;
                    assert(b1.order_at(q[t]) is Some);
                    b0.lemma_levels_facts(other);
                    lemma_eligible_prefix(b0.levels(other), book_key(other, o.limit));
                    let s = side_queue(b0.levels(other));
                    assert(q[t] == s[t]);
                    assert(s.contains(s[t]));
                    lemma_queue_member(b0, other, s[t]);
                }
            }
        }
        self.cancel_filled(&orders_to_remove, Ghost(other));
        proof {
            let a = book_amounts(b0, book_reach(b0, o));
            assert(orders_to_remove@.len() == fill_count(a, o.amount as nat)) by {
                assert(id_seq(orders_to_remove@).len() == orders_to_remove@.len());
            }
            lemma_sweep_compose(b0, o, b1, self.order_book);
            crate::matching::lemma_fill_left_bound(a, o.amount as nat);
        }
        request.amount = remaining;
        request
    }

    /// The highest bid price, if there is a bid.
    fn best_bid(&self) -> (r: Option<usize>)
        ensures
            r is None <==> self.book().levels(OrderSide::Bid).dom().len() == 0,
            r matches Some(p) ==> exists|price: u64| #![trigger book_key(OrderSide::Bid, price)]
                p == price as usize && self.book().levels(OrderSide::Bid).contains_key(book_key(OrderSide::Bid, price))
                    && forall|q: u64| #[trigger] self.book().levels(OrderSide::Bid).contains_key(book_key(OrderSide::Bid, q))
                    ==> q <= price,
    {
        match self.order_book.first_level_price(OrderSide::Bid) {
            Some(price) => {
                proof {
                    assert forall|q: u64| #[trigger] self.book().levels(OrderSide::Bid).contains_key(book_key(OrderSide::Bid, q))
                        implies q <= price by {
                        assert(book_key(OrderSide::Bid, price) <= book_key(OrderSide::Bid, q));
                    }
                }
                Some(price as usize)
            },
            None => None,
        }
    }

    /// The lowest ask price, if there is an ask.
    fn best_ask(&self) -> (r: Option<usize>)
        ensures
            r is None <==> self.book().levels(OrderSide::Ask).dom().len() == 0,
            r matches Some(p) ==> exists|price: u64| #![trigger book_key(OrderSide::Ask, price)]
                p == price as usize && self.book().levels(OrderSide::Ask).contains_key(book_key(OrderSide::Ask, price))
                    && forall|q: u64| #[trigger] self.book().levels(OrderSide::Ask).contains_key(book_key(OrderSide::Ask, q))
                    ==> price <= q,
    {
        match self.order_book.first_level_price(OrderSide::Ask) {
            Some(price) => {
                proof {
                    assert forall|q: u64| #[trigger] self.book().levels(OrderSide::Ask).contains_key(book_key(OrderSide::Ask, q))
                        implies price <= q by {
                        assert(book_key(OrderSide::Ask, price) <= book_key(OrderSide::Ask, q));
                    }
                }
                Some(price as usize)
            },
            None => None,
        }
    }

    fn total_volume_at(&self, side: OrderSide, price: usize) -> (v: usize) {
        self.order_book.level_volume(side, price as u64)
    }

    fn order_book(&self) -> (r: &OrderBook) {
        &self.order_book
    }
}

} // verus!
