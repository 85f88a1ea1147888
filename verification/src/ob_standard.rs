//! A book whose price levels are vectors of order identifiers in a
//! `BTreeMap`, with the orders themselves in a `HashMap`.
use vstd::prelude::*;

use std::collections::{BTreeMap, HashMap};

use crate::matching::{
    eligible_queue, fill_amounts, fill_count, fill_left, fill_take, lemma_eligible_prefix,
    lemma_fill_left_bound, lemma_fill_snoc, lemma_fill_split, lemma_fill_zero,
    lemma_queue_contains, lemma_queue_snoc, lemma_queue_take, lemma_side_queue_drop_head,
    lemma_side_queue_no_dups, lemma_sorted_keys_exist, lemma_sorted_keys_is, lemma_total_prefix,
    levels_upto, queue_of, side_queue, sorted_keys, total,
};
use crate::book_match::{
    book_cancelled, book_cleaned, book_filled, lemma_cancel_head, lemma_queue_member, lemma_sweep_compose,
};
use crate::sorted_keys::{first_key_u64, keys_upto_u64};
use crate::{
    book_amounts, book_key, book_left, book_reach, book_swept, book_volume, LimitOrder,
    LimitOrderRequest, OrderBookExt, OrderMatcherExt, OrderSide,
};

verus! {

broadcast use vstd::std_specs::btree::group_btree_axioms, vstd::std_specs::hash::group_hash_axioms;

pub type OrderId = u64;

/// The book: for each side the levels by level key (the price for asks, its
/// complement for bids), each the identifiers of its orders in arrival
/// order; the orders by identifier; and the next identifier to hand out.
pub struct OrderBook {
    pub bids: BTreeMap<u64, Vec<OrderId>>,
    pub asks: BTreeMap<u64, Vec<OrderId>>,
    pub orders: HashMap<OrderId, LimitOrder<OrderId>>,
    next_order_id: OrderId,
}

/// What a stored order says.
pub open spec fn view_of(o: LimitOrder<OrderId>) -> LimitOrderRequest {
    LimitOrderRequest { side: o.side, limit: o.limit, amount: o.amount }
}

/// The identifiers `v` as order indices.
pub open spec fn id_seq(v: Seq<OrderId>) -> Seq<int> {
    v.map_values(|x: OrderId| x as int)
}

/// The key of the level of a side at a price.
pub fn key_of(side: OrderSide, price: u64) -> (k: u64)
    ensures
        k == book_key(side, price),
{
    match side {
        OrderSide::Bid => 0xffff_ffff_ffff_ffffu64 - price,
        OrderSide::Ask => price,
    }
}

/// The price of the level of a side with key `k`.
pub fn price_of(side: OrderSide, k: u64) -> (price: u64)
    ensures
        book_key(side, price) == k,
{
    match side {
        OrderSide::Bid => 0xffff_ffff_ffff_ffffu64 - k,
        OrderSide::Ask => k,
    }
}

impl OrderBook {
    /// The levels of a side, by level key.
    pub closed spec fn side_map(&self, side: OrderSide) -> Map<u64, Vec<OrderId>> {
        match side {
            OrderSide::Bid => self.bids@,
            OrderSide::Ask => self.asks@,
        }
    }

    /// The order with identifier `id`.
    pub closed spec fn stored(&self, id: OrderId) -> LimitOrder<OrderId> {
        self.orders@[id]
    }

    pub closed spec fn level_ok(&self, s: OrderSide, k: u64) -> bool {
        let v = self.side_map(s)[k]@;
        &&& v.len() > 0
        &&& v.no_duplicates()
        &&& forall|t: int|
            0 <= t < v.len() ==> {
                let id = #[trigger] v[t];
                &&& self.orders@.contains_key(id)
                &&& self.orders@[id].side == s
                &&& book_key(s, self.orders@[id].limit) == k
            }
    }

    pub closed spec fn order_ok(&self, id: OrderId) -> bool {
        let o = self.orders@[id];
        let k = book_key(o.side, o.limit);
        &&& id < self.next_order_id
        &&& o.id == id
        &&& self.side_map(o.side).contains_key(k)
        &&& self.side_map(o.side)[k]@.contains(id)
    }

    /// Hands out the next identifier.
    fn next_order_id(&mut self) -> (id: OrderId)
        requires
            old(self).next_order_id < u64::MAX,
        ensures
            id == old(self).next_order_id,
            final(self).next_order_id == id + 1,
            final(self).bids == old(self).bids,
            final(self).asks == old(self).asks,
            final(self).orders == old(self).orders,
    {
        let id = self.next_order_id;
        self.next_order_id = self.next_order_id + 1;
        id
    }
}

/// Appends `id` to the level `key` of `map`, creating the level if need be.
fn push_in(map: &mut BTreeMap<u64, Vec<OrderId>>, key: u64, id: OrderId)
    ensures
        final(map)@ == old(map)@.insert(key, final(map)@[key]),
        final(map)@[key]@ == (if old(map)@.contains_key(key) {
            old(map)@[key]@
        } else {
            Seq::<OrderId>::empty()
        }).push(id),
        final(map)@.dom() == old(map)@.dom().insert(key),
        forall|k: u64| k != key ==> #[trigger] final(map)@.contains_key(k) == old(map)@.contains_key(k),
        forall|k: u64| k != key && old(map)@.contains_key(k) ==> #[trigger] final(map)@[k] == old(map)@[k],
{
    if map.contains_key(&key) {
        let mut v = map.remove(&key).unwrap();
        v.push(id);
        map.insert(key, v);
    } else {
        let mut v: Vec<OrderId> = Vec::new();
        v.push(id);
        map.insert(key, v);
    }
    proof {
        assert(map@.dom() =~= old(map)@.dom().insert(key));
        assert(map@ =~= old(map)@.insert(key, map@[key]));
    }
}

/// Removes `id`, which is on it once, from the level `key` of `map`; a level
/// left empty leaves the map.
fn remove_in(map: &mut BTreeMap<u64, Vec<OrderId>>, key: u64, id: OrderId) -> (t: Ghost<int>)
    requires
        old(map)@.contains_key(key),
        old(map)@[key]@.contains(id),
        old(map)@[key]@.no_duplicates(),
    ensures
        0 <= t@ < old(map)@[key]@.len(),
        old(map)@[key]@[t@] == id,
        old(map)@[key]@.len() == 1 ==> final(map)@ == old(map)@.remove(key),
        old(map)@[key]@.len() > 1 ==> final(map)@.contains_key(key) && final(map)@[key]@
            == old(map)@[key]@.remove(t@) && final(map)@ == old(map)@.insert(key, final(map)@[key]),
{
    let mut v = map.remove(&key).unwrap();
    let ghost v0 = v@;
    let mut pos: usize = 0;
    while pos < v.len() && v[pos] != id
        invariant
            v@ == v0,
            v0.contains(id),
            0 <= pos <= v0.len(),
            forall|u: int| 0 <= u < pos ==> v0[u] != id,
        decreases v0.len() - pos,
    {
        pos = pos + 1;
    }
    proof {
        if pos == v0.len() {
            let u = choose|u: int| 0 <= u < v0.len() && v0[u] == id;
            assert(v0[u] != id);
        }
    }
    let ghost t = pos as int;
    v.remove(pos);
    if v.len() > 0 {
        map.insert(key, v);
    }
    proof {
        if v0.len() == 1 {
            assert(map@ =~= old(map)@.remove(key));
        } else {
            assert(map@ =~= old(map)@.insert(key, map@[key]));
        }
    }
    Ghost(t)
}

impl OrderBook {
    /// How many identifiers the book has handed out: every placed order took
    /// the next one, starting from 0, and none is ever handed out twice.
    pub closed spec fn ids_issued(&self) -> nat {
        self.next_order_id as nat
    }

    /// The book can take another order exactly while its identifiers have not
    /// run out: fewer than `u64::MAX` of them have been handed out.
    pub proof fn law_room_until_ids_run_out(&self)
        ensures
            self.can_place() <==> self.ids_issued() < u64::MAX,
    {
    }

    /// Whether one more order can be placed: an identifier is still free.
    pub fn has_room(&self) -> (r: bool)
        ensures
            r == self.can_place(),
    {
        self.next_order_id < u64::MAX
    }
}

impl OrderBookExt for OrderBook {
    type OrderId = OrderId;
    type Order = LimitOrder<OrderId>;

    open spec fn index_of(id: OrderId) -> int {
        id as int
    }

    open spec fn order_view(order: LimitOrder<OrderId>) -> LimitOrderRequest {
        view_of(order)
    }

    closed spec fn levels(&self, side: OrderSide) -> Map<u64, Seq<int>> {
        self.side_map(side).map_values(|v: Vec<OrderId>| id_seq(v@))
    }

    closed spec fn order_at(&self, i: int) -> Option<LimitOrderRequest> {
        if 0 <= i <= u64::MAX && self.orders@.contains_key(i as u64) {
            Some(view_of(self.orders@[i as u64]))
        } else {
            None
        }
    }

    closed spec fn order_count(&self) -> nat {
        self.orders@.len()
    }

    closed spec fn wf(&self) -> bool {
        &&& forall|s: OrderSide, k: u64| #[trigger] self.side_map(s).contains_key(k) ==> self.level_ok(s, k)
        &&& forall|id: OrderId| #[trigger] self.orders@.contains_key(id) ==> self.order_ok(id)
    }

    /// The identifiers handed out must not run out.
    closed spec fn can_place(&self) -> bool {
        self.next_order_id < u64::MAX
    }

    /// Cancelling an identifier that names no resting order is not guarded against.
    closed spec fn can_cancel(&self, order_id: OrderId) -> bool {
        self.orders@.contains_key(order_id)
    }

    fn new() -> (book: Self)
        ensures
            book.ids_issued() == 0,
    {
        let book = Self { bids: BTreeMap::new(), asks: BTreeMap::new(), orders: HashMap::new(), next_order_id: 0 };
        proof {
            assert(book.levels(OrderSide::Bid) =~= Map::<u64, Seq<int>>::empty());
            assert(book.levels(OrderSide::Ask) =~= Map::<u64, Seq<int>>::empty());
            assert forall|s: OrderSide, k: u64| #[trigger] book.side_map(s).contains_key(k) implies book.level_ok(s, k) by {
            }
        }
        book
    }

    fn place_order(&mut self, request: LimitOrderRequest) -> (id: OrderId)
        ensures
            id as nat == old(self).ids_issued(),
            final(self).ids_issued() == old(self).ids_issued() + 1,
    {
        let ghost old_book = *self;
        let LimitOrderRequest { side, limit, amount } = request;
        let new_order_id = self.next_order_id();
        let new_order = LimitOrder::new(new_order_id, side, limit, amount);
        let key = key_of(side, limit);
        proof {
            assert(!old_book.orders@.contains_key(new_order_id)) by {
                if old_book.orders@.contains_key(new_order_id) {
                    assert(old_book.order_ok(new_order_id));
                }
            }
        }
        match side {
            OrderSide::Bid => push_in(&mut self.bids, key, new_order_id),
            OrderSide::Ask => push_in(&mut self.asks, key, new_order_id),
        }
        self.orders.insert(new_order_id, new_order);
        proof {
            let id = new_order_id;
            assert forall|s: OrderSide, k: u64| #[trigger] self.side_map(s).contains_key(k) implies self.level_ok(s, k) by {
                let v = self.side_map(s)[k]@;
                if s == side && k == key {
                    if old_book.side_map(s).contains_key(k) {
                        assert(old_book.level_ok(s, k));
                        let v0 = old_book.side_map(s)[k]@;
                        assert(!v0.contains(id)) by {
                            if v0.contains(id) {
                                let t = choose|t: int| 0 <= t < v0.len() && v0[t] == id;
                                assert(old_book.orders@.contains_key(v0[t]));
                            }
                        }
                        assert forall|t: int| 0 <= t < v.len() implies {
                            let x = #[trigger] v[t];
                            &&& self.orders@.contains_key(x)
                            &&& self.orders@[x].side == s
                            &&& book_key(s, self.orders@[x].limit) == k
                        } by {
                            if t < v0.len() {
                                assert(v[t] == v0[t]);
                                assert(v0[t] != id);
                            }
                        }
                    }
                } else {
                    assert(old_book.side_map(s).contains_key(k));
                    assert(old_book.level_ok(s, k));
                    assert(self.side_map(s)[k] == old_book.side_map(s)[k]);
                    assert forall|t: int| 0 <= t < v.len() implies {
                        let x = #[trigger] v[t];
                        &&& self.orders@.contains_key(x)
                        &&& self.orders@[x].side == s
                        &&& book_key(s, self.orders@[x].limit) == k
                    } by {
                        assert(old_book.orders@.contains_key(v[t]));
                        assert(v[t] != id);
                    }
                }
            }
            assert forall|x: OrderId| #[trigger] self.orders@.contains_key(x) implies self.order_ok(x) by {
                if x != id {
                    assert(old_book.order_ok(x));
                    let o = old_book.orders@[x];
                    let k = book_key(o.side, o.limit);
                    if o.side == side && k == key {
                        let v0 = old_book.side_map(side)[key]@;
                        let t = choose|t: int| 0 <= t < v0.len() && v0[t] == x;
                        assert(self.side_map(side)[key]@[t] == x);
                    }
                } else {
                    let v = self.side_map(side)[key]@;
                    assert(v[v.len() - 1] == id);
                }
            }
            assert(self.levels(side) =~= old_book.levels(side).insert(
                key,
                (if old_book.levels(side).contains_key(key) {
                    old_book.levels(side)[key]
                } else {
                    Seq::<int>::empty()
                }).push(id as int),
            )) by {
                if old_book.side_map(side).contains_key(key) {
                    assert(id_seq(self.side_map(side)[key]@) =~= id_seq(old_book.side_map(side)[key]@).push(id as int));
                } else {
                    assert(id_seq(self.side_map(side)[key]@) =~= Seq::<int>::empty().push(id as int));
                }
            }
            assert(self.levels(side.opposite()) =~= old_book.levels(side.opposite()));
            assert forall|j: int| j != id as int implies #[trigger] self.order_at(j) == old_book.order_at(j) by {
            }
            assert(self.orders@.dom() =~= old_book.orders@.dom().insert(id));
        }
        new_order_id
    }

    fn cancel_order(&mut self, order_id: OrderId)
        ensures
            final(self).ids_issued() == old(self).ids_issued(),
    {
        let ghost old_book = *self;
        let (price, side) = match self.orders.get(&order_id) {
            Some(order) => (order.limit, order.side),
            None => vstd::pervasive::unreached(),
        };
        let key = key_of(side, price);
        proof {
            assert(old_book.order_ok(order_id));
            assert(old_book.level_ok(side, key));
        }
        let t = match side {
            OrderSide::Bid => remove_in(&mut self.bids, key, order_id),
            OrderSide::Ask => remove_in(&mut self.asks, key, order_id),
        };
        self.orders.remove(&order_id);
        proof {
            let v0 = old_book.side_map(side)[key]@;
            let lv = old_book.levels(side)[key];
            assert(lv =~= id_seq(v0));
            assert forall|s: OrderSide, k: u64| #[trigger] self.side_map(s).contains_key(k) implies self.level_ok(s, k) by {
                assert(old_book.side_map(s).contains_key(k));
                assert(old_book.level_ok(s, k));
                let v = self.side_map(s)[k]@;
                if s == side && k == key {
                    assert(v == v0.remove(t@));
                    assert forall|u: int| 0 <= u < v.len() implies {
                        let x = #[trigger] v[u];
                        &&& self.orders@.contains_key(x)
                        &&& self.orders@[x].side == s
                        &&& book_key(s, self.orders@[x].limit) == k
                    } by {
                        let u2 = if u < t@ { u } else { u + 1 };
                        assert(v[u] == v0[u2]);
                        assert(v0[u2] != order_id);
                    }
                    assert forall|a: int, b: int| 0 <= a < b < v.len() implies v[a] != v[b] by {
                        let a2 = if a < t@ { a } else { a + 1 };
                        let b2 = if b < t@ { b } else { b + 1 };
                        assert(v[a] == v0[a2]);
                        assert(v[b] == v0[b2]);
                    }
                } else {
                    assert(self.side_map(s)[k] == old_book.side_map(s)[k]);
                    assert forall|u: int| 0 <= u < v.len() implies {
                        let x = #[trigger] v[u];
                        &&& self.orders@.contains_key(x)
                        &&& self.orders@[x].side == s
                        &&& book_key(s, self.orders@[x].limit) == k
                    } by {
                        assert(old_book.orders@.contains_key(v[u]));
                        assert(v[u] != order_id) by {
                            if v[u] == order_id {
                                assert(old_book.orders@[order_id].side == s);
                            }
                        }
                    }
                }
            }
            assert forall|x: OrderId| #[trigger] self.orders@.contains_key(x) implies self.order_ok(x) by {
                assert(x != order_id);
                assert(old_book.order_ok(x));
                let o = old_book.orders@[x];
                let k = book_key(o.side, o.limit);
                if o.side == side && k == key {
                    let u = choose|u: int| 0 <= u < v0.len() && v0[u] == x;
                    assert(u != t@);
                    let u2 = if u < t@ { u } else { u - 1 };
                    assert(v0.remove(t@)[u2] == x);
                    assert(v0.len() > 1);
                }
            }
            assert forall|tt: int| 0 <= tt < lv.len() && lv[tt] == order_id as int implies #[trigger] self.levels(side)
                == (if lv.len() == 1 {
                old_book.levels(side).remove(key)
            } else {
                old_book.levels(side).insert(key, lv.remove(tt))
            }) by {
                assert(v0[tt] == order_id);
                assert(tt == t@);
                if lv.len() == 1 {
                    assert(self.levels(side) =~= old_book.levels(side).remove(key));
                } else {
                    assert(id_seq(self.side_map(side)[key]@) =~= lv.remove(tt));
                    assert(self.levels(side) =~= old_book.levels(side).insert(key, lv.remove(tt)));
                }
            }
            assert(self.levels(side.opposite()) =~= old_book.levels(side.opposite()));
            assert(lv.contains(order_id as int)) by {
                assert(lv[t@] == order_id as int);
            }
            assert(self.orders@.dom() =~= old_book.orders@.dom().remove(order_id));
        }
    }

    proof fn lemma_can_cancel(&self, order_id: OrderId) {
    }

    proof fn lemma_levels_facts(&self, side: OrderSide) {
        assert(self.bids@.dom().finite());
        assert(self.asks@.dom().finite());
        assert(self.levels(side).dom() =~= self.side_map(side).dom());
        assert forall|k: u64| #[trigger]
            self.levels(side).contains_key(k) implies self.levels(side)[k].len() > 0
                && self.levels(side)[k].no_duplicates() by {
            assert(self.level_ok(side, k));
            let v = self.side_map(side)[k]@;
            assert forall|a: int, b: int| 0 <= a < b < v.len() implies id_seq(v)[a] != id_seq(v)[b] by {
                assert(v[a] != v[b]);
            }
        }
        assert forall|k: u64, t: int|
            self.levels(side).contains_key(k) && 0 <= t < self.levels(side)[k].len() implies {
                let o = self.order_at(#[trigger] self.levels(side)[k][t]);
                &&& o is Some
                &&& o->0.side == side
                &&& book_key(side, o->0.limit) == k
            } by {
            assert(self.level_ok(side, k));
            let v = self.side_map(side)[k]@;
            assert(self.levels(side)[k][t] == v[t] as int);
            assert(self.orders@.contains_key(v[t]));
        }
        assert forall|k1: u64, k2: u64, i: int|
            k1 != k2 && self.levels(side).contains_key(k1) && self.levels(side).contains_key(k2)
                && #[trigger] self.levels(side)[k1].contains(i) implies !#[trigger] self.levels(side)[k2].contains(i) by {
            assert(self.level_ok(side, k1));
            assert(self.level_ok(side, k2));
            let t1 = choose|t: int| 0 <= t < self.levels(side)[k1].len() && self.levels(side)[k1][t] == i;
            let v1 = self.side_map(side)[k1]@;
            assert(v1[t1] as int == i);
            assert(self.orders@.contains_key(v1[t1]));
            if self.levels(side)[k2].contains(i) {
                let t2 = choose|t: int| 0 <= t < self.levels(side)[k2].len() && self.levels(side)[k2][t] == i;
                let v2 = self.side_map(side)[k2]@;
                assert(v2[t2] as int == i);
                assert(v2[t2] == v1[t1]);
            }
        }
    }

    fn get_order(&self, order_id: OrderId) -> (r: Option<&LimitOrder<OrderId>>)
        ensures
            r matches Some(o) ==> o.id == order_id,
    {
        let r = self.orders.get(&order_id);
        proof {
            if r is Some {
                assert(self.orders@.contains_key(order_id));
                assert(self.order_ok(order_id));
            }
        }
        r
    }

    fn capacity(&self) -> (n: usize) {
        self.orders.len()
    }
}

/// The amounts of the orders with identifiers `q` in `orders`.
pub open spec fn amounts_in(orders: Map<OrderId, LimitOrder<OrderId>>, q: Seq<int>) -> Seq<nat> {
    q.map_values(|i: int| orders[i as u64].amount as nat)
}

/// The order `o` with the amount `a`.
pub open spec fn with_amount(o: LimitOrder<OrderId>, a: nat) -> LimitOrder<OrderId> {
    LimitOrder { id: o.id, side: o.side, limit: o.limit, amount: a as u64 }
}

/// `new` is `old` with the order `q[u]` given the amount `am[u]`, for each
/// position `u` of `q`, and every other order unchanged.
pub open spec fn filled_in(
    old: Map<OrderId, LimitOrder<OrderId>>,
    new: Map<OrderId, LimitOrder<OrderId>>,
    q: Seq<int>,
    am: Seq<nat>,
) -> bool {
    &&& new.dom() == old.dom()
    &&& forall|u: int| 0 <= u < q.len() ==> #[trigger] new[q[u] as u64] == with_amount(old[q[u] as u64], am[u])
    &&& forall|id: OrderId| old.contains_key(id) && !q.contains(id as int) ==> #[trigger] new[id] == old[id]
}

/// Fills the orders `ids`, oldest first, with the incoming amount `rem`;
/// the identifier of each order filled completely is appended to `filled`.
/// Returns what is left of `rem`.
pub(crate) fn fill_ids(
    ids: &Vec<OrderId>,
    orders: &mut HashMap<OrderId, LimitOrder<OrderId>>,
    rem: u64,
    filled: &mut Vec<OrderId>,
) -> (left: u64)
    requires
        ids@.no_duplicates(),
        forall|t: int| 0 <= t < ids@.len() ==> old(orders)@.contains_key(#[trigger] ids@[t]),
    ensures
        ({
            let q = id_seq(ids@);
            let a = amounts_in(old(orders)@, q);
            &&& left == fill_left(a, rem as nat)
            &&& filled_in(old(orders)@, final(orders)@, q, fill_amounts(a, rem as nat))
            &&& final(filled)@ == old(filled)@ + ids@.take(fill_count(a, rem as nat) as int)
            &&& left > 0 ==> fill_count(a, rem as nat) == q.len()
        }),
{
    let ghost o0 = orders@;
    let ghost q = id_seq(ids@);
    let ghost a = amounts_in(o0, q);
    let ghost buf0 = filled@;
    let mut remaining = rem;
    let mut t: usize = 0;
    proof {
        assert(a.take(0) =~= Seq::<nat>::empty());
        assert(q.take(0) =~= Seq::<int>::empty());
        assert(fill_amounts(a.take(0), rem as nat) =~= Seq::<nat>::empty());
        assert(ids@.take(0) =~= Seq::<OrderId>::empty());
        assert(buf0 + ids@.take(0) =~= buf0);
    }
    while t < ids.len() && remaining > 0
        invariant
            o0 == old(orders)@,
            q == id_seq(ids@),
            a == amounts_in(o0, q),
            buf0 == old(filled)@,
            ids@.no_duplicates(),
            forall|u: int| 0 <= u < ids@.len() ==> o0.contains_key(#[trigger] ids@[u]),
            0 <= t <= ids@.len(),
            remaining == fill_left(a.take(t as int), rem as nat),
            filled_in(o0, orders@, q.take(t as int), fill_amounts(a.take(t as int), rem as nat)),
            filled@ == buf0 + ids@.take(fill_count(a.take(t as int), rem as nat) as int),
            remaining > 0 ==> fill_count(a.take(t as int), rem as nat) == t,
        decreases ids@.len() - t,
    {
        let id = ids[t];
        let ghost tt = t as int;
        proof {
            lemma_fill_split(a.take(tt), seq![a[tt]], rem as nat);
            assert(!q.take(tt).contains(id as int)) by {
                if q.take(tt).contains(id as int) {
                    let u = choose|u: int| 0 <= u < tt && q.take(tt)[u] == id as int;
                    assert(ids@[u] == ids@[tt]);
                }
            }
            assert(orders@[id] == o0[id]);
        }
        let (oid, side, limit, amount) = match orders.get(&id) {
            Some(o) => (o.id, o.side, o.limit, o.amount),
            None => vstd::pervasive::unreached(),
        };
        let fill = if amount < remaining {
            amount
        } else {
            remaining
        };
        let ghost m1 = orders@;
        let ghost l1 = remaining as nat;
        orders.insert(id, LimitOrder { id: oid, side, limit, amount: amount - fill });
        remaining = remaining - fill;
        if amount - fill == 0 {
            filled.push(id);
        }
        proof {
            let at = a.take(tt);
            let qt = q.take(tt);
            assert(a.take(tt + 1) =~= at.push(a[tt]));
            assert(q.take(tt + 1) =~= qt.push(q[tt]));
            assert(ids@.take(tt + 1) =~= ids@.take(tt).push(id));
            assert(a[tt] == amount);
            lemma_fill_snoc(at, a[tt], rem as nat);
            assert(fill == fill_take(a[tt], l1));
            let fa = fill_amounts(a.take(tt + 1), rem as nat);
            assert(fa == fill_amounts(at, rem as nat).push((amount - fill) as nat));
            let m2 = orders@;
            assert(m2 == m1.insert(id, LimitOrder { id: oid, side, limit, amount: (amount - fill) as u64 }));
            assert(m2.dom() =~= o0.dom());
            assert forall|u: int| 0 <= u < tt + 1 implies #[trigger] m2[q.take(tt + 1)[u] as u64] == with_amount(
                o0[q.take(tt + 1)[u] as u64],
                fa[u],
            ) by {
                if u < tt {
                    assert(q.take(tt + 1)[u] == qt[u]);
                    assert(ids@[u] != id);
                    assert(m1[qt[u] as u64] == with_amount(o0[qt[u] as u64], fill_amounts(at, rem as nat)[u]));
                    assert(fa[u] == fill_amounts(at, rem as nat)[u]);
                } else {
                    assert(q.take(tt + 1)[u] == id as int);
                    assert(fa[tt] == (amount - fill) as nat);
                }
            }
            assert forall|x: OrderId| o0.contains_key(x) && !q.take(tt + 1).contains(x as int) implies #[trigger] m2[x]
                == o0[x] by {
                assert(x != id) by {
                    if x == id {
                        assert(q.take(tt + 1)[tt] == x as int);
                    }
                }
                if qt.contains(x as int) {
                    let u = choose|u: int| 0 <= u < tt && qt[u] == x as int;
                    assert(q.take(tt + 1)[u] == x as int);
                }
            }
            let c0 = fill_count(at, rem as nat);
            if amount - fill == 0 {
                assert(l1 > 0);
                assert(c0 == tt);
                assert(fill_count(a.take(tt + 1), rem as nat) == tt + 1);
            } else {
                assert(fill_count(a.take(tt + 1), rem as nat) == c0);
            }
        }
        t = t + 1;
    }
    proof {
        let tt = t as int;
        let at = a.take(tt);
        lemma_fill_split(at, a.skip(tt), rem as nat);
        assert(at + a.skip(tt) =~= a);
        if tt < q.len() {
            assert(remaining == 0);
            lemma_fill_zero(a.skip(tt));
            let fa = fill_amounts(a, rem as nat);
            assert(fa == fill_amounts(at, rem as nat) + a.skip(tt));
            assert forall|u: int| 0 <= u < q.len() implies #[trigger] orders@[q[u] as u64] == with_amount(
                o0[q[u] as u64],
                fa[u],
            ) by {
                if u < tt {
                    assert(q.take(tt)[u] == q[u]);
                } else {
                    assert(fa[u] == a[u]);
                    assert(!q.take(tt).contains(q[u])) by {
                        if q.take(tt).contains(q[u]) {
                            let v = choose|v: int| 0 <= v < tt && q.take(tt)[v] == q[u];
                            assert(ids@[v] == ids@[u]);
                        }
                    }
                    assert(o0.contains_key(ids@[u]));
                }
            }
            assert forall|x: OrderId| o0.contains_key(x) && !q.contains(x as int) implies #[trigger] orders@[x] == o0[x] by {
                if q.take(tt).contains(x as int) {
                    let v = choose|v: int| 0 <= v < tt && q.take(tt)[v] == x as int;
                    assert(q[v] == x as int);
                }
            }
            assert(fill_count(a, rem as nat) == fill_count(at, rem as nat));
        } else {
            assert(at =~= a);
            assert(q.take(tt) =~= q);
            assert(ids@.take(tt) =~= ids@);
        }
    }
    remaining
}

/// The orders of each level of `map` as order indices.
pub open spec fn level_ids(map: Map<u64, Vec<OrderId>>) -> Map<u64, Seq<int>> {
    map.map_values(|v: Vec<OrderId>| id_seq(v@))
}

/// An order of the queue over keys of `map` is in `orders`.
proof fn lemma_queue_in_orders(
    map: Map<u64, Vec<OrderId>>,
    orders: Map<OrderId, LimitOrder<OrderId>>,
    ks: Seq<u64>,
    x: int,
)
    requires
        forall|i: int| 0 <= i < ks.len() ==> map.contains_key(#[trigger] ks[i]),
        forall|k: u64, t: int|
            map.contains_key(k) && 0 <= t < map[k]@.len() ==> orders.contains_key(#[trigger] map[k]@[t]),
        queue_of(level_ids(map), ks).contains(x),
    ensures
        0 <= x <= u64::MAX,
        orders.contains_key(x as u64),
{
    let levels = level_ids(map);
    lemma_queue_contains(levels, ks, x);
    let j = choose|j: int| 0 <= j < ks.len() && #[trigger] levels[ks[j]].contains(x);
    let k = ks[j];
    let t = choose|t: int| 0 <= t < levels[k].len() && levels[k][t] == x;
    assert(levels[k][t] == map[k]@[t] as int);
    assert(orders.contains_key(map[k]@[t]));
}

/// Fills the levels of `map` whose key is at most `bound`, lowest key first
/// and each oldest order first, with the incoming `amount`; the identifier
/// of each order filled completely is appended to `filled`.  Returns what is
/// left of `amount`.
fn fill_side(
    map: &BTreeMap<u64, Vec<OrderId>>,
    orders: &mut HashMap<OrderId, LimitOrder<OrderId>>,
    bound: u64,
    amount: u64,
    filled: &mut Vec<OrderId>,
) -> (left: u64)
    requires
        forall|k: u64| #[trigger] map@.contains_key(k) ==> map@[k]@.no_duplicates(),
        forall|k: u64, t: int|
            map@.contains_key(k) && 0 <= t < map@[k]@.len() ==> old(orders)@.contains_key(#[trigger] map@[k]@[t]),
        forall|k1: u64, k2: u64, i: int|
            k1 != k2 && map@.contains_key(k1) && map@.contains_key(k2) && #[trigger] level_ids(map@)[k1].contains(i)
                ==> !#[trigger] level_ids(map@)[k2].contains(i),
    ensures
        ({
            let q = eligible_queue(level_ids(map@), bound);
            let a = amounts_in(old(orders)@, q);
            &&& left == fill_left(a, amount as nat)
            &&& filled_in(old(orders)@, final(orders)@, q, fill_amounts(a, amount as nat))
            &&& id_seq(final(filled)@) == id_seq(old(filled)@) + q.take(fill_count(a, amount as nat) as int)
        }),
{
    let ghost o0 = orders@;
    let ghost levels = level_ids(map@);
    let ghost buf0 = filled@;
    let ks = keys_upto_u64(map, bound);
    let ghost ksq = ks@;
    proof {
        let up = levels_upto(levels, bound);
        assert forall|k: u64| up.dom().contains(k) <==> ksq.contains(k) by {
            if ksq.contains(k) {
                let i = choose|i: int| 0 <= i < ksq.len() && ksq[i] == k;
                assert(map@.contains_key(ksq[i]));
            }
        }
        lemma_sorted_keys_is(ksq, up.dom());
        assert(ksq.map_values(|k: u64| up[k]) =~= ksq.map_values(|k: u64| levels[k]));
        assert(eligible_queue(levels, bound) == queue_of(levels, ksq));
        assert(ksq.take(0) =~= Seq::<u64>::empty());
        assert(queue_of(levels, ksq.take(0)) =~= Seq::<int>::empty()) by {
            assert(ksq.take(0).map_values(|k: u64| levels[k]) =~= Seq::<Seq<int>>::empty());
        }
        let q0 = queue_of(levels, ksq.take(0));
        assert(amounts_in(o0, q0) =~= Seq::<nat>::empty());
        assert(fill_amounts(amounts_in(o0, q0), amount as nat) =~= Seq::<nat>::empty());
        assert(q0.take(0) =~= Seq::<int>::empty());
        assert(id_seq(buf0) + q0.take(0) =~= id_seq(buf0));
    }
    let mut remaining = amount;
    let mut m: usize = 0;
    while m < ks.len() && remaining > 0
        invariant
            o0 == old(orders)@,
            buf0 == old(filled)@,
            levels == level_ids(map@),
            ksq == ks@,
            forall|i: int| 0 <= i < ksq.len() ==> map@.contains_key(#[trigger] ksq[i]),
            forall|i: int, j: int| 0 <= i < j < ksq.len() ==> ksq[i] < ksq[j],
            forall|k: u64| #[trigger] map@.contains_key(k) ==> map@[k]@.no_duplicates(),
            forall|k: u64, t: int|
                map@.contains_key(k) && 0 <= t < map@[k]@.len() ==> o0.contains_key(#[trigger] map@[k]@[t]),
            forall|k1: u64, k2: u64, i: int|
                k1 != k2 && map@.contains_key(k1) && map@.contains_key(k2) && #[trigger] levels[k1].contains(i)
                    ==> !#[trigger] levels[k2].contains(i),
            0 <= m <= ksq.len(),
            ({
                let qm = queue_of(levels, ksq.take(m as int));
                let am = amounts_in(o0, qm);
                &&& remaining == fill_left(am, amount as nat)
                &&& filled_in(o0, orders@, qm, fill_amounts(am, amount as nat))
                &&& id_seq(filled@) == id_seq(buf0) + qm.take(fill_count(am, amount as nat) as int)
                &&& remaining > 0 ==> fill_count(am, amount as nat) == qm.len()
            }),
        decreases ksq.len() - m,
    {
        let key = ks[m];
        let ids = map.get(&key).unwrap();
        let ghost o1 = orders@;
        let ghost qm = queue_of(levels, ksq.take(m as int));
        let ghost am = amounts_in(o0, qm);
        let ghost lq = id_seq(ids@);
        let ghost f1 = filled@;
        proof {
            assert(map@.contains_key(key));
            assert(levels[key] == lq);
            assert forall|i: int| #[trigger] lq.contains(i) implies !qm.contains(i) by {
                if qm.contains(i) {
                    lemma_queue_contains(levels, ksq.take(m as int), i);
                    let j = choose|j: int| 0 <= j < m && #[trigger] levels[ksq.take(m as int)[j]].contains(i);
                    assert(ksq.take(m as int)[j] == ksq[j]);
                    assert(ksq[j] < ksq[m as int]);
                }
            }
            assert forall|t: int| 0 <= t < ids@.len() implies o1.contains_key(#[trigger] ids@[t]) by {
                assert(o0.contains_key(map@[key]@[t]));
            }
            assert forall|u: int| 0 <= u < lq.len() implies #[trigger] o1[lq[u] as u64] == o0[lq[u] as u64] by {
                assert(lq.contains(lq[u]));
                assert(lq[u] as u64 == ids@[u]);
                assert(o0.contains_key(map@[key]@[u]));
            }
            assert(amounts_in(o1, lq) =~= amounts_in(o0, lq));
        }
        let ghost l1 = remaining as nat;
        remaining = fill_ids(ids, orders, remaining, filled);
        proof {
            let o2 = orders@;
            let al = amounts_in(o0, lq);
            let qm1 = queue_of(levels, ksq.take(m + 1));
            assert(ksq.take(m + 1) =~= ksq.take(m as int).push(key));
            lemma_queue_snoc(levels, ksq.take(m as int), key);
            assert(qm1 == qm + lq);
            assert(amounts_in(o0, qm1) =~= am + al);
            lemma_fill_split(am, al, amount as nat);
            let fam = fill_amounts(am, amount as nat);
            let fal = fill_amounts(al, l1);
            let fa1 = fill_amounts(am + al, amount as nat);
            assert(fa1 == fam + fal);
            assert(fam.len() == qm.len());
            lemma_fill_split(al, Seq::<nat>::empty(), l1);
            assert(o2.dom() =~= o0.dom());
            assert forall|u: int| 0 <= u < qm1.len() implies #[trigger] o2[qm1[u] as u64] == with_amount(
                o0[qm1[u] as u64],
                fa1[u],
            ) by {
                if u < qm.len() {
                    assert(qm1[u] == qm[u]);
                    assert(qm.contains(qm[u]));
                    lemma_queue_in_orders(map@, o0, ksq.take(m as int), qm[u]);
                    assert(!lq.contains(qm[u]));
                    assert(o1[qm[u] as u64] == with_amount(o0[qm[u] as u64], fam[u]));
                    assert(o2[qm[u] as u64] == o1[qm[u] as u64]);
                    assert(fa1[u] == fam[u]);
                } else {
                    let v = u - qm.len();
                    assert(qm1[u] == lq[v]);
                    assert(lq.contains(lq[v]));
                    assert(o1[lq[v] as u64] == o0[lq[v] as u64]);
                    assert(fa1[u] == fal[v]);
                }
            }
            assert forall|x: OrderId| o0.contains_key(x) && !qm1.contains(x as int) implies #[trigger] o2[x] == o0[x] by {
                if qm.contains(x as int) {
                    let u = choose|u: int| 0 <= u < qm.len() && qm[u] == x as int;
                    assert(qm1[u] == x as int);
                }
                if lq.contains(x as int) {
                    let v = choose|v: int| 0 <= v < lq.len() && lq[v] == x as int;
                    assert(qm1[qm.len() + v] == x as int);
                }
            }
            let c0 = fill_count(am, amount as nat);
            assert(c0 == qm.len());
            let cl = fill_count(al, l1);
            assert(fill_count(am + al, amount as nat) == qm.len() + cl);
            assert(qm1.take((qm.len() + cl) as int) =~= qm + lq.take(cl as int));
            assert(qm.take(c0 as int) =~= qm);
            assert(id_seq(filled@) =~= id_seq(f1) + id_seq(ids@.take(cl as int)));
            assert(id_seq(ids@.take(cl as int)) =~= lq.take(cl as int));
            assert(id_seq(filled@) =~= id_seq(buf0) + qm1.take(fill_count(am + al, amount as nat) as int));
        }
        m = m + 1;
    }
    proof {
        let q = queue_of(levels, ksq);
        let qm = queue_of(levels, ksq.take(m as int));
        let am = amounts_in(o0, qm);
        if m < ksq.len() {
            assert(remaining == 0);
            let qr = queue_of(levels, ksq.skip(m as int));
            lemma_queue_take(levels, ksq, m as int);
            let ar = amounts_in(o0, qr);
            assert(amounts_in(o0, q) =~= am + ar);
            lemma_fill_split(am, ar, amount as nat);
            lemma_fill_zero(ar);
            let fa = fill_amounts(am + ar, amount as nat);
            assert forall|u: int| 0 <= u < q.len() implies #[trigger] orders@[q[u] as u64] == with_amount(
                o0[q[u] as u64],
                fa[u],
            ) by {
                if u < qm.len() {
                    assert(q[u] == qm[u]);
                } else {
                    let v = u - qm.len();
                    let x = qr[v];
                    assert(q[u] == x);
                    assert(fa[u] == ar[v]);
                    assert(qr.contains(x));
                    lemma_queue_contains(levels, ksq.skip(m as int), x);
                    let j = choose|j: int| 0 <= j < ksq.len() - m && #[trigger] levels[ksq.skip(m as int)[j]].contains(x);
                    let k = ksq[m + j];
                    assert(ksq.skip(m as int)[j] == k);
                    lemma_queue_in_orders(map@, o0, ksq.skip(m as int), x);
                    assert(!qm.contains(x)) by {
                        if qm.contains(x) {
                            lemma_queue_contains(levels, ksq.take(m as int), x);
                            let j2 = choose|j2: int| 0 <= j2 < m && #[trigger] levels[ksq.take(m as int)[j2]].contains(x);
                            assert(ksq.take(m as int)[j2] == ksq[j2]);
                            assert(ksq[j2] < ksq[m + j]);
                        }
                    }
                    assert(orders@[x as u64] == o0[x as u64]);
                }
            }
            assert forall|x: OrderId| o0.contains_key(x) && !q.contains(x as int) implies #[trigger] orders@[x] == o0[x] by {
                if qm.contains(x as int) {
                    let u = choose|u: int| 0 <= u < qm.len() && qm[u] == x as int;
                    assert(q[u] == x as int);
                }
            }
            let c0 = fill_count(am, amount as nat);
            assert(fill_count(am + ar, amount as nat) == c0);
            assert(q.take(c0 as int) =~= qm.take(c0 as int));
        } else {
            assert(ksq.take(m as int) =~= ksq);
        }
    }
    remaining
}

/// Fills what the incoming order `o` reaches in `book`: returns what is
/// left of its amount and the identifiers of the orders it filled
/// completely, which are the front of the other side's queue.
pub(crate) fn fill_book(book: &mut OrderBook, o: &LimitOrderRequest) -> (r: (u64, Vec<OrderId>))
    requires
        old(book).wf(),
    ensures
        final(book).ids_issued() == old(book).ids_issued(),
        book_filled(*old(book), *o, *final(book)),
        r.0 == book_left(*old(book), *o),
        r.0 <= o.amount,
        r.1@.len() == fill_count(book_amounts(*old(book), book_reach(*old(book), *o)), o.amount as nat),
        r.1@.len() <= side_queue(final(book).levels(o.side.opposite())).len(),
        forall|u: int|
            0 <= u < r.1@.len() ==> OrderBook::index_of(#[trigger] r.1@[u]) == side_queue(
                final(book).levels(o.side.opposite()),
            )[u],
{
    let ghost b0 = *book;
    let ghost ov = *o;
    let other = match o.side {
        OrderSide::Bid => OrderSide::Ask,
        OrderSide::Ask => OrderSide::Bid,
    };
    let bound = key_of(other, o.limit);
    let mut orders_to_remove: Vec<OrderId> = Vec::new();
    proof {
        assert(other == o.side.opposite());
        assert forall|k: u64| #[trigger] b0.side_map(other).contains_key(k) implies b0.side_map(other)[k]@.no_duplicates() by {
            assert(b0.level_ok(other, k));
        }
        assert forall|k: u64, t: int|
            b0.side_map(other).contains_key(k) && 0 <= t < b0.side_map(other)[k]@.len() implies b0.orders@.contains_key(
            #[trigger] b0.side_map(other)[k]@[t]) by {
            assert(b0.level_ok(other, k));
        }
        b0.lemma_levels_facts(other);
        assert(level_ids(b0.side_map(other)) =~= b0.levels(other));
    }
    let remaining = match other {
        OrderSide::Bid => fill_side(
            &book.bids,
            &mut book.orders,
            bound,
            o.amount,
            &mut orders_to_remove,
        ),
        OrderSide::Ask => fill_side(
            &book.asks,
            &mut book.orders,
            bound,
            o.amount,
            &mut orders_to_remove,
        ),
    };
    let ghost b1 = *book;
    proof {
        let q = book_reach(b0, ov);
        let a = book_amounts(b0, q);
        let fa = fill_amounts(a, o.amount as nat);
        assert(q == eligible_queue(level_ids(b0.side_map(other)), bound));
        lemma_eligible_prefix(b0.levels(other), bound);
        assert forall|u: int| 0 <= u < q.len() implies 0 <= #[trigger] q[u] <= u64::MAX && b0.orders@.contains_key(q[u] as u64) by {
            let s = side_queue(b0.levels(other));
            assert(q[u] == s[u]);
            assert(s.contains(s[u]));
            lemma_queue_member(b0, other, s[u]);
        }
        assert(amounts_in(b0.orders@, q) =~= a);
        // The book is still well formed: only amounts changed.
        assert forall|s2: OrderSide, k: u64| #[trigger] b1.side_map(s2).contains_key(k) implies b1.level_ok(s2, k) by {
            assert(b0.level_ok(s2, k));
            let v = b1.side_map(s2)[k]@;
            assert forall|t: int| 0 <= t < v.len() implies {
                let x = #[trigger] v[t];
                &&& b1.orders@.contains_key(x)
                &&& b1.orders@[x].side == s2
                &&& book_key(s2, b1.orders@[x].limit) == k
            } by {
                let x = v[t];
                assert(b0.orders@.contains_key(x));
                if q.contains(x as int) {
                    let u = choose|u: int| 0 <= u < q.len() && q[u] == x as int;
                    assert(b1.orders@[q[u] as u64] == with_amount(b0.orders@[q[u] as u64], fa[u]));
                }
            }
        }
        assert forall|x: OrderId| #[trigger] b1.orders@.contains_key(x) implies b1.order_ok(x) by {
            assert(b0.order_ok(x));
            if q.contains(x as int) {
                let u = choose|u: int| 0 <= u < q.len() && q[u] == x as int;
                assert(b1.orders@[q[u] as u64] == with_amount(b0.orders@[q[u] as u64], fa[u]));
            }
        }
        assert(b1.levels(OrderSide::Bid) == b0.levels(OrderSide::Bid));
        assert(b1.levels(OrderSide::Ask) == b0.levels(OrderSide::Ask));
        assert forall|t: int| 0 <= t < q.len() implies #[trigger] b1.order_at(q[t]) == Some(
            LimitOrderRequest {
                side: b0.order_at(q[t])->0.side,
                limit: b0.order_at(q[t])->0.limit,
                amount: fa[t] as u64,
            },
        ) by {
            assert(b1.orders@[q[t] as u64] == with_amount(b0.orders@[q[t] as u64], fa[t]));
        }
        assert forall|j: int| !q.contains(j) implies #[trigger] b1.order_at(j) == b0.order_at(j) by {
            if 0 <= j <= u64::MAX && b0.orders@.contains_key(j as u64) {
                assert(b1.orders@[j as u64] == b0.orders@[j as u64]);
            }
        }
        assert(book_filled(b0, ov, b1));
        let n = fill_count(a, o.amount as nat);
        crate::matching::lemma_fill_split(a, Seq::<nat>::empty(), o.amount as nat);
        assert forall|u: int| 0 <= u < orders_to_remove@.len() implies OrderBook::index_of(
            #[trigger] orders_to_remove@[u],
        ) == side_queue(b1.levels(other))[u] by {
            assert(id_seq(orders_to_remove@)[u] == q.take(n as int)[u]);
            assert(q[u] == side_queue(b0.levels(other))[u]);
        }
        assert(id_seq(orders_to_remove@).len() == n);
    }
    proof {
        let a = book_amounts(b0, book_reach(b0, ov));
        assert(orders_to_remove@.len() == fill_count(a, o.amount as nat)) by {
            assert(id_seq(orders_to_remove@).len() == orders_to_remove@.len());
        }
        crate::matching::lemma_fill_left_bound(a, o.amount as nat);
        b0.lemma_levels_facts(o.side.opposite());
        lemma_eligible_prefix(b0.levels(o.side.opposite()), book_key(o.side.opposite(), o.limit));
        crate::matching::lemma_fill_split(a, Seq::<nat>::empty(), o.amount as nat);
    }
    (remaining, orders_to_remove)
}

/// A matcher over a book, with the identifiers of all resting orders in the
/// order in which they were placed.
pub struct OrderMatcher {
    pub order_book: OrderBook,
    pub queue: Vec<OrderId>,
}

impl OrderBook {
    /// The price of the level of `side` served first, if there is one.
    pub fn first_level_price(&self, side: OrderSide) -> (r: Option<u64>)
        requires
            self.wf(),
        ensures
            r is None <==> self.levels(side).dom().len() == 0,
            r matches Some(p) ==> self.levels(side).contains_key(book_key(side, p)) && forall|k: u64|
                #[trigger] self.levels(side).contains_key(k) ==> book_key(side, p) <= k,
    {
        proof {
            assert(self.levels(side).dom() =~= self.side_map(side).dom());
        }
        let levels = match side {
            OrderSide::Bid => &self.bids,
            OrderSide::Ask => &self.asks,
        };
        match first_key_u64(levels) {
            Some(k) => Some(price_of(side, k)),
            None => None,
        }
    }

    /// The total amount resting at the level of `side` at `price`.
    pub fn level_volume(&self, side: OrderSide, price: u64) -> (v: usize)
        requires
            self.wf(),
            book_volume(*self, side, price) <= usize::MAX,
        ensures
            v == book_volume(*self, side, price),
    {
        let key = key_of(side, price);
        let found = match side {
            OrderSide::Bid => self.bids.get(&key),
            OrderSide::Ask => self.asks.get(&key),
        };
        let ids = match found {
            Some(ids) => ids,
            None => {
                return 0;
            },
        };
        let ghost b = *self;
        let ghost q = b.levels(side)[key];
        let ghost a = book_amounts(b, q);
        proof {
            assert(b.level_ok(side, key));
            assert(q == id_seq(ids@));
            assert(a.take(0) =~= Seq::<nat>::empty());
        }
        let mut total_volume: usize = 0;
        let mut t: usize = 0;
        while t < ids.len()
            invariant
                b == *self,
                b.wf(),
                b.side_map(side).contains_key(key),
                b.side_map(side)[key] == *ids,
                b.level_ok(side, key),
                q == id_seq(ids@),
                a == book_amounts(b, q),
                total(a) <= usize::MAX,
                0 <= t <= ids@.len(),
                total_volume == total(a.take(t as int)),
            decreases ids@.len() - t,
        {
            let id = ids[t];
            proof {
                crate::matching::lemma_total_prefix(a, t + 1);
                assert(a.take(t + 1).drop_last() =~= a.take(t as int));
                assert(b.orders@.contains_key(id));
            }
            let amount = match self.orders.get(&id) {
                Some(order) => order.amount,
                None => vstd::pervasive::unreached(),
            };
            total_volume = total_volume + amount as usize;
            t = t + 1;
        }
        proof {
            assert(a.take(t as int) =~= a);
        }
        total_volume
    }

}

impl OrderMatcher {
    /// The queue holds each resting order once.
    pub closed spec fn queue_ok(&self) -> bool {
        &&& self.queue@.no_duplicates()
        &&& forall|id: OrderId| #[trigger] self.queue@.contains(id) <==> self.order_book.orders@.contains_key(id)
    }
}

impl OrderMatcher {
    /// Cancels, one by one, the orders `ids`, which are the first orders of
    /// the queue of `side`.
    fn cancel_filled(&mut self, ids: &Vec<OrderId>, Ghost(side): Ghost<OrderSide>)
        requires
            old(self).wf(),
            ids@.len() <= side_queue(old(self).book().levels(side)).len(),
            forall|u: int|
                0 <= u < ids@.len() ==> OrderBook::index_of(#[trigger] ids@[u]) == side_queue(
                    old(self).book().levels(side),
                )[u],
        ensures
            final(self).order_book.ids_issued() == old(self).order_book.ids_issued(),
            final(self).wf(),
            book_cleaned(old(self).book(), side, ids@.len(), final(self).book()),
    {
        let ghost b0 = self.book();
        let ghost s = side_queue(b0.levels(side));
        let ghost n = ids@.len();
        let ghost ids0 = self.order_book.ids_issued();
        proof {
            assert(s.skip(0) =~= s);
        }
        let mut i: usize = 0;
        while i < ids.len()
            invariant
                self.wf(),
                s == side_queue(b0.levels(side)),
                n == ids@.len(),
                n <= s.len(),
                self.order_book.ids_issued() == ids0,
                forall|u: int| 0 <= u < ids@.len() ==> OrderBook::index_of(#[trigger] ids@[u]) == s[u],
                0 <= i <= n,
                side_queue(self.book().levels(side)) == s.skip(i as int),
                self.book().levels(side.opposite()) == b0.levels(side.opposite()),
                forall|u: int| 0 <= u < i ==> #[trigger] self.book().order_at(s[u]) is None,
                forall|j: int| !s.take(i as int).contains(j) ==> #[trigger] self.book().order_at(j) == b0.order_at(j),
                b0.can_place() ==> self.book().can_place(),
            decreases n - i,
        {
            let id = ids[i];
            let ghost b1 = self.book();
            proof {
                assert(OrderBook::index_of(id) == s[i as int]);
                assert(s.skip(i as int)[0] == s[i as int]);
                assert(side_queue(b1.levels(side))[0] == s[i as int]);
                assert(side_queue(b1.levels(side)).contains(s[i as int]));
                lemma_queue_member(b1, side, s[i as int]);
                b1.lemma_can_cancel(id);
            }
            self.cancel_order(id);
            proof {
                let b2 = self.book();
                lemma_cancel_head(b1, b2, side);
                assert(s.skip(i as int).drop_first() =~= s.skip(i + 1));
                let x = s[i as int];
                assert forall|j: int| !s.take(i + 1).contains(j) implies #[trigger] b2.order_at(j) == b0.order_at(j) by {
                    assert(s.take(i + 1)[i as int] == x);
                    if s.take(i as int).contains(j) {
                        let u = choose|u: int| 0 <= u < i && s.take(i as int)[u] == j;
                        assert(s.take(i + 1)[u] == j);
                    }
                }
            }
            i = i + 1;
        }
    }
}

impl Default for OrderMatcher {
    fn default() -> (m: Self)
        ensures
            m.wf(),
            m.book().levels(OrderSide::Bid) == Map::<u64, Seq<int>>::empty(),
            m.book().levels(OrderSide::Ask) == Map::<u64, Seq<int>>::empty(),
    {
        <Self as OrderMatcherExt>::new()
    }
}

impl OrderMatcher {
    /// The matcher can take another order exactly while its book's
    /// identifiers have not run out.
    pub proof fn law_room_until_ids_run_out(&self)
        ensures
            self.can_place() <==> self.order_book.ids_issued() < u64::MAX,
    {
        self.order_book.law_room_until_ids_run_out();
    }
}

impl OrderMatcherExt for OrderMatcher {
    type OrderId = OrderId;
    type OrderBook = OrderBook;

    fn has_room(&self) -> (r: bool) {
        self.order_book.has_room()
    }

    open spec fn book(&self) -> OrderBook {
        self.order_book
    }

    closed spec fn wf(&self) -> bool {
        &&& self.order_book.wf()
        &&& self.queue_ok()
    }

    /// The book must be able to take an order.
    open spec fn can_place(&self) -> bool {
        self.order_book.can_place()
    }

    /// The identifier must name a resting order.
    open spec fn can_cancel(&self, order_id: OrderId) -> bool {
        self.order_book.can_cancel(order_id)
    }

    proof fn lemma_wf(&self) {
    }

    fn new() -> (matcher: Self)
        ensures
            matcher.order_book.ids_issued() == 0,
    {
        let matcher = Self { order_book: OrderBook::new(), queue: Vec::new() };
        proof {
            assert forall|id: OrderId| #[trigger] matcher.queue@.contains(id) <==> matcher.order_book.orders@.contains_key(id) by {
                assert(matcher.order_book.order_at(id as int) is None);
            }
        }
        matcher
    }

    fn place_order(&mut self, request: LimitOrderRequest) -> (id: OrderId)
        ensures
            id as nat == old(self).order_book.ids_issued(),
            final(self).order_book.ids_issued() == old(self).order_book.ids_issued() + 1,
    {
        let id = self.order_book.place_order(request);
        proof {
            assert(!old(self).order_book.orders@.contains_key(id)) by {
                assert(old(self).order_book.order_at(id as int) is None);
            }
        }
        self.queue.push(id);
        proof {
            assert(!old(self).queue@.contains(id));
            assert forall|a: int, b: int| 0 <= a < b < self.queue@.len() implies self.queue@[a] != self.queue@[b] by {
                if b == self.queue@.len() - 1 {
                    assert(old(self).queue@.contains(self.queue@[a]));
                }
            }
            assert forall|x: OrderId| #[trigger] self.queue@.contains(x) <==> self.order_book.orders@.contains_key(x) by {
                if x != id {
                    assert(self.order_book.order_at(x as int) == old(self).order_book.order_at(x as int));
                    if self.queue@.contains(x) {
                        let u = choose|u: int| 0 <= u < self.queue@.len() && self.queue@[u] == x;
                        assert(old(self).queue@[u] == x);
                    }
                    if old(self).queue@.contains(x) {
                        let u = choose|u: int| 0 <= u < old(self).queue@.len() && old(self).queue@[u] == x;
                        assert(self.queue@[u] == x);
                    }
                } else {
                    assert(self.queue@[self.queue@.len() - 1] == id);
                    assert(self.order_book.order_at(id as int) is Some);
                }
            }
        }
        id
    }

    fn cancel_order(&mut self, order_id: OrderId)
        ensures
            final(self).order_book.ids_issued() == old(self).order_book.ids_issued(),
    {
        let ghost q0 = self.queue@;
        let mut pos: usize = 0;
        while pos < self.queue.len() && self.queue[pos] != order_id
            invariant
                self.queue@ == q0,
                q0.contains(order_id),
                0 <= pos <= q0.len(),
                forall|u: int| 0 <= u < pos ==> q0[u] != order_id,
            decreases q0.len() - pos,
        {
            pos = pos + 1;
        }
        proof {
            if pos == q0.len() {
                let u = choose|u: int| 0 <= u < q0.len() && q0[u] == order_id;
                assert(q0[u] != order_id);
            }
        }
        self.queue.remove(pos);
        self.order_book.cancel_order(order_id);
        proof {
            let q1 = self.queue@;
            assert(q1 == q0.remove(pos as int));
            assert forall|a: int, b: int| 0 <= a < b < q1.len() implies q1[a] != q1[b] by {
                let a2 = if a < pos { a } else { a + 1 };
                let b2 = if b < pos { b } else { b + 1 };
                assert(q1[a] == q0[a2]);
                assert(q1[b] == q0[b2]);
            }
            assert forall|x: OrderId| #[trigger] q1.contains(x) <==> self.order_book.orders@.contains_key(x) by {
                assert(self.order_book.order_at(x as int) is Some == self.order_book.orders@.contains_key(x));
                if x != order_id {
                    assert(self.order_book.order_at(x as int) == old(self).order_book.order_at(x as int));
                    assert(old(self).order_book.order_at(x as int) is Some == old(self).order_book.orders@.contains_key(x));
                    if q1.contains(x) {
                        let u = choose|u: int| 0 <= u < q1.len() && q1[u] == x;
                        let u2 = if u < pos { u } else { u + 1 };
                        assert(q0[u2] == x);
                    }
                    if q0.contains(x) {
                        let u = choose|u: int| 0 <= u < q0.len() && q0[u] == x;
                        assert(u != pos);
                        let u2 = if u < pos { u } else { u - 1 };
                        assert(q1[u2] == x);
                    }
                } else {
                    assert(self.order_book.order_at(order_id as int) is None);
                    if q1.contains(x) {
                        let u = choose|u: int| 0 <= u < q1.len() && q1[u] == x;
                        let u2 = if u < pos { u } else { u + 1 };
                        assert(q0[u2] == x);
                        assert(q0[pos as int] == x);
                    }
                }
            }
        }
    }

    fn process_limit_order(&mut self, request: LimitOrderRequest) -> (r: LimitOrderRequest)
        ensures
            final(self).order_book.ids_issued() == old(self).order_book.ids_issued(),
    {
        let mut request = request;
        let ghost b0 = self.order_book;
        let ghost o = request;
        let other = match request.side {
            OrderSide::Bid => OrderSide::Ask,
            OrderSide::Ask => OrderSide::Bid,
        };
        let (remaining, orders_to_remove) = fill_book(&mut self.order_book, &request);
        let ghost b1 = self.order_book;
        proof {
            assert(other == o.side.opposite());
            let q = book_reach(b0, o);
            assert forall|x: OrderId| #[trigger] self.queue@.contains(x) <==> self.order_book.orders@.contains_key(x) by {
                assert(old(self).queue@.contains(x) <==> b0.orders@.contains_key(x));
                assert(b0.order_at(x as int) is Some <==> b0.orders@.contains_key(x));
                assert(b1.order_at(x as int) is Some <==> b1.orders@.contains_key(x));
                if q.contains(x as int) {
                    let t = choose|t: int| 0 <= t < q.len() && q[t] == x as int;
                    assert(b1.order_at(q[t]) is Some);
                    b0.lemma_levels_facts(other);
                    lemma_eligible_prefix(b0.levels(other), book_key(other, o.limit));
                    let s = side_queue(b0.levels(other));
                    assert(q[t] == s[t]);
                    assert(s.contains(s[t]));
                    lemma_queue_member(b0, other, s[t]);
                }
            }
        }
        self.cancel_filled(&orders_to_remove, Ghost(other));
        proof {
            let a = book_amounts(b0, book_reach(b0, o));
            assert(orders_to_remove@.len() == fill_count(a, o.amount as nat)) by {
                assert(id_seq(orders_to_remove@).len() == orders_to_remove@.len());
            }
            lemma_sweep_compose(b0, o, b1, self.order_book);
            crate::matching::lemma_fill_left_bound(a, o.amount as nat);
        }
        request.amount = remaining;
        request
    }

    /// The highest bid price, if there is a bid.
    fn best_bid(&self) -> (r: Option<usize>)
        ensures
            r is None <==> self.book().levels(OrderSide::Bid).dom().len() == 0,
            r matches Some(p) ==> exists|price: u64| #![trigger book_key(OrderSide::Bid, price)]
                p == price as usize && self.book().levels(OrderSide::Bid).contains_key(book_key(OrderSide::Bid, price))
                    && forall|q: u64| #[trigger] self.book().levels(OrderSide::Bid).contains_key(book_key(OrderSide::Bid, q))
                    ==> q <= price,
    {
        match self.order_book.first_level_price(OrderSide::Bid) {
            Some(price) => {
                proof {
                    assert forall|q: u64| #[trigger] self.book().levels(OrderSide::Bid).contains_key(book_key(OrderSide::Bid, q))
                        implies q <= price by {
                        assert(book_key(OrderSide::Bid, price) <= book_key(OrderSide::Bid, q));
                    }
                }
                Some(price as usize)
            },
            None => None,
        }
    }

    /// The lowest ask price, if there is an ask.
    fn best_ask(&self) -> (r: Option<usize>)
        ensures
            r is None <==> self.book().levels(OrderSide::Ask).dom().len() == 0,
            r matches Some(p) ==> exists|price: u64| #![trigger book_key(OrderSide::Ask, price)]
                p == price as usize && self.book().levels(OrderSide::Ask).contains_key(book_key(OrderSide::Ask, price))
                    && forall|q: u64| #[trigger] self.book().levels(OrderSide::Ask).contains_key(book_key(OrderSide::Ask, q))
                    ==> price <= q,
    {
        match self.order_book.first_level_price(OrderSide::Ask) {
            Some(price) => {
                proof {
                    assert forall|q: u64| #[trigger] self.book().levels(OrderSide::Ask).contains_key(book_key(OrderSide::Ask, q))
                        implies price <= q by {
                        assert(book_key(OrderSide::Ask, price) <= book_key(OrderSide::Ask, q));
                    }
                }
                Some(price as usize)
            },
            None => None,
        }
    }

    fn total_volume_at(&self, side: OrderSide, price: usize) -> (v: usize) {
        self.order_book.level_volume(side, price as u64)
    }

    fn order_book(&self) -> (r: &OrderBook) {
        &self.order_book
    }
}

} // verus!
