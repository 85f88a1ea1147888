//! A book whose price levels are slot maps of order identifiers in a
//! `BTreeMap`, with the orders themselves in a slot map; each order records
//! the slot it holds in its level.  A level left empty leaves the map.  The
//! third engine uses this book.
use vstd::prelude::*;

use std::collections::BTreeMap;

use crate::book_match::{
    book_cleaned, book_filled, lemma_cancel_head, lemma_queue_member, lemma_sweep_compose,
};
use crate::matching::{
    eligible_queue, fill_amounts, fill_count, fill_left, fill_take, lemma_eligible_prefix,
    lemma_fill_left_bound, lemma_fill_snoc, lemma_fill_split, lemma_fill_zero, lemma_present_keys,
    lemma_queue_contains, lemma_queue_snoc, lemma_queue_take, lemma_sorted_keys_is, lemma_total_prefix,
    levels_upto, present_keys, queue_of, side_queue, total,
};
use crate::ob_standard::{key_of, price_of};
use crate::slot_map::{slot_values, SlotMap, NONE_VALUE};
use crate::slot_map::optimized::SlotMapOptimized;
use crate::sorted_keys::{first_key_u64, keys_upto_u64, last_key_u64};
use crate::{
    book_amounts, book_key, book_left, book_reach, book_swept, book_volume, LimitOrder,
    LimitOrderRequest, OrderBookExt, OrderMatcherExt, OrderSide,
};

verus! {

broadcast use vstd::std_specs::btree::group_btree_axioms;

/// The book: for each side the levels by level key (the price for asks, its
/// complement for bids), each a slot map of order identifiers in arrival
/// order; and the orders, each recording its slot in its level.
pub struct OrderBook {
    pub bids: BTreeMap<u64, SlotMapOptimized<u32>>,
    pub asks: BTreeMap<u64, SlotMapOptimized<u32>>,
    pub orders: SlotMapOptimized<LimitOrder<u32>>,
}

/// What a stored order says.
pub open spec fn request_of(o: LimitOrder<u32>) -> LimitOrderRequest {
    LimitOrderRequest { side: o.side, limit: o.limit, amount: o.amount }
}

/// The order identifiers of a level in arrival order.
pub open spec fn level_ids(lv: SlotMapOptimized<u32>) -> Seq<int> {
    slot_values(&lv).map_values(|x: u32| x as int)
}

/// The order `o` with the amount `a`.
pub open spec fn with_amount(o: LimitOrder<u32>, a: nat) -> LimitOrder<u32> {
    LimitOrder { id: o.id, side: o.side, limit: o.limit, amount: a as u64 }
}

/// The amounts of the orders with identifiers `q` in `orders`.
pub open spec fn amounts_in(orders: SlotMapOptimized<LimitOrder<u32>>, q: Seq<int>) -> Seq<nat> {
    q.map_values(|i: int| orders.data_at(i)->0.amount as nat)
}

/// `new` is `old` with the order `q[u]` given the amount `am[u]`, for each
/// position `u` of `q`, and every other slot unchanged.
pub open spec fn filled_in(
    old: SlotMapOptimized<LimitOrder<u32>>,
    new: SlotMapOptimized<LimitOrder<u32>>,
    q: Seq<int>,
    am: Seq<nat>,
) -> bool {
    &&& new.wf()
    &&& new.order() == old.order()
    &&& new.free_list() == old.free_list()
    &&& new.total_spec() == old.total_spec()
    &&& forall|u: int| 0 <= u < q.len() ==> #[trigger] new.data_at(q[u]) == Some(with_amount(old.data_at(q[u])->0, am[u]))
    &&& forall|i: int| !q.contains(i) ==> #[trigger] new.data_at(i) == old.data_at(i)
}

/// Each level of `map`, present or empty, by key.
pub open spec fn all_levels(map: Map<u64, SlotMapOptimized<u32>>) -> Map<u64, Seq<int>> {
    map.map_values(|lv: SlotMapOptimized<u32>| level_ids(lv))
}

/// The levels of `map` that hold orders, by key.
pub open spec fn held_levels(map: Map<u64, SlotMapOptimized<u32>>) -> Map<u64, Seq<int>> {
    Map::new(|k: u64| map.contains_key(k) && map[k].order().len() > 0, |k: u64| level_ids(map[k]))
}

impl OrderBook {
    /// The levels of a side by key.
    pub closed spec fn side_map(&self, side: OrderSide) -> Map<u64, SlotMapOptimized<u32>> {
        match side {
            OrderSide::Bid => self.bids@,
            OrderSide::Ask => self.asks@,
        }
    }

    /// Level `k` of `s` is a well formed slot map whose values are orders of
    /// that side and level, each recording the slot that holds it.
    pub closed spec fn level_ok(&self, s: OrderSide, k: u64) -> bool {
        let lv = self.side_map(s)[k];
        &&& lv.wf()
        &&& forall|t: int|
            0 <= t < lv.order().len() ==> {
                let slot = #[trigger] lv.order()[t];
                let x = lv.data_at(slot)->0 as int;
                &&& self.orders.data_at(x) is Some
                &&& self.orders.data_at(x)->0.side == s
                &&& book_key(s, self.orders.data_at(x)->0.limit) == k
                &&& self.orders.data_at(x)->0.id as int == slot
            }
    }

    /// The orders and levels agree with each other.
    pub closed spec fn core_ok(&self) -> bool {
        &&& self.orders.wf()
        &&& forall|s: OrderSide, k: u64| #[trigger] self.side_map(s).contains_key(k) ==> self.level_ok(s, k)
        &&& forall|x: int| #[trigger] self.orders.data_at(x) is Some ==> self.order_ok(x)
    }

    /// Every level kept holds an order.
    pub closed spec fn levels_held(&self) -> bool {
        forall|s: OrderSide, k: u64| #[trigger] self.side_map(s).contains_key(k) ==> self.side_map(s)[k].order().len() > 0
    }

    /// Order `x` sits in the slot it records of the level of its side and price.
    pub closed spec fn order_ok(&self, x: int) -> bool {
        let o = self.orders.data_at(x)->0;
        let k = book_key(o.side, o.limit);
        &&& self.side_map(o.side).contains_key(k)
        &&& self.side_map(o.side)[k].data_at(o.id as int) == Some(x as u32)
    }
}

/// Appends `x` to the level `key` of `map`, creating the level if need be;
/// returns the slot it takes.
fn insert_in(map: &mut BTreeMap<u64, SlotMapOptimized<u32>>, key: u64, x: u32) -> (slot: u32)
    requires
        old(map)@.contains_key(key) ==> old(map)@[key].wf() && old(map)@[key].can_insert(),
    ensures
        final(map)@ == old(map)@.insert(key, final(map)@[key]),
        ({
            let lv = final(map)@[key];
            let had = old(map)@.contains_key(key);
            &&& lv.wf()
            &&& (had ==> old(map)@[key].data_at(slot as int) is None)
            &&& lv.data_at(slot as int) == Some(x)
            &&& forall|j: int|
                j != slot ==> #[trigger] lv.data_at(j) == (if had {
                    old(map)@[key].data_at(j)
                } else {
                    None
                })
            &&& lv.order() == (if had {
                old(map)@[key].order()
            } else {
                Seq::<int>::empty()
            }).push(slot as int)
            &&& level_ids(lv) == (if had {
                level_ids(old(map)@[key])
            } else {
                Seq::<int>::empty()
            }).push(x as int)
        }),
{
    let mut lv = if map.contains_key(&key) {
        map.remove(&key).unwrap()
    } else {
        SlotMapOptimized::new()
    };
    let ghost lv0 = lv;
    proof {
        lv0.lemma_occupied();
    }
    let slot = lv.insert(x);
    proof {
        lv.lemma_occupied();
        if lv0.free_list().len() > 0 {
            assert(lv0.data_at(lv0.free_list()[0]) is None);
        }
        assert(lv0.data_at(slot as int) is None);
        assert(!lv0.order().contains(slot as int));
        assert forall|t: int| 0 <= t < lv0.order().len() implies #[trigger] lv.data_at(lv0.order()[t]) == lv0.data_at(
            lv0.order()[t],
        ) by {
            assert(lv0.order().contains(lv0.order()[t]));
        }
        assert(slot_values(&lv) =~= slot_values(&lv0).push(x));
        assert(level_ids(lv) =~= level_ids(lv0).push(x as int));
        if !old(map)@.contains_key(key) {
            assert(level_ids(lv0) =~= Seq::<int>::empty());
        }
    }
    map.insert(key, lv);
    proof {
        assert(map@ =~= old(map)@.insert(key, map@[key]));
    }
    slot
}

/// Frees the slot `slot` of the level `key` of `map`; the level stays in the
/// map, empty or not.  Returns the position the slot had in the level.
fn remove_in(map: &mut BTreeMap<u64, SlotMapOptimized<u32>>, key: u64, slot: u32) -> (t: Ghost<int>)
    requires
        old(map)@.contains_key(key),
        old(map)@[key].wf(),
        old(map)@[key].data_at(slot as int) is Some,
    ensures
        final(map)@ == old(map)@.insert(key, final(map)@[key]),
        ({
            let lv0 = old(map)@[key];
            let lv = final(map)@[key];
            &&& lv.wf()
            &&& 0 <= t@ < lv0.order().len()
            &&& lv0.order()[t@] == slot
            &&& lv.order() == lv0.order().remove(t@)
            &&& lv.data_at(slot as int) is None
            &&& forall|j: int| j != slot ==> #[trigger] lv.data_at(j) == lv0.data_at(j)
            &&& level_ids(lv) == level_ids(lv0).remove(t@)
            &&& lv.can_insert()
        }),
{
    let mut lv = map.remove(&key).unwrap();
    let ghost lv0 = lv;
    proof {
        lv0.lemma_occupied();
    }
    let ghost t = choose|t: int| 0 <= t < lv0.order().len() && lv0.order()[t] == slot as int;
    lv.remove(slot);
    proof {
        assert(lv.order() == lv0.order().remove(t));
        assert forall|u: int| 0 <= u < lv.order().len() implies #[trigger] lv.data_at(lv.order()[u]) == lv0.data_at(
            lv.order()[u],
        ) by {
            let u2 = if u < t { u } else { u + 1 };
            assert(lv.order()[u] == lv0.order()[u2]);
            assert(u2 != t);
        }
        assert(slot_values(&lv) =~= slot_values(&lv0).remove(t)) by {
            assert forall|u: int| 0 <= u < lv.order().len() implies slot_values(&lv)[u] == slot_values(&lv0).remove(t)[u] by {
                let u2 = if u < t { u } else { u + 1 };
                assert(lv.order()[u] == lv0.order()[u2]);
            }
        }
        assert(level_ids(lv) =~= level_ids(lv0).remove(t));
    }
    map.insert(key, lv);
    proof {
        assert(map@ =~= old(map)@.insert(key, map@[key]));
    }
    Ghost(t)
}

/// Resting the order `id`, stored with its slot `slot` in the level `key` of
/// its side, keeps the book well formed and appends it to that level.
#[verifier::rlimit(40)]
proof fn lemma_placed(b0: OrderBook, b1: OrderBook, request: LimitOrderRequest, id: u32, slot: u32)
    requires
        b0.core_ok(),
        b0.orders.data_at(id as int) is None,
        b1.orders.wf(),
        b1.orders.data_at(id as int) == Some(
            LimitOrder { id: slot, side: request.side, limit: request.limit, amount: request.amount },
        ),
        forall|j: int| j != id ==> #[trigger] b1.orders.data_at(j) == b0.orders.data_at(j),
        b1.orders.order() == b0.orders.order().push(id as int),
        b1.side_map(request.side.opposite()) == b0.side_map(request.side.opposite()),
        ({
            let side = request.side;
            let key = book_key(side, request.limit);
            let m0 = b0.side_map(side);
            let lv = b1.side_map(side)[key];
            let had = m0.contains_key(key);
            &&& b1.side_map(side) == m0.insert(key, lv)
            &&& lv.wf()
            &&& (had ==> m0[key].data_at(slot as int) is None)
            &&& lv.data_at(slot as int) == Some(id)
            &&& forall|j: int| j != slot ==> #[trigger] lv.data_at(j) == (if had { m0[key].data_at(j) } else { None })
            &&& lv.order() == (if had { m0[key].order() } else { Seq::<int>::empty() }).push(slot as int)
            &&& level_ids(lv) == (if had { level_ids(m0[key]) } else { Seq::<int>::empty() }).push(id as int)
        }),
    ensures
        b1.core_ok(),
        b1.levels(request.side) == b0.levels(request.side).insert(
            book_key(request.side, request.limit),
            (if b0.levels(request.side).contains_key(book_key(request.side, request.limit)) {
                b0.levels(request.side)[book_key(request.side, request.limit)]
            } else {
                Seq::<int>::empty()
            }).push(id as int),
        ),
        b1.levels(request.side.opposite()) == b0.levels(request.side.opposite()),
{
    let side = request.side;
    let key = book_key(side, request.limit);
    let m0 = b0.side_map(side);
    let lv = b1.side_map(side)[key];
    let had = m0.contains_key(key);
    b0.orders.lemma_occupied();
    lv.lemma_occupied();
    if had {
        m0[key].lemma_occupied();
    }
    assert forall|s: OrderSide, k: u64| #[trigger] b1.side_map(s).contains_key(k) implies b1.level_ok(s, k) by {
        let l1 = b1.side_map(s)[k];
        if s == side && k == key {
            assert forall|t: int| 0 <= t < l1.order().len() implies {
                let sl = #[trigger] l1.order()[t];
                let x = l1.data_at(sl)->0 as int;
                &&& b1.orders.data_at(x) is Some
                &&& b1.orders.data_at(x)->0.side == s
                &&& book_key(s, b1.orders.data_at(x)->0.limit) == k
                &&& b1.orders.data_at(x)->0.id as int == sl
            } by {
                if t < l1.order().len() - 1 {
                    assert(had);
                    let sl = l1.order()[t];
                    assert(sl == m0[key].order()[t]);
                    assert(m0[key].order().contains(sl));
                    assert(sl != slot);
                    assert(b0.level_ok(side, key));
                    let x = m0[key].data_at(sl)->0 as int;
                    assert(b0.orders.data_at(x) is Some);
                    assert(x != id);
                }
            }
        } else {
            assert(b0.side_map(s).contains_key(k));
            assert(b1.side_map(s)[k] == b0.side_map(s)[k]);
            assert(b0.level_ok(s, k));
            l1.lemma_occupied();
            assert forall|t: int| 0 <= t < l1.order().len() implies {
                let sl = #[trigger] l1.order()[t];
                let x = l1.data_at(sl)->0 as int;
                &&& b1.orders.data_at(x) is Some
                &&& b1.orders.data_at(x)->0.side == s
                &&& book_key(s, b1.orders.data_at(x)->0.limit) == k
                &&& b1.orders.data_at(x)->0.id as int == sl
            } by {
                let sl = l1.order()[t];
                let x = l1.data_at(sl)->0 as int;
                assert(b0.orders.data_at(x) is Some);
                assert(x != id);
            }
        }
    }
    assert forall|x: int| #[trigger] b1.orders.data_at(x) is Some implies b1.order_ok(x) by {
        if x != id {
            assert(b0.orders.data_at(x) is Some);
            assert(b0.order_ok(x));
            let o = b0.orders.data_at(x)->0;
            let k = book_key(o.side, o.limit);
            if o.side == side && k == key {
                assert(m0[key].data_at(o.id as int) == Some(x as u32));
                assert(o.id != slot);
            }
        }
    }
    assert(b1.levels(side) =~= b0.levels(side).insert(
        key,
        (if b0.levels(side).contains_key(key) {
            b0.levels(side)[key]
        } else {
            Seq::<int>::empty()
        }).push(id as int),
    )) by {
        if had && !b0.levels(side).contains_key(key) {
            assert(level_ids(m0[key]) =~= Seq::<int>::empty());
        }
    }
    assert(b1.levels(side.opposite()) =~= b0.levels(side.opposite()));
}

/// Taking the order `id`, at position `t` of the level `key` of its side,
/// out of the book keeps it well formed and removes it from the model.
#[verifier::rlimit(40)]
proof fn lemma_removed(b0: OrderBook, b1: OrderBook, id: u32, t: int)
    requires
        b0.core_ok(),
        b0.orders.data_at(id as int) is Some,
        b1.orders.wf(),
        b1.orders.data_at(id as int) is None,
        forall|j: int| j != id ==> #[trigger] b1.orders.data_at(j) == b0.orders.data_at(j),
        ({
            let o = b0.orders.data_at(id as int)->0;
            let side = o.side;
            let key = book_key(side, o.limit);
            let m0 = b0.side_map(side);
            let lv0 = m0[key];
            let lv = b1.side_map(side)[key];
            &&& b1.side_map(side.opposite()) == b0.side_map(side.opposite())
            &&& m0.contains_key(key)
            &&& b1.side_map(side) == m0.insert(key, lv)
            &&& lv.wf()
            &&& 0 <= t < lv0.order().len()
            &&& lv0.order()[t] == o.id as int
            &&& lv.order() == lv0.order().remove(t)
            &&& lv.data_at(o.id as int) is None
            &&& forall|j: int| j != o.id ==> #[trigger] lv.data_at(j) == lv0.data_at(j)
            &&& level_ids(lv) == level_ids(lv0).remove(t)
        }),
    ensures
        b1.core_ok(),
        ({
            let o = b0.orders.data_at(id as int)->0;
            let k = book_key(o.side, o.limit);
            let lv = b0.levels(o.side)[k];
            &&& b0.levels(o.side).contains_key(k)
            &&& lv.contains(id as int)
            &&& forall|tt: int|
                0 <= tt < lv.len() && lv[tt] == id as int ==> #[trigger] b1.levels(o.side) == (if lv.len() == 1 {
                    b0.levels(o.side).remove(k)
                } else {
                    b0.levels(o.side).insert(k, lv.remove(tt))
                })
            &&& b1.levels(o.side.opposite()) == b0.levels(o.side.opposite())
        }),
{
    let o = b0.orders.data_at(id as int)->0;
    let side = o.side;
    let key = book_key(side, o.limit);
    let m0 = b0.side_map(side);
    let lv0 = m0[key];
    let lv = b1.side_map(side)[key];
    b0.orders.lemma_occupied();
    lv0.lemma_occupied();
    lv.lemma_occupied();
    assert(b0.order_ok(id as int));
    assert(b0.level_ok(side, key));
    // Only the slot of `id` held `id` in its level.
    assert forall|u: int| 0 <= u < lv0.order().len() && u != t implies #[trigger] lv0.data_at(lv0.order()[u]) != Some(
        id,
    ) by {
        assert(lv0.order()[u] != lv0.order()[t]);
    }
    assert forall|s: OrderSide, k: u64| #[trigger] b1.side_map(s).contains_key(k) implies b1.level_ok(s, k) by {
        let l1 = b1.side_map(s)[k];
        if s == side && k == key {
            assert forall|u: int| 0 <= u < l1.order().len() implies {
                let sl = #[trigger] l1.order()[u];
                let x = l1.data_at(sl)->0 as int;
                &&& b1.orders.data_at(x) is Some
                &&& b1.orders.data_at(x)->0.side == s
                &&& book_key(s, b1.orders.data_at(x)->0.limit) == k
                &&& b1.orders.data_at(x)->0.id as int == sl
            } by {
                let u2 = if u < t { u } else { u + 1 };
                let sl = l1.order()[u];
                assert(sl == lv0.order()[u2]);
                assert(u2 != t);
                assert(sl != o.id);
                assert(lv0.data_at(sl) != Some(id));
            }
        } else {
            assert(b0.side_map(s).contains_key(k));
            assert(b1.side_map(s)[k] == b0.side_map(s)[k]);
            assert(b0.level_ok(s, k));
            assert forall|u: int| 0 <= u < l1.order().len() implies {
                let sl = #[trigger] l1.order()[u];
                let x = l1.data_at(sl)->0 as int;
                &&& b1.orders.data_at(x) is Some
                &&& b1.orders.data_at(x)->0.side == s
                &&& book_key(s, b1.orders.data_at(x)->0.limit) == k
                &&& b1.orders.data_at(x)->0.id as int == sl
            } by {
                let sl = l1.order()[u];
                let x = l1.data_at(sl)->0 as int;
                assert(b0.orders.data_at(x) is Some);
                assert(x != id);
            }
        }
    }
    assert forall|x: int| #[trigger] b1.orders.data_at(x) is Some implies b1.order_ok(x) by {
        assert(x != id);
        assert(b0.orders.data_at(x) is Some);
        assert(b0.orders.order().contains(x));
        assert(b0.order_ok(x));
        let ox = b0.orders.data_at(x)->0;
        let k = book_key(ox.side, ox.limit);
        if ox.side == side && k == key {
            assert(lv0.data_at(ox.id as int) == Some(x as u32));
            assert(lv0.data_at(o.id as int) == Some(id));
            assert(ox.id != o.id);
        }
    }
    let l = b0.levels(side)[key];
    assert(lv0.order()[t] == o.id as int);
    assert(lv0.order().len() > 0);
    assert(b0.levels(side).contains_key(key));
    assert(l == level_ids(lv0));
    assert(l[t] == id as int);
    assert(l.contains(id as int));
    assert forall|tt: int| 0 <= tt < l.len() && l[tt] == id as int implies #[trigger] b1.levels(side) == (if l.len() == 1 {
        b0.levels(side).remove(key)
    } else {
        b0.levels(side).insert(key, l.remove(tt))
    }) by {
        if tt != t {
            assert(lv0.data_at(lv0.order()[tt]) == Some(id));
        }
        assert(tt == t);
        if l.len() == 1 {
            assert(b1.levels(side) =~= b0.levels(side).remove(key));
        } else {
            assert(b1.levels(side) =~= b0.levels(side).insert(key, l.remove(tt)));
        }
    }
    assert(b1.levels(side.opposite()) =~= b0.levels(side.opposite()));
}

/// The identifiers `v` as order indices.
pub open spec fn id_seq(v: Seq<u32>) -> Seq<int> {
    v.map_values(|x: u32| x as int)
}

/// Fills the orders of the level `lv`, oldest first, with the incoming
/// amount `rem`; the identifier of each order filled completely is appended
/// to `filled`.  Returns what is left of `rem`.
pub(crate) fn fill_level(
    lv: &SlotMapOptimized<u32>,
    orders: &mut SlotMapOptimized<LimitOrder<u32>>,
    rem: u64,
    filled: &mut Vec<u32>,
) -> (left: u64)
    requires
        lv.wf(),
        level_ids(*lv).no_duplicates(),
        old(orders).wf(),
        forall|t: int| 0 <= t < level_ids(*lv).len() ==> old(orders).data_at(#[trigger] level_ids(*lv)[t]) is Some,
    ensures
        ({
            let q = level_ids(*lv);
            let a = amounts_in(*old(orders), q);
            &&& left == fill_left(a, rem as nat)
            &&& filled_in(*old(orders), *final(orders), q, fill_amounts(a, rem as nat))
            &&& id_seq(final(filled)@) == id_seq(old(filled)@) + q.take(fill_count(a, rem as nat) as int)
            &&& left > 0 ==> fill_count(a, rem as nat) == q.len()
        }),
{
    let ghost o0 = *orders;
    let ghost q = level_ids(*lv);
    let ghost a = amounts_in(o0, q);
    let ghost buf0 = filled@;
    let n = lv.capacity();
    let mut it = lv.iter();
    let mut remaining = rem;
    let mut t: usize = 0;
    proof {
        o0.lemma_occupied();
        assert(a.take(0) =~= Seq::<nat>::empty());
        assert(q.take(0) =~= Seq::<int>::empty());
        assert(fill_amounts(a.take(0), rem as nat) =~= Seq::<nat>::empty());
        assert(id_seq(buf0) + q.take(0) =~= id_seq(buf0));
    }
    while t < n && remaining > 0
        invariant
            o0 == *old(orders),
            q == level_ids(*lv),
            a == amounts_in(o0, q),
            buf0 == old(filled)@,
            lv.wf(),
            n == lv.order().len(),
            q.len() == n,
            q.no_duplicates(),
            o0.wf(),
            forall|u: int| 0 <= u < q.len() ==> o0.data_at(#[trigger] q[u]) is Some,
            it.wf(),
            it.source() == lv,
            it.pos() == t,
            0 <= t <= n,
            remaining == fill_left(a.take(t as int), rem as nat),
            filled_in(o0, *orders, q.take(t as int), fill_amounts(a.take(t as int), rem as nat)),
            id_seq(filled@) == id_seq(buf0) + q.take(fill_count(a.take(t as int), rem as nat) as int),
            remaining > 0 ==> fill_count(a.take(t as int), rem as nat) == t,
        decreases n - t,
    {
        let id: u32 = match it.next() {
            Some(x) => *x,
            None => vstd::pervasive::unreached(),
        };
        let ghost tt = t as int;
        let ghost o1 = *orders;
        proof {
            assert(id as int == q[tt]);
            lemma_fill_split(a.take(tt), seq![a[tt]], rem as nat);
            assert(!q.take(tt).contains(id as int)) by {
                if q.take(tt).contains(id as int) {
                    let u = choose|u: int| 0 <= u < tt && q.take(tt)[u] == id as int;
                    assert(q[u] == q[tt]);
                }
            }
            assert(o1.data_at(id as int) == o0.data_at(id as int));
            assert(o0.data_at(q[tt]) is Some);
            o1.lemma_occupied();
            assert(o1.order().contains(id as int));
        }
        let ghost l1 = remaining as nat;
        let (fill, done) = match orders.get_mut(id as usize) {
            Some(order) => {
                let f = if order.amount < remaining {
                    order.amount
                } else {
                    remaining
                };
                order.amount = order.amount - f;
                (f, order.amount == 0)
            },
            None => vstd::pervasive::unreached(),
        };
        remaining = remaining - fill;
        let ghost f1 = filled@;
        if done {
            filled.push(id);
        }
        proof {
            let at = a.take(tt);
            let qt = q.take(tt);
            let amount = o0.data_at(id as int)->0.amount;
            assert(a.take(tt + 1) =~= at.push(a[tt]));
            assert(q.take(tt + 1) =~= qt.push(q[tt]));
            assert(a[tt] == amount);
            lemma_fill_snoc(at, a[tt], rem as nat);
            assert(fill == fill_take(a[tt], l1));
            let fa = fill_amounts(a.take(tt + 1), rem as nat);
            assert(fa == fill_amounts(at, rem as nat).push((amount - fill) as nat));
            let m2 = *orders;
            assert forall|u: int| 0 <= u < tt + 1 implies #[trigger] m2.data_at(q.take(tt + 1)[u]) == Some(
                with_amount(o0.data_at(q.take(tt + 1)[u])->0, fa[u]),
            ) by {
                if u < tt {
                    assert(q.take(tt + 1)[u] == qt[u]);
                    assert(q[u] != q[tt]);
                    assert(o1.data_at(qt[u]) == Some(with_amount(o0.data_at(qt[u])->0, fill_amounts(at, rem as nat)[u])));
                    assert(fa[u] == fill_amounts(at, rem as nat)[u]);
                } else {
                    assert(q.take(tt + 1)[u] == id as int);
                    assert(fa[tt] == (amount - fill) as nat);
                }
            }
            assert forall|i: int| !q.take(tt + 1).contains(i) implies #[trigger] m2.data_at(i) == o0.data_at(i) by {
                assert(i != id as int) by {
                    if i == id as int {
                        assert(q.take(tt + 1)[tt] == i);
                    }
                }
                if qt.contains(i) {
                    let u = choose|u: int| 0 <= u < tt && qt[u] == i;
                    assert(q.take(tt + 1)[u] == i);
                }
            }
            let c0 = fill_count(at, rem as nat);
            if done {
                assert(l1 > 0);
                assert(c0 == tt);
                assert(fill_count(a.take(tt + 1), rem as nat) == tt + 1);
                assert(id_seq(filled@) =~= id_seq(f1).push(id as int));
                assert(id_seq(filled@) =~= id_seq(buf0) + q.take(tt + 1));
            } else {
                assert(fill_count(a.take(tt + 1), rem as nat) == c0);
            }
        }
        t = t + 1;
    }
    proof {
        let tt = t as int;
        let at = a.take(tt);
        lemma_fill_split(at, a.skip(tt), rem as nat);
        assert(at + a.skip(tt) =~= a);
        if tt < q.len() {
            assert(remaining == 0);
            lemma_fill_zero(a.skip(tt));
            let fa = fill_amounts(a, rem as nat);
            assert(fa == fill_amounts(at, rem as nat) + a.skip(tt));
            assert forall|u: int| 0 <= u < q.len() implies #[trigger] orders.data_at(q[u]) == Some(
                with_amount(o0.data_at(q[u])->0, fa[u]),
            ) by {
                if u < tt {
                    assert(q.take(tt)[u] == q[u]);
                } else {
                    assert(fa[u] == a[u]);
                    assert(!q.take(tt).contains(q[u])) by {
                        if q.take(tt).contains(q[u]) {
                            let v = choose|v: int| 0 <= v < tt && q.take(tt)[v] == q[u];
                            assert(q[v] == q[u]);
                        }
                    }
                    assert(o0.data_at(q[u]) is Some);
                }
            }
            assert forall|i: int| !q.contains(i) implies #[trigger] orders.data_at(i) == o0.data_at(i) by {
                if q.take(tt).contains(i) {
                    let v = choose|v: int| 0 <= v < tt && q.take(tt)[v] == i;
                    assert(q[v] == i);
                }
            }
            assert(fill_count(a, rem as nat) == fill_count(at, rem as nat));
        } else {
            assert(at =~= a);
            assert(q.take(tt) =~= q);
        }
    }
    remaining
}

/// An order of the queue over keys `ks` of `levels` is one of `orders`.
proof fn lemma_level_in_orders(
    levels: Map<u64, Seq<int>>,
    orders: SlotMapOptimized<LimitOrder<u32>>,
    ks: Seq<u64>,
    x: int,
)
    requires
        forall|i: int| 0 <= i < ks.len() ==> levels.contains_key(#[trigger] ks[i]),
        forall|k: u64, t: int|
            levels.contains_key(k) && 0 <= t < levels[k].len() ==> orders.data_at(#[trigger] levels[k][t]) is Some,
        queue_of(levels, ks).contains(x),
    ensures
        orders.data_at(x) is Some,
{
    lemma_queue_contains(levels, ks, x);
    let j = choose|j: int| 0 <= j < ks.len() && #[trigger] levels[ks[j]].contains(x);
    let k = ks[j];
    let t = choose|t: int| 0 <= t < levels[k].len() && levels[k][t] == x;
    assert(levels.contains_key(k));
    assert(orders.data_at(levels[k][t]) is Some);
}

/// Fills the levels of `map` whose key is at most `bound`, lowest key first
/// and each oldest order first, with the incoming `amount`; the identifier
/// of each order filled completely is appended to `filled`.  Returns what is
/// left of `amount`.
pub(crate) fn fill_side(
    map: &BTreeMap<u64, SlotMapOptimized<u32>>,
    orders: &mut SlotMapOptimized<LimitOrder<u32>>,
    bound: u64,
    amount: u64,
    filled: &mut Vec<u32>,
) -> (left: u64)
    requires
        old(orders).wf(),
        forall|k: u64| #[trigger] map@.contains_key(k) ==> map@[k].wf() && level_ids(map@[k]).no_duplicates(),
        forall|k: u64, t: int|
            map@.contains_key(k) && 0 <= t < level_ids(map@[k]).len() ==> old(orders).data_at(
                #[trigger] level_ids(map@[k])[t],
            ) is Some,
        forall|k1: u64, k2: u64, i: int|
            k1 != k2 && map@.contains_key(k1) && map@.contains_key(k2) && #[trigger] all_levels(map@)[k1].contains(i)
                ==> !#[trigger] all_levels(map@)[k2].contains(i),
    ensures
        ({
            let q = eligible_queue(held_levels(map@), bound);
            let a = amounts_in(*old(orders), q);
            &&& left == fill_left(a, amount as nat)
            &&& filled_in(*old(orders), *final(orders), q, fill_amounts(a, amount as nat))
            &&& id_seq(final(filled)@) == id_seq(old(filled)@) + q.take(fill_count(a, amount as nat) as int)
        }),
{
    let ghost o0 = *orders;
    let ghost levels = all_levels(map@);
    let ghost buf0 = filled@;
    let ks = keys_upto_u64(map, bound);
    let ghost ksq = ks@;
    proof {
        let held = held_levels(map@);
        let up = levels_upto(held, bound);
        lemma_present_keys(levels, up, ksq);
        let kp = present_keys(up, ksq);
        assert forall|k: u64| up.dom().contains(k) <==> kp.contains(k) by {
            if up.dom().contains(k) {
                assert(ksq.contains(k));
            }
        }
        lemma_sorted_keys_is(kp, up.dom());
        assert(eligible_queue(held, bound) == queue_of(levels, ksq));
        assert(ksq.take(0) =~= Seq::<u64>::empty());
        assert(queue_of(levels, ksq.take(0)) =~= Seq::<int>::empty()) by {
            assert(ksq.take(0).map_values(|k: u64| levels[k]) =~= Seq::<Seq<int>>::empty());
        }
        let q0 = queue_of(levels, ksq.take(0));
        assert(amounts_in(o0, q0) =~= Seq::<nat>::empty());
        assert(fill_amounts(amounts_in(o0, q0), amount as nat) =~= Seq::<nat>::empty());
        assert(q0.take(0) =~= Seq::<int>::empty());
        assert(id_seq(buf0) + q0.take(0) =~= id_seq(buf0));
        o0.lemma_occupied();
        assert forall|i: int| !q0.contains(i) implies #[trigger] orders.data_at(i) == o0.data_at(i) by {}
    }
    let mut remaining = amount;
    let mut m: usize = 0;
    while m < ks.len() && remaining > 0
        invariant
            o0 == *old(orders),
            o0.wf(),
            buf0 == old(filled)@,
            levels == all_levels(map@),
            ksq == ks@,
            forall|i: int| 0 <= i < ksq.len() ==> map@.contains_key(#[trigger] ksq[i]),
            forall|i: int, j: int| 0 <= i < j < ksq.len() ==> ksq[i] < ksq[j],
            forall|k: u64| #[trigger] map@.contains_key(k) ==> map@[k].wf() && level_ids(map@[k]).no_duplicates(),
            forall|k: u64, t: int|
                map@.contains_key(k) && 0 <= t < level_ids(map@[k]).len() ==> o0.data_at(
                    #[trigger] level_ids(map@[k])[t],
                ) is Some,
            forall|k1: u64, k2: u64, i: int|
                k1 != k2 && map@.contains_key(k1) && map@.contains_key(k2) && #[trigger] levels[k1].contains(i)
                    ==> !#[trigger] levels[k2].contains(i),
            0 <= m <= ksq.len(),
            ({
                let qm = queue_of(levels, ksq.take(m as int));
                let am = amounts_in(o0, qm);
                &&& remaining == fill_left(am, amount as nat)
                &&& filled_in(o0, *orders, qm, fill_amounts(am, amount as nat))
                &&& id_seq(filled@) == id_seq(buf0) + qm.take(fill_count(am, amount as nat) as int)
                &&& remaining > 0 ==> fill_count(am, amount as nat) == qm.len()
            }),
        decreases ksq.len() - m,
    {
        let key = ks[m];
        let lv = map.get(&key).unwrap();
        let ghost o1 = *orders;
        let ghost qm = queue_of(levels, ksq.take(m as int));
        let ghost am = amounts_in(o0, qm);
        let ghost lq = level_ids(*lv);
        let ghost f1 = filled@;
        proof {
            assert(map@.contains_key(key));
            assert(levels[key] == lq);
            assert(forall|k: u64, t: int|
                levels.contains_key(k) && 0 <= t < levels[k].len() ==> o0.data_at(#[trigger] levels[k][t]) is Some);
            assert forall|i: int| #[trigger] lq.contains(i) implies !qm.contains(i) by {
                if qm.contains(i) {
                    lemma_queue_contains(levels, ksq.take(m as int), i);
                    let j = choose|j: int| 0 <= j < m && #[trigger] levels[ksq.take(m as int)[j]].contains(i);
                    assert(ksq.take(m as int)[j] == ksq[j]);
                    assert(ksq[j] < ksq[m as int]);
                }
            }
            assert forall|u: int| 0 <= u < lq.len() implies #[trigger] o1.data_at(lq[u]) == o0.data_at(lq[u]) by {
                assert(lq.contains(lq[u]));
            }
            assert forall|u: int| 0 <= u < lq.len() implies o1.data_at(#[trigger] lq[u]) is Some by {
                assert(o0.data_at(level_ids(map@[key])[u]) is Some);
                assert(lq.contains(lq[u]));
            }
            assert(amounts_in(o1, lq) =~= amounts_in(o0, lq));
        }
        let ghost l1 = remaining as nat;
        remaining = fill_level(lv, orders, remaining, filled);
        proof {
            let o2 = *orders;
            let al = amounts_in(o0, lq);
            let qm1 = queue_of(levels, ksq.take(m + 1));
            assert(ksq.take(m + 1) =~= ksq.take(m as int).push(key));
            lemma_queue_snoc(levels, ksq.take(m as int), key);
            assert(qm1 == qm + lq);
            assert(amounts_in(o0, qm1) =~= am + al);
            lemma_fill_split(am, al, amount as nat);
            let fam = fill_amounts(am, amount as nat);
            let fal = fill_amounts(al, l1);
            let fa1 = fill_amounts(am + al, amount as nat);
            assert(fa1 == fam + fal);
            assert(fam.len() == qm.len());
            lemma_fill_split(al, Seq::<nat>::empty(), l1);
            assert forall|u: int| 0 <= u < qm1.len() implies #[trigger] o2.data_at(qm1[u]) == Some(
                with_amount(o0.data_at(qm1[u])->0, fa1[u]),
            ) by {
                if u < qm.len() {
                    assert(qm1[u] == qm[u]);
                    assert(qm.contains(qm[u]));
                    assert(!lq.contains(qm[u]));
                    assert(o1.data_at(qm[u]) == Some(with_amount(o0.data_at(qm[u])->0, fam[u])));
                    assert(o2.data_at(qm[u]) == o1.data_at(qm[u]));
                    assert(fa1[u] == fam[u]);
                } else {
                    let v = u - qm.len();
                    assert(qm1[u] == lq[v]);
                    assert(lq.contains(lq[v]));
                    assert(o1.data_at(lq[v]) == o0.data_at(lq[v]));
                    assert(fa1[u] == fal[v]);
                }
            }
            assert forall|i: int| !qm1.contains(i) implies #[trigger] o2.data_at(i) == o0.data_at(i) by {
                if qm.contains(i) {
                    let u = choose|u: int| 0 <= u < qm.len() && qm[u] == i;
                    assert(qm1[u] == i);
                }
                if lq.contains(i) {
                    let v = choose|v: int| 0 <= v < lq.len() && lq[v] == i;
                    assert(qm1[qm.len() + v] == i);
                }
            }
            let c0 = fill_count(am, amount as nat);
            assert(c0 == qm.len());
            let cl = fill_count(al, l1);
            assert(fill_count(am + al, amount as nat) == qm.len() + cl);
            assert(qm1.take((qm.len() + cl) as int) =~= qm + lq.take(cl as int));
            assert(qm.take(c0 as int) =~= qm);
            assert(id_seq(filled@) =~= id_seq(buf0) + qm1.take(fill_count(am + al, amount as nat) as int));
        }
        m = m + 1;
    }
    proof {
        let q = queue_of(levels, ksq);
        let qm = queue_of(levels, ksq.take(m as int));
        let am = amounts_in(o0, qm);
        if m < ksq.len() {
            assert(remaining == 0);
            let qr = queue_of(levels, ksq.skip(m as int));
            lemma_queue_take(levels, ksq, m as int);
            let ar = amounts_in(o0, qr);
            assert(amounts_in(o0, q) =~= am + ar);
            lemma_fill_split(am, ar, amount as nat);
            lemma_fill_zero(ar);
            let fa = fill_amounts(am + ar, amount as nat);
            assert(forall|k: u64, t: int|
                levels.contains_key(k) && 0 <= t < levels[k].len() ==> o0.data_at(#[trigger] levels[k][t]) is Some);
            assert forall|u: int| 0 <= u < q.len() implies #[trigger] orders.data_at(q[u]) == Some(
                with_amount(o0.data_at(q[u])->0, fa[u]),
            ) by {
                if u < qm.len() {
                    assert(q[u] == qm[u]);
                } else {
                    let v = u - qm.len();
                    let x = qr[v];
                    assert(q[u] == x);
                    assert(fa[u] == ar[v]);
                    assert(qr.contains(x));
                    lemma_queue_contains(levels, ksq.skip(m as int), x);
                    let j = choose|j: int| 0 <= j < ksq.len() - m && #[trigger] levels[ksq.skip(m as int)[j]].contains(x);
                    let k = ksq[m + j];
                    assert(ksq.skip(m as int)[j] == k);
                    lemma_level_in_orders(levels, o0, ksq.skip(m as int), x);
                    assert(!qm.contains(x)) by {
                        if qm.contains(x) {
                            lemma_queue_contains(levels, ksq.take(m as int), x);
                            let j2 = choose|j2: int| 0 <= j2 < m && #[trigger] levels[ksq.take(m as int)[j2]].contains(x);
                            assert(ksq.take(m as int)[j2] == ksq[j2]);
                            assert(ksq[j2] < ksq[m + j]);
                        }
                    }
                    assert(orders.data_at(x) == o0.data_at(x));
                }
            }
            assert forall|i: int| !q.contains(i) implies #[trigger] orders.data_at(i) == o0.data_at(i) by {
                if qm.contains(i) {
                    let u = choose|u: int| 0 <= u < qm.len() && qm[u] == i;
                    assert(q[u] == i);
                }
            }
            let c0 = fill_count(am, amount as nat);
            assert(fill_count(am + ar, amount as nat) == c0);
            assert(q.take(c0 as int) =~= qm.take(c0 as int));
        } else {
            assert(ksq.take(m as int) =~= ksq);
        }
    }
    remaining
}

/// Whether every level of `map` can take one more order.
fn levels_have_room(map: &BTreeMap<u64, SlotMapOptimized<u32>>) -> (r: bool)
    requires
        forall|k: u64| #[trigger] map@.contains_key(k) ==> map@[k].wf(),
    ensures
        r == (forall|k: u64| #[trigger] map@.contains_key(k) ==> map@[k].can_insert()),
{
    let keys = keys_upto_u64(map, u64::MAX);
    let mut i: usize = 0;
    while i < keys.len()
        invariant
            0 <= i <= keys.len(),
            forall|t: int| 0 <= t < keys@.len() ==> map@.contains_key(#[trigger] keys@[t]),
            forall|k: u64| map@.contains_key(k) ==> #[trigger] keys@.contains(k),
            forall|k: u64| #[trigger] map@.contains_key(k) ==> map@[k].wf(),
            forall|t: int| 0 <= t < i ==> map@[#[trigger] keys@[t]].can_insert(),
        decreases keys.len() - i,
    {
        let k = keys[i];
        let level = map.get(&k).unwrap();
        if !level.has_room() {
            return false;
        }
        i = i + 1;
    }
    proof {
        assert forall|k: u64| #[trigger] map@.contains_key(k) implies map@[k].can_insert() by {
            assert(keys@.contains(k));
            let t = choose|t: int| 0 <= t < keys@.len() && keys@[t] == k;
            assert(map@[keys@[t]].can_insert());
        }
    }
    true
}

impl OrderBook {
    /// Whether one more order can be placed: the order store and every level
    /// have room for it.
    pub fn has_room(&self) -> (r: bool)
        requires
            self.wf(),
        ensures
            r == self.can_place(),
    {
        proof {
            assert forall|s: OrderSide, k: u64| #[trigger] self.side_map(s).contains_key(k) implies self.side_map(s)[k].wf() by {
                assert(self.level_ok(s, k));
            }
            assert forall|k: u64| #[trigger] self.bids@.contains_key(k) implies self.bids@[k].wf() by {
                assert(self.side_map(OrderSide::Bid).contains_key(k));
            }
            assert forall|k: u64| #[trigger] self.asks@.contains_key(k) implies self.asks@[k].wf() by {
                assert(self.side_map(OrderSide::Ask).contains_key(k));
            }
        }
        let a = self.orders.has_room();
        let b = levels_have_room(&self.bids);
        let c = levels_have_room(&self.asks);
        proof {
            if a && b && c {
                assert forall|s: OrderSide, k: u64| #[trigger] self.side_map(s).contains_key(k) implies self.side_map(s)[k].can_insert() by {
                    match s {
                        OrderSide::Bid => assert(self.bids@.contains_key(k)),
                        OrderSide::Ask => assert(self.asks@.contains_key(k)),
                    }
                }
            } else if a {
                if !b {
                    let k = choose|k: u64| self.bids@.contains_key(k) && !self.bids@[k].can_insert();
                    assert(self.side_map(OrderSide::Bid).contains_key(k));
                } else {
                    let k = choose|k: u64| self.asks@.contains_key(k) && !self.asks@[k].can_insert();
                    assert(self.side_map(OrderSide::Ask).contains_key(k));
                }
            }
        }
        a && b && c
    }
}

impl OrderBookExt for OrderBook {
    type OrderId = u32;
    type Order = LimitOrder<u32>;

    open spec fn index_of(id: u32) -> int {
        id as int
    }

    open spec fn order_view(order: LimitOrder<u32>) -> LimitOrderRequest {
        request_of(order)
    }

    closed spec fn levels(&self, side: OrderSide) -> Map<u64, Seq<int>> {
        held_levels(self.side_map(side))
    }

    closed spec fn order_at(&self, i: int) -> Option<LimitOrderRequest> {
        match self.orders.data_at(i) {
            Some(o) => Some(request_of(o)),
            None => None,
        }
    }

    closed spec fn order_count(&self) -> nat {
        self.orders.order().len()
    }

    closed spec fn wf(&self) -> bool {
        &&& self.core_ok()
        &&& self.levels_held()
    }

    /// The order store and every level must have room for one more entry.
    closed spec fn can_place(&self) -> bool {
        &&& self.orders.can_insert()
        &&& forall|s: OrderSide, k: u64| #[trigger] self.side_map(s).contains_key(k) ==> self.side_map(s)[k].can_insert()
    }

    /// The order store is read without a bounds check.
    closed spec fn can_cancel(&self, order_id: u32) -> bool {
        (order_id as int) < self.orders.total_spec()
    }

    fn new() -> (book: Self) {
        let book = Self {
            bids: BTreeMap::new(),
            asks: BTreeMap::new(),
            orders: SlotMapOptimized::new(),
        };
        proof {
            book.orders.lemma_occupied();
            assert(book.levels(OrderSide::Bid) =~= Map::<u64, Seq<int>>::empty());
            assert(book.levels(OrderSide::Ask) =~= Map::<u64, Seq<int>>::empty());
        }
        book
    }

    fn place_order(&mut self, request: LimitOrderRequest) -> (id: u32) {
        let ghost b0 = *self;
        let LimitOrderRequest { side, limit, amount } = request;
        let new_order = LimitOrder::new(0, side, limit, amount);
        proof {
            b0.orders.lemma_occupied();
        }
        let new_order_id = self.orders.insert(new_order);
        let key = key_of(side, limit);
        proof {
            if b0.side_map(side).contains_key(key) {
                assert(b0.level_ok(side, key));
            }
            if b0.orders.free_list().len() > 0 {
                assert(b0.orders.data_at(b0.orders.free_list()[0]) is None);
            }
        }
        let level_idx = match side {
            OrderSide::Bid => insert_in(&mut self.bids, key, new_order_id),
            OrderSide::Ask => insert_in(&mut self.asks, key, new_order_id),
        };
        proof {
            self.orders.lemma_occupied();
        }
        match self.orders.get_mut(new_order_id as usize) {
            Some(order) => {
                order.id = level_idx;
            },
            None => {},
        }
        proof {
            lemma_placed(b0, *self, request, new_order_id, level_idx);
            let key = book_key(side, limit);
            assert forall|s: OrderSide, k: u64| #[trigger] self.side_map(s).contains_key(k) implies self.side_map(s)[k].order().len() > 0 by {
                if !(s == side && k == key) {
                    assert(b0.side_map(s).contains_key(k));
                }
            }
            assert forall|j: int| j != new_order_id implies #[trigger] self.order_at(j) == b0.order_at(j) by {}
        }
        new_order_id
    }

    fn cancel_order(&mut self, order_id: u32) {
        let ghost b0 = *self;
        let (price, side, internal_id) = match self.orders.get(order_id as usize) {
            Some(order) => (order.limit, order.side, order.id),
            None => {
                return ;
            },
        };
        let key = key_of(side, price);
        proof {
            assert(b0.order_ok(order_id as int));
            assert(b0.level_ok(side, key));
        }
        let t = match side {
            OrderSide::Bid => remove_in(&mut self.bids, key, internal_id),
            OrderSide::Ask => remove_in(&mut self.asks, key, internal_id),
        };
        self.orders.remove(order_id);
        let ghost b_mid = *self;
        proof {
            b0.orders.lemma_occupied();
            lemma_removed(b0, b_mid, order_id, t@);
        }
        let level_is_empty = match side {
            OrderSide::Bid => self.bids.get(&key).unwrap().is_empty(),
            OrderSide::Ask => self.asks.get(&key).unwrap().is_empty(),
        };
        if level_is_empty {
            match side {
                OrderSide::Bid => {
                    self.bids.remove(&key);
                },
                OrderSide::Ask => {
                    self.asks.remove(&key);
                },
            }
        }
        proof {
            let lv = b_mid.side_map(side)[key];
            assert(self.orders == b_mid.orders);
            assert(self.side_map(side.opposite()) == b_mid.side_map(side.opposite()));
            if level_is_empty {
                assert(self.side_map(side) =~= b_mid.side_map(side).remove(key));
            } else {
                assert(self.side_map(side) == b_mid.side_map(side));
            }
            assert(self.levels(side) =~= b_mid.levels(side));
            assert(self.levels(side.opposite()) =~= b_mid.levels(side.opposite()));
            assert forall|s: OrderSide, k: u64| #[trigger] self.side_map(s).contains_key(k) implies self.level_ok(s, k) by {
                assert(b_mid.side_map(s).contains_key(k));
                assert(b_mid.level_ok(s, k));
            }
            assert forall|x: int| #[trigger] self.orders.data_at(x) is Some implies self.order_ok(x) by {
                assert(b_mid.order_ok(x));
                let o = b_mid.orders.data_at(x)->0;
                let k = book_key(o.side, o.limit);
                if o.side == side && k == key && level_is_empty {
                    lv.lemma_occupied();
                    assert(lv.data_at(o.id as int) is Some);
                }
            }
            assert forall|s: OrderSide, k: u64| #[trigger] self.side_map(s).contains_key(k) implies self.side_map(s)[k].order().len() > 0 by {
                if !(s == side && k == key) {
                    assert(b0.side_map(s).contains_key(k));
                    assert(self.side_map(s)[k] == b0.side_map(s)[k]);
                }
            }
            assert forall|j: int| j != order_id implies #[trigger] self.order_at(j) == b0.order_at(j) by {}
            assert(self.orders.order().len() + 1 == b0.orders.order().len());
            if b0.can_place() {
                assert forall|s: OrderSide, k: u64| #[trigger] self.side_map(s).contains_key(k) implies self.side_map(s)[k].can_insert() by {
                    if !(s == side && k == key) {
                        assert(b0.side_map(s).contains_key(k));
                    }
                }
            }
        }
    }

    proof fn lemma_levels_facts(&self, side: OrderSide) {
        let m = self.side_map(side);
        let l = self.levels(side);
        assert(m.dom().finite());
        assert(l.dom().subset_of(m.dom()));
        vstd::set_lib::lemma_len_subset(l.dom(), m.dom());
        self.orders.lemma_occupied();
        assert forall|k: u64| #[trigger] l.contains_key(k) implies l[k].len() > 0 && l[k].no_duplicates() by {
            let lv = m[k];
            assert(self.level_ok(side, k));
            lv.lemma_occupied();
            assert forall|a: int, b: int| 0 <= a < l[k].len() && 0 <= b < l[k].len() && a != b implies l[k][a] != l[k][b] by {
                let xa = lv.data_at(lv.order()[a])->0 as int;
                let xb = lv.data_at(lv.order()[b])->0 as int;
                assert(l[k][a] == xa);
                assert(l[k][b] == xb);
                assert(self.orders.data_at(xa)->0.id as int == lv.order()[a]);
                assert(self.orders.data_at(xb)->0.id as int == lv.order()[b]);
                assert(lv.order()[a] != lv.order()[b]);
            }
        }
        assert forall|k: u64, t: int| l.contains_key(k) && 0 <= t < l[k].len() implies {
            let o = self.order_at(#[trigger] l[k][t]);
            &&& o is Some
            &&& o->0.side == side
            &&& book_key(side, o->0.limit) == k
        } by {
            let lv = m[k];
            assert(self.level_ok(side, k));
            assert(l[k][t] == lv.data_at(lv.order()[t])->0 as int);
        }
        assert forall|k1: u64, k2: u64, i: int|
            k1 != k2 && l.contains_key(k1) && l.contains_key(k2) && #[trigger] l[k1].contains(i) implies !#[trigger] l[k2].contains(
            i) by {
            assert(self.level_ok(side, k1));
            assert(self.level_ok(side, k2));
            let t1 = choose|t: int| 0 <= t < l[k1].len() && l[k1][t] == i;
            let lv1 = m[k1];
            assert(l[k1][t1] == lv1.data_at(lv1.order()[t1])->0 as int);
            if l[k2].contains(i) {
                let t2 = choose|t: int| 0 <= t < l[k2].len() && l[k2][t] == i;
                let lv2 = m[k2];
                assert(l[k2][t2] == lv2.data_at(lv2.order()[t2])->0 as int);
            }
        }
    }

    proof fn lemma_can_cancel(&self, order_id: u32) {
        self.orders.lemma_occupied();
        assert(self.orders.order().contains(order_id as int));
    }

    /// An identifier past the order store names no order.
    fn get_order(&self, order_id: u32) -> (r: Option<&LimitOrder<u32>>)
        ensures
            r matches Some(o) ==> ({
                let k = book_key(o.side, o.limit);
                &&& self.side_map(o.side).contains_key(k)
                &&& self.side_map(o.side)[k].data_at(o.id as int) == Some(order_id)
            }),
    {
        proof {
            self.orders.lemma_occupied();
        }
        if (order_id as usize) < self.orders.total() {
            self.orders.get(order_id as usize)
        } else {
            proof {
                if self.orders.data_at(order_id as int) is Some {
                    assert(self.orders.order().contains(order_id as int));
                }
            }
            None
        }
    }

    fn capacity(&self) -> (n: usize) {
        self.orders.capacity()
    }
}

/// A matcher over a book, with a slot map recording the identifiers of the
/// orders it has placed.
pub struct OrderMatcher {
    pub order_book: OrderBook,
    pub queue: SlotMapOptimized<u32>,
}

impl OrderMatcher {
    /// Cancels, one by one, the orders `ids`, which are the first orders of
    /// the queue of `side`.
    fn cancel_filled(&mut self, ids: &Vec<u32>, Ghost(side): Ghost<OrderSide>)
        requires
            old(self).wf(),
            ids@.len() <= side_queue(old(self).book().levels(side)).len(),
            forall|u: int|
                0 <= u < ids@.len() ==> OrderBook::index_of(#[trigger] ids@[u]) == side_queue(
                    old(self).book().levels(side),
                )[u],
        ensures
            final(self).wf(),
            final(self).queue == old(self).queue,
            book_cleaned(old(self).book(), side, ids@.len(), final(self).book()),
    {
        let ghost b0 = self.book();
        let ghost s = side_queue(b0.levels(side));
        let ghost n = ids@.len();
        proof {
            assert(s.skip(0) =~= s);
        }
        let mut i: usize = 0;
        while i < ids.len()
            invariant
                self.wf(),
                self.queue == old(self).queue,
                s == side_queue(b0.levels(side)),
                n == ids@.len(),
                n <= s.len(),
                forall|u: int| 0 <= u < ids@.len() ==> OrderBook::index_of(#[trigger] ids@[u]) == s[u],
                0 <= i <= n,
                side_queue(self.book().levels(side)) == s.skip(i as int),
                self.book().levels(side.opposite()) == b0.levels(side.opposite()),
                forall|u: int| 0 <= u < i ==> #[trigger] self.book().order_at(s[u]) is None,
                forall|j: int| !s.take(i as int).contains(j) ==> #[trigger] self.book().order_at(j) == b0.order_at(j),
                b0.can_place() ==> self.book().can_place(),
            decreases n - i,
        {
            let id = ids[i];
            let ghost b1 = self.book();
            proof {
                assert(OrderBook::index_of(id) == s[i as int]);
                assert(s.skip(i as int)[0] == s[i as int]);
                assert(side_queue(b1.levels(side))[0] == s[i as int]);
                assert(side_queue(b1.levels(side)).contains(s[i as int]));
                lemma_queue_member(b1, side, s[i as int]);
                b1.lemma_can_cancel(id);
            }
            self.cancel_order(id);
            proof {
                let b2 = self.book();
                lemma_cancel_head(b1, b2, side);
                assert(s.skip(i as int).drop_first() =~= s.skip(i + 1));
                let x = s[i as int];
                assert forall|j: int| !s.take(i + 1).contains(j) implies #[trigger] b2.order_at(j) == b0.order_at(j) by {
                    assert(s.take(i + 1)[i as int] == x);
                    if s.take(i as int).contains(j) {
                        let u = choose|u: int| 0 <= u < i && s.take(i as int)[u] == j;
                        assert(s.take(i + 1)[u] == j);
                    }
                }
            }
            i = i + 1;
        }
    }
}

impl OrderMatcherExt for OrderMatcher {
    type OrderId = u32;
    type OrderBook = OrderBook;

    fn has_room(&self) -> (r: bool) {
        let a = self.order_book.has_room();
        let b = self.queue.has_room();
        a && b
    }

    open spec fn book(&self) -> OrderBook {
        self.order_book
    }

    closed spec fn wf(&self) -> bool {
        &&& self.order_book.wf()
        &&& self.queue.wf()
    }

    /// The book and the record of placed orders must each have room for one more.
    open spec fn can_place(&self) -> bool {
        &&& self.order_book.can_place()
        &&& self.queue.can_insert()
    }

    /// What the book needs of the identifier.
    open spec fn can_cancel(&self, order_id: u32) -> bool {
        self.order_book.can_cancel(order_id)
    }

    proof fn lemma_wf(&self) {
    }

    fn new() -> (matcher: Self) {
        let matcher = Self { order_book: OrderBook::new(), queue: SlotMapOptimized::new() };
        matcher
    }

    /// Returns the identifier of the order in the book; its slot in the
    /// record of placed orders is not returned.
    fn place_order(&mut self, request: LimitOrderRequest) -> (id: u32) {
        let new_order_id = self.order_book.place_order(request);
        self.queue.insert(new_order_id);
        new_order_id
    }

    fn cancel_order(&mut self, order_id: u32)
        ensures
            final(self).queue == old(self).queue,
    {
        self.order_book.cancel_order(order_id);
    }

    fn process_limit_order(&mut self, request: LimitOrderRequest) -> (r: LimitOrderRequest) {
        let mut request = request;
        let ghost b0 = self.order_book;
        let ghost o = request;
        let other = match request.side {
            OrderSide::Bid => OrderSide::Ask,
            OrderSide::Ask => OrderSide::Bid,
        };
        let bound = key_of(other, request.limit);
        let mut orders_to_remove: Vec<u32> = Vec::new();
        proof {
            assert(other == o.side.opposite());
            let m = b0.side_map(other);
            b0.lemma_levels_facts(other);
            assert forall|k: u64| #[trigger] m.contains_key(k) implies m[k].wf() && level_ids(m[k]).no_duplicates() by {
                assert(b0.level_ok(other, k));
                m[k].lemma_occupied();
                if m[k].order().len() > 0 {
                    assert(b0.levels(other).contains_key(k));
                } else {
                    assert(level_ids(m[k]) =~= Seq::<int>::empty());
                }
            }
            assert forall|k: u64, t: int| m.contains_key(k) && 0 <= t < level_ids(m[k]).len() implies b0.orders.data_at(
                #[trigger] level_ids(m[k])[t],
            ) is Some by {
                assert(b0.level_ok(other, k));
            }
            assert forall|k1: u64, k2: u64, i: int|
                k1 != k2 && m.contains_key(k1) && m.contains_key(k2) && #[trigger] all_levels(m)[k1].contains(i) implies !#[trigger] all_levels(
                m,
            )[k2].contains(i) by {
                assert(all_levels(m)[k1] == level_ids(m[k1]));
                assert(all_levels(m)[k2] == level_ids(m[k2]));
                assert(m[k1].order().len() > 0);
                if all_levels(m)[k2].contains(i) {
                    assert(m[k2].order().len() > 0);
                    assert(b0.levels(other)[k1] == level_ids(m[k1]));
                    assert(b0.levels(other)[k2] == level_ids(m[k2]));
                }
            }
        }
        let remaining = match other {
            OrderSide::Bid => fill_side(
                &self.order_book.bids,
                &mut self.order_book.orders,
                bound,
                request.amount,
                &mut orders_to_remove,
            ),
            OrderSide::Ask => fill_side(
                &self.order_book.asks,
                &mut self.order_book.orders,
                bound,
                request.amount,
                &mut orders_to_remove,
            ),
        };
        let ghost b1 = self.order_book;
        proof {
            let q = book_reach(b0, o);
            let a = book_amounts(b0, q);
            let fa = fill_amounts(a, o.amount as nat);
            assert(q == eligible_queue(held_levels(b0.side_map(other)), bound));
            lemma_eligible_prefix(b0.levels(other), bound);
            assert forall|u: int| 0 <= u < q.len() implies b0.orders.data_at(#[trigger] q[u]) is Some by {
                let s = side_queue(b0.levels(other));
                assert(q[u] == s[u]);
                assert(s.contains(s[u]));
                lemma_queue_member(b0, other, s[u]);
            }
            assert(amounts_in(b0.orders, q) =~= a);
            // The book is still well formed: only amounts changed.
            assert forall|s2: OrderSide, k: u64| #[trigger] b1.side_map(s2).contains_key(k) implies b1.level_ok(s2, k) by {
                assert(b0.level_ok(s2, k));
                let lv = b1.side_map(s2)[k];
                assert forall|t: int| 0 <= t < lv.order().len() implies {
                    let sl = #[trigger] lv.order()[t];
                    let x = lv.data_at(sl)->0 as int;
                    &&& b1.orders.data_at(x) is Some
                    &&& b1.orders.data_at(x)->0.side == s2
                    &&& book_key(s2, b1.orders.data_at(x)->0.limit) == k
                    &&& b1.orders.data_at(x)->0.id as int == sl
                } by {
                    let sl = lv.order()[t];
                    let x = lv.data_at(sl)->0 as int;
                    assert(b0.orders.data_at(x) is Some);
                    if q.contains(x) {
                        let u = choose|u: int| 0 <= u < q.len() && q[u] == x;
                        assert(b1.orders.data_at(q[u]) == Some(with_amount(b0.orders.data_at(q[u])->0, fa[u])));
                    }
                }
            }
            assert forall|x: int| #[trigger] b1.orders.data_at(x) is Some implies b1.order_ok(x) by {
                if q.contains(x) {
                    let u = choose|u: int| 0 <= u < q.len() && q[u] == x;
                    assert(b1.orders.data_at(q[u]) == Some(with_amount(b0.orders.data_at(q[u])->0, fa[u])));
                } else {
                    assert(b1.orders.data_at(x) == b0.orders.data_at(x));
                }
                assert(b0.orders.data_at(x) is Some);
                assert(b0.order_ok(x));
            }
            assert(b1.levels(OrderSide::Bid) == b0.levels(OrderSide::Bid));
            assert(b1.levels(OrderSide::Ask) == b0.levels(OrderSide::Ask));
            assert forall|t: int| 0 <= t < q.len() implies #[trigger] b1.order_at(q[t]) == Some(
                LimitOrderRequest {
                    side: b0.order_at(q[t])->0.side,
                    limit: b0.order_at(q[t])->0.limit,
                    amount: fa[t] as u64,
                },
            ) by {
                assert(b1.orders.data_at(q[t]) == Some(with_amount(b0.orders.data_at(q[t])->0, fa[t])));
            }
            assert forall|j: int| !q.contains(j) implies #[trigger] b1.order_at(j) == b0.order_at(j) by {
                assert(b1.orders.data_at(j) == b0.orders.data_at(j));
            }
            assert(book_filled(b0, o, b1));
            let n = fill_count(a, o.amount as nat);
            crate::matching::lemma_fill_split(a, Seq::<nat>::empty(), o.amount as nat);
            assert forall|u: int| 0 <= u < orders_to_remove@.len() implies OrderBook::index_of(
                #[trigger] orders_to_remove@[u],
            ) == side_queue(b1.levels(other))[u] by {
                assert(id_seq(orders_to_remove@)[u] == q.take(n as int)[u]);
                assert(q[u] == side_queue(b0.levels(other))[u]);
            }
            assert(id_seq(orders_to_remove@).len() == n);
            assert(b0.can_place() ==> b1.can_place());
        }
        self.cancel_filled(&orders_to_remove, Ghost(other));
        proof {
            let a = book_amounts(b0, book_reach(b0, o));
            assert(orders_to_remove@.len() == fill_count(a, o.amount as nat)) by {
                assert(id_seq(orders_to_remove@).len() == orders_to_remove@.len());
            }
            lemma_sweep_compose(b0, o, b1, self.order_book);
            crate::matching::lemma_fill_left_bound(a, o.amount as nat);
        }
        request.amount = remaining;
        request
    }

    /// The highest bid price, if there is a bid.
    fn best_bid(&self) -> (r: Option<usize>)
        ensures
            r is None <==> self.book().levels(OrderSide::Bid).dom().len() == 0,
            r matches Some(p) ==> exists|price: u64| #![trigger book_key(OrderSide::Bid, price)]
                p == price as usize && self.book().levels(OrderSide::Bid).contains_key(book_key(OrderSide::Bid, price))
                    && forall|q: u64| #[trigger] self.book().levels(OrderSide::Bid).contains_key(book_key(OrderSide::Bid, q))
                    ==> q <= price,
    {
        proof {
            assert(self.book().levels(OrderSide::Bid).dom() =~= self.order_book.bids@.dom());
        }
        match first_key_u64(&self.order_book.bids) {
            Some(k) => {
                let price = price_of(OrderSide::Bid, k);
                proof {
                    assert forall|q: u64| #[trigger] self.book().levels(OrderSide::Bid).contains_key(book_key(OrderSide::Bid, q))
                        implies q <= price by {
                        assert(self.order_book.bids@.contains_key(book_key(OrderSide::Bid, q)));
                    }
                }
                Some(price as usize)
            },
            None => None,
        }
    }

    /// The lowest ask price, if there is an ask.
    fn best_ask(&self) -> (r: Option<usize>)
        ensures
            r is None <==> self.book().levels(OrderSide::Ask).dom().len() == 0,
            r matches Some(p) ==> exists|price: u64| #![trigger book_key(OrderSide::Ask, price)]
                p == price as usize && self.book().levels(OrderSide::Ask).contains_key(book_key(OrderSide::Ask, price))
                    && forall|q: u64| #[trigger] self.book().levels(OrderSide::Ask).contains_key(book_key(OrderSide::Ask, q))
                    ==> price <= q,
    {
        proof {
            assert(self.book().levels(OrderSide::Ask).dom() =~= self.order_book.asks@.dom());
        }
        match first_key_u64(&self.order_book.asks) {
            Some(k) => {
                let price = price_of(OrderSide::Ask, k);
                proof {
                    assert forall|q: u64| #[trigger] self.book().levels(OrderSide::Ask).contains_key(book_key(OrderSide::Ask, q))
                        implies price <= q by {
                        assert(self.order_book.asks@.contains_key(book_key(OrderSide::Ask, q)));
                    }
                }
                Some(price as usize)
            },
            None => None,
        }
    }

    fn total_volume_at(&self, side: OrderSide, price: usize) -> (v: usize) {
        let key = key_of(side, price as u64);
        let found = match side {
            OrderSide::Bid => self.order_book.bids.get(&key),
            OrderSide::Ask => self.order_book.asks.get(&key),
        };
        let level = match found {
            Some(level) => level,
            None => {
                return 0;
            },
        };
        let ghost b = self.order_book;
        let ghost q = level_ids(*level);
        let ghost a = book_amounts(b, q);
        proof {
            assert(b.level_ok(side, key));
            b.orders.lemma_occupied();
            if level.order().len() > 0 {
                assert(b.levels(side)[key] == q);
            } else {
                assert(q =~= Seq::<int>::empty());
                assert(a =~= Seq::<nat>::empty());
            }
            assert(a.take(0) =~= Seq::<nat>::empty());
        }
        let n = level.capacity();
        let mut it = level.iter();
        let mut total_volume: usize = 0;
        let mut t: usize = 0;
        while t < n
            invariant
                b == self.order_book,
                b.wf(),
                b.side_map(side).contains_key(key),
                b.side_map(side)[key] == *level,
                b.level_ok(side, key),
                level.wf(),
                n == level.order().len(),
                q == level_ids(*level),
                a == book_amounts(b, q),
                total(a) <= usize::MAX,
                it.wf(),
                it.source() == level,
                it.pos() == t,
                0 <= t <= n,
                total_volume == total(a.take(t as int)),
            decreases n - t,
        {
            let id: u32 = match it.next() {
                Some(x) => *x,
                None => vstd::pervasive::unreached(),
            };
            proof {
                crate::matching::lemma_total_prefix(a, t + 1);
                assert(a.take(t + 1).drop_last() =~= a.take(t as int));
                assert(id as int == q[t as int]);
                assert(b.orders.data_at(id as int) is Some);
            }
            let amount = match self.order_book.get_order(id) {
                Some(order) => order.amount,
                None => vstd::pervasive::unreached(),
            };
            total_volume = total_volume + amount as usize;
            t = t + 1;
        }
        proof {
            assert(a.take(t as int) =~= a);
        }
        total_volume
    }

    fn order_book(&self) -> (r: &OrderBook) {
        &self.order_book
    }
}

} // verus!
