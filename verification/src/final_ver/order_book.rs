use vstd::prelude::*;

use std::collections::BTreeMap;

use crate::final_ver::arena_slot_allocator::{ArenaChunkIndex, ArenaId, ArenaSlotAllocator};
use crate::final_ver::arena_slot_map::{same_shape, with_amount, ArenaSlot, ArenaSlotMap};
use crate::final_ver::level_fill::{
    amounts_at, filled_slots, level_orders, level_volume, match_side, slot_ids,
};
use crate::matching::{eligible_queue, fill_amounts, fill_count, fill_left, total};
use crate::sorted_keys::{first_key, last_key};
use crate::OrderSide;

verus! {

broadcast use vstd::std_specs::btree::group_btree_axioms;

/// A resting order of the arena based book.
#[derive(Debug, PartialEq, Eq, Structural)]
pub struct LimitOrder {
    pub limit: u32,
    pub amount: u32,
    pub side: OrderSide,
}

/// The key of the level of a side at a price: asks are keyed by their price,
/// bids by its complement, so that on both sides the level served first has
/// the lowest key.
pub open spec fn level_key(side: OrderSide, price: u32) -> u32 {
    match side {
        OrderSide::Bid => (0xffff_ffffu32 - price) as u32,
        OrderSide::Ask => price,
    }
}

/// The level key of a side at a price.
pub fn key_of(side: OrderSide, price: u32) -> (key: u32)
    ensures
        key == level_key(side, price),
{
    match side {
        OrderSide::Bid => 0xffff_ffffu32 - price,
        OrderSide::Ask => price,
    }
}

/// The price of the level of a side with a key.
pub fn price_of(side: OrderSide, key: u32) -> (price: u32)
    ensures
        level_key(side, price) == key,
{
    match side {
        OrderSide::Bid => 0xffff_ffffu32 - key,
        OrderSide::Ask => key,
    }
}

/// The book: for each side, the price levels by level key, and the arena
/// whose chunks hold the levels' orders.
pub struct OrderBook {
    pub bids: BTreeMap<u32, ArenaSlotMap>,
    pub asks: BTreeMap<u32, ArenaSlotMap>,
    pub arena: ArenaSlotAllocator,
    /// The side and level key of the level that owns each claimed chunk.
    owner: Ghost<Map<int, (OrderSide, u32)>>,
}

/// Appends `order` to the level `key` of `map`, creating the level with a
/// chunk of its own if there is none.
fn place_in(
    map: &mut BTreeMap<u32, ArenaSlotMap>,
    arena: &mut ArenaSlotAllocator,
    key: u32,
    order: LimitOrder,
) -> (id: ArenaId)
    requires
        old(arena).wf(),
        old(arena).chunk_size_spec() > 0,
        old(map)@.contains_key(key) ==> {
            let l = old(map)@[key];
            &&& l.wf_in(old(arena).slots(), old(arena).chunk_size_spec() as int)
            &&& l.needs_chunk(old(arena).chunk_size_spec() as int) ==> old(arena).free_chunks().len() > 0
            &&& forall|k: int|
                0 <= k < old(arena).free_chunks().len() ==> !l.chunks().contains(
                    #[trigger] old(arena).free_chunks()[k],
                )
        },
        !old(map)@.contains_key(key) ==> old(arena).free_chunks().len() > 0,
    ensures
        final(arena).wf(),
        final(arena).chunk_count_spec() == old(arena).chunk_count_spec(),
        final(arena).chunk_size_spec() == old(arena).chunk_size_spec(),
        final(arena).slots().len() == old(arena).slots().len(),
        final(map)@.contains_key(key),
        final(map)@ == old(map)@.insert(key, final(map)@[key]),
        ({
            let cs = old(arena).chunk_size_spec() as int;
            let l2 = final(map)@[key];
            let claims = !old(map)@.contains_key(key) || old(map)@[key].needs_chunk(cs);
            &&& l2.wf_in(final(arena).slots(), cs)
            &&& l2.order() == (if old(map)@.contains_key(key) {
                old(map)@[key].order()
            } else {
                Seq::<int>::empty()
            }).push(id.index as int)
            &&& l2.chunks() == (if old(map)@.contains_key(key) {
                if claims {
                    old(map)@[key].chunks().push(old(arena).free_chunks().last())
                } else {
                    old(map)@[key].chunks()
                }
            } else {
                seq![old(arena).free_chunks().last()]
            })
            &&& final(arena).free_chunks() == (if claims {
                old(arena).free_chunks().drop_last()
            } else {
                old(arena).free_chunks()
            })
            &&& forall|j: int|
                0 <= j < old(arena).slots().len() && !l2.chunks().contains(j / cs)
                    ==> #[trigger] final(arena).slots()[j] == old(arena).slots()[j]
        }),
        id.generation == 0,
        0 <= id.index < old(arena).slots().len(),
        final(arena).slots()[id.index as int].data_of() == Some(order),
        forall|j: int|
            0 <= j < old(arena).slots().len() && j != id.index ==> #[trigger] final(arena).slots()[j].data_of()
                == old(arena).slots()[j].data_of(),
{
    let ghost cs = arena.chunk_size_spec() as int;
    if map.contains_key(&key) {
        let mut level = map.remove(&key).unwrap();
        let id = level.insert(order, arena);
        proof {
            level.lemma_links_at(arena.slots(), cs, level.order().len() - 1);
        }
        map.insert(key, level);
        proof {
            assert(map@ =~= old(map)@.insert(key, map@[key]));
        }
        id
    } else {
        proof {
            arena.lemma_wf();
        }
        let mut level = ArenaSlotMap::from_arena(arena);
        proof {
            assert forall|k: int| 0 <= k < arena.free_chunks().len() implies !level.chunks().contains(
                #[trigger] arena.free_chunks()[k],
            ) by {
                let f = old(arena).free_chunks();
                assert(arena.free_chunks()[k] == f[k]);
                assert(f[k] != f[f.len() - 1]);
            }
        }
        let id = level.insert(order, arena);
        proof {
            level.lemma_links_at(arena.slots(), cs, level.order().len() - 1);
        }
        map.insert(key, level);
        proof {
            assert(map@ =~= old(map)@.insert(key, map@[key]));
        }
        id
    }
}

/// Removes the order in slot `id` from the level `key` of `map`; a level left
/// empty gives its chunks back to the arena and leaves the map.  Returns
/// whether the level was left empty.
fn cancel_in(
    map: &mut BTreeMap<u32, ArenaSlotMap>,
    arena: &mut ArenaSlotAllocator,
    key: u32,
    id: &ArenaId,
) -> (emptied: bool)
    requires
        old(arena).wf(),
        old(map)@.contains_key(key),
        old(map)@[key].wf_in(old(arena).slots(), old(arena).chunk_size_spec() as int),
        old(map)@[key].order().contains(id.index as int),
        forall|k: int|
            0 <= k < old(arena).free_chunks().len() ==> !old(map)@[key].chunks().contains(
                #[trigger] old(arena).free_chunks()[k],
            ),
    ensures
        final(arena).wf(),
        final(arena).chunk_count_spec() == old(arena).chunk_count_spec(),
        final(arena).chunk_size_spec() == old(arena).chunk_size_spec(),
        final(arena).slots().len() == old(arena).slots().len(),
        ({
            let cs = old(arena).chunk_size_spec() as int;
            let l = old(map)@[key];
            &&& emptied == (l.order().len() == 1)
            &&& emptied ==> final(map)@ == old(map)@.remove(key)
            &&& emptied ==> final(arena).free_chunks() == old(arena).free_chunks() + l.chunks()
            &&& !emptied ==> final(map)@.contains_key(key)
            &&& !emptied ==> final(map)@ == old(map)@.insert(key, final(map)@[key])
            &&& !emptied ==> final(arena).free_chunks() == old(arena).free_chunks()
            &&& !emptied ==> final(map)@[key].wf_in(final(arena).slots(), cs)
            &&& !emptied ==> final(map)@[key].chunks() == l.chunks()
            &&& forall|k: int|
                0 <= k < l.order().len() && l.order()[k] == id.index ==> #[trigger] l.order().remove(k)
                    == (if emptied {
                    Seq::<int>::empty()
                } else {
                    final(map)@[key].order()
                })
            &&& forall|j: int|
                0 <= j < old(arena).slots().len() && !l.chunks().contains(j / cs)
                    ==> #[trigger] final(arena).slots()[j] == old(arena).slots()[j]
        }),
        final(arena).slots()[id.index as int].data_of() is None,
        forall|j: int|
            0 <= j < old(arena).slots().len() && j != id.index ==> #[trigger] final(arena).slots()[j].data_of()
                == old(arena).slots()[j].data_of(),
{
    let ghost cs = arena.chunk_size_spec() as int;
    let ghost old_free = arena.free_chunks();
    let mut level = map.remove(&key).unwrap();
    let ghost l = level;
    let ghost k0 = l.order().index_of(id.index as int);
    proof {
        l.lemma_links_at(arena.slots(), cs, k0);
    }
    let empty = level.remove(id, arena);
    if empty {
        let ghost slots1 = arena.slots();
        let mut i: usize = 0;
        proof {
            arena.lemma_wf();
            assert(old_free + l.chunks().take(0) =~= old_free);
        }
        while i < level.owned_chunk_count()
            invariant
                arena.wf(),
                arena.chunk_count_spec() == old(arena).chunk_count_spec(),
                arena.chunk_size_spec() == old(arena).chunk_size_spec(),
                arena.slots() == slots1,
                level.chunks() == l.chunks(),
                level.wf_in(slots1, cs),
                0 <= i <= level.chunks().len(),
                arena.free_chunks() == old_free + l.chunks().take(i as int),
                forall|k: int|
                    0 <= k < old_free.len() ==> !l.chunks().contains(#[trigger] old_free[k]),
                slots1.len() == arena.chunk_count_spec() * cs,
            decreases level.chunks().len() - i,
        {
            let c = level.owned_chunk(i);
            proof {
                assert(level.chunks()[i as int] == c);
                lemma_chunk_lt_at(level, slots1, cs, i as int, arena.chunk_count_spec() as int);
                level.lemma_chunk_bound(slots1, cs, i as int);
                assert(!arena.free_chunks().contains(c as int)) by {
                    if arena.free_chunks().contains(c as int) {
                        let m = choose|m: int| 0 <= m < arena.free_chunks().len() && arena.free_chunks()[m] == c;
                        if m < old_free.len() {
                            assert(old_free[m] == c);
                            assert(l.chunks().contains(old_free[m]));
                        } else {
                            assert(l.chunks()[m - old_free.len()] == c);
                            assert(l.chunks()[i as int] == c);
                        }
                    }
                }
            }
            arena.release_chunk(ArenaChunkIndex(c));
            proof {
                assert(old_free + l.chunks().take(i + 1) =~= (old_free + l.chunks().take(i as int)).push(c as int));
            }
            i = i + 1;
        }
        proof {
            assert(l.chunks().take(l.chunks().len() as int) =~= l.chunks());
            assert(map@ =~= old(map)@.remove(key));
            assert forall|kk: int|
                0 <= kk < l.order().len() && l.order()[kk] == id.index implies #[trigger] l.order().remove(kk)
                == Seq::<int>::empty() by {
                assert(level.order() == l.order().remove(kk));
            }
        }
        true
    } else {
        map.insert(key, level);
        proof {
            assert(map@ =~= old(map)@.insert(key, map@[key]));
        }
        false
    }
}

/// Chunk `p` of a well formed level is one of the `n` chunks of the arena.
proof fn lemma_chunk_lt_at(level: ArenaSlotMap, slots: Seq<ArenaSlot>, cs: int, p: int, n: int)
    requires
        level.wf_in(slots, cs),
        0 <= p < level.chunks().len(),
        slots.len() == n * cs,
    ensures
        0 <= level.chunks()[p] < n,
{
    level.lemma_chunk_bound(slots, cs, p);
    crate::final_ver::arena_slot_map::lemma_chunk_lt(level.chunks()[p], cs, n);
}

impl OrderBook {
    /// The levels of a side, by level key.
    pub closed spec fn side_map(&self, side: OrderSide) -> Map<u32, ArenaSlotMap> {
        match side {
            OrderSide::Bid => self.bids@,
            OrderSide::Ask => self.asks@,
        }
    }

    /// The orders of each level of a side, as slot indices in arrival order.
    pub closed spec fn levels(&self, side: OrderSide) -> Map<u32, Seq<int>> {
        self.side_map(side).map_values(|l: ArenaSlotMap| l.order())
    }

    /// The order in slot `i`, if `i` is a slot and the slot is occupied.
    pub closed spec fn order_at(&self, i: int) -> Option<LimitOrder> {
        if 0 <= i < self.arena.slots().len() {
            self.arena.slots()[i].data_of()
        } else {
            None
        }
    }

    /// The number of slots of the arena.
    pub closed spec fn slot_count(&self) -> nat {
        self.arena.slots().len()
    }

    /// The number of chunks that can still be claimed.
    pub closed spec fn free_chunk_count(&self) -> nat {
        self.arena.free_chunks().len()
    }

    /// The level of `side` at `price` exists and can take one more order
    /// without a new chunk.
    pub closed spec fn level_has_room(&self, side: OrderSide, price: u32) -> bool {
        let k = level_key(side, price);
        self.side_map(side).contains_key(k) && !self.side_map(side)[k].needs_chunk(
            self.arena.chunk_size_spec() as int,
        )
    }

    /// The number of chunks held by the level of `side` with key `key`.
    pub closed spec fn level_chunk_count(&self, side: OrderSide, key: u32) -> nat {
        self.side_map(side)[key].chunks().len()
    }

    /// Placing an order of `side` at `price` finds a chunk for it: a chunk is
    /// free, or the level exists and has room.
    pub open spec fn can_place(&self, side: OrderSide, price: u32) -> bool {
        self.free_chunk_count() > 0 || self.level_has_room(side, price)
    }

    pub closed spec fn level_ok(&self, side: OrderSide, k: u32) -> bool {
        let l = self.side_map(side)[k];
        let cs = self.arena.chunk_size_spec() as int;
        &&& l.wf_in(self.arena.slots(), cs)
        &&& l.order().len() > 0
        &&& forall|p: int|
            0 <= p < l.chunks().len() ==> self.owner@.contains_key(#[trigger] l.chunks()[p])
                && self.owner@[l.chunks()[p]] == (side, k)
        &&& forall|t: int|
            0 <= t < l.order().len() ==> {
                let d = #[trigger] self.arena.slots()[l.order()[t]].data_of();
                &&& d is Some
                &&& d->0.side == side
                &&& level_key(side, d->0.limit) == k
            }
    }

    pub closed spec fn occupied_ok(&self, i: int) -> bool {
        let d = self.arena.slots()[i]->data;
        let k = level_key(d.side, d.limit);
        &&& self.side_map(d.side).contains_key(k)
        &&& self.side_map(d.side)[k].order().contains(i)
    }

    pub closed spec fn wf(&self) -> bool {
        &&& self.arena.wf()
        &&& self.arena.chunk_size_spec() > 0
        &&& forall|s: OrderSide, k: u32| #[trigger]
            self.side_map(s).contains_key(k) ==> self.level_ok(s, k)
        &&& forall|c: int| #[trigger]
            self.owner@.contains_key(c) ==> ({
                let (s, k) = self.owner@[c];
                &&& self.side_map(s).contains_key(k)
                &&& self.side_map(s)[k].chunks().contains(c)
            })
        &&& forall|p: int|
            0 <= p < self.arena.free_chunks().len() ==> !self.owner@.contains_key(
                #[trigger] self.arena.free_chunks()[p],
            )
        &&& forall|i: int|
            0 <= i < self.arena.slots().len() && #[trigger] self.arena.slots()[i] is Occupied
                ==> self.occupied_ok(i)
    }


    /// Placing an order of `side` at `price` claims a chunk: the level does
    /// not exist yet, or it has no freed slot and its last chunk is full.
    pub closed spec fn place_claims(&self, side: OrderSide, price: u32) -> bool {
        let k = level_key(side, price);
        !self.side_map(side).contains_key(k) || self.side_map(side)[k].needs_chunk(
            self.arena.chunk_size_spec() as int,
        )
    }

    /// Appends `order` to the level of its side and price, creating the level
    /// if there is none, and returns the identifier of its slot.
    pub fn place_order(&mut self, order: LimitOrder) -> (id: ArenaId)
        requires
            old(self).wf(),
            old(self).can_place(order.side, order.limit),
        ensures
            final(self).wf(),
            id.generation == 0,
            id.index < old(self).slot_count(),
            old(self).order_at(id.index as int) is None,
            final(self).order_at(id.index as int) == Some(order),
            forall|j: int| j != id.index ==> #[trigger] final(self).order_at(j) == old(self).order_at(j),
            final(self).levels(order.side) == old(self).levels(order.side).insert(
                level_key(order.side, order.limit),
                (if old(self).levels(order.side).contains_key(level_key(order.side, order.limit)) {
                    old(self).levels(order.side)[level_key(order.side, order.limit)]
                } else {
                    Seq::<int>::empty()
                }).push(id.index as int),
            ),
            final(self).levels(order.side.opposite()) == old(self).levels(order.side.opposite()),
            final(self).slot_count() == old(self).slot_count(),
            final(self).free_chunk_count() + (if old(self).place_claims(order.side, order.limit) {
                1int
            } else {
                0int
            }) == old(self).free_chunk_count(),
    {
        let side = order.side;
        let key = key_of(order.side, order.limit);
        let ghost old_book = *self;
        let ghost cs = self.arena.chunk_size_spec() as int;
        let ghost old_slots = self.arena.slots();
        let ghost old_free = self.arena.free_chunks();
        let ghost gorder = order;
        let ghost claims = self.place_claims(side, order.limit);
        proof {
            self.arena.lemma_wf();
            if self.side_map(side).contains_key(key) {
                assert(self.level_ok(side, key));
                let l = self.side_map(side)[key];
                assert forall|k: int| 0 <= k < old_free.len() implies !l.chunks().contains(
                    #[trigger] old_free[k],
                ) by {
                    if l.chunks().contains(old_free[k]) {
                        let p = choose|p: int| 0 <= p < l.chunks().len() && l.chunks()[p] == old_free[k];
                        assert(self.owner@.contains_key(l.chunks()[p]));
                    }
                }
            }
        }
        let id = match side {
            OrderSide::Bid => place_in(&mut self.bids, &mut self.arena, key, order),
            OrderSide::Ask => place_in(&mut self.asks, &mut self.arena, key, order),
        };
        proof {
            let f = id.index as int;
            let new_slots = self.arena.slots();
            let l2 = self.side_map(side)[key];
            if claims {
                self.owner@ = old_book.owner@.insert(old_free.last(), (side, key));
                assert(old_free.contains(old_free.last()));
            }
            let owner2 = self.owner@;
            // The new slot was not occupied before.
            assert(old_slots[f] is Free) by {
                if old_slots[f] is Occupied {
                    assert(old_book.occupied_ok(f));
                    let d = old_slots[f]->data;
                    let k2 = level_key(d.side, d.limit);
                    assert(old_book.level_ok(d.side, k2));
                    let l3 = old_book.side_map(d.side)[k2];
                    let t = choose|t: int| 0 <= t < l3.order().len() && l3.order()[t] == f;
                    l3.lemma_links_at(old_slots, cs, t);
                    let pc = choose|p: int| 0 <= p < l3.chunks().len() && l3.chunks()[p] == f / cs;
                    assert(old_book.owner@.contains_key(f / cs));
                    l2.lemma_links_at(new_slots, cs, l2.order().len() - 1);
                    let pc2 = choose|p: int| 0 <= p < l2.chunks().len() && l2.chunks()[p] == f / cs;
                    if old_book.side_map(side).contains_key(key) && pc2 < old_book.side_map(side)[key].chunks().len() {
                        assert(old_book.level_ok(side, key));
                        assert(old_book.side_map(side)[key].chunks()[pc2] == f / cs);
                        assert(old_book.owner@[f / cs] == (side, key));
                        assert(d.side == side && k2 == key);
                        assert(l2.order() == l3.order().push(f));
                        assert(l2.order()[t] == f);
                        assert(l2.order()[l2.order().len() - 1] == f);
                    } else {
                        assert(f / cs == old_free.last());
                        assert(!old_book.owner@.contains_key(old_free[old_free.len() - 1]));
                    }
                }
            }
            let old_l = old_book.side_map(side)[key];
            let had = old_book.side_map(side).contains_key(key);
            // Chunks owned by another level are untouched.
            assert forall|s2: OrderSide, k2: u32| #[trigger]
                self.side_map(s2).contains_key(k2) implies self.level_ok(s2, k2) by {
                if s2 == side && k2 == key {
                    assert forall|p: int| 0 <= p < l2.chunks().len() implies owner2.contains_key(
                        #[trigger] l2.chunks()[p],
                    ) && owner2[l2.chunks()[p]] == (s2, k2) by {
                        if had && p < old_l.chunks().len() {
                            assert(old_book.level_ok(side, key));
                            assert(l2.chunks()[p] == old_l.chunks()[p]);
                        }
                    }
                    assert forall|t: int| 0 <= t < l2.order().len() implies {
                        let d = #[trigger] new_slots[l2.order()[t]].data_of();
                        &&& d is Some
                        &&& d->0.side == s2
                        &&& level_key(s2, d->0.limit) == k2
                    } by {
                        if t < l2.order().len() - 1 {
                            assert(old_book.level_ok(side, key));
                            assert(l2.order()[t] == old_l.order()[t]);
                            l2.lemma_links_at(new_slots, cs, t);
                            assert(l2.order()[t] != f);
                        }
                    }
                } else {
                    assert(old_book.side_map(s2).contains_key(k2));
                    assert(old_book.level_ok(s2, k2));
                    let l3 = old_book.side_map(s2)[k2];
                    assert(self.side_map(s2)[k2] == l3);
                    assert forall|j: int|
                        0 <= j < old_slots.len() && l3.chunks().contains(j / cs) implies #[trigger] new_slots[j]
                        == old_slots[j] by {
                        let p = choose|p: int| 0 <= p < l3.chunks().len() && l3.chunks()[p] == j / cs;
                        assert(old_book.owner@[j / cs] == (s2, k2));
                        if l2.chunks().contains(j / cs) {
                            let p2 = choose|p2: int| 0 <= p2 < l2.chunks().len() && l2.chunks()[p2] == j / cs;
                            if had && p2 < old_l.chunks().len() {
                                assert(old_book.level_ok(side, key));
                                assert(old_l.chunks()[p2] == j / cs);
                            } else {
                                assert(j / cs == old_free.last());
                                assert(!old_book.owner@.contains_key(old_free[old_free.len() - 1]));
                            }
                        }
                    }
                    l3.lemma_frame(old_slots, new_slots, cs);
                    assert forall|t: int| 0 <= t < l3.order().len() implies #[trigger] new_slots[l3.order()[t]]
                        == old_slots[l3.order()[t]] by {
                        l3.lemma_links_at(old_slots, cs, t);
                    }
                }
            }
            assert forall|c: int| #[trigger] owner2.contains_key(c) implies ({
                let (s2, k2) = owner2[c];
                &&& self.side_map(s2).contains_key(k2)
                &&& self.side_map(s2)[k2].chunks().contains(c)
            }) by {
                if claims && c == old_free.last() {
                    l2.lemma_links_at(new_slots, cs, 0);
                    assert(l2.chunks()[l2.chunks().len() - 1] == c);
                } else {
                    let (s2, k2) = old_book.owner@[c];
                    if s2 == side && k2 == key {
                        let p = choose|p: int| 0 <= p < old_l.chunks().len() && old_l.chunks()[p] == c;
                        assert(l2.chunks()[p] == c);
                    }
                }
            }
            assert forall|p: int| 0 <= p < self.arena.free_chunks().len() implies !owner2.contains_key(
                #[trigger] self.arena.free_chunks()[p],
            ) by {
                assert(self.arena.free_chunks()[p] == old_free[p]);
                if claims {
                    assert(old_free[p] != old_free[old_free.len() - 1]);
                }
            }
            assert forall|i: int|
                0 <= i < new_slots.len() && #[trigger] new_slots[i] is Occupied implies self.occupied_ok(i) by {
                if i == f {
                    assert(l2.order()[l2.order().len() - 1] == f);
                } else {
                    assert(new_slots[i].data_of() == old_slots[i].data_of());
                    assert(old_book.occupied_ok(i));
                    let d = old_slots[i]->data;
                    let k3 = level_key(d.side, d.limit);
                    if d.side == side && k3 == key {
                        let t = choose|t: int| 0 <= t < old_l.order().len() && old_l.order()[t] == i;
                        assert(l2.order()[t] == i);
                    }
                }
            }
        }
        id
    }


    /// Removes the order with identifier `order_id` from its level, if its slot
    /// is occupied; a level left empty gives its chunks back and disappears.
    pub fn cancel_order(&mut self, order_id: &ArenaId)
        requires
            old(self).wf(),
            order_id.index < old(self).slot_count(),
        ensures
            final(self).wf(),
            final(self).slot_count() == old(self).slot_count(),
            final(self).order_at(order_id.index as int) is None,
            forall|j: int| j != order_id.index ==> #[trigger] final(self).order_at(j) == old(self).order_at(j),
            old(self).order_at(order_id.index as int) is None ==> {
                &&& final(self).free_chunk_count() == old(self).free_chunk_count()
                &&& final(self).levels(OrderSide::Bid) == old(self).levels(OrderSide::Bid)
                &&& final(self).levels(OrderSide::Ask) == old(self).levels(OrderSide::Ask)
                &&& forall|s: OrderSide, p: u32| old(self).can_place(s, p) ==> #[trigger] final(self).can_place(s, p)
            },
            old(self).order_at(order_id.index as int) matches Some(o) ==> ({
                let i = order_id.index as int;
                let k = level_key(o.side, o.limit);
                let lv = old(self).levels(o.side)[k];
                &&& old(self).levels(o.side).contains_key(k)
                &&& lv.contains(i)
                &&& final(self).free_chunk_count() == old(self).free_chunk_count() + (if lv.len() == 1 {
                    old(self).level_chunk_count(o.side, k)
                } else {
                    0
                })
                &&& forall|t: int|
                    0 <= t < lv.len() && lv[t] == i ==> #[trigger] final(self).levels(o.side) == (if lv.len()
                        == 1 {
                        old(self).levels(o.side).remove(k)
                    } else {
                        old(self).levels(o.side).insert(k, lv.remove(t))
                    })
                &&& final(self).levels(o.side.opposite()) == old(self).levels(o.side.opposite())
                &&& forall|p: u32| old(self).can_place(o.side.opposite(), p) ==> #[trigger] final(self).can_place(o.side.opposite(), p)
            }),
    {
        let ghost old_book = *self;
        let ghost cs = self.arena.chunk_size_spec() as int;
        let ghost old_slots = self.arena.slots();
        let ghost old_free = self.arena.free_chunks();
        let ghost idx = order_id.index as int;
        let (price, side) = match self.arena.get(order_id.index as usize) {
            Some(ArenaSlot::Occupied { data, .. }) => (data.limit, data.side),
            _ => {
                return ;
            },
        };
        let key = key_of(side, price);
        proof {
            assert(self.occupied_ok(idx));
            assert(self.level_ok(side, key));
            let l = self.side_map(side)[key];
            assert forall|k: int| 0 <= k < old_free.len() implies !l.chunks().contains(
                #[trigger] old_free[k],
            ) by {
                if l.chunks().contains(old_free[k]) {
                    let p = choose|p: int| 0 <= p < l.chunks().len() && l.chunks()[p] == old_free[k];
                    assert(self.owner@.contains_key(l.chunks()[p]));
                }
            }
        }
        let emptied = match side {
            OrderSide::Bid => cancel_in(&mut self.bids, &mut self.arena, key, order_id),
            OrderSide::Ask => cancel_in(&mut self.asks, &mut self.arena, key, order_id),
        };
        proof {
            let l = old_book.side_map(side)[key];
            let new_slots = self.arena.slots();
            if emptied {
                self.owner@ = Map::new(
                    |c: int| old_book.owner@.contains_key(c) && !l.chunks().contains(c),
                    |c: int| old_book.owner@[c],
                );
            }
            let owner2 = self.owner@;
            let k0 = l.order().index_of(idx);
            assert(l.order()[k0] == idx);
            assert forall|s2: OrderSide, k2: u32| #[trigger]
                self.side_map(s2).contains_key(k2) implies self.level_ok(s2, k2) by {
                if s2 == side && k2 == key {
                    let l2 = self.side_map(side)[key];
                    assert(l2.order() == l.order().remove(k0));
                    assert(old_book.level_ok(side, key));
                    assert forall|t: int| 0 <= t < l2.order().len() implies {
                        let d = #[trigger] new_slots[l2.order()[t]].data_of();
                        &&& d is Some
                        &&& d->0.side == s2
                        &&& level_key(s2, d->0.limit) == k2
                    } by {
                        let t2 = if t < k0 { t } else { t + 1 };
                        assert(l2.order()[t] == l.order()[t2]);
                        l.lemma_links_at(old_slots, cs, t2);
                        l.lemma_links_at(old_slots, cs, k0);
                        l.lemma_links_at(old_slots, cs, t2);
                        assert(l.order()[t2] != idx);
                        assert(l.order()[t2] < old_slots.len());
                    }
                    assert forall|p: int| 0 <= p < l2.chunks().len() implies owner2.contains_key(
                        #[trigger] l2.chunks()[p],
                    ) && owner2[l2.chunks()[p]] == (s2, k2) by {
                        assert(l2.chunks()[p] == l.chunks()[p]);
                    }
                } else {
                    assert(old_book.side_map(s2).contains_key(k2));
                    assert(old_book.level_ok(s2, k2));
                    let l3 = old_book.side_map(s2)[k2];
                    assert(self.side_map(s2)[k2] == l3);
                    assert forall|j: int|
                        0 <= j < old_slots.len() && l3.chunks().contains(j / cs) implies #[trigger] new_slots[j]
                        == old_slots[j] by {
                        let p = choose|p: int| 0 <= p < l3.chunks().len() && l3.chunks()[p] == j / cs;
                        assert(old_book.owner@[j / cs] == (s2, k2));
                        if l.chunks().contains(j / cs) {
                            let p2 = choose|p2: int| 0 <= p2 < l.chunks().len() && l.chunks()[p2] == j / cs;
                            assert(old_book.owner@[l.chunks()[p2]] == (side, key));
                        }
                    }
                    l3.lemma_frame(old_slots, new_slots, cs);
                    assert forall|t: int| 0 <= t < l3.order().len() implies #[trigger] new_slots[l3.order()[t]]
                        == old_slots[l3.order()[t]] by {
                        l3.lemma_links_at(old_slots, cs, t);
                    }
                    assert forall|p: int| 0 <= p < l3.chunks().len() implies owner2.contains_key(
                        #[trigger] l3.chunks()[p],
                    ) && owner2[l3.chunks()[p]] == (s2, k2) by {
                        if emptied && l.chunks().contains(l3.chunks()[p]) {
                            let p2 = choose|p2: int| 0 <= p2 < l.chunks().len() && l.chunks()[p2] == l3.chunks()[p];
                            assert(old_book.owner@[l.chunks()[p2]] == (side, key));
                        }
                    }
                }
            }
            assert forall|c: int| #[trigger] owner2.contains_key(c) implies ({
                let (s2, k2) = owner2[c];
                &&& self.side_map(s2).contains_key(k2)
                &&& self.side_map(s2)[k2].chunks().contains(c)
            }) by {
                let (s2, k2) = old_book.owner@[c];
                if s2 == side && k2 == key {
                    if !emptied {
                        assert(self.side_map(side)[key].chunks() == l.chunks());
                    }
                }
            }
            assert forall|p: int| 0 <= p < self.arena.free_chunks().len() implies !owner2.contains_key(
                #[trigger] self.arena.free_chunks()[p],
            ) by {
                if p < old_free.len() {
                    assert(self.arena.free_chunks()[p] == old_free[p]);
                } else {
                    assert(self.arena.free_chunks()[p] == l.chunks()[p - old_free.len()]);
                }
            }
            assert forall|i: int|
                0 <= i < new_slots.len() && #[trigger] new_slots[i] is Occupied implies self.occupied_ok(i) by {
                assert(i != idx);
                assert(new_slots[i].data_of() == old_slots[i].data_of());
                assert(old_book.occupied_ok(i));
                let d = old_slots[i]->data;
                let k3 = level_key(d.side, d.limit);
                if d.side == side && k3 == key {
                    let t = choose|t: int| 0 <= t < l.order().len() && l.order()[t] == i;
                    assert(t != k0);
                    if emptied {
                        assert(l.order().len() == 1);
                    } else {
                        let t2 = if t < k0 { t } else { t - 1 };
                        assert(l.order().remove(k0) == self.side_map(side)[key].order());
                        assert(self.side_map(side)[key].order()[t2] == i);
                    }
                }
            }
            assert forall|t: int|
                0 <= t < l.order().len() && l.order()[t] == idx implies #[trigger] self.levels(side) == (if l.order().len() == 1 {
                old_book.levels(side).remove(key)
            } else {
                old_book.levels(side).insert(key, l.order().remove(t))
            }) by {
                if emptied {
                    assert(self.levels(side) =~= old_book.levels(side).remove(key));
                } else {
                    assert(self.levels(side) =~= old_book.levels(side).insert(key, l.order().remove(t)));
                }
            }
            assert(self.levels(side.opposite()) =~= old_book.levels(side.opposite()));
            assert forall|p: u32| old_book.can_place(side.opposite(), p) implies #[trigger] self.can_place(side.opposite(), p) by {
                if old_free.len() > 0 {
                    assert(self.arena.free_chunks().len() >= old_free.len());
                }
            }
        }
    }

    /// The amounts of the orders in the slots `q`.
    pub open spec fn amounts(&self, q: Seq<int>) -> Seq<nat> {
        q.map_values(|i: int| self.order_at(i)->0.amount as nat)
    }

    /// No order rests at two levels of a side.
    proof fn lemma_levels_disjoint(&self, side: OrderSide)
        requires
            self.wf(),
        ensures
            forall|k1: u32, k2: u32, i: int|
                k1 != k2 && self.side_map(side).contains_key(k1) && self.side_map(side).contains_key(k2)
                    && #[trigger] self.side_map(side)[k1].order().contains(i)
                    ==> !#[trigger] self.side_map(side)[k2].order().contains(i),
    {
        let cs = self.arena.chunk_size_spec() as int;
        assert forall|k1: u32, k2: u32, i: int|
            k1 != k2 && self.side_map(side).contains_key(k1) && self.side_map(side).contains_key(k2)
                && #[trigger] self.side_map(side)[k1].order().contains(i)
                implies !#[trigger] self.side_map(side)[k2].order().contains(i) by {
            let l1 = self.side_map(side)[k1];
            let l2 = self.side_map(side)[k2];
            assert(self.level_ok(side, k1));
            assert(self.level_ok(side, k2));
            let t1 = choose|t: int| 0 <= t < l1.order().len() && l1.order()[t] == i;
            l1.lemma_links_at(self.arena.slots(), cs, t1);
            let p1 = choose|p: int| 0 <= p < l1.chunks().len() && l1.chunks()[p] == i / cs;
            assert(self.owner@[l1.chunks()[p1]] == (side, k1));
            if l2.order().contains(i) {
                let t2 = choose|t: int| 0 <= t < l2.order().len() && l2.order()[t] == i;
                l2.lemma_links_at(self.arena.slots(), cs, t2);
                let p2 = choose|p: int| 0 <= p < l2.chunks().len() && l2.chunks()[p] == i / cs;
                assert(self.owner@[l2.chunks()[p2]] == (side, k2));
            }
        }
    }

    /// Fills the resting orders of `side` whose level key is at most `bound`,
    /// in the order in which the side serves them, with an incoming `amount`.
    /// Each order that is filled completely stays in its level, with amount
    /// zero, and its identifier is appended to `filled`.  Returns what is left
    /// of `amount`.
    pub fn match_orders(
        &mut self,
        side: OrderSide,
        bound: u32,
        amount: u32,
        filled: &mut Vec<ArenaId>,
    ) -> (left: u32)
        requires
            old(self).wf(),
        ensures
            final(self).wf(),
            final(self).levels(OrderSide::Bid) == old(self).levels(OrderSide::Bid),
            final(self).levels(OrderSide::Ask) == old(self).levels(OrderSide::Ask),
            final(self).slot_count() == old(self).slot_count(),
            final(self).free_chunk_count() == old(self).free_chunk_count(),
            forall|s: OrderSide, p: u32| #[trigger] final(self).can_place(s, p) == old(self).can_place(s, p),
            ({
                let q = eligible_queue(old(self).levels(side), bound);
                let a = old(self).amounts(q);
                let fa = fill_amounts(a, amount as nat);
                &&& left == fill_left(a, amount as nat)
                &&& forall|t: int|
                    0 <= t < q.len() ==> #[trigger] final(self).order_at(q[t]) == Some(
                        LimitOrder {
                            limit: old(self).order_at(q[t])->0.limit,
                            amount: fa[t] as u32,
                            side: old(self).order_at(q[t])->0.side,
                        },
                    )
                &&& forall|j: int| !q.contains(j) ==> #[trigger] final(self).order_at(j) == old(self).order_at(j)
                &&& final(filled)@ == old(filled)@ + slot_ids(q.take(fill_count(a, amount as nat) as int))
            }),
    {
        let ghost old_book = *self;
        let ghost cs = self.arena.chunk_size_spec() as int;
        let ghost s0 = self.arena.slots();
        proof {
            self.lemma_levels_disjoint(side);
            assert forall|k: u32| #[trigger] self.side_map(side).contains_key(k) implies self.side_map(side)[k].wf_in(s0, cs) by {
                assert(self.level_ok(side, k));
            }
            assert(old_book.levels(side) =~= level_orders(self.side_map(side)));
        }
        let left = match side {
            OrderSide::Bid => match_side(&self.bids, &mut self.arena, bound, amount, filled),
            OrderSide::Ask => match_side(&self.asks, &mut self.arena, bound, amount, filled),
        };
        proof {
            let s1 = self.arena.slots();
            let q = eligible_queue(old_book.levels(side), bound);
            assert(amounts_at(s0, q) =~= old_book.amounts(q)) by {
                assert forall|u: int| 0 <= u < q.len() implies #[trigger] amounts_at(s0, q)[u] == old_book.amounts(q)[u] by {
                    let x = q[u];
                }
            }
            assert forall|s2: OrderSide, k2: u32| #[trigger]
                self.side_map(s2).contains_key(k2) implies self.level_ok(s2, k2) by {
                assert(old_book.level_ok(s2, k2));
                let l = self.side_map(s2)[k2];
                l.lemma_shape(s0, s1, cs);
                assert forall|t: int| 0 <= t < l.order().len() implies {
                    let d = #[trigger] s1[l.order()[t]].data_of();
                    &&& d is Some
                    &&& d->0.side == s2
                    &&& level_key(s2, d->0.limit) == k2
                } by {
                    l.lemma_links_at(s0, cs, t);
                    let d0 = old_book.arena.slots()[l.order()[t]].data_of();
                    assert(d0 is Some && d0->0.side == s2 && level_key(s2, d0->0.limit) == k2);
                    assert(same_shape(s0[l.order()[t]], s1[l.order()[t]]));
                }
            }
            assert forall|i: int|
                0 <= i < s1.len() && #[trigger] s1[i] is Occupied implies self.occupied_ok(i) by {
                assert(same_shape(s0[i], s1[i]));
                assert(old_book.occupied_ok(i));
            }
            let a = old_book.amounts(q);
            let fa = fill_amounts(a, amount as nat);
            assert forall|t: int| 0 <= t < q.len() implies #[trigger] self.order_at(q[t]) == Some(
                LimitOrder {
                    limit: old_book.order_at(q[t])->0.limit,
                    amount: fa[t] as u32,
                    side: old_book.order_at(q[t])->0.side,
                },
            ) by {
                assert(s1[q[t]] == with_amount(s0[q[t]], fa[t] as u32));
            }
            assert forall|j: int| !q.contains(j) implies #[trigger] self.order_at(j) == old_book.order_at(j) by {
                if 0 <= j < s0.len() {
                    assert(s1[j] == s0[j]);
                }
            }
            assert(self.levels(OrderSide::Bid) =~= old_book.levels(OrderSide::Bid));
            assert(self.levels(OrderSide::Ask) =~= old_book.levels(OrderSide::Ask));
        }
        left
    }

    /// What well-formedness says of the levels of a side: finitely many, none
    /// empty, each order at one level only and at most once, and each order
    /// held in a slot at the level of its side and price.
    pub proof fn lemma_levels_facts(&self, side: OrderSide)
        requires
            self.wf(),
        ensures
            self.levels(side).dom().finite(),
            self.slot_count() < crate::slot_map::NONE_VALUE,
            forall|k: u32| #[trigger]
                self.levels(side).contains_key(k) ==> self.levels(side)[k].len() > 0
                    && self.levels(side)[k].no_duplicates(),
            forall|k: u32, t: int|
                #![trigger self.levels(side)[k][t]]
                self.levels(side).contains_key(k) && 0 <= t < self.levels(side)[k].len() ==> {
                    let i = self.levels(side)[k][t];
                    let o = self.order_at(i);
                    &&& 0 <= i < self.slot_count()
                    &&& o is Some
                    &&& o->0.side == side
                    &&& level_key(side, o->0.limit) == k
                },
            forall|k1: u32, k2: u32, i: int|
                k1 != k2 && self.levels(side).contains_key(k1) && self.levels(side).contains_key(k2)
                    && #[trigger] self.levels(side)[k1].contains(i)
                    ==> !#[trigger] self.levels(side)[k2].contains(i),
    {
        let cs = self.arena.chunk_size_spec() as int;
        self.lemma_levels_disjoint(side);
        self.arena.lemma_wf();
        assert(self.bids@.dom().finite());
        assert(self.asks@.dom().finite());
        assert(self.levels(side).dom() =~= self.side_map(side).dom());
        assert forall|k: u32| #[trigger]
            self.levels(side).contains_key(k) implies self.levels(side)[k].len() > 0
                && self.levels(side)[k].no_duplicates() by {
            assert(self.level_ok(side, k));
            self.side_map(side)[k].lemma_links_at(self.arena.slots(), cs, 0);
        }
        assert forall|k: u32, t: int|
            self.levels(side).contains_key(k) && 0 <= t < self.levels(side)[k].len() implies {
                let i = #[trigger] self.levels(side)[k][t];
                let o = self.order_at(i);
                &&& 0 <= i < self.slot_count()
                &&& o is Some
                &&& o->0.side == side
                &&& level_key(side, o->0.limit) == k
            } by {
            assert(self.level_ok(side, k));
            self.side_map(side)[k].lemma_links_at(self.arena.slots(), cs, t);
        }
    }

    /// The total amount resting at the level of `side` at `price`, zero where
    /// there is no such level.
    pub open spec fn volume(&self, side: OrderSide, price: u32) -> nat {
        let k = level_key(side, price);
        if self.levels(side).contains_key(k) {
            total(self.amounts(self.levels(side)[k]))
        } else {
            0
        }
    }

    /// The total amount resting at the level of `side` at `price`.
    pub fn volume_at(&self, side: OrderSide, price: u32) -> (v: u32)
        requires
            self.wf(),
            self.volume(side, price) <= u32::MAX,
        ensures
            v == self.volume(side, price),
    {
        let key = key_of(side, price);
        let found = match side {
            OrderSide::Bid => self.bids.get(&key),
            OrderSide::Ask => self.asks.get(&key),
        };
        match found {
            None => 0,
            Some(level) => {
                proof {
                    let cs = self.arena.chunk_size_spec() as int;
                    assert(self.level_ok(side, key));
                    let q = level.order();
                    assert(self.levels(side)[key] == q);
                    assert forall|u: int| 0 <= u < q.len() implies #[trigger] amounts_at(self.arena.slots(), q)[u]
                        == self.amounts(q)[u] by {
                        level.lemma_links_at(self.arena.slots(), cs, u);
                    }
                    assert(amounts_at(self.arena.slots(), q) =~= self.amounts(q));
                }
                level_volume(&self.arena, level)
            },
        }
    }

    /// The price of the level of `side` with the lowest key, the one served
    /// first: the highest bid or the lowest ask.
    pub fn first_level_price(&self, side: OrderSide) -> (r: Option<u32>)
        ensures
            r is None <==> self.levels(side).dom().len() == 0,
            r matches Some(p) ==> self.levels(side).contains_key(level_key(side, p)) && forall|k: u32|
                #[trigger] self.levels(side).contains_key(k) ==> level_key(side, p) <= k,
    {
        let found = match side {
            OrderSide::Bid => first_key(&self.bids),
            OrderSide::Ask => first_key(&self.asks),
        };
        proof {
            assert(self.levels(side).dom() =~= self.side_map(side).dom());
        }
        match found {
            Some(k) => Some(price_of(side, k)),
            None => None,
        }
    }

    /// The price of the level of `side` with the highest key, the one served
    /// last: the lowest bid or the highest ask.
    pub fn last_level_price(&self, side: OrderSide) -> (r: Option<u32>)
        ensures
            r is None <==> self.levels(side).dom().len() == 0,
            r matches Some(p) ==> self.levels(side).contains_key(level_key(side, p)) && forall|k: u32|
                #[trigger] self.levels(side).contains_key(k) ==> k <= level_key(side, p),
    {
        let found = match side {
            OrderSide::Bid => last_key(&self.bids),
            OrderSide::Ask => last_key(&self.asks),
        };
        proof {
            assert(self.levels(side).dom() =~= self.side_map(side).dom());
        }
        match found {
            Some(k) => Some(price_of(side, k)),
            None => None,
        }
    }

    /// An empty book over `arena`, none of whose slots holds an order.
    pub fn from_arena(arena: ArenaSlotAllocator) -> (book: Self)
        requires
            arena.wf(),
            arena.chunk_size_spec() > 0,
            forall|i: int| 0 <= i < arena.slots().len() ==> #[trigger] arena.slots()[i] is Free,
        ensures
            book.wf(),
            book.levels(OrderSide::Bid) == Map::<u32, Seq<int>>::empty(),
            book.levels(OrderSide::Ask) == Map::<u32, Seq<int>>::empty(),
            book.slot_count() == arena.slots().len(),
            book.free_chunk_count() == arena.free_chunks().len(),
            forall|i: int| #[trigger] book.order_at(i) is None,
    {
        let book = Self {
            bids: BTreeMap::new(),
            asks: BTreeMap::new(),
            arena,
            owner: Ghost(Map::empty()),
        };
        proof {
            assert(book.levels(OrderSide::Bid) =~= Map::<u32, Seq<int>>::empty());
            assert(book.levels(OrderSide::Ask) =~= Map::<u32, Seq<int>>::empty());
            assert forall|s: OrderSide, k: u32| #[trigger]
                book.side_map(s).contains_key(k) implies book.level_ok(s, k) by {
            }
        }
        book
    }

    /// An empty book over an arena of `chunk_count` chunks of `chunk_size` slots.
    pub fn new(chunk_count: usize, chunk_size: usize) -> (book: Self)
        requires
            chunk_count * chunk_size < crate::slot_map::NONE_VALUE,
            chunk_size > 0,
        ensures
            book.wf(),
            book.levels(OrderSide::Bid) == Map::<u32, Seq<int>>::empty(),
            book.levels(OrderSide::Ask) == Map::<u32, Seq<int>>::empty(),
            book.slot_count() == chunk_count * chunk_size,
            book.free_chunk_count() == chunk_count,
            forall|i: int| #[trigger] book.order_at(i) is None,
    {
        let arena = ArenaSlotAllocator::new(chunk_count, chunk_size);
        let book = Self {
            bids: BTreeMap::new(),
            asks: BTreeMap::new(),
            arena,
            owner: Ghost(Map::empty()),
        };
        proof {
            assert(book.levels(OrderSide::Bid) =~= Map::<u32, Seq<int>>::empty());
            assert(book.levels(OrderSide::Ask) =~= Map::<u32, Seq<int>>::empty());
            assert forall|s: OrderSide, k: u32| #[trigger]
                book.side_map(s).contains_key(k) implies book.level_ok(s, k) by {
            }
        }
        book
    }

    /// The order with identifier `arena_id`, if its slot is occupied.
    pub fn get_order(&self, arena_id: ArenaId) -> (r: Option<&LimitOrder>)
        requires
            arena_id.index < self.slot_count(),
        ensures
            r is Some == self.order_at(arena_id.index as int) is Some,
            r is Some ==> *r->0 == self.order_at(arena_id.index as int)->0,
    {
        match self.arena.get_unchecked(arena_id.index as usize) {
            ArenaSlot::Occupied { data, .. } => Some(data),
            ArenaSlot::Free { .. } => None,
        }
    }
}

} // verus!
