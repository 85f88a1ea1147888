//! Walks over the resting orders of price levels: filling them with an
//! incoming amount, and summing their amounts.
use vstd::prelude::*;

use crate::final_ver::arena_slot_allocator::{ArenaId, ArenaSlotAllocator};
use crate::final_ver::arena_slot_map::{with_amount, ArenaSlot, ArenaSlotMap};
use crate::final_ver::arena_slot_map::same_shape;
use crate::matching::{
    eligible_queue, fill_amounts, fill_count, fill_left, fill_take, lemma_fill_snoc,
    lemma_fill_split, lemma_fill_zero, lemma_queue_contains, lemma_queue_snoc, lemma_queue_take,
    lemma_sorted_keys_is, lemma_total_prefix, levels_upto, queue_of, total,
};
use crate::slot_map::NonMaxU32;
use crate::sorted_keys::keys_upto;
use std::collections::BTreeMap;

verus! {

/// The amounts of the orders in the slots `q` of `slots`.
pub open spec fn amounts_at(slots: Seq<ArenaSlot>, q: Seq<int>) -> Seq<nat> {
    q.map_values(|i: int| slots[i]->data.amount as nat)
}

/// The identifiers of the slots `q`.
pub open spec fn slot_ids(q: Seq<int>) -> Seq<ArenaId> {
    q.map_values(|i: int| ArenaId { generation: 0, index: i as u32 })
}

/// `new` is `old` with the order in slot `q[u]` given the amount `am[u]`, for
/// each position `u` of `q`, and every other slot unchanged.
pub open spec fn filled_slots(
    old: Seq<ArenaSlot>,
    new: Seq<ArenaSlot>,
    q: Seq<int>,
    am: Seq<nat>,
) -> bool {
    &&& new.len() == old.len()
    &&& forall|u: int| 0 <= u < q.len() ==> #[trigger] new[q[u]] == with_amount(old[q[u]], am[u] as u32)
    &&& forall|j: int| 0 <= j < old.len() && !q.contains(j) ==> #[trigger] new[j] == old[j]
}

/// Fills the orders of `level`, oldest first, with the incoming amount `rem`;
/// the identifier of each order that is filled completely is appended to
/// `filled`.  Returns what is left of `rem`.
pub fn fill_level(
    arena: &mut ArenaSlotAllocator,
    level: &ArenaSlotMap,
    rem: u32,
    filled: &mut Vec<ArenaId>,
) -> (left: u32)
    requires
        old(arena).wf(),
        level.wf_in(old(arena).slots(), old(arena).chunk_size_spec() as int),
    ensures
        final(arena).wf(),
        final(arena).free_chunks() == old(arena).free_chunks(),
        final(arena).chunk_count_spec() == old(arena).chunk_count_spec(),
        final(arena).chunk_size_spec() == old(arena).chunk_size_spec(),
        ({
            let q = level.order();
            let a = amounts_at(old(arena).slots(), q);
            &&& left == fill_left(a, rem as nat)
            &&& filled_slots(old(arena).slots(), final(arena).slots(), q, fill_amounts(a, rem as nat))
            &&& final(filled)@ == old(filled)@ + slot_ids(q.take(fill_count(a, rem as nat) as int))
            &&& left > 0 ==> fill_count(a, rem as nat) == q.len()
        }),
{
    let ghost cs = arena.chunk_size_spec() as int;
    let ghost s0 = arena.slots();
    let ghost q = level.order();
    let ghost a = amounts_at(s0, q);
    let ghost buf0 = filled@;
    proof {
        level.lemma_links_at(s0, cs, 0);
    }
    let mut remaining = rem;
    let mut cur = level.first_index();
    let ghost mut t: int = 0;
    proof {
        arena.lemma_wf();
        assert(a.take(0) =~= Seq::<nat>::empty());
        assert(q.take(0) =~= Seq::<int>::empty());
        assert(fill_amounts(a.take(0), rem as nat) =~= Seq::<nat>::empty());
        assert(slot_ids(q.take(0)) =~= Seq::<ArenaId>::empty());
        assert(buf0 + slot_ids(q.take(0)) =~= buf0);
    }
    while remaining > 0 && cur.is_some()
        invariant
            arena.wf(),
            arena.free_chunks() == old(arena).free_chunks(),
            arena.chunk_count_spec() == old(arena).chunk_count_spec(),
            arena.chunk_size_spec() == old(arena).chunk_size_spec(),
            cs == old(arena).chunk_size_spec(),
            s0 == old(arena).slots(),
            q == level.order(),
            a == amounts_at(s0, q),
            buf0 == old(filled)@,
            level.wf_in(s0, cs),
            s0.len() < crate::slot_map::NONE_VALUE,
            0 <= t <= q.len(),
            cur@ == (if t < q.len() {
                Some(q[t])
            } else {
                None::<int>
            }),
            remaining == fill_left(a.take(t), rem as nat),
            filled_slots(s0, arena.slots(), q.take(t), fill_amounts(a.take(t), rem as nat)),
            filled@ == buf0 + slot_ids(q.take(fill_count(a.take(t), rem as nat) as int)),
            remaining > 0 ==> fill_count(a.take(t), rem as nat) == t,
        decreases q.len() - t,
    {
        proof {
            level.lemma_links_at(s0, cs, t);
            lemma_fill_split(a.take(t), seq![a[t]], rem as nat);
            assert(!q.take(t).contains(q[t])) by {
                if q.take(t).contains(q[t]) {
                    let u = choose|u: int| 0 <= u < t && q.take(t)[u] == q[t];
                    assert(q[u] == q[t]);
                }
            }
            assert(arena.slots()[q[t]] == s0[q[t]]);
        }
        let idx = cur.0 as usize;
        let (_, data, _, next) = arena.get_unchecked(idx).as_occupied_unchecked();
        let amount = data.amount;
        let nxt: NonMaxU32 = *next;
        let fill = if amount < remaining {
            amount
        } else {
            remaining
        };
        let ghost s1 = arena.slots();
        let ghost l1 = remaining as nat;
        arena.set_amount(idx, amount - fill);
        remaining = remaining - fill;
        if amount - fill == 0 {
            filled.push(ArenaId { generation: 0, index: cur.0 });
        }
        proof {
            let at = a.take(t);
            let qt = q.take(t);
            assert(a.take(t + 1) =~= at.push(a[t]));
            assert(q.take(t + 1) =~= qt.push(q[t]));
            assert(a[t] == amount);
            lemma_fill_snoc(at, a[t], rem as nat);
            assert(fill == fill_take(a[t], l1));
            let fa = fill_amounts(a.take(t + 1), rem as nat);
            assert(fa == fill_amounts(at, rem as nat).push((amount - fill) as nat));
            let s2 = arena.slots();
            assert(idx == q[t]);
            assert(s2 == s1.update(q[t], with_amount(s1[q[t]], (amount - fill) as u32)));
            assert forall|u: int| 0 <= u < t + 1 implies #[trigger] s2[q.take(t + 1)[u]] == with_amount(
                s0[q.take(t + 1)[u]],
                fa[u] as u32,
            ) by {
                if u < t {
                    level.lemma_links_at(s0, cs, u);
                    assert(q.take(t + 1)[u] == qt[u]);
                    assert(qt[u] == q[u]);
                    assert(q[u] != q[t]);
                    assert(s1[qt[u]] == with_amount(s0[qt[u]], fill_amounts(at, rem as nat)[u] as u32));
                    assert(q[u] != idx);
                    assert(s2[q[u]] == s1[q[u]]);
                    assert(fa[u] == fill_amounts(at, rem as nat)[u]);
                } else {
                    assert(q.take(t + 1)[u] == q[t]);
                    assert(s1[q[t]] == s0[q[t]]);
                    assert(s2[q[t]] == with_amount(s1[q[t]], (amount - fill) as u32));
                    assert(fa[t] == (amount - fill) as nat);
                }
            }
            assert forall|j: int| 0 <= j < s0.len() && !q.take(t + 1).contains(j) implies #[trigger] s2[j]
                == s0[j] by {
                assert(j != q[t]) by {
                    if j == q[t] {
                        assert(q.take(t + 1)[t] == j);
                    }
                }
                if qt.contains(j) {
                    let u = choose|u: int| 0 <= u < t && qt[u] == j;
                    assert(q.take(t + 1)[u] == j);
                }
            }
            let c0 = fill_count(at, rem as nat);
            if amount - fill == 0 {
                assert(l1 > 0);
                assert(c0 == t);
                assert(fill_count(a.take(t + 1), rem as nat) == t + 1);
                assert(slot_ids(q.take(t + 1)) =~= slot_ids(qt).push(
                    ArenaId { generation: 0, index: q[t] as u32 },
                ));
                assert(filled@ =~= buf0 + slot_ids(q.take(t + 1)));
            } else {
                assert(fill_count(a.take(t + 1), rem as nat) == c0);
            }
            t = t + 1;
            level.lemma_links_at(s0, cs, t);
        }
        cur = nxt;
    }
    proof {
        let at = a.take(t);
        lemma_fill_split(at, a.skip(t), rem as nat);
        assert(at + a.skip(t) =~= a);
        if t < q.len() {
            assert(remaining == 0);
            lemma_fill_zero(a.skip(t));
            let fa = fill_amounts(a, rem as nat);
            assert(fa == fill_amounts(at, rem as nat) + a.skip(t));
            assert forall|u: int| 0 <= u < q.len() implies #[trigger] arena.slots()[q[u]] == with_amount(
                s0[q[u]],
                fa[u] as u32,
            ) by {
                level.lemma_links_at(s0, cs, u);
                if u < t {
                    assert(q.take(t)[u] == q[u]);
                } else {
                    assert(fa[u] == a[u]);
                    assert(!q.take(t).contains(q[u])) by {
                        if q.take(t).contains(q[u]) {
                            let v = choose|v: int| 0 <= v < t && q.take(t)[v] == q[u];
                            assert(q[v] == q[u]);
                        }
                    }
                }
            }
            assert forall|j: int| 0 <= j < s0.len() && !q.contains(j) implies #[trigger] arena.slots()[j]
                == s0[j] by {
                if q.take(t).contains(j) {
                    let v = choose|v: int| 0 <= v < t && q.take(t)[v] == j;
                    assert(q[v] == j);
                }
            }
            assert(fill_count(a, rem as nat) == fill_count(at, rem as nat));
        } else {
            assert(at =~= a);
            assert(q.take(t) =~= q);
        }
    }
    remaining
}

/// The orders of each level of `map`, as slot indices in arrival order.
pub open spec fn level_orders(map: Map<u32, ArenaSlotMap>) -> Map<u32, Seq<int>> {
    map.map_values(|l: ArenaSlotMap| l.order())
}

/// An order of the queue over keys of `map` holds a slot of the arena.
proof fn lemma_queue_occupied(
    map: Map<u32, ArenaSlotMap>,
    ks: Seq<u32>,
    slots: Seq<ArenaSlot>,
    cs: int,
    x: int,
)
    requires
        forall|i: int| 0 <= i < ks.len() ==> map.contains_key(#[trigger] ks[i]),
        forall|k: u32| #[trigger] map.contains_key(k) ==> map[k].wf_in(slots, cs),
        queue_of(level_orders(map), ks).contains(x),
    ensures
        0 <= x < slots.len(),
        slots[x] is Occupied,
{
    let levels = level_orders(map);
    lemma_queue_contains(levels, ks, x);
    let j = choose|j: int| 0 <= j < ks.len() && #[trigger] levels[ks[j]].contains(x);
    let k = ks[j];
    let t = choose|t: int| 0 <= t < levels[k].len() && levels[k][t] == x;
    map[k].lemma_links_at(slots, cs, t);
}

/// Fills the levels of `map` whose key is at most `bound`, lowest key first
/// and each oldest order first, with the incoming `amount`; the identifier of
/// each order that is filled completely is appended to `filled`.  Returns what
/// is left of `amount`.
pub fn match_side(
    map: &BTreeMap<u32, ArenaSlotMap>,
    arena: &mut ArenaSlotAllocator,
    bound: u32,
    amount: u32,
    filled: &mut Vec<ArenaId>,
) -> (left: u32)
    requires
        old(arena).wf(),
        forall|k: u32| #[trigger]
            map@.contains_key(k) ==> map@[k].wf_in(old(arena).slots(), old(arena).chunk_size_spec() as int),
        forall|k1: u32, k2: u32, i: int|
            k1 != k2 && map@.contains_key(k1) && map@.contains_key(k2) && #[trigger] map@[k1].order().contains(i)
                ==> !#[trigger] map@[k2].order().contains(i),
    ensures
        final(arena).wf(),
        final(arena).free_chunks() == old(arena).free_chunks(),
        final(arena).chunk_count_spec() == old(arena).chunk_count_spec(),
        final(arena).chunk_size_spec() == old(arena).chunk_size_spec(),
        ({
            let q = eligible_queue(level_orders(map@), bound);
            let a = amounts_at(old(arena).slots(), q);
            &&& left == fill_left(a, amount as nat)
            &&& filled_slots(old(arena).slots(), final(arena).slots(), q, fill_amounts(a, amount as nat))
            &&& final(filled)@ == old(filled)@ + slot_ids(q.take(fill_count(a, amount as nat) as int))
        }),
        forall|i: int|
            0 <= i < old(arena).slots().len() ==> same_shape(old(arena).slots()[i], #[trigger] final(arena).slots()[i]),
        forall|u: int|
            0 <= u < eligible_queue(level_orders(map@), bound).len() ==> {
                let x = #[trigger] eligible_queue(level_orders(map@), bound)[u];
                &&& 0 <= x < old(arena).slots().len()
                &&& old(arena).slots()[x] is Occupied
            },
{
    let ghost cs = arena.chunk_size_spec() as int;
    let ghost s0 = arena.slots();
    let ghost levels = level_orders(map@);
    let ghost buf0 = filled@;
    let ks = keys_upto(map, bound);
    let ghost ksq = ks@;
    proof {
        let up = levels_upto(levels, bound);
        assert forall|k: u32| up.dom().contains(k) <==> ksq.contains(k) by {
            if ksq.contains(k) {
                let i = choose|i: int| 0 <= i < ksq.len() && ksq[i] == k;
                assert(map@.contains_key(ksq[i]));
            }
        }
        lemma_sorted_keys_is(ksq, up.dom());
        assert(ksq.map_values(|k: u32| up[k]) =~= ksq.map_values(|k: u32| levels[k]));
        assert(eligible_queue(levels, bound) == queue_of(levels, ksq));
        assert(ksq.take(0) =~= Seq::<u32>::empty());
        assert(queue_of(levels, ksq.take(0)) =~= Seq::<int>::empty()) by {
            assert(ksq.take(0).map_values(|k: u32| levels[k]) =~= Seq::<Seq<int>>::empty());
        }
        let q0 = queue_of(levels, ksq.take(0));
        assert(amounts_at(s0, q0) =~= Seq::<nat>::empty());
        assert(fill_amounts(amounts_at(s0, q0), amount as nat) =~= Seq::<nat>::empty());
        assert(q0.take(0) =~= Seq::<int>::empty());
        assert(slot_ids(q0.take(0)) =~= Seq::<ArenaId>::empty());
        assert(buf0 + slot_ids(q0.take(0)) =~= buf0);
        arena.lemma_wf();
    }
    let mut remaining = amount;
    let mut m: usize = 0;
    while m < ks.len() && remaining > 0
        invariant
            arena.wf(),
            arena.free_chunks() == old(arena).free_chunks(),
            arena.chunk_count_spec() == old(arena).chunk_count_spec(),
            arena.chunk_size_spec() == old(arena).chunk_size_spec(),
            cs == old(arena).chunk_size_spec(),
            s0 == old(arena).slots(),
            buf0 == old(filled)@,
            levels == level_orders(map@),
            ksq == ks@,
            forall|i: int| 0 <= i < ksq.len() ==> map@.contains_key(#[trigger] ksq[i]),
            forall|i: int, j: int| 0 <= i < j < ksq.len() ==> ksq[i] < ksq[j],
            forall|k: u32| #[trigger]
                map@.contains_key(k) ==> map@[k].wf_in(s0, cs),
            forall|k1: u32, k2: u32, i: int|
                k1 != k2 && map@.contains_key(k1) && map@.contains_key(k2) && #[trigger] map@[k1].order().contains(i)
                    ==> !#[trigger] map@[k2].order().contains(i),
            0 <= m <= ksq.len(),
            ({
                let qm = queue_of(levels, ksq.take(m as int));
                let am = amounts_at(s0, qm);
                &&& remaining == fill_left(am, amount as nat)
                &&& filled_slots(s0, arena.slots(), qm, fill_amounts(am, amount as nat))
                &&& filled@ == buf0 + slot_ids(qm.take(fill_count(am, amount as nat) as int))
                &&& remaining > 0 ==> fill_count(am, amount as nat) == qm.len()
            }),
            forall|i: int| 0 <= i < s0.len() ==> same_shape(s0[i], #[trigger] arena.slots()[i]),
        decreases ksq.len() - m,
    {
        let key = ks[m];
        let level = map.get(&key).unwrap();
        let ghost s1 = arena.slots();
        let ghost qm = queue_of(levels, ksq.take(m as int));
        let ghost am = amounts_at(s0, qm);
        let ghost lq = level.order();
        proof {
            assert(map@.contains_key(key));
            level.lemma_shape(s0, s1, cs);
            level.lemma_links_at(s0, cs, 0);
            // The orders of this level are not on the levels before it.
            assert forall|i: int| #[trigger] lq.contains(i) implies !qm.contains(i) by {
                if qm.contains(i) {
                    lemma_queue_contains(levels, ksq.take(m as int), i);
                    let j = choose|j: int| 0 <= j < m && #[trigger] levels[ksq.take(m as int)[j]].contains(i);
                    assert(ksq.take(m as int)[j] == ksq[j]);
                    assert(ksq[j] < ksq[m as int]);
                    assert(map@[ksq[j]].order().contains(i));
                }
            }
            assert forall|u: int| 0 <= u < lq.len() implies #[trigger] s1[lq[u]] == s0[lq[u]] by {
                assert(lq.contains(lq[u]));
                level.lemma_links_at(s0, cs, u);
            }
            assert(amounts_at(s1, lq) =~= amounts_at(s0, lq));
        }
        let ghost l1 = remaining as nat;
        remaining = fill_level(arena, level, remaining, filled);
        proof {
            let s2 = arena.slots();
            let al = amounts_at(s0, lq);
            let qm1 = queue_of(levels, ksq.take(m + 1));
            assert(ksq.take(m + 1) =~= ksq.take(m as int).push(key));
            lemma_queue_snoc(levels, ksq.take(m as int), key);
            assert(levels[key] == lq);
            assert(qm1 == qm + lq);
            assert(amounts_at(s0, qm1) =~= am + al);
            lemma_fill_split(am, al, amount as nat);
            let fam = fill_amounts(am, amount as nat);
            let fal = fill_amounts(al, l1);
            let fa1 = fill_amounts(am + al, amount as nat);
            assert(fa1 == fam + fal);
            assert(fam.len() == qm.len());
            lemma_fill_split(al, Seq::<nat>::empty(), l1);
            assert forall|u: int| 0 <= u < qm1.len() implies #[trigger] s2[qm1[u]] == with_amount(
                s0[qm1[u]],
                fa1[u] as u32,
            ) by {
                if u < qm.len() {
                    assert(qm1[u] == qm[u]);
                    assert(qm.contains(qm[u]));
                    lemma_queue_occupied(map@, ksq.take(m as int), s0, cs, qm[u]);
                    assert(!lq.contains(qm[u]));
                    assert(s1[qm[u]] == with_amount(s0[qm[u]], fam[u] as u32));
                    assert(fa1[u] == fam[u]);
                } else {
                    let v = u - qm.len();
                    assert(qm1[u] == lq[v]);
                    assert(lq.contains(lq[v]));
                    assert(s1[lq[v]] == s0[lq[v]]);
                    assert(fa1[u] == fal[v]);
                }
            }
            assert forall|j: int| 0 <= j < s0.len() && !qm1.contains(j) implies #[trigger] s2[j] == s0[j] by {
                if qm.contains(j) {
                    let u = choose|u: int| 0 <= u < qm.len() && qm[u] == j;
                    assert(qm1[u] == j);
                }
                if lq.contains(j) {
                    let v = choose|v: int| 0 <= v < lq.len() && lq[v] == j;
                    assert(qm1[qm.len() + v] == j);
                }
            }
            assert forall|i: int| 0 <= i < s0.len() implies same_shape(s0[i], #[trigger] s2[i]) by {
                if lq.contains(i) {
                    let v = choose|v: int| 0 <= v < lq.len() && lq[v] == i;
                    level.lemma_links_at(s0, cs, v);
                    assert(s2[lq[v]] == with_amount(s1[lq[v]], fal[v] as u32));
                    assert(s1[lq[v]] == s0[lq[v]]);
                } else {
                    assert(s2[i] == s1[i]);
                }
            }
            // What was filled so far.
            let c0 = fill_count(am, amount as nat);
            assert(c0 == qm.len());
            let cl = fill_count(al, l1);
            assert(fill_count(am + al, amount as nat) == qm.len() + cl);
            assert(qm1.take((qm.len() + cl) as int) =~= qm + lq.take(cl as int));
            assert(qm.take(c0 as int) =~= qm);
            assert(slot_ids(qm + lq.take(cl as int)) =~= slot_ids(qm) + slot_ids(lq.take(cl as int)));
            assert(filled@ =~= buf0 + slot_ids(qm1.take(fill_count(am + al, amount as nat) as int)));
        }
        m = m + 1;
    }
    proof {
        let q = queue_of(levels, ksq);
        let qm = queue_of(levels, ksq.take(m as int));
        let am = amounts_at(s0, qm);
        if m < ksq.len() {
            assert(remaining == 0);
            let qr = queue_of(levels, ksq.skip(m as int));
            lemma_queue_take(levels, ksq, m as int);
            let ar = amounts_at(s0, qr);
            assert(amounts_at(s0, q) =~= am + ar);
            lemma_fill_split(am, ar, amount as nat);
            lemma_fill_zero(ar);
            let fa = fill_amounts(am + ar, amount as nat);
            assert forall|u: int| 0 <= u < q.len() implies #[trigger] arena.slots()[q[u]] == with_amount(
                s0[q[u]],
                fa[u] as u32,
            ) by {
                if u < qm.len() {
                    assert(q[u] == qm[u]);
                    assert(qm.contains(qm[u]));
                    lemma_queue_occupied(map@, ksq.take(m as int), s0, cs, qm[u]);
                } else {
                    let v = u - qm.len();
                    let x = qr[v];
                    assert(q[u] == x);
                    assert(fa[u] == ar[v]);
                    assert(qr.contains(x));
                    lemma_queue_contains(levels, ksq.skip(m as int), x);
                    let j = choose|j: int| 0 <= j < ksq.len() - m && #[trigger] levels[ksq.skip(m as int)[j]].contains(x);
                    let k = ksq[m + j];
                    assert(ksq.skip(m as int)[j] == k);
                    let t = choose|t: int| 0 <= t < levels[k].len() && levels[k][t] == x;
                    map@[k].lemma_links_at(s0, cs, t);
                    assert(!qm.contains(x)) by {
                        if qm.contains(x) {
                            lemma_queue_contains(levels, ksq.take(m as int), x);
                            let j2 = choose|j2: int| 0 <= j2 < m && #[trigger] levels[ksq.take(m as int)[j2]].contains(x);
                            assert(ksq.take(m as int)[j2] == ksq[j2]);
                            assert(ksq[j2] < ksq[m + j]);
                            assert(map@[ksq[j2]].order().contains(x));
                            assert(map@[k].order().contains(x));
                        }
                    }
                    assert(arena.slots()[x] == s0[x]);
                    assert(s0[x] is Occupied);
                }
            }
            assert forall|j: int| 0 <= j < s0.len() && !q.contains(j) implies #[trigger] arena.slots()[j] == s0[j] by {
                if qm.contains(j) {
                    let u = choose|u: int| 0 <= u < qm.len() && qm[u] == j;
                    assert(q[u] == j);
                }
            }
            let c0 = fill_count(am, amount as nat);
            assert(fill_count(am + ar, amount as nat) == c0);
            assert(q.take(c0 as int) =~= qm.take(c0 as int));
        } else {
            assert(ksq.take(m as int) =~= ksq);
        }
        assert forall|u: int| 0 <= u < q.len() implies {
            let x = #[trigger] q[u];
            &&& 0 <= x < s0.len()
            &&& s0[x] is Occupied
        } by {
            assert(q.contains(q[u]));
            lemma_queue_occupied(map@, ksq, s0, cs, q[u]);
        }
    }
    remaining
}

/// The sum of the amounts of the orders of `level`, which must fit in a `u32`.
pub fn level_volume(arena: &ArenaSlotAllocator, level: &ArenaSlotMap) -> (volume: u32)
    requires
        arena.wf(),
        level.wf_in(arena.slots(), arena.chunk_size_spec() as int),
        total(amounts_at(arena.slots(), level.order())) <= u32::MAX,
    ensures
        volume == total(amounts_at(arena.slots(), level.order())),
{
    let ghost cs = arena.chunk_size_spec() as int;
    let ghost q = level.order();
    let ghost a = amounts_at(arena.slots(), q);
    proof {
        level.lemma_links_at(arena.slots(), cs, 0);
        arena.lemma_wf();
        assert(a.take(0) =~= Seq::<nat>::empty());
    }
    let mut volume: u32 = 0;
    let mut cur = level.first_index();
    let ghost mut t: int = 0;
    while cur.is_some()
        invariant
            arena.wf(),
            cs == arena.chunk_size_spec(),
            q == level.order(),
            a == amounts_at(arena.slots(), q),
            level.wf_in(arena.slots(), cs),
            arena.slots().len() < crate::slot_map::NONE_VALUE,
            total(a) <= u32::MAX,
            0 <= t <= q.len(),
            cur@ == (if t < q.len() {
                Some(q[t])
            } else {
                None::<int>
            }),
            volume == total(a.take(t)),
        decreases q.len() - t,
    {
        proof {
            level.lemma_links_at(arena.slots(), cs, t);
            lemma_total_prefix(a, t + 1);
            assert(a.take(t + 1).drop_last() =~= a.take(t));
        }
        let (_, data, _, next) = arena.get_unchecked(cur.0 as usize).as_occupied_unchecked();
        volume = volume + data.amount;
        cur = *next;
        proof {
            t = t + 1;
        }
    }
    proof {
        assert(a.take(t) =~= a);
    }
    volume
}

} // verus!
