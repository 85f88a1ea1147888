//! Properties that every limit order carried out by the arena based matcher
//! keeps: the book stays uncrossed, and every resting order and level holds a
//! positive amount.
use vstd::prelude::*;

use crate::final_ver::arena_slot_allocator::ArenaId;
use crate::final_ver::order_book::{level_key, LimitOrder, OrderBook};
use crate::final_ver::order_matcher::{cancel_processed, filled_count, left_over, limit_processed, reach, reach_amounts};
use crate::laws::{
    law_fill_conserves, law_fill_left_means_all_filled, law_fill_takes_min, lemma_fill_keeps_positive,
    lemma_level_in_queue,
};
use crate::matching::{
    lemma_drop_queue_keys, lemma_eligible_prefix, lemma_queue_contains, lemma_side_queue_no_dups,
    lemma_sorted_keys_exist, fill_amounts, fill_count, fill_take, side_queue, sorted_keys, total,
};
use crate::OrderSide;

verus! {

/// No bid rests at a price as high as a resting ask.
pub open spec fn uncrossed(b: OrderBook) -> bool {
    forall|pb: u32, pa: u32|
        #[trigger] b.levels(OrderSide::Bid).contains_key(level_key(OrderSide::Bid, pb))
            && #[trigger] b.levels(OrderSide::Ask).contains_key(level_key(OrderSide::Ask, pa)) ==> pb < pa
}

/// Every resting order of the book has a positive amount.
pub open spec fn amounts_positive(b: OrderBook) -> bool {
    forall|i: int| #[trigger] b.order_at(i) is Some ==> b.order_at(i)->0.amount > 0
}

/// Every order that `o` reaches rests in `b0`.
proof fn lemma_reach_rests(b0: OrderBook, o: LimitOrder)
    requires
        b0.wf(),
    ensures
        forall|t: int| 0 <= t < reach(b0, o).len() ==> b0.order_at(#[trigger] reach(b0, o)[t]) is Some,
        reach(b0, o) == side_queue(b0.levels(o.side.opposite())).take(reach(b0, o).len() as int),
{
    let other = o.side.opposite();
    let l0 = b0.levels(other);
    let q = reach(b0, o);
    b0.lemma_levels_facts(other);
    lemma_eligible_prefix(l0, level_key(other, o.limit));
    assert forall|t: int| 0 <= t < q.len() implies b0.order_at(#[trigger] q[t]) is Some by {
        let s0 = side_queue(l0);
        assert(q[t] == s0[t]);
        assert(s0.contains(q[t]));
        let ks = sorted_keys(l0.dom());
        lemma_sorted_keys_exist(l0.dom());
        lemma_queue_contains(l0, ks, q[t]);
        let j = choose|j: int| 0 <= j < ks.len() && #[trigger] l0[ks[j]].contains(q[t]);
        assert(ks.contains(ks[j]));
        let u = choose|u: int| 0 <= u < l0[ks[j]].len() && l0[ks[j]][u] == q[t];
        assert(l0[ks[j]][u] == q[t]);
    }
}

/// After a limit order has left something resting, no order of the other
/// side rests at a price its limit accepts.
proof fn lemma_rest_not_crossed(b0: OrderBook, o: LimitOrder, id: ArenaId, b1: OrderBook)
    requires
        b0.wf(),
        b1.wf(),
        limit_processed(b0, o, Some(id), b1),
    ensures
        forall|k: u32| #[trigger] b1.levels(o.side.opposite()).contains_key(k) ==> k > level_key(
            o.side.opposite(),
            o.limit,
        ),
{
    let other = o.side.opposite();
    let bound = level_key(other, o.limit);
    let l0 = b0.levels(other);
    let l1 = b1.levels(other);
    let s0 = side_queue(l0);
    let q = reach(b0, o);
    let a = reach_amounts(b0, o);
    let n = filled_count(b0, o);
    law_fill_left_means_all_filled(a, o.amount as nat);
    assert(n == q.len());
    b0.lemma_levels_facts(other);
    b1.lemma_levels_facts(other);
    lemma_eligible_prefix(l0, bound);
    lemma_side_queue_no_dups(l0);
    assert forall|k: u32| #[trigger] l1.contains_key(k) implies k > bound by {
        if k <= bound {
            let x = l1[k][0];
            lemma_level_in_queue(l1, k, 0);
            let m = choose|m: int| 0 <= m < side_queue(l1).len() && side_queue(l1)[m] == x;
            assert(s0[n + m] == x);
            assert(!q.contains(x)) by {
                if q.contains(x) {
                    let u = choose|u: int| 0 <= u < q.len() && q[u] == x;
                    assert(s0[u] == q[u]);
                    assert(u != n + m);
                }
            }
            assert(b1.order_at(x)->0.side == other);
            assert(x != id.index);
            assert(b1.order_at(x) == b0.order_at(x));
            assert(s0.contains(x));
            let ks = sorted_keys(l0.dom());
            lemma_sorted_keys_exist(l0.dom());
            lemma_queue_contains(l0, ks, x);
            let j = choose|j: int| 0 <= j < ks.len() && #[trigger] l0[ks[j]].contains(x);
            let k0 = ks[j];
            assert(ks.contains(k0));
            let t0 = choose|t0: int| 0 <= t0 < l0[k0].len() && l0[k0][t0] == x;
            assert(l0[k0][t0] == x);
            assert(l1[k][0] == x);
            assert(k0 == k);
            let up = crate::matching::levels_upto(l0, bound);
            assert(up.contains_key(k0));
            assert(up[k0] == l0[k0]);
            assert(up.dom().subset_of(l0.dom()));
            vstd::set_lib::lemma_len_subset(up.dom(), l0.dom());
            lemma_level_in_queue(up, k0, t0);
        }
    }
}

/// Carrying out a limit order keeps the book uncrossed: the other side only
/// loses orders, and what is left of the order rests at a price that no
/// order left on the other side accepts.
pub proof fn law_process_keeps_uncrossed(b0: OrderBook, o: LimitOrder, r: Option<ArenaId>, b1: OrderBook)
    requires
        b0.wf(),
        b1.wf(),
        uncrossed(b0),
        limit_processed(b0, o, r, b1),
    ensures
        uncrossed(b1),
{
    let other = o.side.opposite();
    b0.lemma_levels_facts(other);
    lemma_drop_queue_keys(b0.levels(other), filled_count(b0, o));
    if let Some(id) = r {
        lemma_rest_not_crossed(b0, o, id, b1);
    }
    assert forall|pb: u32, pa: u32|
        #[trigger] b1.levels(OrderSide::Bid).contains_key(level_key(OrderSide::Bid, pb))
            && #[trigger] b1.levels(OrderSide::Ask).contains_key(level_key(OrderSide::Ask, pa)) implies pb < pa by {
        let kb = level_key(OrderSide::Bid, pb);
        let ka = level_key(OrderSide::Ask, pa);
        if r is Some && o.side == OrderSide::Bid && kb == level_key(OrderSide::Bid, o.limit) {
            assert(ka > level_key(OrderSide::Ask, o.limit));
        } else if r is Some && o.side == OrderSide::Ask && ka == level_key(OrderSide::Ask, o.limit) {
            assert(kb > level_key(OrderSide::Bid, o.limit));
        } else {
            assert(b0.levels(OrderSide::Bid).contains_key(kb));
            assert(b0.levels(OrderSide::Ask).contains_key(ka));
        }
    }
}

/// Carrying out a limit order keeps every resting amount positive: a partly
/// filled order keeps what is left of it, and only a positive remainder rests.
pub proof fn law_process_keeps_amounts_positive(b0: OrderBook, o: LimitOrder, r: Option<ArenaId>, b1: OrderBook)
    requires
        b0.wf(),
        amounts_positive(b0),
        limit_processed(b0, o, r, b1),
    ensures
        amounts_positive(b1),
{
    let q = reach(b0, o);
    let a = reach_amounts(b0, o);
    let n = filled_count(b0, o);
    let kept = fill_amounts(a, o.amount as nat);
    lemma_reach_rests(b0, o);
    assert forall|t: int| 0 <= t < a.len() implies #[trigger] a[t] > 0 by {
        assert(b0.order_at(q[t]) is Some);
    }
    lemma_fill_keeps_positive(a, o.amount as nat);
    law_fill_conserves(a, o.amount as nat);
    assert forall|j: int| #[trigger] b1.order_at(j) is Some implies b1.order_at(j)->0.amount > 0 by {
        if r matches Some(id) && j == id.index {
        } else if q.contains(j) {
            let t = choose|t: int| 0 <= t < q.len() && q[t] == j;
            if t < n {
                assert(b1.order_at(q[t]) is None);
            } else {
                assert(b1.order_at(q[t]) is Some);
                assert(kept[t] <= a[t]);
                assert(a[t] == b0.order_at(q[t])->0.amount);
            }
        } else {
            assert(b1.order_at(j) == b0.order_at(j));
        }
    }
}

/// In a well formed book whose resting amounts are positive, every level of
/// either side holds a positive volume; so does the best level of each side.
pub proof fn law_levels_have_volume(b: OrderBook, side: OrderSide, price: u32)
    requires
        b.wf(),
        amounts_positive(b),
        b.levels(side).contains_key(level_key(side, price)),
    ensures
        b.volume(side, price) > 0,
{
    let k = level_key(side, price);
    b.lemma_levels_facts(side);
    let lv = b.levels(side)[k];
    let am = b.amounts(lv);
    let last = lv.len() - 1;
    assert(b.order_at(lv[last]) is Some);
    assert(am.last() == b.order_at(lv[last])->0.amount);
}

/// Cancelling an order keeps the book uncrossed and every resting amount
/// positive: it only removes an order, and a level with it if it was the last.
pub proof fn law_cancel_keeps_book(b0: OrderBook, id: ArenaId, b1: OrderBook)
    requires
        cancel_processed(b0, id, b1),
    ensures
        uncrossed(b0) ==> uncrossed(b1),
        amounts_positive(b0) ==> amounts_positive(b1),
{
    let i = id.index as int;
    assert forall|s: OrderSide, k: u32| #[trigger] b1.levels(s).contains_key(k) implies b0.levels(s).contains_key(k) by {
        if let Some(o) = b0.order_at(i) {
            let ko = level_key(o.side, o.limit);
            let lv = b0.levels(o.side)[ko];
            let t = choose|t: int| 0 <= t < lv.len() && lv[t] == i;
            assert(lv[t] == i);
            if s != o.side {
                assert(s == o.side.opposite());
            }
        }
    }
    if uncrossed(b0) {
        assert forall|pb: u32, pa: u32|
            #[trigger] b1.levels(OrderSide::Bid).contains_key(level_key(OrderSide::Bid, pb))
                && #[trigger] b1.levels(OrderSide::Ask).contains_key(level_key(OrderSide::Ask, pa)) implies pb < pa by {
            assert(b0.levels(OrderSide::Bid).contains_key(level_key(OrderSide::Bid, pb)));
            assert(b0.levels(OrderSide::Ask).contains_key(level_key(OrderSide::Ask, pa)));
        }
    }
    if amounts_positive(b0) {
        assert forall|j: int| #[trigger] b1.order_at(j) is Some implies b1.order_at(j)->0.amount > 0 by {
            if j != i {
                assert(b1.order_at(j) == b0.order_at(j));
            }
        }
    }
}

/// The sum of two sequences one after the other.
pub proof fn lemma_total_append(x: Seq<nat>, y: Seq<nat>)
    ensures
        total(x + y) == total(x) + total(y),
    decreases y.len(),
{
    if y.len() == 0 {
        assert(x + y =~= x);
    } else {
        lemma_total_append(x, y.drop_last());
        assert((x + y).drop_last() =~= x + y.drop_last());
        assert((x + y).last() == y.last());
    }
}

/// A sequence of zeros sums to zero.
pub proof fn lemma_total_zero(s: Seq<nat>)
    requires
        forall|t: int| 0 <= t < s.len() ==> #[trigger] s[t] == 0,
    ensures
        total(s) == 0,
    decreases s.len(),
{
    if s.len() > 0 {
        lemma_total_zero(s.drop_last());
    }
}

/// Filling keeps the length of the queue, leaves no order more than it had,
/// and empties the orders it fills completely.
pub proof fn lemma_fill_amounts_shape(a: Seq<nat>, r: nat)
    ensures
        fill_amounts(a, r).len() == a.len(),
        fill_count(a, r) <= a.len(),
        forall|t: int| 0 <= t < a.len() ==> #[trigger] fill_amounts(a, r)[t] <= a[t],
        forall|t: int| 0 <= t < fill_count(a, r) ==> #[trigger] fill_amounts(a, r)[t] == 0,
    decreases a.len(),
{
    if a.len() > 0 {
        let f = fill_take(a[0], r);
        let rest = a.drop_first();
        lemma_fill_amounts_shape(rest, (r - f) as nat);
        let fa = fill_amounts(a, r);
        assert(fa == seq![(a[0] - f) as nat] + fill_amounts(rest, (r - f) as nat));
        assert forall|t: int| 0 <= t < a.len() implies #[trigger] fa[t] <= a[t] by {
            if t > 0 {
                assert(fa[t] == fill_amounts(rest, (r - f) as nat)[t - 1]);
                assert(rest[t - 1] == a[t]);
            }
        }
        assert forall|t: int| 0 <= t < fill_count(a, r) implies #[trigger] fa[t] == 0 by {
            if t > 0 {
                assert(fa[t] == fill_amounts(rest, (r - f) as nat)[t - 1]);
            }
        }
    } else {
        assert(fill_amounts(a, r) =~= Seq::<nat>::empty());
    }
}

/// The total amount resting on one side of the book.
pub open spec fn side_volume(b: OrderBook, side: OrderSide) -> nat {
    total(b.amounts(side_queue(b.levels(side))))
}

/// A limit order takes from the other side of the book exactly as much as it
/// asks for or as the orders it reaches offer, whichever is less; that is also
/// what it loses of its own amount.
pub proof fn law_process_takes_min_from_other_side(b0: OrderBook, o: LimitOrder, r: Option<ArenaId>, b1: OrderBook)
    requires
        b0.wf(),
        b1.wf(),
        limit_processed(b0, o, r, b1),
    ensures
        ({
            let c = total(reach_amounts(b0, o));
            let f = if o.amount <= c { o.amount as int } else { c as int };
            &&& o.amount - left_over(b0, o) == f
            &&& side_volume(b1, o.side.opposite()) == side_volume(b0, o.side.opposite()) - f
        }),
{
    let other = o.side.opposite();
    let l0 = b0.levels(other);
    let l1 = b1.levels(other);
    let s0 = side_queue(l0);
    let s1 = side_queue(l1);
    let q = reach(b0, o);
    let qn = q.len() as int;
    let a = reach_amounts(b0, o);
    let n = filled_count(b0, o) as int;
    let kept = fill_amounts(a, o.amount as nat);
    let a0 = b0.amounts(s0);
    let a1 = b1.amounts(s1);
    lemma_reach_rests(b0, o);
    b0.lemma_levels_facts(other);
    lemma_side_queue_no_dups(l0);
    lemma_fill_amounts_shape(a, o.amount as nat);
    law_fill_conserves(a, o.amount as nat);
    law_fill_takes_min(a, o.amount as nat);
    lemma_eligible_prefix(l0, level_key(other, o.limit));
    assert(qn <= s0.len());
    assert(a =~= a0.take(qn));
    assert(a0 =~= a0.take(qn) + a0.skip(qn));
    lemma_total_append(a0.take(qn), a0.skip(qn));
    assert(kept =~= kept.take(n) + kept.skip(n));
    lemma_total_append(kept.take(n), kept.skip(n));
    assert forall|t: int| 0 <= t < kept.take(n).len() implies #[trigger] kept.take(n)[t] == 0 by {
        assert(kept[t] == 0);
    }
    lemma_total_zero(kept.take(n));
    assert forall|u: int| 0 <= u < a1.len() implies #[trigger] a1[u] == (kept.skip(n) + a0.skip(qn))[u] by {
        assert(s1[u] == s0[n + u]);
        if n + u < qn {
            assert(q[n + u] == s0[n + u]);
            assert(b1.order_at(q[n + u]) == Some(
                LimitOrder { limit: b0.order_at(q[n + u])->0.limit, amount: kept[n + u] as u32, side: other },
            ));
            assert(kept[n + u] <= a[n + u]);
        } else {
            let x = s0[n + u];
            assert(!q.contains(x)) by {
                if q.contains(x) {
                    let v = choose|v: int| 0 <= v < q.len() && q[v] == x;
                    assert(s0[v] == q[v]);
                }
            }
            if let Some(id) = r {
                if x == id.index {
                    assert(s0.contains(x));
                    let ks = sorted_keys(l0.dom());
                    lemma_sorted_keys_exist(l0.dom());
                    lemma_queue_contains(l0, ks, x);
                    let j = choose|j: int| 0 <= j < ks.len() && #[trigger] l0[ks[j]].contains(x);
                    assert(ks.contains(ks[j]));
                    let w = choose|w: int| 0 <= w < l0[ks[j]].len() && l0[ks[j]][w] == x;
                    assert(l0[ks[j]][w] == x);
                    assert(b0.order_at(x) is Some);
                    let t = choose|t: int| 0 <= t < n && q[t] == id.index;
                    assert(q.contains(x));
                }
            }
            assert(b1.order_at(x) == b0.order_at(x));
        }
    }
    assert(a1 =~= kept.skip(n) + a0.skip(qn));
    lemma_total_append(kept.skip(n), a0.skip(qn));
}

} // verus!
