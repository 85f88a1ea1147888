//! Properties that hold across the operations of the books, the matchers
//! and the slot maps.
use vstd::prelude::*;

use crate::book_match::{book_cancelled, book_placed};
use crate::matching::{
    LevelKey,
    fill_amounts, fill_count, fill_left, fill_take, flatten, lemma_eligible_prefix, lemma_flatten_split,
    lemma_queue_contains, lemma_side_queue_no_dups, lemma_sorted_keys_exist, levels_upto, side_queue,
    sorted_keys, total,
};
use crate::slot_map::{slot_values, SlotMap};
use crate::{
    book_amounts, book_key, book_left, book_reach, book_swept, book_volume, LimitOrderRequest, OrderBookExt,
    OrderSide,
};

verus! {

/// The sum of a sequence with one more amount in front.
pub proof fn lemma_total_prepend(x: nat, s: Seq<nat>)
    ensures
        total(seq![x] + s) == x + total(s),
    decreases s.len(),
{
    if s.len() == 0 {
        assert(seq![x] + s =~= seq![x]);
        assert(seq![x].drop_last() =~= Seq::<nat>::empty());
        reveal_with_fuel(total, 2);
    } else {
        lemma_total_prepend(x, s.drop_last());
        assert((seq![x] + s).drop_last() =~= seq![x] + s.drop_last());
        assert((seq![x] + s).last() == s.last());
    }
}

/// Matching moves amounts and creates none: what the incoming order loses
/// is exactly what the orders it reaches lose together.
pub proof fn law_fill_conserves(amounts: Seq<nat>, rem: nat)
    ensures
        fill_left(amounts, rem) <= rem,
        total(fill_amounts(amounts, rem)) <= total(amounts),
        rem - fill_left(amounts, rem) == total(amounts) - total(fill_amounts(amounts, rem)),
    decreases amounts.len(),
{
    if amounts.len() > 0 {
        let x = amounts[0];
        let f = fill_take(x, rem);
        let rest = amounts.drop_first();
        law_fill_conserves(rest, (rem - f) as nat);
        assert(amounts =~= seq![x] + rest);
        lemma_total_prepend(x, rest);
        lemma_total_prepend((x - f) as nat, fill_amounts(rest, (rem - f) as nat));
    } else {
        assert(fill_amounts(amounts, rem) =~= Seq::<nat>::empty());
    }
}

/// An incoming order takes as much as it asks for or as much as the orders
/// it reaches offer together, whichever is less.
pub proof fn law_fill_takes_min(amounts: Seq<nat>, rem: nat)
    ensures
        rem - fill_left(amounts, rem) == (if rem <= total(amounts) {
            rem as int
        } else {
            total(amounts) as int
        }),
    decreases amounts.len(),
{
    if amounts.len() > 0 {
        let x = amounts[0];
        let f = fill_take(x, rem);
        let rest = amounts.drop_first();
        law_fill_takes_min(rest, (rem - f) as nat);
        assert(amounts =~= seq![x] + rest);
        lemma_total_prepend(x, rest);
        if x > rem {
            law_fill_conserves(rest, 0);
        }
    }
}

/// An incoming order with something left after matching has filled every
/// order it reached completely.
pub proof fn law_fill_left_means_all_filled(amounts: Seq<nat>, rem: nat)
    ensures
        fill_left(amounts, rem) > 0 ==> fill_count(amounts, rem) == amounts.len(),
        fill_count(amounts, rem) <= amounts.len(),
    decreases amounts.len(),
{
    if amounts.len() > 0 {
        let x = amounts[0];
        let f = fill_take(x, rem);
        law_fill_left_means_all_filled(amounts.drop_first(), (rem - f) as nat);
        if fill_left(amounts, rem) > 0 {
            if x > rem {
                law_fill_conserves(amounts.drop_first(), 0);
            }
        }
    }
}

/// Placing an order and then cancelling it gives back the book it was
/// placed in: the same levels on both sides and the same resting orders.
pub proof fn law_place_then_cancel<B: OrderBookExt>(b0: B, b1: B, b2: B, request: LimitOrderRequest, i: int)
    requires
        b0.wf(),
        book_placed(b0, request, i, b1),
        book_cancelled(b1, i, b2),
    ensures
        b2.levels(OrderSide::Bid) == b0.levels(OrderSide::Bid),
        b2.levels(OrderSide::Ask) == b0.levels(OrderSide::Ask),
        forall|j: int| #[trigger] b2.order_at(j) == b0.order_at(j),
        b2.order_count() == b0.order_count(),
{
    let side = request.side;
    let k = book_key(side, request.limit);
    b0.lemma_levels_facts(side);
    b1.lemma_levels_facts(side);
    let lv0 = if b0.levels(side).contains_key(k) {
        b0.levels(side)[k]
    } else {
        Seq::<int>::empty()
    };
    let lv1 = b1.levels(side)[k];
    assert(lv1 == lv0.push(i));
    let t = lv0.len() as int;
    assert(lv1[t] == i);
    assert(lv1.remove(t) =~= lv0);
    assert(b2.levels(side) == (if lv1.len() == 1 {
        b1.levels(side).remove(k)
    } else {
        b1.levels(side).insert(k, lv1.remove(t))
    }));
    if lv1.len() == 1 {
        assert(!b0.levels(side).contains_key(k));
        assert(b2.levels(side) =~= b0.levels(side));
    } else {
        assert(b0.levels(side).contains_key(k));
        assert(b2.levels(side) =~= b0.levels(side));
    }
    assert(b2.levels(side.opposite()) == b0.levels(side.opposite()));
    if side == OrderSide::Bid {
        assert(side.opposite() == OrderSide::Ask);
    } else {
        assert(side.opposite() == OrderSide::Bid);
    }
    assert forall|j: int| #[trigger] b2.order_at(j) == b0.order_at(j) by {
        if j != i {
            assert(b1.order_at(j) == b0.order_at(j));
        }
    }
}

/// Placing an order adds its amount to the volume resting at its side and
/// price.
pub proof fn law_place_adds_volume<B: OrderBookExt>(b0: B, b1: B, request: LimitOrderRequest, i: int)
    requires
        b0.wf(),
        book_placed(b0, request, i, b1),
    ensures
        book_volume(b1, request.side, request.limit) == book_volume(b0, request.side, request.limit)
            + request.amount,
{
    let side = request.side;
    let k = book_key(side, request.limit);
    b0.lemma_levels_facts(side);
    let lv0 = if b0.levels(side).contains_key(k) {
        b0.levels(side)[k]
    } else {
        Seq::<int>::empty()
    };
    let lv1 = lv0.push(i);
    assert(b1.levels(side)[k] == lv1);
    assert forall|t: int| 0 <= t < lv0.len() implies #[trigger] b1.order_at(lv0[t]) == b0.order_at(lv0[t]) by {
        assert(b0.order_at(lv0[t]) is Some);
    }
    let am1 = book_amounts(b1, lv1);
    assert(am1 =~= book_amounts(b0, lv0).push(request.amount as nat));
    assert(am1.drop_last() =~= book_amounts(b0, lv0));
    assert(total(am1) == total(am1.drop_last()) + am1.last());
    if !b0.levels(side).contains_key(k) {
        assert(book_amounts(b0, lv0) =~= Seq::<nat>::empty());
        assert(total(book_amounts(b0, lv0)) == 0);
    }
}

/// Every order of every level is on the queue of the side.
pub proof fn lemma_level_in_queue<K: LevelKey>(levels: Map<K, Seq<int>>, k: K, t: int)
    requires
        levels.dom().finite(),
        levels.contains_key(k),
        0 <= t < levels[k].len(),
    ensures
        side_queue(levels).contains(levels[k][t]),
{
    let ks = sorted_keys(levels.dom());
    lemma_sorted_keys_exist(levels.dom());
    assert(ks.contains(k));
    let j = choose|j: int| 0 <= j < ks.len() && ks[j] == k;
    let m = ks.map_values(|x: K| levels[x]);
    lemma_flatten_split(m, j);
    let pre = flatten(m.take(j));
    assert(m[j] == levels[k]);
    assert(side_queue(levels)[pre.len() + t] == levels[k][t]);
}

/// An incoming order that keeps something after matching leaves no order
/// of the other side at a price its limit accepts: every level left on the
/// other side lies beyond its limit.
pub proof fn law_rest_not_crossed<B: OrderBookExt>(b0: B, o: LimitOrderRequest, b1: B)
    requires
        b0.wf(),
        book_swept(b0, o, b1),
        book_left(b0, o) > 0,
    ensures
        forall|k: u64| #[trigger] b1.levels(o.side.opposite()).contains_key(k) ==> k > book_key(o.side.opposite(), o.limit),
{
    let other = o.side.opposite();
    let bound = book_key(other, o.limit);
    let l0 = b0.levels(other);
    let l1 = b1.levels(other);
    let s0 = side_queue(l0);
    let q = book_reach(b0, o);
    let a = book_amounts(b0, q);
    let n = fill_count(a, o.amount as nat);
    law_fill_left_means_all_filled(a, o.amount as nat);
    assert(n == q.len());
    b0.lemma_levels_facts(other);
    b1.lemma_levels_facts(other);
    lemma_eligible_prefix(l0, bound);
    lemma_side_queue_no_dups(l0);
    let up = levels_upto(l0, bound);
    assert(up.dom().subset_of(l0.dom()));
    vstd::set_lib::lemma_len_subset(up.dom(), l0.dom());
    assert forall|k: u64| #[trigger] l1.contains_key(k) implies k > bound by {
        if k <= bound {
            let x = l1[k][0];
            lemma_level_in_queue(l1, k, 0);
            assert(side_queue(l1) == s0.skip(n as int));
            let m = choose|m: int| 0 <= m < side_queue(l1).len() && side_queue(l1)[m] == x;
            assert(s0[n + m] == x);
            assert(!q.contains(x)) by {
                if q.contains(x) {
                    let u = choose|u: int| 0 <= u < q.len() && q[u] == x;
                    assert(s0[u] == q[u]);
                    assert(u != n + m);
                }
            }
            assert(b1.order_at(x) == b0.order_at(x));
            assert(s0.contains(x));
            let ks = sorted_keys(l0.dom());
            lemma_sorted_keys_exist(l0.dom());
            lemma_queue_contains(l0, ks, x);
            let j = choose|j: int| 0 <= j < ks.len() && #[trigger] l0[ks[j]].contains(x);
            let k0 = ks[j];
            assert(ks.contains(k0));
            let t0 = choose|t0: int| 0 <= t0 < l0[k0].len() && l0[k0][t0] == x;
            assert(l0[k0][t0] == x);
            assert(l1[k][0] == x);
            assert(k0 == k);
            assert(up.contains_key(k0));
            assert(up[k0] == l0[k0]);
            lemma_level_in_queue(up, k0, t0);
        }
    }
}

/// Inserting into a slot map appends the inserted value to what iteration
/// yields; everything yielded before is yielded as before.
pub proof fn law_insert_appends_to_iteration<S: SlotMap>(s0: S, s1: S, id: S::Id, data: S::Data)
    requires
        s0.wf(),
        S::index_of(id) == (if s0.free_list().len() > 0 {
            s0.free_list()[0]
        } else {
            s0.total_spec() as int
        }),
        s1.order() == s0.order().push(S::index_of(id)),
        s1.data_at(S::index_of(id)) == Some(data),
        forall|j: int| j != S::index_of(id) ==> s1.data_at(j) == s0.data_at(j),
    ensures
        slot_values(&s1) == slot_values(&s0).push(data),
{
    s0.lemma_model();
    let i = S::index_of(id);
    assert(s0.data_at(i) is None);
    assert(!s0.order().contains(i));
    assert forall|t: int| 0 <= t < s0.order().len() implies s1.data_at(s0.order()[t]) == s0.data_at(
        s0.order()[t],
    ) by {
        assert(s0.order().contains(s0.order()[t]));
    }
    assert(slot_values(&s1) =~= slot_values(&s0).push(data));
}

/// Removing the value at position `k` of the insertion order removes exactly
/// that value from what iteration yields; the others keep their order.
pub proof fn law_remove_drops_from_iteration<S: SlotMap>(s0: S, s1: S, id: S::Id, k: int)
    requires
        s0.wf(),
        0 <= k < s0.order().len(),
        s0.order()[k] == S::index_of(id),
        s1.order() == s0.order().remove(k),
        forall|j: int| j != S::index_of(id) ==> s1.data_at(j) == s0.data_at(j),
    ensures
        slot_values(&s1) == slot_values(&s0).remove(k),
{
    s0.lemma_model();
    let o = s0.order();
    assert forall|t: int| 0 <= t < o.len() && t != k implies s1.data_at(o[t]) == s0.data_at(o[t]) by {
        assert(o[t] != o[k]);
    }
    assert forall|t: int| 0 <= t < s1.order().len() implies slot_values(&s1)[t] == slot_values(&s0).remove(k)[t] by {
        let t2 = if t < k { t } else { t + 1 };
        assert(s1.order()[t] == o[t2]);
    }
    assert(slot_values(&s1) =~= slot_values(&s0).remove(k));
}

/// No bid rests at a price as high as a resting ask.
pub open spec fn book_uncrossed<B: OrderBookExt>(b: B) -> bool {
    forall|pb: u64, pa: u64|
        #[trigger] b.levels(OrderSide::Bid).contains_key(book_key(OrderSide::Bid, pb))
            && #[trigger] b.levels(OrderSide::Ask).contains_key(book_key(OrderSide::Ask, pa)) ==> pb < pa
}

/// Matching only empties levels of the other side: every level left there
/// was there before.
pub proof fn lemma_swept_keeps_keys<B: OrderBookExt>(b0: B, o: LimitOrderRequest, b1: B)
    requires
        b0.wf(),
        book_swept(b0, o, b1),
    ensures
        forall|k: u64| #[trigger] b1.levels(o.side.opposite()).contains_key(k) ==> b0.levels(
            o.side.opposite(),
        ).contains_key(k),
{
    let other = o.side.opposite();
    let l0 = b0.levels(other);
    let l1 = b1.levels(other);
    let s0 = side_queue(l0);
    let q = book_reach(b0, o);
    let a = book_amounts(b0, q);
    let n = fill_count(a, o.amount as nat);
    law_fill_left_means_all_filled(a, o.amount as nat);
    b0.lemma_levels_facts(other);
    b1.lemma_levels_facts(other);
    lemma_eligible_prefix(l0, book_key(other, o.limit));
    assert forall|k: u64| #[trigger] l1.contains_key(k) implies l0.contains_key(k) by {
        let x = l1[k][0];
        lemma_level_in_queue(l1, k, 0);
        let m = choose|m: int| 0 <= m < side_queue(l1).len() && side_queue(l1)[m] == x;
        assert(s0[n + m] == x);
        let ks = sorted_keys(l0.dom());
        lemma_sorted_keys_exist(l0.dom());
        assert(s0.contains(x));
        lemma_queue_contains(l0, ks, x);
        let j = choose|j: int| 0 <= j < ks.len() && #[trigger] l0[ks[j]].contains(x);
        assert(ks.contains(ks[j]));
        let t0 = choose|t0: int| 0 <= t0 < l0[ks[j]].len() && l0[ks[j]][t0] == x;
        assert(l0[ks[j]][t0] == x);
        let o0 = b0.order_at(x)->0;
        let o1 = b1.order_at(x)->0;
        assert(b1.order_at(x) is Some);
        assert(o1.limit == o0.limit) by {
            if q.contains(x) {
                let u = choose|u: int| 0 <= u < q.len() && q[u] == x;
                if u < n {
                    assert(b1.order_at(q[u]) is None);
                }
            }
        }
        assert(l1[k][0] == x);
        assert(book_key(other, o1.limit) == k);
        assert(book_key(other, o0.limit) == ks[j]);
    }
}

/// Carrying out a limit order keeps the book uncrossed: after it has filled
/// what it reaches, what is left of it rests at a price that no resting order
/// of the other side accepts.
pub proof fn law_process_keeps_uncrossed<B: OrderBookExt>(b0: B, o: LimitOrderRequest, b1: B, i: int, b2: B)
    requires
        b0.wf(),
        book_uncrossed(b0),
        book_swept(b0, o, b1),
        book_left(b0, o) == 0 ==> b2 == b1,
        book_left(b0, o) > 0 ==> book_placed(
            b1,
            LimitOrderRequest { side: o.side, limit: o.limit, amount: book_left(b0, o) as u64 },
            i,
            b2,
        ),
    ensures
        book_uncrossed(b2),
{
    let other = o.side.opposite();
    lemma_swept_keeps_keys(b0, o, b1);
    if book_left(b0, o) > 0 {
        law_rest_not_crossed(b0, o, b1);
    }
    assert forall|pb: u64, pa: u64|
        #[trigger] b2.levels(OrderSide::Bid).contains_key(book_key(OrderSide::Bid, pb))
            && #[trigger] b2.levels(OrderSide::Ask).contains_key(book_key(OrderSide::Ask, pa)) implies pb < pa by {
        let kb = book_key(OrderSide::Bid, pb);
        let ka = book_key(OrderSide::Ask, pa);
        if book_left(b0, o) > 0 && o.side == OrderSide::Bid && kb == book_key(OrderSide::Bid, o.limit) {
            assert(b1.levels(OrderSide::Ask).contains_key(ka));
            assert(ka > book_key(OrderSide::Ask, o.limit));
        } else if book_left(b0, o) > 0 && o.side == OrderSide::Ask && ka == book_key(OrderSide::Ask, o.limit) {
            assert(b1.levels(OrderSide::Bid).contains_key(kb));
            assert(kb > book_key(OrderSide::Bid, o.limit));
        } else {
            assert(b1.levels(OrderSide::Bid).contains_key(kb));
            assert(b1.levels(OrderSide::Ask).contains_key(ka));
            assert(b0.levels(OrderSide::Bid).contains_key(kb));
            assert(b0.levels(OrderSide::Ask).contains_key(ka));
        }
    }
}

/// Filling positive amounts leaves every order it does not fill completely
/// with a positive amount, and never more than it had.
pub proof fn lemma_fill_keeps_positive(a: Seq<nat>, r: nat)
    requires
        forall|t: int| 0 <= t < a.len() ==> #[trigger] a[t] > 0,
    ensures
        fill_amounts(a, r).len() == a.len(),
        forall|t: int| 0 <= t < a.len() ==> #[trigger] fill_amounts(a, r)[t] <= a[t],
        forall|t: int| fill_count(a, r) <= t < a.len() ==> #[trigger] fill_amounts(a, r)[t] > 0,
    decreases a.len(),
{
    if a.len() > 0 {
        let f = fill_take(a[0], r);
        let rest = a.drop_first();
        lemma_fill_keeps_positive(rest, (r - f) as nat);
        let fa = fill_amounts(a, r);
        assert(fa == seq![(a[0] - f) as nat] + fill_amounts(rest, (r - f) as nat));
        assert forall|t: int| 0 <= t < a.len() implies #[trigger] fa[t] <= a[t] by {
            if t > 0 {
                assert(fa[t] == fill_amounts(rest, (r - f) as nat)[t - 1]);
                assert(rest[t - 1] == a[t]);
            }
        }
        assert forall|t: int| fill_count(a, r) <= t < a.len() implies #[trigger] fa[t] > 0 by {
            if t > 0 {
                assert(fa[t] == fill_amounts(rest, (r - f) as nat)[t - 1]);
                assert(rest[t - 1] == a[t]);
            }
        }
    } else {
        assert(fill_amounts(a, r) =~= Seq::<nat>::empty());
    }
}

/// Every resting order of the book has a positive amount.
pub open spec fn book_amounts_positive<B: OrderBookExt>(b: B) -> bool {
    forall|i: int| #[trigger] b.order_at(i) is Some ==> b.order_at(i)->0.amount > 0
}

/// Carrying out a limit order keeps every resting amount positive: a partly
/// filled order keeps what is left of it, and only a positive remainder rests.
pub proof fn law_process_keeps_amounts_positive<B: OrderBookExt>(b0: B, o: LimitOrderRequest, b1: B, i: int, b2: B)
    requires
        b0.wf(),
        book_amounts_positive(b0),
        book_swept(b0, o, b1),
        book_left(b0, o) == 0 ==> b2 == b1,
        book_left(b0, o) > 0 ==> book_placed(
            b1,
            LimitOrderRequest { side: o.side, limit: o.limit, amount: book_left(b0, o) as u64 },
            i,
            b2,
        ),
    ensures
        book_amounts_positive(b2),
{
    let other = o.side.opposite();
    let q = book_reach(b0, o);
    let a = book_amounts(b0, q);
    let n = fill_count(a, o.amount as nat);
    let kept = fill_amounts(a, o.amount as nat);
    let l0 = b0.levels(other);
    b0.lemma_levels_facts(other);
    lemma_eligible_prefix(l0, book_key(other, o.limit));
    assert forall|t: int| 0 <= t < q.len() implies b0.order_at(#[trigger] q[t]) is Some by {
        let s0 = side_queue(l0);
        assert(q[t] == s0[t]);
        assert(s0.contains(q[t]));
        let ks = sorted_keys(l0.dom());
        lemma_sorted_keys_exist(l0.dom());
        lemma_queue_contains(l0, ks, q[t]);
        let j = choose|j: int| 0 <= j < ks.len() && #[trigger] l0[ks[j]].contains(q[t]);
        assert(ks.contains(ks[j]));
        let u = choose|u: int| 0 <= u < l0[ks[j]].len() && l0[ks[j]][u] == q[t];
        assert(l0[ks[j]][u] == q[t]);
    }
    assert forall|t: int| 0 <= t < a.len() implies #[trigger] a[t] > 0 by {
        assert(b0.order_at(q[t]) is Some);
    }
    lemma_fill_keeps_positive(a, o.amount as nat);
    assert forall|j: int| #[trigger] b1.order_at(j) is Some implies b1.order_at(j)->0.amount > 0 by {
        if q.contains(j) {
            let t = choose|t: int| 0 <= t < q.len() && q[t] == j;
            if t < n {
                assert(b1.order_at(q[t]) is None);
            } else {
                assert(b1.order_at(q[t]) is Some);
                assert(kept[t] <= a[t]);
                assert(a[t] == b0.order_at(q[t])->0.amount);
            }
        } else {
            assert(b1.order_at(j) == b0.order_at(j));
        }
    }
    law_fill_conserves(a, o.amount as nat);
    if book_left(b0, o) > 0 {
        assert forall|j: int| #[trigger] b2.order_at(j) is Some implies b2.order_at(j)->0.amount > 0 by {
            if j != i {
                assert(b2.order_at(j) == b1.order_at(j));
            }
        }
    }
}

/// In a well formed book whose resting amounts are positive, every level of
/// either side holds a positive volume.
pub proof fn law_levels_have_volume<B: OrderBookExt>(b: B, side: OrderSide, price: u64)
    requires
        b.wf(),
        book_amounts_positive(b),
        b.levels(side).contains_key(book_key(side, price)),
    ensures
        book_volume(b, side, price) > 0,
{
    let k = book_key(side, price);
    b.lemma_levels_facts(side);
    let lv = b.levels(side)[k];
    let am = book_amounts(b, lv);
    let last = lv.len() - 1;
    assert(b.order_at(lv[last]) is Some);
    assert(am.last() == b.order_at(lv[last])->0.amount);
}

/// Two slot maps hold the same model: the same insertion order, free list,
/// number of slots and values.
pub open spec fn same_model<S: SlotMap>(a: S, b: S) -> bool {
    &&& a.order() == b.order()
    &&& a.free_list() == b.free_list()
    &&& a.total_spec() == b.total_spec()
    &&& forall|i: int| #[trigger] a.data_at(i) == b.data_at(i)
}

/// Any two well formed empty slot maps hold the same model, however they were
/// made (`new`, `default` or `with_capacity`).
pub proof fn law_empty_maps_alike<S: SlotMap>(a: S, b: S)
    requires
        a.wf(),
        b.wf(),
        a.order().len() == 0,
        b.order().len() == 0,
        a.free_list().len() == 0,
        b.free_list().len() == 0,
        a.total_spec() == 0,
        b.total_spec() == 0,
    ensures
        same_model(a, b),
{
    a.lemma_model();
    b.lemma_model();
    assert(a.order() =~= b.order());
    assert(a.free_list() =~= b.free_list());
    assert forall|i: int| #[trigger] a.data_at(i) == b.data_at(i) by {
        assert(!a.order().contains(i));
        assert(!b.order().contains(i));
    }
}

/// Slot maps that hold the same model answer an insert of the same value with
/// the same slot and keep holding the same model.
pub proof fn law_insert_keeps_maps_alike<S: SlotMap>(a0: S, a1: S, ida: S::Id, b0: S, b1: S, idb: S::Id, data: S::Data)
    requires
        same_model(a0, b0),
        S::index_of(ida) == (if a0.free_list().len() > 0 { a0.free_list()[0] } else { a0.total_spec() as int }),
        S::index_of(idb) == (if b0.free_list().len() > 0 { b0.free_list()[0] } else { b0.total_spec() as int }),
        a1.order() == a0.order().push(S::index_of(ida)),
        b1.order() == b0.order().push(S::index_of(idb)),
        a1.free_list() == (if a0.free_list().len() > 0 { a0.free_list().skip(1) } else { a0.free_list() }),
        b1.free_list() == (if b0.free_list().len() > 0 { b0.free_list().skip(1) } else { b0.free_list() }),
        a1.total_spec() == (if a0.free_list().len() > 0 { a0.total_spec() } else { a0.total_spec() + 1 }),
        b1.total_spec() == (if b0.free_list().len() > 0 { b0.total_spec() } else { b0.total_spec() + 1 }),
        a1.data_at(S::index_of(ida)) == Some(data),
        b1.data_at(S::index_of(idb)) == Some(data),
        forall|j: int| j != S::index_of(ida) ==> a1.data_at(j) == a0.data_at(j),
        forall|j: int| j != S::index_of(idb) ==> b1.data_at(j) == b0.data_at(j),
    ensures
        S::index_of(ida) == S::index_of(idb),
        same_model(a1, b1),
{
    assert forall|i: int| #[trigger] a1.data_at(i) == b1.data_at(i) by {
        if i != S::index_of(ida) {
            assert(a0.data_at(i) == b0.data_at(i));
        }
    }
}

/// Slot maps that hold the same model remove the same slot alike and keep
/// holding the same model.
pub proof fn law_remove_keeps_maps_alike<S: SlotMap>(a0: S, a1: S, b0: S, b1: S, id: S::Id)
    requires
        a0.wf(),
        same_model(a0, b0),
        a1.total_spec() == a0.total_spec(),
        b1.total_spec() == b0.total_spec(),
        ({
            let i = S::index_of(id);
            if a0.data_at(i) is Some {
                &&& forall|k: int| 0 <= k < a0.order().len() && a0.order()[k] == i
                    ==> #[trigger] a1.order() == a0.order().remove(k)
                &&& a1.free_list() == seq![i] + a0.free_list()
                &&& a1.data_at(i) is None
                &&& forall|j: int| j != i ==> a1.data_at(j) == a0.data_at(j)
            } else {
                &&& a1.order() == a0.order()
                &&& a1.free_list() == a0.free_list()
                &&& forall|j: int| a1.data_at(j) == a0.data_at(j)
            }
        }),
        ({
            let i = S::index_of(id);
            if b0.data_at(i) is Some {
                &&& forall|k: int| 0 <= k < b0.order().len() && b0.order()[k] == i
                    ==> #[trigger] b1.order() == b0.order().remove(k)
                &&& b1.free_list() == seq![i] + b0.free_list()
                &&& b1.data_at(i) is None
                &&& forall|j: int| j != i ==> b1.data_at(j) == b0.data_at(j)
            } else {
                &&& b1.order() == b0.order()
                &&& b1.free_list() == b0.free_list()
                &&& forall|j: int| b1.data_at(j) == b0.data_at(j)
            }
        }),
    ensures
        same_model(a1, b1),
{
    let i = S::index_of(id);
    a0.lemma_model();
    if a0.data_at(i) is Some {
        assert(a0.order().contains(i));
        let k = choose|k: int| 0 <= k < a0.order().len() && a0.order()[k] == i;
        assert(a1.order() == a0.order().remove(k));
        assert(b1.order() == b0.order().remove(k));
    }
    assert forall|j: int| #[trigger] a1.data_at(j) == b1.data_at(j) by {
        assert(a0.data_at(j) == b0.data_at(j));
    }
}

} // verus!
