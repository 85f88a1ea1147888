//! The matching rules of the books with `u64` prices, stated once over the
//! model that every such book gives, and the steps that every matcher shares.
use vstd::prelude::*;

use crate::matching::{
    fill_amounts, fill_count, lemma_eligible_prefix, lemma_queue_contains, lemma_side_queue_no_dups,
    lemma_sorted_keys_exist, side_queue, sorted_keys,
};
use crate::{
    book_amounts, book_key, book_reach, book_swept, LimitOrderRequest, OrderBookExt, OrderMatcherExt,
    OrderSide,
};

verus! {

/// What resting `request` as the order with index `i` does to the book
/// `b0`, giving `b1`: `i` named no order before and names the request after;
/// it joins the tail of the level of its side and price (which is created if
/// need be), and nothing else changes.
pub open spec fn book_placed<B: OrderBookExt>(b0: B, request: LimitOrderRequest, i: int, b1: B) -> bool {
    let side = request.side;
    let k = book_key(side, request.limit);
    &&& b1.wf()
    &&& b0.order_at(i) is None
    &&& b1.order_at(i) == Some(request)
    &&& forall|j: int| j != i ==> #[trigger] b1.order_at(j) == b0.order_at(j)
    &&& b1.levels(side) == b0.levels(side).insert(
        k,
        (if b0.levels(side).contains_key(k) {
            b0.levels(side)[k]
        } else {
            Seq::<int>::empty()
        }).push(i),
    )
    &&& b1.levels(side.opposite()) == b0.levels(side.opposite())
    &&& b1.order_count() == b0.order_count() + 1
}

/// What cancelling the order with index `i` does to the book `b0`, giving
/// `b1`: the order leaves its level (a level left empty disappears) and the
/// book, and nothing else changes; where `i` names no order, nothing changes.
pub open spec fn book_cancelled<B: OrderBookExt>(b0: B, i: int, b1: B) -> bool {
    &&& b1.order_at(i) is None
    &&& forall|j: int| j != i ==> #[trigger] b1.order_at(j) == b0.order_at(j)
    &&& b0.can_place() ==> b1.can_place()
    &&& b0.order_at(i) is None ==> {
        &&& b1.levels(OrderSide::Bid) == b0.levels(OrderSide::Bid)
        &&& b1.levels(OrderSide::Ask) == b0.levels(OrderSide::Ask)
        &&& b1.order_count() == b0.order_count()
    }
    &&& b0.order_at(i) matches Some(o) ==> ({
        let k = book_key(o.side, o.limit);
        let lv = b0.levels(o.side)[k];
        &&& b0.levels(o.side).contains_key(k)
        &&& lv.contains(i)
        &&& forall|t: int|
            0 <= t < lv.len() && lv[t] == i ==> #[trigger] b1.levels(o.side) == (if lv.len() == 1 {
                b0.levels(o.side).remove(k)
            } else {
                b0.levels(o.side).insert(k, lv.remove(t))
            })
        &&& b1.levels(o.side.opposite()) == b0.levels(o.side.opposite())
        &&& b1.order_count() + 1 == b0.order_count()
    })
}

/// Cancelling the order at the front of a side's queue takes it off the
/// front of the queue and leaves the other side alone.
pub proof fn lemma_cancel_head<B: OrderBookExt>(b0: B, b1: B, side: OrderSide)
    requires
        b0.wf(),
        side_queue(b0.levels(side)).len() > 0,
        book_cancelled(b0, side_queue(b0.levels(side))[0], b1),
    ensures
        side_queue(b1.levels(side)) == side_queue(b0.levels(side)).drop_first(),
        b1.levels(side.opposite()) == b0.levels(side.opposite()),
        b0.order_at(side_queue(b0.levels(side))[0]) is Some,
        b0.order_at(side_queue(b0.levels(side))[0])->0.side == side,
{
    let levels = b0.levels(side);
    b0.lemma_levels_facts(side);
    crate::matching::lemma_side_queue_drop_head(levels);
    let k = crate::matching::sorted_keys(levels.dom())[0];
    let lv = levels[k];
    let x = side_queue(levels)[0];
    assert(lv[0] == x);
    let o = b0.order_at(x)->0;
    assert(o.side == side && book_key(side, o.limit) == k);
    assert(lv.remove(0) =~= lv.drop_first());
}

/// An order on the queue of a side of a well formed book rests on that side.
pub proof fn lemma_queue_member<B: OrderBookExt>(b: B, side: OrderSide, x: int)
    requires
        b.wf(),
        side_queue(b.levels(side)).contains(x),
    ensures
        b.order_at(x) is Some,
        b.order_at(x)->0.side == side,
{
    let levels = b.levels(side);
    b.lemma_levels_facts(side);
    let ks = sorted_keys(levels.dom());
    lemma_sorted_keys_exist(levels.dom());
    lemma_queue_contains(levels, ks, x);
    let j = choose|j: int| 0 <= j < ks.len() && #[trigger] levels[ks[j]].contains(x);
    assert(ks.contains(ks[j]));
    let t = choose|t: int| 0 <= t < levels[ks[j]].len() && levels[ks[j]][t] == x;
    assert(levels.contains_key(ks[j]));
    assert(levels[ks[j]][t] == x);
}

/// What filling the orders that `o` reaches does to the book `b0`, giving
/// `b1`: each of them keeps what is left of its amount, and nothing else
/// changes.
pub open spec fn book_filled<B: OrderBookExt>(b0: B, o: LimitOrderRequest, b1: B) -> bool {
    let q = book_reach(b0, o);
    let kept = fill_amounts(book_amounts(b0, q), o.amount as nat);
    &&& b1.wf()
    &&& b1.levels(OrderSide::Bid) == b0.levels(OrderSide::Bid)
    &&& b1.levels(OrderSide::Ask) == b0.levels(OrderSide::Ask)
    &&& b0.can_place() ==> b1.can_place()
    &&& forall|t: int|
        0 <= t < q.len() ==> #[trigger] b1.order_at(q[t]) == Some(
            LimitOrderRequest {
                side: b0.order_at(q[t])->0.side,
                limit: b0.order_at(q[t])->0.limit,
                amount: kept[t] as u64,
            },
        )
    &&& forall|j: int| !q.contains(j) ==> #[trigger] b1.order_at(j) == b0.order_at(j)
}

/// What cancelling the first `n` orders of the queue of `side` does to the
/// book `b1`, giving `b2`.
pub open spec fn book_cleaned<B: OrderBookExt>(b1: B, side: OrderSide, n: nat, b2: B) -> bool {
    let s = side_queue(b1.levels(side));
    &&& b2.wf()
    &&& side_queue(b2.levels(side)) == s.skip(n as int)
    &&& b2.levels(side.opposite()) == b1.levels(side.opposite())
    &&& forall|u: int| 0 <= u < n ==> #[trigger] b2.order_at(s[u]) is None
    &&& forall|j: int| !s.take(n as int).contains(j) ==> #[trigger] b2.order_at(j) == b1.order_at(j)
    &&& b1.can_place() ==> b2.can_place()
}

/// Filling what an incoming order reaches and then cancelling the orders it
/// filled completely is the sweep of the book by that order.
pub proof fn lemma_sweep_compose<B: OrderBookExt>(b0: B, o: LimitOrderRequest, b1: B, b2: B)
    requires
        b0.wf(),
        book_filled(b0, o, b1),
        book_cleaned(
            b1,
            o.side.opposite(),
            fill_count(book_amounts(b0, book_reach(b0, o)), o.amount as nat),
            b2,
        ),
    ensures
        book_swept(b0, o, b2),
{
    let other = o.side.opposite();
    let q = book_reach(b0, o);
    let a = book_amounts(b0, q);
    let n = fill_count(a, o.amount as nat);
    let s = side_queue(b0.levels(other));
    let bound = book_key(other, o.limit);
    b0.lemma_levels_facts(other);
    lemma_eligible_prefix(b0.levels(other), bound);
    crate::matching::lemma_fill_split(a, Seq::<nat>::empty(), o.amount as nat);
    assert(n <= q.len());
    assert(q.take(n as int) =~= s.take(n as int));
    assert(b1.levels(other) == b0.levels(other)) by {
        if other == OrderSide::Bid {
        } else {
        }
    }
    assert(b2.levels(o.side) == b0.levels(o.side)) by {
        assert(other.opposite() == o.side);
    }
    lemma_side_queue_no_dups(b0.levels(other));
    assert forall|t: int| 0 <= t < n implies #[trigger] b2.order_at(q[t]) is None by {
        assert(q[t] == s[t]);
    }
    assert forall|t: int| n <= t < q.len() implies #[trigger] b2.order_at(q[t]) == Some(
        LimitOrderRequest {
            side: other,
            limit: b0.order_at(q[t])->0.limit,
            amount: fill_amounts(a, o.amount as nat)[t] as u64,
        },
    ) by {
        assert(q[t] == s[t]);
        assert(!s.take(n as int).contains(s[t])) by {
            if s.take(n as int).contains(s[t]) {
                let u = choose|u: int| 0 <= u < n && s.take(n as int)[u] == s[t];
                assert(s[u] == s[t]);
            }
        }
        assert(s.contains(s[t]));
        lemma_queue_member(b0, other, s[t]);
    }
    assert forall|j: int| !q.contains(j) implies #[trigger] b2.order_at(j) == b0.order_at(j) by {
        if s.take(n as int).contains(j) {
            let u = choose|u: int| 0 <= u < n && s.take(n as int)[u] == j;
            assert(q[u] == j);
        }
    }
}

} // verus!
