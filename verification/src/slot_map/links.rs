//! The list structure that every slot map keeps, stated once over the links
//! of its slots: for each slot whether it is occupied, its previous link, and
//! its next link (for a free slot, the next free slot).
use vstd::prelude::*;

use crate::slot_map::{seq_first, seq_next, seq_prev};

verus! {

/// The links of one slot: whether it is occupied, the previous occupied slot,
/// and the next occupied slot (for a free slot, the next free slot).
pub type SlotLinks = (bool, Option<int>, Option<int>);

/// Each occupied slot on `order` links to its neighbours on `order`.
#[verifier::opaque]
pub open spec fn order_linked(v: Seq<SlotLinks>, order: Seq<int>) -> bool {
    forall|k: int|
        #![trigger order[k]]
        0 <= k < order.len() ==> {
            let i = order[k];
            &&& 0 <= i < v.len()
            &&& v[i].0
            &&& v[i].1 == seq_prev(order, k)
            &&& v[i].2 == seq_next(order, k)
        }
}

/// Each free slot on `free` links to its successor on `free`.
#[verifier::opaque]
pub open spec fn free_linked(v: Seq<SlotLinks>, free: Seq<int>) -> bool {
    forall|k: int|
        #![trigger free[k]]
        0 <= k < free.len() ==> {
            let i = free[k];
            &&& 0 <= i < v.len()
            &&& !v[i].0
            &&& v[i].2 == seq_next(free, k)
        }
}

/// Every occupied slot is on `order` and every free slot on `free`.
#[verifier::opaque]
pub open spec fn partitioned(v: Seq<SlotLinks>, order: Seq<int>, free: Seq<int>) -> bool {
    forall|i: int|
        #![trigger v[i]]
        0 <= i < v.len() ==> {
            &&& (v[i].0 ==> order.contains(i))
            &&& (!v[i].0 ==> free.contains(i))
        }
}

/// The links agree with the list `order` of occupied slots and the list
/// `free` of free slots, and every slot is on exactly one of them.
pub open spec fn lists_wf(v: Seq<SlotLinks>, order: Seq<int>, free: Seq<int>) -> bool {
    &&& order.no_duplicates()
    &&& free.no_duplicates()
    &&& order_linked(v, order)
    &&& free_linked(v, free)
    &&& partitioned(v, order, free)
}

/// What well-formed links say of one position of either list, and of slot `k`.
pub proof fn lemma_lists_at(v: Seq<SlotLinks>, order: Seq<int>, free: Seq<int>, k: int)
    requires
        lists_wf(v, order, free),
    ensures
        order.no_duplicates(),
        free.no_duplicates(),
        0 <= k < order.len() ==> {
            let i = order[k];
            &&& 0 <= i < v.len()
            &&& v[i].0
            &&& v[i].1 == seq_prev(order, k)
            &&& v[i].2 == seq_next(order, k)
        },
        0 <= k < free.len() ==> {
            let i = free[k];
            &&& 0 <= i < v.len()
            &&& !v[i].0
            &&& v[i].2 == seq_next(free, k)
        },
        0 <= k < v.len() ==> {
            &&& (v[k].0 ==> order.contains(k))
            &&& (!v[k].0 ==> free.contains(k))
        },
{
    reveal(order_linked);
    reveal(free_linked);
    reveal(partitioned);
}

/// No slots, no lists.
pub proof fn lemma_lists_empty(v: Seq<SlotLinks>)
    requires
        v.len() == 0,
    ensures
        lists_wf(v, Seq::empty(), Seq::empty()),
{
    reveal(order_linked);
    reveal(free_linked);
    reveal(partitioned);
}

/// Appending slot `ii`, taken from the head of the free list or new at the
/// end, to the tail of the list keeps the links well formed.
pub proof fn lemma_lists_insert(
    old_v: Seq<SlotLinks>,
    order: Seq<int>,
    free: Seq<int>,
    new_v: Seq<SlotLinks>,
    ii: int,
)
    requires
        lists_wf(old_v, order, free),
        ii == (if free.len() > 0 {
            free[0]
        } else {
            old_v.len() as int
        }),
        new_v.len() == (if free.len() > 0 {
            old_v.len()
        } else {
            old_v.len() + 1
        }),
        new_v[ii] == (true, seq_last_of(order), None::<int>),
        order.len() > 0 ==> new_v[order.last()] == (true, old_v[order.last()].1, Some(ii)),
        forall|j: int|
            0 <= j < old_v.len() && j != ii && (order.len() == 0 || j != order.last())
                ==> #[trigger] new_v[j] == old_v[j],
    ensures
        lists_wf(
            new_v,
            order.push(ii),
            if free.len() > 0 {
                free.skip(1)
            } else {
                free
            },
        ),
{
    reveal(order_linked);
    reveal(free_linked);
    reveal(partitioned);
    let new_order = order.push(ii);
    let new_free = if free.len() > 0 {
        free.skip(1)
    } else {
        free
    };
    assert(!order.contains(ii)) by {
        if order.contains(ii) {
            let k = choose|k: int| 0 <= k < order.len() && order[k] == ii;
            assert(old_v[order[k]].0);
        }
    }
    assert forall|k: int| 0 <= k < new_order.len() implies {
        let i = #[trigger] new_order[k];
        &&& 0 <= i < new_v.len()
        &&& new_v[i].0
        &&& new_v[i].1 == seq_prev(new_order, k)
        &&& new_v[i].2 == seq_next(new_order, k)
    } by {
        if k < order.len() {
            assert(order[k] == new_order[k]);
            if k + 1 < order.len() {
                assert(order[k] != order.last());
            }
        }
    }
    assert forall|k: int| 0 <= k < new_free.len() implies {
        let i = #[trigger] new_free[k];
        &&& 0 <= i < new_v.len()
        &&& !new_v[i].0
        &&& new_v[i].2 == seq_next(new_free, k)
    } by {
        assert(new_free[k] == free[k + 1]);
        assert(free[k + 1] != free[0]);
        assert(!old_v[free[k + 1]].0);
    }
    assert forall|i: int| 0 <= i < new_v.len() implies {
        &&& (#[trigger] new_v[i].0 ==> new_order.contains(i))
        &&& (!new_v[i].0 ==> new_free.contains(i))
    } by {
        if i == ii {
            assert(new_order[order.len() as int] == ii);
        } else {
            if order.len() > 0 && i == order.last() {
                assert(new_order[order.len() - 1] == i);
            } else {
                assert(new_v[i] == old_v[i]);
                if new_v[i].0 {
                    let k = choose|k: int| 0 <= k < order.len() && order[k] == i;
                    assert(new_order[k] == i);
                } else {
                    let k = choose|k: int| 0 <= k < free.len() && free[k] == i;
                    assert(k != 0);
                    assert(new_free[k - 1] == i);
                }
            }
        }
    }
}

/// The last element of `s`, if any (the previous link of a new tail).
pub open spec fn seq_last_of(s: Seq<int>) -> Option<int> {
    if s.len() > 0 {
        Some(s.last())
    } else {
        None
    }
}

/// What unlinking the slot at position `k` of `order` leaves: the slot is
/// free and heads the free list, and its neighbours link to each other.
pub open spec fn unlinked(old_v: Seq<SlotLinks>, order: Seq<int>, free: Seq<int>, new_v: Seq<SlotLinks>, k: int) -> bool {
    &&& new_v.len() == old_v.len()
    &&& new_v[order[k]] == (false, None::<int>, seq_first(free))
    &&& k > 0 ==> new_v[order[k - 1]] == (true, old_v[order[k - 1]].1, old_v[order[k]].2)
    &&& k + 1 < order.len() ==> new_v[order[k + 1]] == (true, old_v[order[k]].1, old_v[order[k + 1]].2)
    &&& forall|j: int|
        0 <= j < old_v.len() && j != order[k] && (k == 0 || j != order[k - 1]) && (k + 1 >= order.len()
            || j != order[k + 1]) ==> #[trigger] new_v[j] == old_v[j]
}

/// Unlinking the occupied slot at position `k` of `order` and pushing it on
/// the free list keeps the links well formed.
pub proof fn lemma_lists_remove(
    old_v: Seq<SlotLinks>,
    order: Seq<int>,
    free: Seq<int>,
    new_v: Seq<SlotLinks>,
    k: int,
)
    requires
        lists_wf(old_v, order, free),
        0 <= k < order.len(),
        unlinked(old_v, order, free, new_v, k),
    ensures
        lists_wf(new_v, order.remove(k), seq![order[k]] + free),
{
    reveal(order_linked);
    reveal(free_linked);
    reveal(partitioned);
    let i = order[k];
    let new_order = order.remove(k);
    let new_free = seq![i] + free;
    assert(!free.contains(i)) by {
        if free.contains(i) {
            let m = choose|m: int| 0 <= m < free.len() && free[m] == i;
            assert(!old_v[free[m]].0);
        }
    }
    assert forall|m: int| 0 <= m < new_order.len() implies {
        let j = #[trigger] new_order[m];
        &&& 0 <= j < new_v.len()
        &&& new_v[j].0
        &&& new_v[j].1 == seq_prev(new_order, m)
        &&& new_v[j].2 == seq_next(new_order, m)
    } by {
        let m2 = if m < k {
            m
        } else {
            m + 1
        };
        assert(new_order[m] == order[m2]);
        if m > 0 {
            let pm = if m - 1 < k {
                m - 1
            } else {
                m
            };
            assert(new_order[m - 1] == order[pm]);
        }
        if m + 1 < new_order.len() {
            let nm = if m + 1 < k {
                m + 1
            } else {
                m + 2
            };
            assert(new_order[m + 1] == order[nm]);
        }
        assert(order[m2] != i);
        if k > 0 && m2 != k - 1 {
            assert(order[m2] != order[k - 1]);
        }
        if k + 1 < order.len() && m2 != k + 1 {
            assert(order[m2] != order[k + 1]);
        }
    }
    assert forall|m: int| 0 <= m < new_free.len() implies {
        let j = #[trigger] new_free[m];
        &&& 0 <= j < new_v.len()
        &&& !new_v[j].0
        &&& new_v[j].2 == seq_next(new_free, m)
    } by {
        if m > 0 {
            assert(new_free[m] == free[m - 1]);
            let j = free[m - 1];
            assert(!old_v[j].0);
            if k > 0 {
                assert(old_v[order[k - 1]].0);
            }
            if k + 1 < order.len() {
                assert(old_v[order[k + 1]].0);
            }
            if m + 1 < new_free.len() {
                assert(new_free[m + 1] == free[m]);
            }
        } else {
            if free.len() > 0 {
                assert(new_free[1] == free[0]);
            }
        }
    }
    assert forall|j: int| 0 <= j < new_v.len() implies {
        &&& (#[trigger] new_v[j].0 ==> new_order.contains(j))
        &&& (!new_v[j].0 ==> new_free.contains(j))
    } by {
        if j == i {
            assert(new_free[0] == i);
        } else {
            assert(old_v[j].0 == new_v[j].0);
            if new_v[j].0 {
                let m = choose|m: int| 0 <= m < order.len() && order[m] == j;
                assert(m != k);
                let m2 = if m < k {
                    m
                } else {
                    m - 1
                };
                assert(new_order[m2] == j);
            } else {
                let m = choose|m: int| 0 <= m < free.len() && free[m] == j;
                assert(new_free[m + 1] == j);
            }
        }
    }
    assert forall|a: int, b: int| 0 <= a < b < new_order.len() implies new_order[a] != new_order[b] by {
        let a2 = if a < k {
            a
        } else {
            a + 1
        };
        let b2 = if b < k {
            b
        } else {
            b + 1
        };
        assert(new_order[a] == order[a2]);
        assert(new_order[b] == order[b2]);
    }
    assert forall|a: int, b: int| 0 <= a < b < new_free.len() implies new_free[a] != new_free[b] by {
        if a > 0 {
            assert(new_free[a] == free[a - 1]);
        }
        assert(new_free[b] == free[b - 1]);
    }
}

} // verus!
