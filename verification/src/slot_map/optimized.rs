use vstd::prelude::*;

use crate::slot_map::{
    seq_first, seq_last, seq_next, seq_prev, opt_u32, slot_values, Linkable, NonMaxU32, SlotMap, TestableSlotMap, NONE_VALUE,
};
use vstd::std_specs::cmp::PartialEqSpec;

verus! {

/// A slot map whose slots carry their list links inline.
///
/// The occupied slots form a doubly linked list in insertion order, from `head`
/// to `tail`; the free slots form a singly linked list from `free_head`, and the
/// slot freed last is reused first.
pub struct SlotMapOptimized<T> {
    head: NonMaxU32,
    tail: NonMaxU32,
    free_head: NonMaxU32,
    slots: Vec<Slot<T>>,
    capacity: usize,
    /// The occupied slot indices, from head to tail.
    order: Ghost<Seq<int>>,
    /// The free slot indices, from the free head on.
    free: Ghost<Seq<int>>,
}

pub enum Slot<T> {
    Free { next_free: NonMaxU32 },
    Occupied { data: T, prev: NonMaxU32, next: NonMaxU32 },
}

impl<T> Slot<T> {
    /// The value a slot holds, if it is occupied.
    pub open spec fn data_of(self) -> Option<T> {
        match self {
            Slot::Occupied { data, .. } => Some(data),
            Slot::Free { .. } => None,
        }
    }

    /// Whether the slot is free.
    pub fn is_free(&self) -> (r: bool)
        ensures
            r == (self is Free),
    {
        match self {
            Slot::Free { .. } => true,
            Slot::Occupied { .. } => false,
        }
    }

    /// The value, previous and next link of an occupied slot.
    pub fn as_occupied_unchecked(&self) -> (r: (&T, &NonMaxU32, &NonMaxU32))
        requires
            self is Occupied,
        ensures
            *r.0 == self->data,
            *r.1 == self->prev,
            *r.2 == self->next,
    {
        match self {
            Slot::Occupied { data, prev, next } => (data, prev, next),
            Slot::Free { .. } => vstd::pervasive::unreached(),
        }
    }

    /// Mutable references to the value, previous and next link of an occupied slot.
    pub fn as_occupied_unchecked_mut(&mut self) -> (r: (&mut T, &mut NonMaxU32, &mut NonMaxU32))
        requires
            *old(self) is Occupied,
        ensures
            *r.0 == (*old(self))->data,
            *r.1 == (*old(self))->prev,
            *r.2 == (*old(self))->next,
            *final(self) == (Slot::Occupied { data: *final(r.0), prev: *final(r.1), next: *final(r.2) }),
    {
        match self {
            Slot::Occupied { data, prev, next } => (data, prev, next),
            Slot::Free { .. } => vstd::pervasive::unreached(),
        }
    }

    /// A mutable reference to the next free link of a free slot.
    pub fn as_free_unchecked_mut(&mut self) -> (r: &mut NonMaxU32)
        requires
            *old(self) is Free,
        ensures
            *r == (*old(self))->next_free,
            *final(self) == (Slot::Free::<T> { next_free: *final(r) }),
    {
        match self {
            Slot::Free { next_free } => next_free,
            Slot::Occupied { .. } => vstd::pervasive::unreached(),
        }
    }

    /// The next free link of a free slot.
    pub fn as_free_unchecked(&self) -> (r: &NonMaxU32)
        requires
            self is Free,
        ensures
            *r == self->next_free,
    {
        match self {
            Slot::Free { next_free } => next_free,
            Slot::Occupied { .. } => vstd::pervasive::unreached(),
        }
    }
}

/// Each occupied slot on `order` links to its neighbours on `order`.
#[verifier::opaque]
pub open spec fn order_links<T>(slots: Seq<Slot<T>>, order: Seq<int>) -> bool {
    forall|k: int|
        #![trigger order[k]]
        0 <= k < order.len() ==> {
            let i = order[k];
            &&& 0 <= i < slots.len()
            &&& slots[i] is Occupied
            &&& slots[i]->prev@ == seq_prev(order, k)
            &&& slots[i]->next@ == seq_next(order, k)
        }
}

/// Each free slot on `free` links to its successor on `free`.
#[verifier::opaque]
pub open spec fn free_links<T>(slots: Seq<Slot<T>>, free: Seq<int>) -> bool {
    forall|k: int|
        #![trigger free[k]]
        0 <= k < free.len() ==> {
            let i = free[k];
            &&& 0 <= i < slots.len()
            &&& slots[i] is Free
            &&& slots[i]->next_free@ == seq_next(free, k)
        }
}

/// Every occupied slot is on `order` and every free slot on `free`.
#[verifier::opaque]
pub open spec fn partition<T>(slots: Seq<Slot<T>>, order: Seq<int>, free: Seq<int>) -> bool {
    forall|i: int|
        #![trigger slots[i]]
        0 <= i < slots.len() ==> {
            &&& (slots[i] is Occupied ==> order.contains(i))
            &&& (slots[i] is Free ==> free.contains(i))
        }
}

/// The links of the slots agree with the list `order` of occupied slots and
/// the list `free` of free slots, and every slot is on exactly one of them.
pub open spec fn links_wf<T>(slots: Seq<Slot<T>>, order: Seq<int>, free: Seq<int>) -> bool {
    &&& order.no_duplicates()
    &&& free.no_duplicates()
    &&& order_links(slots, order)
    &&& free_links(slots, free)
    &&& partition(slots, order, free)
}

/// What the well-formed links say of one position of either list.
proof fn lemma_links_at<T>(slots: Seq<Slot<T>>, order: Seq<int>, free: Seq<int>, k: int)
    requires
        links_wf(slots, order, free),
    ensures
        order.no_duplicates(),
        free.no_duplicates(),
        0 <= k < order.len() ==> {
            let i = order[k];
            &&& 0 <= i < slots.len()
            &&& slots[i] is Occupied
            &&& slots[i]->prev@ == seq_prev(order, k)
            &&& slots[i]->next@ == seq_next(order, k)
        },
        0 <= k < free.len() ==> {
            let i = free[k];
            &&& 0 <= i < slots.len()
            &&& slots[i] is Free
            &&& slots[i]->next_free@ == seq_next(free, k)
        },
        0 <= k < slots.len() ==> {
            &&& (slots[k] is Occupied ==> order.contains(k))
            &&& (slots[k] is Free ==> free.contains(k))
        },
{
    reveal(order_links);
    reveal(free_links);
    reveal(partition);
}

/// Appending slot `ii` to the list, taken from the free list's head or new at
/// the end, keeps the links well formed.
proof fn lemma_insert<T>(
    old_slots: Seq<Slot<T>>,
    order: Seq<int>,
    free: Seq<int>,
    new_slots: Seq<Slot<T>>,
    ii: int,
    data: T,
)
    requires
        links_wf(old_slots, order, free),
        ii == (if free.len() > 0 { free[0] } else { old_slots.len() as int }),
        new_slots.len() == (if free.len() > 0 { old_slots.len() } else { old_slots.len()
            + 1 }),
        new_slots[ii] == (Slot::Occupied {
            data,
            prev: NonMaxU32(if order.len() > 0 { order.last() as u32 } else { NONE_VALUE }),
            next: NonMaxU32(NONE_VALUE),
        }),
        old_slots.len() <= NONE_VALUE,
        free.len() == 0 ==> old_slots.len() < NONE_VALUE,
        order.len() > 0 ==> ({
            let t = order.last();
            &&& new_slots[t] is Occupied
            &&& new_slots[t]->data == old_slots[t]->data
            &&& new_slots[t]->prev == old_slots[t]->prev
            &&& new_slots[t]->next == NonMaxU32(ii as u32)
        }),
        forall|j: int|
            0 <= j < old_slots.len() && j != ii && (order.len() == 0 || j != order.last())
                ==> new_slots[j] == old_slots[j],
    ensures
        links_wf(new_slots, order.push(ii), if free.len() > 0 { free.skip(1) } else { free }),
{
    reveal(order_links);
    reveal(free_links);
    reveal(partition);
    let new_order = order.push(ii);
    let new_free = if free.len() > 0 { free.skip(1) } else { free };
    assert(!order.contains(ii)) by {
        if order.contains(ii) {
            let k = choose|k: int| 0 <= k < order.len() && order[k] == ii;
            assert(old_slots[order[k]] is Occupied);
        }
    }
    assert forall|k: int| 0 <= k < new_order.len() implies {
        let i = #[trigger] new_order[k];
        &&& 0 <= i < new_slots.len()
        &&& new_slots[i] is Occupied
        &&& new_slots[i]->prev@ == seq_prev(new_order, k)
        &&& new_slots[i]->next@ == seq_next(new_order, k)
    } by {
        if k < order.len() {
            assert(order[k] == new_order[k]);
            if k + 1 < order.len() {
                assert(order[k] != order.last());
            }
        }
    }
    assert forall|k: int| 0 <= k < new_free.len() implies {
        let i = #[trigger] new_free[k];
        &&& 0 <= i < new_slots.len()
        &&& new_slots[i] is Free
        &&& new_slots[i]->next_free@ == seq_next(new_free, k)
    } by {
        assert(new_free[k] == free[k + 1]);
        assert(free[k + 1] != free[0]);
        assert(old_slots[free[k + 1]] is Free);
    }
    assert forall|i: int| 0 <= i < new_slots.len() implies {
        &&& (#[trigger] new_slots[i] is Occupied ==> new_order.contains(i))
        &&& (new_slots[i] is Free ==> new_free.contains(i))
    } by {
        if i == ii {
            assert(new_order[order.len() as int] == ii);
        } else {
            if order.len() > 0 && i == order.last() {
                assert(new_order[order.len() - 1] == i);
            } else {
                assert(new_slots[i] == old_slots[i]);
                if new_slots[i] is Occupied {
                    let k = choose|k: int| 0 <= k < order.len() && order[k] == i;
                    assert(new_order[k] == i);
                } else {
                    let k = choose|k: int| 0 <= k < free.len() && free[k] == i;
                    assert(k != 0);
                    assert(new_free[k - 1] == i);
                }
            }
        }
    }
}


/// Unlinking the occupied slot at position `k` of `order` and pushing it on the
/// free list keeps the links well formed.
proof fn lemma_remove<T>(
    old_slots: Seq<Slot<T>>,
    order: Seq<int>,
    free: Seq<int>,
    new_slots: Seq<Slot<T>>,
    k: int,
)
    requires
        links_wf(old_slots, order, free),
        0 <= k < order.len(),
        new_slots.len() == old_slots.len(),
        new_slots[order[k]] == (Slot::Free::<T> {
            next_free: NonMaxU32(if free.len() > 0 { free[0] as u32 } else { NONE_VALUE }),
        }),
        old_slots.len() <= NONE_VALUE,
        k > 0 ==> ({
            let p = order[k - 1];
            &&& new_slots[p] is Occupied
            &&& new_slots[p]->data == old_slots[p]->data
            &&& new_slots[p]->prev == old_slots[p]->prev
            &&& new_slots[p]->next == old_slots[order[k]]->next
        }),
        k + 1 < order.len() ==> ({
            let n = order[k + 1];
            &&& new_slots[n] is Occupied
            &&& new_slots[n]->data == old_slots[n]->data
            &&& new_slots[n]->next == old_slots[n]->next
            &&& new_slots[n]->prev == old_slots[order[k]]->prev
        }),
        forall|j: int|
            0 <= j < old_slots.len() && j != order[k] && (k == 0 || j != order[k - 1]) && (k
                + 1 >= order.len() || j != order[k + 1]) ==> new_slots[j] == old_slots[j],
    ensures
        links_wf(new_slots, order.remove(k), seq![order[k]] + free),
{
    let i = order[k];
    let new_order = order.remove(k);
    let new_free = seq![i] + free;
    lemma_remove_order(old_slots, order, free, new_slots, k);
    lemma_remove_free(old_slots, order, free, new_slots, k);
    lemma_remove_partition(old_slots, order, free, new_slots, k);
    assert(!free.contains(i)) by {
        reveal(free_links);
        reveal(order_links);
        if free.contains(i) {
            let m = choose|m: int| 0 <= m < free.len() && free[m] == i;
            assert(old_slots[free[m]] is Free);
        }
    }
    assert forall|a: int, b: int| 0 <= a < b < new_order.len() implies new_order[a]
        != new_order[b] by {
        let a2 = if a < k { a } else { a + 1 };
        let b2 = if b < k { b } else { b + 1 };
        assert(new_order[a] == order[a2]);
        assert(new_order[b] == order[b2]);
    }
    assert forall|a: int, b: int| 0 <= a < b < new_free.len() implies new_free[a]
        != new_free[b] by {
        if a > 0 {
            assert(new_free[a] == free[a - 1]);
        }
        assert(new_free[b] == free[b - 1]);
    }
}

proof fn lemma_remove_order<T>(
    old_slots: Seq<Slot<T>>,
    order: Seq<int>,
    free: Seq<int>,
    new_slots: Seq<Slot<T>>,
    k: int,
)
    requires
        links_wf(old_slots, order, free),
        0 <= k < order.len(),
        new_slots.len() == old_slots.len(),
        new_slots[order[k]] == (Slot::Free::<T> {
            next_free: NonMaxU32(if free.len() > 0 { free[0] as u32 } else { NONE_VALUE }),
        }),
        old_slots.len() <= NONE_VALUE,
        k > 0 ==> ({
            let p = order[k - 1];
            &&& new_slots[p] is Occupied
            &&& new_slots[p]->data == old_slots[p]->data
            &&& new_slots[p]->prev == old_slots[p]->prev
            &&& new_slots[p]->next == old_slots[order[k]]->next
        }),
        k + 1 < order.len() ==> ({
            let n = order[k + 1];
            &&& new_slots[n] is Occupied
            &&& new_slots[n]->data == old_slots[n]->data
            &&& new_slots[n]->next == old_slots[n]->next
            &&& new_slots[n]->prev == old_slots[order[k]]->prev
        }),
        forall|j: int|
            0 <= j < old_slots.len() && j != order[k] && (k == 0 || j != order[k - 1]) && (k
                + 1 >= order.len() || j != order[k + 1]) ==> new_slots[j] == old_slots[j],
    ensures
        order_links(new_slots, order.remove(k)),
{
    reveal(order_links);
    let i = order[k];
    let new_order = order.remove(k);
    assert forall|m: int| 0 <= m < new_order.len() implies {
        let j = #[trigger] new_order[m];
        &&& 0 <= j < new_slots.len()
        &&& new_slots[j] is Occupied
        &&& new_slots[j]->prev@ == seq_prev(new_order, m)
        &&& new_slots[j]->next@ == seq_next(new_order, m)
    } by {
        let m2 = if m < k { m } else { m + 1 };
        assert(new_order[m] == order[m2]);
        if m > 0 {
            let pm = if m - 1 < k { m - 1 } else { m };
            assert(new_order[m - 1] == order[pm]);
        }
        if m + 1 < new_order.len() {
            let nm = if m + 1 < k { m + 1 } else { m + 2 };
            assert(new_order[m + 1] == order[nm]);
        }
        assert(order[m2] != i);
        if k > 0 && m2 != k - 1 {
            assert(order[m2] != order[k - 1]);
        }
        if k + 1 < order.len() && m2 != k + 1 {
            assert(order[m2] != order[k + 1]);
        }
    }
}

proof fn lemma_remove_free<T>(
    old_slots: Seq<Slot<T>>,
    order: Seq<int>,
    free: Seq<int>,
    new_slots: Seq<Slot<T>>,
    k: int,
)
    requires
        links_wf(old_slots, order, free),
        0 <= k < order.len(),
        new_slots.len() == old_slots.len(),
        new_slots[order[k]] == (Slot::Free::<T> {
            next_free: NonMaxU32(if free.len() > 0 { free[0] as u32 } else { NONE_VALUE }),
        }),
        old_slots.len() <= NONE_VALUE,
        k > 0 ==> ({
            let p = order[k - 1];
            &&& new_slots[p] is Occupied
            &&& new_slots[p]->data == old_slots[p]->data
            &&& new_slots[p]->prev == old_slots[p]->prev
            &&& new_slots[p]->next == old_slots[order[k]]->next
        }),
        k + 1 < order.len() ==> ({
            let n = order[k + 1];
            &&& new_slots[n] is Occupied
            &&& new_slots[n]->data == old_slots[n]->data
            &&& new_slots[n]->next == old_slots[n]->next
            &&& new_slots[n]->prev == old_slots[order[k]]->prev
        }),
        forall|j: int|
            0 <= j < old_slots.len() && j != order[k] && (k == 0 || j != order[k - 1]) && (k
                + 1 >= order.len() || j != order[k + 1]) ==> new_slots[j] == old_slots[j],
    ensures
        free_links(new_slots, seq![order[k]] + free),
{
    reveal(free_links);
    reveal(order_links);
    let i = order[k];
    let new_free = seq![i] + free;
    assert forall|m: int| 0 <= m < new_free.len() implies {
        let j = #[trigger] new_free[m];
        &&& 0 <= j < new_slots.len()
        &&& new_slots[j] is Free
        &&& new_slots[j]->next_free@ == seq_next(new_free, m)
    } by {
        if m > 0 {
            assert(new_free[m] == free[m - 1]);
            let j = free[m - 1];
            assert(old_slots[j] is Free);
            if k > 0 {
                assert(old_slots[order[k - 1]] is Occupied);
            }
            if k + 1 < order.len() {
                assert(old_slots[order[k + 1]] is Occupied);
            }
            if m + 1 < new_free.len() {
                assert(new_free[m + 1] == free[m]);
            }
        } else {
            if free.len() > 0 {
                assert(new_free[1] == free[0]);
            }
        }
    }
}

proof fn lemma_remove_partition<T>(
    old_slots: Seq<Slot<T>>,
    order: Seq<int>,
    free: Seq<int>,
    new_slots: Seq<Slot<T>>,
    k: int,
)
    requires
        links_wf(old_slots, order, free),
        0 <= k < order.len(),
        new_slots.len() == old_slots.len(),
        new_slots[order[k]] == (Slot::Free::<T> {
            next_free: NonMaxU32(if free.len() > 0 { free[0] as u32 } else { NONE_VALUE }),
        }),
        old_slots.len() <= NONE_VALUE,
        k > 0 ==> ({
            let p = order[k - 1];
            &&& new_slots[p] is Occupied
            &&& new_slots[p]->data == old_slots[p]->data
            &&& new_slots[p]->prev == old_slots[p]->prev
            &&& new_slots[p]->next == old_slots[order[k]]->next
        }),
        k + 1 < order.len() ==> ({
            let n = order[k + 1];
            &&& new_slots[n] is Occupied
            &&& new_slots[n]->data == old_slots[n]->data
            &&& new_slots[n]->next == old_slots[n]->next
            &&& new_slots[n]->prev == old_slots[order[k]]->prev
        }),
        forall|j: int|
            0 <= j < old_slots.len() && j != order[k] && (k == 0 || j != order[k - 1]) && (k
                + 1 >= order.len() || j != order[k + 1]) ==> new_slots[j] == old_slots[j],
    ensures
        partition(new_slots, order.remove(k), seq![order[k]] + free),
{
    reveal(partition);
    reveal(order_links);
    let i = order[k];
    let new_order = order.remove(k);
    let new_free = seq![i] + free;
    assert forall|j: int| 0 <= j < new_slots.len() implies {
        &&& (#[trigger] new_slots[j] is Occupied ==> new_order.contains(j))
        &&& (new_slots[j] is Free ==> new_free.contains(j))
    } by {
        if j == i {
            assert(new_free[0] == i);
        } else {
            assert(old_slots[j] is Occupied == new_slots[j] is Occupied);
            if new_slots[j] is Occupied {
                let m = choose|m: int| 0 <= m < order.len() && order[m] == j;
                assert(m != k);
                let m2 = if m < k { m } else { m - 1 };
                assert(new_order[m2] == j);
            } else {
                let m = choose|m: int| 0 <= m < free.len() && free[m] == j;
                assert(new_free[m + 1] == j);
            }
        }
    }
}

/// Replacing the value of an occupied slot keeps the links well formed.
proof fn lemma_update_data<T>(slots: Seq<Slot<T>>, order: Seq<int>, free: Seq<int>, i: int)
    requires
        links_wf(slots, order, free),
        0 <= i < slots.len(),
        slots[i] is Occupied,
    ensures
        forall|d: T|
            #![trigger slots.update(i, Slot::Occupied { data: d, prev: slots[i]->prev, next: slots[i]->next })]
            links_wf(
                slots.update(i, Slot::Occupied { data: d, prev: slots[i]->prev, next: slots[i]->next }),
                order,
                free,
            ),
{
    reveal(order_links);
    reveal(free_links);
    reveal(partition);
    assert forall|d: T|
        links_wf(
            #[trigger] slots.update(i, Slot::Occupied { data: d, prev: slots[i]->prev, next: slots[i]->next }),
            order,
            free,
        ) by {
        let s2 = slots.update(i, Slot::Occupied { data: d, prev: slots[i]->prev, next: slots[i]->next });
        assert forall|k: int| 0 <= k < free.len() implies #[trigger] s2[free[k]] == slots[free[k]] by {
            assert(slots[free[k]] is Free);
        }
    }
}


impl<T> SlotMapOptimized<T> {
    /// Slot `i` itself, with its links.
    pub closed spec fn slot_at(&self, i: int) -> Slot<T> {
        self.slots@[i]
    }

    /// Every value, by running an iterator to its end: the values in
    /// insertion order, each once.
    pub fn values(&self) -> (r: Vec<&T>)
        requires
            self.wf(),
        ensures
            r@.len() == self.order().len(),
            forall|t: int| 0 <= t < r@.len() ==> *#[trigger] r@[t] == slot_values(self)[t],
    {
        let mut it = self.iter();
        let mut r: Vec<&T> = Vec::new();
        let mut done = false;
        while !done
            invariant
                it.wf(),
                it.source() == self,
                it.pos() == r@.len(),
                r@.len() <= self.order().len(),
                forall|t: int| 0 <= t < r@.len() ==> *#[trigger] r@[t] == slot_values(self)[t],
                done ==> r@.len() == self.order().len(),
            decreases self.order().len() - r@.len() + (if done { 0int } else { 1int }),
        {
            match it.next() {
                Some(v) => {
                    r.push(v);
                },
                None => {
                    done = true;
                },
            }
        }
        r
    }

    /// An iterator over the values in insertion order.
    pub fn iter(&self) -> (it: SlotMapIter<'_, T>)
        requires
            self.wf(),
        ensures
            it.wf(),
            it.pos() == 0,
            it.source() == self,
    {
        proof {
            lemma_links_at(self.slots@, self.order@, self.free@, 0);
        }
        SlotMapIter { slot_map: self, current: self.head.0, pos: Ghost(0) }
    }

    /// The occupied slot indices in ascending slot order, the order in which
    /// a walk over the slots meets them; with `get_mut` they give mutable
    /// access to every value in that order.
    pub fn occupied_slots(&self) -> (r: Vec<usize>)
        requires
            self.wf(),
        ensures
            forall|t: int, u: int| 0 <= t < u < r@.len() ==> r@[t] < r@[u],
            forall|t: int| 0 <= t < r@.len() ==> self.data_at(#[trigger] r@[t] as int) is Some,
            forall|i: int| #[trigger] self.data_at(i) is Some ==> r@.contains(i as usize),
    {
        let mut r: Vec<usize> = Vec::new();
        let mut i: usize = 0;
        while i < self.slots.len()
            invariant
                0 <= i <= self.slots@.len(),
                forall|t: int, u: int| 0 <= t < u < r@.len() ==> r@[t] < r@[u],
                forall|t: int| 0 <= t < r@.len() ==> #[trigger] r@[t] < i,
                forall|t: int| 0 <= t < r@.len() ==> self.data_at(#[trigger] r@[t] as int) is Some,
                forall|j: int| 0 <= j < i && #[trigger] self.data_at(j) is Some ==> r@.contains(j as usize),
            decreases self.slots@.len() - i,
        {
            match &self.slots[i] {
                Slot::Occupied { .. } => {
                    let ghost old_r = r@;
                    r.push(i);
                    proof {
                        assert forall|j: int| 0 <= j < i + 1 && #[trigger] self.data_at(j) is Some implies r@.contains(
                            j as usize,
                        ) by {
                            if j == i {
                                assert(r@[r@.len() - 1] == i);
                            } else {
                                assert(old_r.contains(j as usize));
                                let t = choose|t: int| 0 <= t < old_r.len() && old_r[t] == j as usize;
                                assert(r@[t] == j as usize);
                            }
                        }
                    }
                },
                Slot::Free { .. } => {},
            }
            i = i + 1;
        }
        r
    }

    /// The occupied slot indices in insertion order; with `get_mut` they give
    /// mutable access to every value in that order.
    pub fn occupied_indices(&self) -> (r: Vec<usize>)
        requires
            self.wf(),
        ensures
            r@.len() == self.order().len(),
            forall|t: int| 0 <= t < r@.len() ==> #[trigger] r@[t] as int == self.order()[t],
    {
        let mut r: Vec<usize> = Vec::new();
        let mut current: u32 = self.head.0;
        proof {
            lemma_links_at(self.slots@, self.order@, self.free@, 0);
            self.lemma_occupied();
        }
        while current != NONE_VALUE
            invariant
                self.wf(),
                forall|t: int| 0 <= t < self.order@.len() ==> 0 <= #[trigger] self.order@[t] < self.slots@.len(),
                0 <= r@.len() <= self.order@.len(),
                forall|t: int| 0 <= t < r@.len() ==> #[trigger] r@[t] as int == self.order@[t],
                current == (if r@.len() < self.order@.len() {
                    self.order@[r@.len() as int] as u32
                } else {
                    NONE_VALUE
                }),
            decreases self.order@.len() - r@.len(),
        {
            let ghost k = r@.len() as int;
            proof {
                lemma_links_at(self.slots@, self.order@, self.free@, k);
                lemma_links_at(self.slots@, self.order@, self.free@, k + 1);
            }
            let index = current as usize;
            match &self.slots[index] {
                Slot::Occupied { next, .. } => {
                    current = next.0;
                },
                Slot::Free { .. } => {
                    current = NONE_VALUE;
                },
            }
            r.push(index);
        }
        r
    }

    /// Whether one more value fits: a freed slot is waiting, or a new slot
    /// index still fits below the none sentinel.
    pub fn has_room(&self) -> (r: bool)
        requires
            self.wf(),
        ensures
            r == self.can_insert(),
    {
        proof {
            self.lemma_occupied();
        }
        self.free_head.is_some() || self.slots.len() < 4294967295usize
    }

    /// The occupied slots are exactly those on the order list, each once;
    /// the free ones are those on the free list.
    pub proof fn lemma_occupied(&self)
        requires
            self.wf(),
        ensures
            self.total_spec() <= NONE_VALUE,
            self.order().len() + self.free_list().len() == self.total_spec(),
            self.order().no_duplicates(),
            forall|i: int| #[trigger] self.data_at(i) is Some <==> self.order().contains(i),
            forall|t: int| 0 <= t < self.order().len() ==> 0 <= #[trigger] self.order()[t] < self.total_spec(),
            forall|t: int| 0 <= t < self.free_list().len() ==> 0 <= #[trigger] self.free_list()[t] < self.total_spec(),
            forall|t: int| 0 <= t < self.free_list().len() ==> #[trigger] self.data_at(self.free_list()[t]) is None,
    {
        lemma_links_at(self.slots@, self.order@, self.free@, 0);
        assert forall|t: int| 0 <= t < self.free_list().len() implies #[trigger] self.data_at(self.free_list()[t]) is None by {
            lemma_links_at(self.slots@, self.order@, self.free@, t);
        }
        assert forall|t: int| 0 <= t < self.free_list().len() implies 0 <= #[trigger] self.free_list()[t] < self.total_spec() by {
            lemma_links_at(self.slots@, self.order@, self.free@, t);
        }
        assert forall|t: int| 0 <= t < self.order().len() implies 0 <= #[trigger] self.order()[t] < self.total_spec() by {
            lemma_links_at(self.slots@, self.order@, self.free@, t);
        }
        assert forall|i: int| #[trigger] self.data_at(i) is Some <==> self.order().contains(i) by {
            if 0 <= i < self.slots@.len() {
                lemma_links_at(self.slots@, self.order@, self.free@, i);
            }
            if self.order().contains(i) {
                let t = choose|t: int| 0 <= t < self.order@.len() && self.order@[t] == i;
                lemma_links_at(self.slots@, self.order@, self.free@, t);
            }
        }
    }

    /// An empty slot map with room reserved for `capacity` slots.
    pub fn with_capacity(capacity: usize) -> (s: Self)
        ensures
            s.wf(),
            s.order() == Seq::<int>::empty(),
            s.free_list() == Seq::<int>::empty(),
            s.total_spec() == 0,
    {
        proof {
            reveal(order_links);
    reveal(free_links);
    reveal(partition);
        }
        Self {
            head: NonMaxU32::new_none(),
            tail: NonMaxU32::new_none(),
            free_head: NonMaxU32::new_none(),
            slots: Vec::with_capacity(capacity),
            capacity: 0,
            order: Ghost(Seq::empty()),
            free: Ghost(Seq::empty()),
        }
    }

    /// The value in slot `index`, which must be occupied.
    pub fn get_occupied_unchecked(&self, index: usize) -> (r: &T)
        requires
            self.wf(),
            self.data_at(index as int) is Some,
        ensures
            *r == self.data_at(index as int)->0,
    {
        let (data, _, _) = self.slots[index].as_occupied_unchecked();
        data
    }

    /// A mutable reference to the value in slot `index`, which must be occupied.
    pub fn get_occupied_unchecked_mut(&mut self, index: usize) -> (r: &mut T)
        requires
            old(self).wf(),
            old(self).data_at(index as int) is Some,
        ensures
            *r == old(self).data_at(index as int)->0,
            final(self).wf(),
            final(self).order() == old(self).order(),
            final(self).free_list() == old(self).free_list(),
            final(self).total_spec() == old(self).total_spec(),
            final(self).data_at(index as int) == Some(*final(r)),
            forall|j: int| j != index ==> final(self).data_at(j) == old(self).data_at(j),
    {
        proof {
            lemma_update_data(self.slots@, self.order@, self.free@, index as int);
        }
        let (data, _, _) = self.slots[index].as_occupied_unchecked_mut();
        data
    }
}

impl<T> Default for SlotMapOptimized<T> {
    fn default() -> (s: Self)
        ensures
            s.wf(),
            s.order() == Seq::<int>::empty(),
            s.free_list() == Seq::<int>::empty(),
            s.total_spec() == 0,
    {
        Self::new()
    }
}

impl<T> SlotMap for SlotMapOptimized<T> {
    type Id = u32;
    type Data = T;

    proof fn lemma_model(&self) {
        self.lemma_occupied();
    }

    open spec fn index_of(id: u32) -> int {
        id as int
    }

    closed spec fn order(&self) -> Seq<int> {
        self.order@
    }

    closed spec fn free_list(&self) -> Seq<int> {
        self.free@
    }

    closed spec fn total_spec(&self) -> nat {
        self.slots@.len()
    }

    closed spec fn data_at(&self, i: int) -> Option<T> {
        if 0 <= i < self.slots@.len() {
            self.slots@[i].data_of()
        } else {
            None
        }
    }

    closed spec fn wf(&self) -> bool {
        &&& self.slots@.len() <= NONE_VALUE
        &&& self.capacity == self.order@.len()
        &&& self.order@.len() + self.free@.len() == self.slots@.len()
        &&& links_wf(self.slots@, self.order@, self.free@)
        &&& self.head@ == seq_first(self.order@)
        &&& self.tail@ == seq_last(self.order@)
        &&& self.free_head@ == seq_first(self.free@)
    }

    open spec fn can_insert(&self) -> bool {
        self.free_list().len() > 0 || self.total_spec() < NONE_VALUE
    }

    /// Removing a slot that is not occupied is not guarded against.
    open spec fn can_remove(&self, id: u32) -> bool {
        self.data_at(id as int) is Some
    }

    /// The slot is looked up without a bounds check.
    open spec fn can_get(&self, index: usize) -> bool {
        index < self.total_spec()
    }

    fn new() -> (s: Self) {
        proof {
            reveal(order_links);
    reveal(free_links);
    reveal(partition);
        }
        Self {
            head: NonMaxU32::new_none(),
            tail: NonMaxU32::new_none(),
            free_head: NonMaxU32::new_none(),
            slots: Vec::new(),
            capacity: 0,
            order: Ghost(Seq::empty()),
            free: Ghost(Seq::empty()),
        }
    }

    fn insert(&mut self, data: T) -> (idx: u32) {
        let ghost old_order = self.order@;
        let ghost old_free = self.free@;
        let ghost old_slots = self.slots@;
        let ghost gdata = data;
        proof {
            lemma_links_at(old_slots, old_order, old_free, 0);
            lemma_links_at(old_slots, old_order, old_free, old_order.len() - 1);
        }
        let free_idx = self.free_head;
        let insert_idx: u32 = if free_idx.is_none() {
            self.slots.len() as u32
        } else {
            let next_free_idx = *self.slots[free_idx.0 as usize].as_free_unchecked();
            self.free_head = next_free_idx;
            free_idx.0
        };
        let tail_idx = self.tail;
        if tail_idx.is_some() {
            match &mut self.slots[tail_idx.0 as usize] {
                Slot::Occupied { next, .. } => {
                    *next = NonMaxU32(insert_idx);
                },
                Slot::Free { .. } => {},
            }
        }
        let new_slot = Slot::Occupied { data, prev: tail_idx, next: NonMaxU32::new_none() };
        if (insert_idx as usize) < self.slots.len() {
            self.slots.set(insert_idx as usize, new_slot);
        } else {
            self.slots.push(new_slot);
        }
        if self.head.is_none() {
            self.head = NonMaxU32(insert_idx);
        }
        self.tail = NonMaxU32(insert_idx);
        self.capacity = self.capacity + 1;
        proof {
            let ii = insert_idx as int;
            self.order@ = old_order.push(ii);
            if old_free.len() > 0 {
                self.free@ = old_free.skip(1);
                assert(old_slots[ii] is Free);
            }
            lemma_insert(old_slots, old_order, old_free, self.slots@, ii, gdata);
        }
        insert_idx
    }

    fn remove(&mut self, remove_idx: u32) {
        let ghost old_order = self.order@;
        let ghost old_free = self.free@;
        let ghost old_slots = self.slots@;
        let ghost k = old_order.index_of(remove_idx as int);
        proof {
            lemma_links_at(old_slots, old_order, old_free, remove_idx as int);
            lemma_links_at(old_slots, old_order, old_free, k);
            lemma_links_at(old_slots, old_order, old_free, k - 1);
            lemma_links_at(old_slots, old_order, old_free, k + 1);
            lemma_links_at(old_slots, old_order, old_free, 0);
        }
        let (curr_prev, curr_next) = {
            let (_, prev, next) = self.slots[remove_idx as usize].as_occupied_unchecked();
            (*prev, *next)
        };
        if curr_prev.is_some() {
            match &mut self.slots[curr_prev.0 as usize] {
                Slot::Occupied { next, .. } => {
                    *next = curr_next;
                },
                Slot::Free { .. } => {},
            }
        }
        if curr_next.is_some() {
            match &mut self.slots[curr_next.0 as usize] {
                Slot::Occupied { prev, .. } => {
                    *prev = curr_prev;
                },
                Slot::Free { .. } => {},
            }
        }
        self.slots.set(remove_idx as usize, Slot::Free { next_free: self.free_head });
        self.free_head = NonMaxU32(remove_idx);
        if curr_next.is_none() {
            self.tail = curr_prev;
        }
        if curr_prev.is_none() {
            self.head = curr_next;
        }
        self.capacity = self.capacity - 1;
        proof {
            lemma_remove(old_slots, old_order, old_free, self.slots@, k);
            self.order@ = old_order.remove(k);
            self.free@ = seq![remove_idx as int] + old_free;
        }
    }

    fn total(&self) -> (n: usize) {
        self.slots.len()
    }

    fn capacity(&self) -> (n: usize) {
        self.capacity
    }

    fn is_empty(&self) -> (b: bool) {
        self.capacity == 0
    }

    fn get(&self, index: usize) -> (r: Option<&T>) {
        match &self.slots[index] {
            Slot::Occupied { data, .. } => Some(data),
            Slot::Free { .. } => None,
        }
    }

    fn get_mut(&mut self, index: usize) -> (r: Option<&mut T>) {
        proof {
            lemma_links_at(self.slots@, self.order@, self.free@, index as int);
            if self.slots@[index as int] is Occupied {
                lemma_update_data(self.slots@, self.order@, self.free@, index as int);
            }
        }
        if self.slots[index].is_free() {
            None
        } else {
            let (data, _, _) = self.slots[index].as_occupied_unchecked_mut();
            Some(data)
        }
    }
}

impl<T> Linkable for Slot<T> {
    fn prev(&self) -> (r: Option<usize>)
        ensures
            r == (if self is Occupied && self->prev@ is Some {
                Some(self->prev.0 as usize)
            } else {
                None
            }),
    {
        match self {
            Slot::Occupied { prev, .. } => {
                if prev.is_some() {
                    Some(prev.0 as usize)
                } else {
                    None
                }
            },
            Slot::Free { .. } => None,
        }
    }

    fn next(&self) -> (r: Option<usize>)
        ensures
            r == (if self is Occupied && self->next@ is Some {
                Some(self->next.0 as usize)
            } else {
                None
            }),
    {
        match self {
            Slot::Occupied { next, .. } => {
                if next.is_some() {
                    Some(next.0 as usize)
                } else {
                    None
                }
            },
            Slot::Free { .. } => None,
        }
    }
}

impl<T: PartialEq> TestableSlotMap for SlotMapOptimized<T> {
    type Data = T;
    type Utype = u32;
    type Link = Slot<T>;

    fn head(&self) -> (r: Option<u32>)
        ensures
            self.wf() ==> r == opt_u32(seq_first(self.order())),
    {
        if self.head.is_none() {
            None
        } else {
            Some(self.head.0)
        }
    }

    fn tail(&self) -> (r: Option<u32>)
        ensures
            self.wf() ==> r == opt_u32(seq_last(self.order())),
    {
        if self.tail.is_none() {
            None
        } else {
            Some(self.tail.0)
        }
    }

    fn free_head(&self) -> (r: Option<u32>)
        ensures
            self.wf() ==> r == opt_u32(seq_first(self.free_list())),
    {
        if self.free_head.is_none() {
            None
        } else {
            Some(self.free_head.0)
        }
    }

    fn is_occupied(&self, index: usize, check_data: T) -> (r: bool)
        ensures
            r ==> self.data_at(index as int) is Some,
            self.data_at(index as int) is None ==> !r,
            T::obeys_eq_spec() && self.data_at(index as int) is Some ==> r == self.data_at(
                index as int,
            )->0.eq_spec(&check_data),
    {
        if index >= self.slots.len() {
            return false;
        }
        match &self.slots[index] {
            Slot::Free { .. } => false,
            Slot::Occupied { data, .. } => data.eq(&check_data),
        }
    }

    fn get_link(&self, index: usize) -> (r: Option<&Slot<T>>)
        ensures
            r is Some == (self.data_at(index as int) is Some),
            r is Some ==> (index < self.total_spec() && *r->0 == self.slot_at(index as int)),
            r matches Some(l) ==> (self.wf() ==> ({
                let k = self.order().index_of(index as int);
                &&& 0 <= k < self.order().len()
                &&& self.order()[k] == index
                &&& l is Occupied
                &&& l->prev@ == seq_prev(self.order(), k)
                &&& l->next@ == seq_next(self.order(), k)
            })),
    {
        if index >= self.slots.len() {
            return None;
        }
        let slot = &self.slots[index];
        match slot {
            Slot::Free { .. } => None,
            Slot::Occupied { .. } => {
                proof {
                    if self.wf() {
                        lemma_links_at(self.slots@, self.order@, self.free@, index as int);
                        let k = self.order@.index_of(index as int);
                        lemma_links_at(self.slots@, self.order@, self.free@, k);
                    }
                }
                Some(slot)
            },
        }
    }
}

/// A cursor over the values of a slot map in insertion order.
pub struct SlotMapIter<'a, T> {
    slot_map: &'a SlotMapOptimized<T>,
    current: u32,
    /// How many values the cursor has passed.
    pos: Ghost<int>,
}

impl<'a, T> SlotMapIter<'a, T> {
    pub closed spec fn source(&self) -> &'a SlotMapOptimized<T> {
        self.slot_map
    }

    pub closed spec fn pos(&self) -> int {
        self.pos@
    }

    pub closed spec fn wf(&self) -> bool {
        &&& self.slot_map.wf()
        &&& 0 <= self.pos@ <= self.slot_map.order@.len()
        &&& self.current == (if self.pos@ < self.slot_map.order@.len() {
            self.slot_map.order@[self.pos@] as u32
        } else {
            NONE_VALUE
        })
    }

    /// The next value in insertion order, if the cursor has not passed the tail.
    pub fn next(&mut self) -> (r: Option<&'a T>)
        requires
            old(self).wf(),
        ensures
            final(self).wf(),
            final(self).source() == old(self).source(),
            old(self).pos() < old(self).source().order().len() ==> {
                &&& final(self).pos() == old(self).pos() + 1
                &&& r is Some
                &&& *r->0 == slot_values(old(self).source())[old(self).pos()]
            },
            old(self).pos() >= old(self).source().order().len() ==> {
                &&& final(self).pos() == old(self).pos()
                &&& r is None
            },
    {
        let ghost m = self.slot_map;
        proof {
            lemma_links_at(m.slots@, m.order@, m.free@, self.pos@);
        }
        if self.current == NONE_VALUE {
            return None;
        }
        let index = self.current as usize;
        match &self.slot_map.slots[index] {
            Slot::Occupied { data, next, .. } => {
                self.current = next.0;
                proof {
                    self.pos@ = self.pos@ + 1;
                    lemma_links_at(m.slots@, m.order@, m.free@, self.pos@);
                }
                Some(data)
            },
            Slot::Free { .. } => {
                self.current = NONE_VALUE;
                None
            },
        }
    }
}

} // verus!
