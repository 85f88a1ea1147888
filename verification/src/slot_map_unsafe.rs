//! A slot map with inline links stored as raw `u32` indices, `u32::MAX`
//! standing for none.
use vstd::prelude::*;

use crate::slot_map::links::{
    lemma_lists_at, lemma_lists_empty, lemma_lists_insert, lemma_lists_remove, lists_wf,
    SlotLinks,
};
use crate::slot_map::{
    ix, opt_u32, seq_first, seq_last, seq_next, seq_prev, slot_values, Linkable, SlotMap, TestableSlotMap, NONE_VALUE,
};
use vstd::std_specs::cmp::PartialEqSpec;

verus! {

/// A slot map whose slots carry their list links inline as raw indices.
pub struct SlotMapUnsafe<T> {
    pub head: u32,
    pub tail: u32,
    pub free_head: u32,
    pub slots: Vec<Slot<T>>,
    capacity: u32,
    /// The occupied slot indices, from head to tail.
    order: Ghost<Seq<int>>,
    /// The free slot indices, from the free head on.
    free: Ghost<Seq<int>>,
}

/// A slot: free with the next free slot, or holding a value between its
/// previous and next occupied slot.
pub enum Slot<T> {
    Free { next_free: u32 },
    Occupied { data: T, prev: u32, next: u32 },
}

impl<T> Slot<T> {
    /// The value a slot holds, if it is occupied.
    pub open spec fn data_of(self) -> Option<T> {
        match self {
            Slot::Occupied { data, .. } => Some(data),
            Slot::Free { .. } => None,
        }
    }

    /// Whether the slot is free.
    pub fn is_free(&self) -> (r: bool)
        ensures
            r == (self is Free),
    {
        match self {
            Slot::Free { .. } => true,
            Slot::Occupied { .. } => false,
        }
    }

    /// Mutable references to the value, previous and next link of an occupied slot.
    pub fn as_occupied_unchecked_mut(&mut self) -> (r: (&mut T, &mut u32, &mut u32))
        requires
            *old(self) is Occupied,
        ensures
            *r.0 == (*old(self))->data,
            *r.1 == (*old(self))->prev,
            *r.2 == (*old(self))->next,
            *final(self) == (Slot::Occupied { data: *final(r.0), prev: *final(r.1), next: *final(r.2) }),
    {
        match self {
            Slot::Occupied { data, prev, next } => (data, prev, next),
            Slot::Free { .. } => vstd::pervasive::unreached(),
        }
    }

    /// The links of a slot.
    pub open spec fn links(self) -> SlotLinks {
        match self {
            Slot::Free { next_free } => (false, None, ix(next_free)),
            Slot::Occupied { prev, next, .. } => (true, ix(prev), ix(next)),
        }
    }
}

/// Replacing the value of an occupied slot leaves the links of all slots alone.
proof fn lemma_view_update_data<T>(slots: Seq<Slot<T>>, i: int)
    requires
        0 <= i < slots.len(),
        slots[i] is Occupied,
    ensures
        forall|d: T|
            #![trigger slots.update(i, Slot::Occupied { data: d, prev: slots[i]->prev, next: slots[i]->next })]
            slots.update(i, Slot::Occupied { data: d, prev: slots[i]->prev, next: slots[i]->next }).map_values(
                |s: Slot<T>| s.links(),
            ) == slots.map_values(|s: Slot<T>| s.links()),
{
    assert forall|d: T|
        #![trigger slots.update(i, Slot::Occupied { data: d, prev: slots[i]->prev, next: slots[i]->next })]
        slots.update(i, Slot::Occupied { data: d, prev: slots[i]->prev, next: slots[i]->next }).map_values(
            |s: Slot<T>| s.links(),
        ) == slots.map_values(|s: Slot<T>| s.links()) by {
        assert(slots.update(i, Slot::Occupied { data: d, prev: slots[i]->prev, next: slots[i]->next }).map_values(
            |s: Slot<T>| s.links(),
        ) =~= slots.map_values(|s: Slot<T>| s.links()));
    }
}

impl<T> SlotMapUnsafe<T> {
    /// The links of all slots.
    pub closed spec fn link_view(&self) -> Seq<SlotLinks> {
        self.slots@.map_values(|s: Slot<T>| s.links())
    }

    /// Slot `i` itself, with its links.
    pub closed spec fn slot_at(&self, i: int) -> Slot<T> {
        self.slots@[i]
    }

    /// An iterator over the values in insertion order.
    pub fn iter(&self) -> (it: ArenaIter<'_, T>)
        requires
            self.wf(),
        ensures
            it.wf(),
            it.pos() == 0,
            it.source() == self,
    {
        proof {
            lemma_lists_at(self.link_view(), self.order@, self.free@, 0);
        }
        ArenaIter { arena: self, current: self.head, pos: Ghost(0) }
    }

    /// Whether one more value fits: a freed slot is waiting, or a new slot
    /// index still fits below the none sentinel.
    pub fn has_room(&self) -> (r: bool)
        requires
            self.wf(),
        ensures
            r == self.can_insert(),
    {
        proof {
            self.lemma_occupied();
        }
        self.free_head != NONE_VALUE || self.slots.len() < 4294967295usize
    }

    /// The occupied slots are exactly those on the order list, each once.
    pub proof fn lemma_occupied(&self)
        requires
            self.wf(),
        ensures
            self.total_spec() <= NONE_VALUE,
            self.order().no_duplicates(),
            forall|i: int| #[trigger] self.data_at(i) is Some <==> self.order().contains(i),
            forall|t: int| 0 <= t < self.order().len() ==> 0 <= #[trigger] self.order()[t] < self.total_spec(),
            forall|t: int| 0 <= t < self.free_list().len() ==> #[trigger] self.data_at(self.free_list()[t]) is None,
    {
        lemma_lists_at(self.link_view(), self.order@, self.free@, 0);
        assert forall|t: int| 0 <= t < self.free_list().len() implies #[trigger] self.data_at(self.free_list()[t]) is None by {
            lemma_lists_at(self.link_view(), self.order@, self.free@, t);
            assert(self.link_view()[self.free@[t]] == self.slots@[self.free@[t]].links());
        }
        assert forall|t: int| 0 <= t < self.order().len() implies 0 <= #[trigger] self.order()[t] < self.total_spec() by {
            lemma_lists_at(self.link_view(), self.order@, self.free@, t);
        }
        assert forall|i: int| #[trigger] self.data_at(i) is Some <==> self.order().contains(i) by {
            if 0 <= i < self.slots@.len() {
                lemma_lists_at(self.link_view(), self.order@, self.free@, i);
                assert(self.link_view()[i] == self.slots@[i].links());
            }
            if self.order().contains(i) {
                let t = choose|t: int| 0 <= t < self.order@.len() && self.order@[t] == i;
                lemma_lists_at(self.link_view(), self.order@, self.free@, t);
                assert(self.link_view()[i] == self.slots@[i].links());
            }
        }
    }

    /// An empty slot map with room reserved for `capacity` slots.
    pub fn with_capacity(capacity: usize) -> (s: Self)
        ensures
            s.wf(),
            s.order() == Seq::<int>::empty(),
            s.free_list() == Seq::<int>::empty(),
            s.total_spec() == 0,
    {
        let s = Self {
            head: NONE_VALUE,
            tail: NONE_VALUE,
            free_head: NONE_VALUE,
            slots: Vec::with_capacity(capacity),
            capacity: 0,
            order: Ghost(Seq::empty()),
            free: Ghost(Seq::empty()),
        };
        proof {
            lemma_lists_empty(s.link_view());
        }
        s
    }

    /// The value in slot `index`, which must be occupied.
    pub fn get_occupied_unchecked(&self, index: usize) -> (r: &T)
        requires
            self.wf(),
            self.data_at(index as int) is Some,
        ensures
            *r == self.data_at(index as int)->0,
    {
        match &self.slots[index] {
            Slot::Occupied { data, .. } => data,
            Slot::Free { .. } => vstd::pervasive::unreached(),
        }
    }

    /// A mutable reference to the value in slot `index`, which must be occupied.
    pub fn get_occupied_unchecked_mut(&mut self, index: usize) -> (r: &mut T)
        requires
            old(self).wf(),
            old(self).data_at(index as int) is Some,
        ensures
            *r == old(self).data_at(index as int)->0,
            final(self).wf(),
            final(self).order() == old(self).order(),
            final(self).free_list() == old(self).free_list(),
            final(self).total_spec() == old(self).total_spec(),
            final(self).data_at(index as int) == Some(*final(r)),
            forall|j: int| j != index ==> final(self).data_at(j) == old(self).data_at(j),
    {
        proof {
            lemma_view_update_data(self.slots@, index as int);
        }
        let (data, _, _) = self.slots[index].as_occupied_unchecked_mut();
        data
    }
}

impl<T> Default for SlotMapUnsafe<T> {
    fn default() -> (s: Self)
        ensures
            s.wf(),
            s.order() == Seq::<int>::empty(),
            s.free_list() == Seq::<int>::empty(),
            s.total_spec() == 0,
    {
        Self::new()
    }
}

impl<T> SlotMap for SlotMapUnsafe<T> {
    type Id = u32;
    type Data = T;

    proof fn lemma_model(&self) {
        self.lemma_occupied();
    }

    open spec fn index_of(id: u32) -> int {
        id as int
    }

    closed spec fn order(&self) -> Seq<int> {
        self.order@
    }

    closed spec fn free_list(&self) -> Seq<int> {
        self.free@
    }

    closed spec fn total_spec(&self) -> nat {
        self.slots@.len()
    }

    closed spec fn data_at(&self, i: int) -> Option<T> {
        if 0 <= i < self.slots@.len() {
            self.slots@[i].data_of()
        } else {
            None
        }
    }

    closed spec fn wf(&self) -> bool {
        &&& self.slots@.len() <= NONE_VALUE
        &&& self.capacity == self.order@.len()
        &&& self.order@.len() + self.free@.len() == self.slots@.len()
        &&& lists_wf(self.link_view(), self.order@, self.free@)
        &&& ix(self.head) == seq_first(self.order@)
        &&& ix(self.tail) == seq_last(self.order@)
        &&& ix(self.free_head) == seq_first(self.free@)
    }

    open spec fn can_insert(&self) -> bool {
        self.free_list().len() > 0 || self.total_spec() < NONE_VALUE
    }

    /// Removing a slot that is not occupied is not guarded against.
    open spec fn can_remove(&self, id: u32) -> bool {
        self.data_at(id as int) is Some
    }

    /// The slot is looked up without a bounds check.
    open spec fn can_get(&self, index: usize) -> bool {
        index < self.total_spec()
    }

    fn new() -> (s: Self) {
        let s = Self {
            head: NONE_VALUE,
            tail: NONE_VALUE,
            free_head: NONE_VALUE,
            slots: Vec::new(),
            capacity: 0,
            order: Ghost(Seq::empty()),
            free: Ghost(Seq::empty()),
        };
        proof {
            lemma_lists_empty(s.link_view());
        }
        s
    }

    fn insert(&mut self, data: T) -> (idx: u32) {
        let ghost old_order = self.order@;
        let ghost old_free = self.free@;
        let ghost old_slots = self.slots@;
        let ghost old_v = self.link_view();
        proof {
            lemma_lists_at(old_v, old_order, old_free, 0);
            lemma_lists_at(old_v, old_order, old_free, old_order.len() - 1);
        }
        let free_idx = self.free_head;
        let insert_idx: u32 = if free_idx == NONE_VALUE {
            self.slots.len() as u32
        } else {
            let next_free_idx = match &self.slots[free_idx as usize] {
                Slot::Free { next_free } => *next_free,
                Slot::Occupied { .. } => vstd::pervasive::unreached(),
            };
            self.free_head = next_free_idx;
            free_idx
        };
        let tail_idx = self.tail;
        if tail_idx != NONE_VALUE {
            match &mut self.slots[tail_idx as usize] {
                Slot::Occupied { next, .. } => {
                    *next = insert_idx;
                },
                Slot::Free { .. } => {},
            }
        }
        let new_slot = Slot::Occupied { data, prev: tail_idx, next: NONE_VALUE };
        if (insert_idx as usize) < self.slots.len() {
            self.slots.set(insert_idx as usize, new_slot);
        } else {
            self.slots.push(new_slot);
        }
        if self.head == NONE_VALUE {
            self.head = insert_idx;
        }
        self.tail = insert_idx;
        self.capacity = self.capacity + 1;
        proof {
            let ii = insert_idx as int;
            let new_v = self.link_view();
            assert forall|j: int|
                0 <= j < old_v.len() && j != ii && (old_order.len() == 0 || j != old_order.last())
                    implies #[trigger] new_v[j] == old_v[j] by {
                assert(self.slots@[j] == old_slots[j]);
            }
            lemma_lists_insert(old_v, old_order, old_free, new_v, ii);
            self.order@ = old_order.push(ii);
            if old_free.len() > 0 {
                self.free@ = old_free.skip(1);
            }
        }
        insert_idx
    }

    fn remove(&mut self, remove_idx: u32) {
        let ghost old_order = self.order@;
        let ghost old_free = self.free@;
        let ghost old_slots = self.slots@;
        let ghost old_v = self.link_view();
        let ghost i = remove_idx as int;
        proof {
            lemma_lists_at(old_v, old_order, old_free, i);
        }
        let ghost k = old_order.index_of(i);
        proof {
            lemma_lists_at(old_v, old_order, old_free, k);
            lemma_lists_at(old_v, old_order, old_free, k - 1);
            lemma_lists_at(old_v, old_order, old_free, k + 1);
            lemma_lists_at(old_v, old_order, old_free, 0);
        }
        let (curr_prev, curr_next) = match &self.slots[remove_idx as usize] {
            Slot::Occupied { prev, next, .. } => (*prev, *next),
            Slot::Free { .. } => vstd::pervasive::unreached(),
        };
        if curr_prev != NONE_VALUE {
            match &mut self.slots[curr_prev as usize] {
                Slot::Occupied { next, .. } => {
                    *next = curr_next;
                },
                Slot::Free { .. } => {},
            }
        }
        if curr_next != NONE_VALUE {
            match &mut self.slots[curr_next as usize] {
                Slot::Occupied { prev, .. } => {
                    *prev = curr_prev;
                },
                Slot::Free { .. } => {},
            }
        }
        self.slots.set(remove_idx as usize, Slot::Free { next_free: self.free_head });
        self.free_head = remove_idx;
        if curr_next == NONE_VALUE {
            self.tail = curr_prev;
        }
        if curr_prev == NONE_VALUE {
            self.head = curr_next;
        }
        self.capacity = self.capacity - 1;
        proof {
            let new_v = self.link_view();
            assert forall|j: int|
                0 <= j < old_v.len() && j != old_order[k] && (k == 0 || j != old_order[k - 1]) && (k
                    + 1 >= old_order.len() || j != old_order[k + 1]) implies #[trigger] new_v[j] == old_v[j] by {
                assert(self.slots@[j] == old_slots[j]);
            }
            lemma_lists_remove(old_v, old_order, old_free, new_v, k);
            self.order@ = old_order.remove(k);
            self.free@ = seq![i] + old_free;
            assert forall|j: int| j != i implies self.data_at(j) == old(self).data_at(j) by {
                if 0 <= j < old_slots.len() {
                    assert(self.slots@[j].data_of() == old_slots[j].data_of());
                }
            }
        }
    }

    fn total(&self) -> (n: usize) {
        self.slots.len()
    }

    fn capacity(&self) -> (n: usize) {
        self.capacity as usize
    }

    fn is_empty(&self) -> (b: bool) {
        self.capacity == 0
    }

    fn get(&self, index: usize) -> (r: Option<&T>) {
        match &self.slots[index] {
            Slot::Occupied { data, .. } => Some(data),
            Slot::Free { .. } => None,
        }
    }

    fn get_mut(&mut self, index: usize) -> (r: Option<&mut T>) {
        proof {
            if self.slots@[index as int] is Occupied {
                lemma_view_update_data(self.slots@, index as int);
            }
        }
        if self.slots[index].is_free() {
            None
        } else {
            let (data, _, _) = self.slots[index].as_occupied_unchecked_mut();
            Some(data)
        }
    }
}

impl<T> Linkable for Slot<T> {
    fn prev(&self) -> (r: Option<usize>)
        ensures
            r == (if self is Occupied && self->prev != NONE_VALUE {
                Some(self->prev as usize)
            } else {
                None
            }),
    {
        match self {
            Slot::Occupied { prev, .. } => {
                if *prev != NONE_VALUE {
                    Some(*prev as usize)
                } else {
                    None
                }
            },
            Slot::Free { .. } => None,
        }
    }

    fn next(&self) -> (r: Option<usize>)
        ensures
            r == (if self is Occupied && self->next != NONE_VALUE {
                Some(self->next as usize)
            } else {
                None
            }),
    {
        match self {
            Slot::Occupied { next, .. } => {
                if *next != NONE_VALUE {
                    Some(*next as usize)
                } else {
                    None
                }
            },
            Slot::Free { .. } => None,
        }
    }
}

impl<T: PartialEq> TestableSlotMap for SlotMapUnsafe<T> {
    type Data = T;
    type Utype = u32;
    type Link = Slot<T>;

    fn head(&self) -> (r: Option<u32>)
        ensures
            self.wf() ==> r == opt_u32(seq_first(self.order())),
    {
        if self.head == NONE_VALUE {
            None
        } else {
            Some(self.head)
        }
    }

    fn tail(&self) -> (r: Option<u32>)
        ensures
            self.wf() ==> r == opt_u32(seq_last(self.order())),
    {
        if self.tail == NONE_VALUE {
            None
        } else {
            Some(self.tail)
        }
    }

    fn free_head(&self) -> (r: Option<u32>)
        ensures
            self.wf() ==> r == opt_u32(seq_first(self.free_list())),
    {
        if self.free_head == NONE_VALUE {
            None
        } else {
            Some(self.free_head)
        }
    }

    fn is_occupied(&self, index: usize, check_data: T) -> (r: bool)
        ensures
            r ==> self.data_at(index as int) is Some,
            self.data_at(index as int) is None ==> !r,
            T::obeys_eq_spec() && self.data_at(index as int) is Some ==> r == self.data_at(
                index as int,
            )->0.eq_spec(&check_data),
    {
        if index >= self.slots.len() {
            return false;
        }
        match &self.slots[index] {
            Slot::Free { .. } => false,
            Slot::Occupied { data, .. } => data.eq(&check_data),
        }
    }

    fn get_link(&self, index: usize) -> (r: Option<&Slot<T>>)
        ensures
            r is Some == (self.data_at(index as int) is Some),
            r is Some ==> (index < self.total_spec() && *r->0 == self.slot_at(index as int)),
            r matches Some(l) ==> (self.wf() ==> ({
                let k = self.order().index_of(index as int);
                &&& 0 <= k < self.order().len()
                &&& self.order()[k] == index
                &&& l is Occupied
                &&& l.links().1 == seq_prev(self.order(), k)
                &&& l.links().2 == seq_next(self.order(), k)
            })),
    {
        if index >= self.slots.len() {
            return None;
        }
        let slot = &self.slots[index];
        match slot {
            Slot::Free { .. } => None,
            Slot::Occupied { .. } => {
                proof {
                    if self.wf() {
                        lemma_lists_at(self.link_view(), self.order@, self.free@, index as int);
                        let k = self.order@.index_of(index as int);
                        lemma_lists_at(self.link_view(), self.order@, self.free@, k);
                        assert(self.link_view()[index as int] == self.slots@[index as int].links());
                    }
                }
                Some(slot)
            },
        }
    }
}

/// A cursor over the values of a slot map in insertion order.
pub struct ArenaIter<'a, T> {
    arena: &'a SlotMapUnsafe<T>,
    current: u32,
    /// How many values the cursor has passed.
    pos: Ghost<int>,
}

impl<'a, T> ArenaIter<'a, T> {
    pub closed spec fn source(&self) -> &'a SlotMapUnsafe<T> {
        self.arena
    }

    pub closed spec fn pos(&self) -> int {
        self.pos@
    }

    pub closed spec fn wf(&self) -> bool {
        &&& self.arena.wf()
        &&& 0 <= self.pos@ <= self.arena.order@.len()
        &&& ix(self.current) == (if self.pos@ < self.arena.order@.len() {
            Some(self.arena.order@[self.pos@])
        } else {
            None::<int>
        })
    }

    /// The next value in insertion order, if the cursor has not passed the tail.
    pub fn next(&mut self) -> (r: Option<&'a T>)
        requires
            old(self).wf(),
        ensures
            final(self).wf(),
            final(self).source() == old(self).source(),
            old(self).pos() < old(self).source().order().len() ==> {
                &&& final(self).pos() == old(self).pos() + 1
                &&& r is Some
                &&& *r->0 == slot_values(old(self).source())[old(self).pos()]
            },
            old(self).pos() >= old(self).source().order().len() ==> {
                &&& final(self).pos() == old(self).pos()
                &&& r is None
            },
    {
        let ghost m = self.arena;
        proof {
            lemma_lists_at(m.link_view(), m.order@, m.free@, self.pos@);
        }
        if self.current == NONE_VALUE {
            return None;
        }
        let index = self.current as usize;
        match &self.arena.slots[index] {
            Slot::Occupied { data, next, .. } => {
                self.current = *next;
                proof {
                    self.pos@ = self.pos@ + 1;
                    lemma_lists_at(m.link_view(), m.order@, m.free@, self.pos@);
                }
                Some(data)
            },
            Slot::Free { .. } => {
                self.current = NONE_VALUE;
                None
            },
        }
    }
}

} // verus!
