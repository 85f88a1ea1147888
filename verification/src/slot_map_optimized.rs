//! A slot map that keeps the values and the list links of its slots in two
//! parallel vectors; links are raw `u32` indices, `u32::MAX` standing for none.
use vstd::prelude::*;

use crate::slot_map::links::{
    lemma_lists_at, lemma_lists_empty, lemma_lists_insert, lemma_lists_remove, lists_wf,
    SlotLinks,
};
use crate::slot_map::{
    ix, opt_u32, seq_first, seq_last, seq_next, seq_prev, slot_values, Linkable, SlotMap, TestableSlotMap, NONE_VALUE,
};
use vstd::std_specs::cmp::PartialEqSpec;

verus! {

/// A slot map whose list links live beside its values.
pub struct SlotMapOptimized<T> {
    pub head: u32,
    pub tail: u32,
    pub free_head: u32,
    slots: Vec<Slot<T>>,
    pub links: Vec<Option<Link>>,
    capacity: u32,
    /// The occupied slot indices, from head to tail.
    order: Ghost<Seq<int>>,
    /// The free slot indices, from the free head on.
    free: Ghost<Seq<int>>,
}

/// A slot: holding a value, or free with the next free slot.
pub enum Slot<T> {
    Occupied(T),
    Free(u32),
}

/// The links of an occupied slot.
pub struct Link {
    pub prev: u32,
    pub next: u32,
}

impl<T> Slot<T> {
    /// The value a slot holds, if it is occupied.
    pub open spec fn data_of(self) -> Option<T> {
        match self {
            Slot::Occupied(data) => Some(data),
            Slot::Free(_) => None,
        }
    }

    /// Whether the slot is free.
    pub fn is_free(&self) -> (r: bool)
        ensures
            r == (self is Free),
    {
        match self {
            Slot::Free(_) => true,
            Slot::Occupied(_) => false,
        }
    }

    /// A mutable reference to the value of an occupied slot.
    pub fn as_occupied_unchecked_mut(&mut self) -> (r: &mut T)
        requires
            *old(self) is Occupied,
        ensures
            *r == (*old(self))->Occupied_0,
            *final(self) == Slot::Occupied(*final(r)),
    {
        match self {
            Slot::Occupied(data) => data,
            Slot::Free(_) => vstd::pervasive::unreached(),
        }
    }
}

/// The links of a slot and its entry in the link vector.
pub open spec fn links_of<T>(s: Slot<T>, l: Option<Link>) -> SlotLinks {
    match s {
        Slot::Occupied(_) => match l {
            Some(k) => (true, ix(k.prev), ix(k.next)),
            None => (true, None, None),
        },
        Slot::Free(n) => (false, None, ix(n)),
    }
}

/// The links of all slots.
pub open spec fn view_of<T>(slots: Seq<Slot<T>>, links: Seq<Option<Link>>) -> Seq<SlotLinks> {
    Seq::new(slots.len(), |i: int| links_of(slots[i], links[i]))
}

/// Replacing the value of an occupied slot leaves the links of all slots alone.
proof fn lemma_view_update_data<T>(slots: Seq<Slot<T>>, links: Seq<Option<Link>>, i: int)
    requires
        0 <= i < slots.len(),
        slots[i] is Occupied,
    ensures
        forall|d: T| #[trigger] view_of(slots.update(i, Slot::Occupied(d)), links) == view_of(slots, links),
{
    assert forall|d: T| #[trigger] view_of(slots.update(i, Slot::Occupied(d)), links) == view_of(slots, links) by {
        assert(view_of(slots.update(i, Slot::Occupied(d)), links) =~= view_of(slots, links));
    }
}

impl<T> SlotMapOptimized<T> {
    /// The occupied slots are exactly those on the order list, each once.
    pub proof fn lemma_occupied(&self)
        requires
            self.wf(),
        ensures
            self.total_spec() <= NONE_VALUE,
            self.order().no_duplicates(),
            forall|i: int| #[trigger] self.data_at(i) is Some <==> self.order().contains(i),
            forall|t: int| 0 <= t < self.order().len() ==> 0 <= #[trigger] self.order()[t] < self.total_spec(),
            forall|t: int| 0 <= t < self.free_list().len() ==> #[trigger] self.data_at(self.free_list()[t]) is None,
    {
        lemma_lists_at(self.link_view(), self.order@, self.free@, 0);
        assert forall|t: int| 0 <= t < self.free_list().len() implies #[trigger] self.data_at(self.free_list()[t]) is None by {
            lemma_lists_at(self.link_view(), self.order@, self.free@, t);
            assert(self.link_view()[self.free@[t]] == links_of(self.slots@[self.free@[t]], self.links@[self.free@[t]]));
        }
        assert forall|t: int| 0 <= t < self.order().len() implies 0 <= #[trigger] self.order()[t] < self.total_spec() by {
            lemma_lists_at(self.link_view(), self.order@, self.free@, t);
        }
        assert forall|i: int| #[trigger] self.data_at(i) is Some <==> self.order().contains(i) by {
            if 0 <= i < self.slots@.len() {
                lemma_lists_at(self.link_view(), self.order@, self.free@, i);
                assert(self.link_view()[i] == links_of(self.slots@[i], self.links@[i]));
            }
            if self.order().contains(i) {
                let t = choose|t: int| 0 <= t < self.order@.len() && self.order@[t] == i;
                lemma_lists_at(self.link_view(), self.order@, self.free@, t);
                assert(self.link_view()[i] == links_of(self.slots@[i], self.links@[i]));
            }
        }
    }

    /// The links of all slots.
    pub closed spec fn link_view(&self) -> Seq<SlotLinks> {
        view_of(self.slots@, self.links@)
    }

    /// An iterator over the values in insertion order.
    pub fn iter(&self) -> (it: ArenaIter<'_, T>)
        requires
            self.wf(),
        ensures
            it.wf(),
            it.pos() == 0,
            it.source() == self,
    {
        proof {
            lemma_lists_at(self.link_view(), self.order@, self.free@, 0);
        }
        ArenaIter { arena: self, current: self.head, pos: Ghost(0) }
    }

    /// An empty slot map with room reserved for `capacity` slots.
    pub fn with_capacity(capacity: usize) -> (s: Self)
        ensures
            s.wf(),
            s.order() == Seq::<int>::empty(),
            s.free_list() == Seq::<int>::empty(),
            s.total_spec() == 0,
    {
        let s = Self {
            head: NONE_VALUE,
            tail: NONE_VALUE,
            free_head: NONE_VALUE,
            slots: Vec::with_capacity(capacity),
            links: Vec::with_capacity(capacity),
            capacity: 0,
            order: Ghost(Seq::empty()),
            free: Ghost(Seq::empty()),
        };
        proof {
            lemma_lists_empty(s.link_view());
        }
        s
    }
}

impl<T> Default for SlotMapOptimized<T> {
    fn default() -> (s: Self)
        ensures
            s.wf(),
            s.order() == Seq::<int>::empty(),
            s.free_list() == Seq::<int>::empty(),
            s.total_spec() == 0,
    {
        Self::new()
    }
}

impl<T> SlotMap for SlotMapOptimized<T> {
    type Id = u32;
    type Data = T;

    proof fn lemma_model(&self) {
        self.lemma_occupied();
    }

    open spec fn index_of(id: u32) -> int {
        id as int
    }

    closed spec fn order(&self) -> Seq<int> {
        self.order@
    }

    closed spec fn free_list(&self) -> Seq<int> {
        self.free@
    }

    closed spec fn total_spec(&self) -> nat {
        self.slots@.len()
    }

    closed spec fn data_at(&self, i: int) -> Option<T> {
        if 0 <= i < self.slots@.len() {
            self.slots@[i].data_of()
        } else {
            None
        }
    }

    closed spec fn wf(&self) -> bool {
        &&& self.slots@.len() <= NONE_VALUE
        &&& self.links@.len() == self.slots@.len()
        &&& forall|i: int| 0 <= i < self.slots@.len() ==> (#[trigger] self.slots@[i] is Occupied) == (self.links@[i] is Some)
        &&& self.capacity == self.order@.len()
        &&& self.order@.len() + self.free@.len() == self.slots@.len()
        &&& lists_wf(self.link_view(), self.order@, self.free@)
        &&& ix(self.head) == seq_first(self.order@)
        &&& ix(self.tail) == seq_last(self.order@)
        &&& ix(self.free_head) == seq_first(self.free@)
    }

    open spec fn can_insert(&self) -> bool {
        self.free_list().len() > 0 || self.total_spec() < NONE_VALUE
    }

    /// Any identifier can be removed: one that names no occupied slot is ignored.
    open spec fn can_remove(&self, id: u32) -> bool {
        true
    }

    /// Lookups are bounds checked.
    open spec fn can_get(&self, index: usize) -> bool {
        true
    }

    fn new() -> (s: Self) {
        let s = Self {
            head: NONE_VALUE,
            tail: NONE_VALUE,
            free_head: NONE_VALUE,
            slots: Vec::new(),
            links: Vec::new(),
            capacity: 0,
            order: Ghost(Seq::empty()),
            free: Ghost(Seq::empty()),
        };
        proof {
            lemma_lists_empty(s.link_view());
        }
        s
    }

    fn insert(&mut self, data: T) -> (idx: u32) {
        let ghost old_order = self.order@;
        let ghost old_free = self.free@;
        let ghost old_slots = self.slots@;
        let ghost old_links = self.links@;
        let ghost old_v = self.link_view();
        proof {
            lemma_lists_at(old_v, old_order, old_free, 0);
            lemma_lists_at(old_v, old_order, old_free, old_order.len() - 1);
        }
        let free_idx = self.free_head;
        let insert_idx: u32 = if free_idx == NONE_VALUE {
            self.slots.len() as u32
        } else {
            let next_free_idx = match &self.slots[free_idx as usize] {
                Slot::Free(next_free) => *next_free,
                Slot::Occupied(_) => vstd::pervasive::unreached(),
            };
            self.free_head = next_free_idx;
            free_idx
        };
        let tail_idx = self.tail;
        if tail_idx != NONE_VALUE {
            match &mut self.links[tail_idx as usize] {
                Some(tail_link) => {
                    tail_link.next = insert_idx;
                },
                None => {},
            }
        }
        let new_slot = Slot::Occupied(data);
        let new_link = Some(Link::from_prev_tail(tail_idx));
        if (insert_idx as usize) < self.slots.len() {
            self.slots.set(insert_idx as usize, new_slot);
            self.links.set(insert_idx as usize, new_link);
        } else {
            self.slots.push(new_slot);
            self.links.push(new_link);
        }
        if self.head == NONE_VALUE {
            self.head = insert_idx;
        }
        self.tail = insert_idx;
        self.capacity = self.capacity + 1;
        proof {
            let ii = insert_idx as int;
            let new_v = self.link_view();
            assert forall|j: int|
                0 <= j < old_v.len() && j != ii && (old_order.len() == 0 || j != old_order.last())
                    implies #[trigger] new_v[j] == old_v[j] by {
                assert(self.slots@[j] == old_slots[j]);
                assert(self.links@[j] == old_links[j]);
            }
            if old_order.len() > 0 {
                let t = old_order.last();
                assert(old_slots[t] is Occupied);
            }
            lemma_lists_insert(old_v, old_order, old_free, new_v, ii);
            self.order@ = old_order.push(ii);
            if old_free.len() > 0 {
                self.free@ = old_free.skip(1);
            }
            assert forall|i: int| 0 <= i < self.slots@.len() implies (#[trigger] self.slots@[i] is Occupied) == (
            self.links@[i] is Some) by {
                if i < old_slots.len() && i != ii {
                    assert(self.slots@[i] == old_slots[i]);
                }
            }
        }
        insert_idx
    }

    fn remove(&mut self, remove_idx: u32) {
        let ghost old_order = self.order@;
        let ghost old_free = self.free@;
        let ghost old_slots = self.slots@;
        let ghost old_links = self.links@;
        let ghost old_v = self.link_view();
        let ghost i = remove_idx as int;
        if remove_idx as usize >= self.links.len() {
            return ;
        }
        let (curr_prev, curr_next) = match &self.links[remove_idx as usize] {
            Some(curr_link) => (curr_link.prev, curr_link.next),
            None => {
                return ;
            },
        };
        proof {
            lemma_lists_at(old_v, old_order, old_free, i);
        }
        let ghost k = old_order.index_of(i);
        proof {
            lemma_lists_at(old_v, old_order, old_free, k);
            lemma_lists_at(old_v, old_order, old_free, k - 1);
            lemma_lists_at(old_v, old_order, old_free, k + 1);
            lemma_lists_at(old_v, old_order, old_free, 0);
        }
        if curr_prev != NONE_VALUE && (curr_prev as usize) < self.links.len() {
            match &mut self.links[curr_prev as usize] {
                Some(prev_link) => {
                    prev_link.next = curr_next;
                },
                None => {},
            }
        }
        if curr_next != NONE_VALUE && (curr_next as usize) < self.links.len() {
            match &mut self.links[curr_next as usize] {
                Some(next_link) => {
                    next_link.prev = curr_prev;
                },
                None => {},
            }
        }
        self.slots.set(remove_idx as usize, Slot::Free(self.free_head));
        self.links.set(remove_idx as usize, None);
        self.free_head = remove_idx;
        if curr_next == NONE_VALUE {
            self.tail = curr_prev;
        }
        if curr_prev == NONE_VALUE {
            self.head = curr_next;
        }
        self.capacity = self.capacity - 1;
        proof {
            let new_v = self.link_view();
            if k > 0 {
                assert(old_slots[old_order[k - 1]] is Occupied);
            }
            if k + 1 < old_order.len() {
                assert(old_slots[old_order[k + 1]] is Occupied);
            }
            assert forall|j: int|
                0 <= j < old_v.len() && j != old_order[k] && (k == 0 || j != old_order[k - 1]) && (k
                    + 1 >= old_order.len() || j != old_order[k + 1]) implies #[trigger] new_v[j] == old_v[j] by {
                assert(self.slots@[j] == old_slots[j]);
                assert(self.links@[j] == old_links[j]);
            }
            lemma_lists_remove(old_v, old_order, old_free, new_v, k);
            self.order@ = old_order.remove(k);
            self.free@ = seq![i] + old_free;
            assert forall|j: int| j != i implies self.data_at(j) == old(self).data_at(j) by {
                if 0 <= j < old_slots.len() {
                    assert(self.slots@[j] == old_slots[j]);
                }
            }
            assert forall|j: int| 0 <= j < self.slots@.len() implies (#[trigger] self.slots@[j] is Occupied) == (
            self.links@[j] is Some) by {
                if j != i {
                    assert(self.slots@[j] == old_slots[j]);
                    assert(old_slots[j] is Occupied == old_links[j] is Some);
                }
            }
        }
    }

    fn total(&self) -> (n: usize) {
        self.slots.len()
    }

    fn capacity(&self) -> (n: usize) {
        self.capacity as usize
    }

    fn is_empty(&self) -> (b: bool) {
        self.capacity == 0
    }

    fn get(&self, index: usize) -> (r: Option<&T>) {
        if index >= self.slots.len() {
            return None;
        }
        match &self.slots[index] {
            Slot::Occupied(data) => Some(data),
            Slot::Free(_) => None,
        }
    }

    fn get_mut(&mut self, index: usize) -> (r: Option<&mut T>) {
        if index >= self.slots.len() {
            return None;
        }
        proof {
            if self.slots@[index as int] is Occupied {
                lemma_view_update_data(self.slots@, self.links@, index as int);
            }
        }
        if self.slots[index].is_free() {
            None
        } else {
            let data = self.slots[index].as_occupied_unchecked_mut();
            Some(data)
        }
    }
}

impl<T: PartialEq> TestableSlotMap for SlotMapOptimized<T> {
    type Data = T;
    type Utype = u32;
    type Link = Link;

    fn head(&self) -> (r: Option<u32>)
        ensures
            self.wf() ==> r == opt_u32(seq_first(self.order())),
    {
        if self.head == NONE_VALUE {
            None
        } else {
            Some(self.head)
        }
    }

    fn tail(&self) -> (r: Option<u32>)
        ensures
            self.wf() ==> r == opt_u32(seq_last(self.order())),
    {
        if self.tail == NONE_VALUE {
            None
        } else {
            Some(self.tail)
        }
    }

    fn free_head(&self) -> (r: Option<u32>)
        ensures
            self.wf() ==> r == opt_u32(seq_first(self.free_list())),
    {
        if self.free_head == NONE_VALUE {
            None
        } else {
            Some(self.free_head)
        }
    }

    fn is_occupied(&self, index: usize, check_data: T) -> (r: bool)
        ensures
            r ==> self.data_at(index as int) is Some,
            self.data_at(index as int) is None ==> !r,
            T::obeys_eq_spec() && self.data_at(index as int) is Some ==> r == self.data_at(
                index as int,
            )->0.eq_spec(&check_data),
    {
        if index >= self.slots.len() {
            return false;
        }
        match &self.slots[index] {
            Slot::Free(_) => false,
            Slot::Occupied(data) => data.eq(&check_data),
        }
    }

    /// The links of slot `index`, if it is occupied; `None` for an index past
    /// the last slot.
    fn get_link(&self, index: usize) -> (r: Option<&Link>)
        ensures
            self.wf() ==> (r is Some == (self.data_at(index as int) is Some)),
            r matches Some(l) ==> (self.wf() ==> index < self.total_spec() && self.link_view()[index as int] == (
                true,
                ix(l.prev),
                ix(l.next),
            )),
            r matches Some(l) ==> (self.wf() ==> ({
                let k = self.order().index_of(index as int);
                &&& 0 <= k < self.order().len()
                &&& self.order()[k] == index
                &&& ix(l.prev) == seq_prev(self.order(), k)
                &&& ix(l.next) == seq_next(self.order(), k)
            })),
    {
        if index >= self.links.len() {
            return None;
        }
        match &self.links[index] {
            Some(link) => {
                proof {
                    if self.wf() {
                        lemma_lists_at(self.link_view(), self.order@, self.free@, index as int);
                        let k = self.order@.index_of(index as int);
                        lemma_lists_at(self.link_view(), self.order@, self.free@, k);
                    }
                }
                Some(link)
            },
            None => None,
        }
    }
}

impl Link {
    /// The links of a new tail that follows `prev_tail`.
    pub fn from_prev_tail(prev_tail: u32) -> (link: Self)
        ensures
            link == (Link { prev: prev_tail, next: NONE_VALUE }),
    {
        Self { prev: prev_tail, next: NONE_VALUE }
    }
}

impl Linkable for Link {
    fn prev(&self) -> (r: Option<usize>)
        ensures
            r == (if self.prev == NONE_VALUE {
                None
            } else {
                Some(self.prev as usize)
            }),
    {
        if self.prev == NONE_VALUE {
            None
        } else {
            Some(self.prev as usize)
        }
    }

    fn next(&self) -> (r: Option<usize>)
        ensures
            r == (if self.next == NONE_VALUE {
                None
            } else {
                Some(self.next as usize)
            }),
    {
        if self.next == NONE_VALUE {
            None
        } else {
            Some(self.next as usize)
        }
    }
}

/// A cursor over the values of a slot map in insertion order.
pub struct ArenaIter<'a, T> {
    arena: &'a SlotMapOptimized<T>,
    current: u32,
    /// How many values the cursor has passed.
    pos: Ghost<int>,
}

impl<'a, T> ArenaIter<'a, T> {
    pub closed spec fn source(&self) -> &'a SlotMapOptimized<T> {
        self.arena
    }

    pub closed spec fn pos(&self) -> int {
        self.pos@
    }

    pub closed spec fn wf(&self) -> bool {
        &&& self.arena.wf()
        &&& 0 <= self.pos@ <= self.arena.order@.len()
        &&& ix(self.current) == (if self.pos@ < self.arena.order@.len() {
            Some(self.arena.order@[self.pos@])
        } else {
            None::<int>
        })
    }

    /// The next value in insertion order, if the cursor has not passed the tail.
    pub fn next(&mut self) -> (r: Option<&'a T>)
        requires
            old(self).wf(),
        ensures
            final(self).wf(),
            final(self).source() == old(self).source(),
            old(self).pos() < old(self).source().order().len() ==> {
                &&& final(self).pos() == old(self).pos() + 1
                &&& r is Some
                &&& *r->0 == slot_values(old(self).source())[old(self).pos()]
            },
            old(self).pos() >= old(self).source().order().len() ==> {
                &&& final(self).pos() == old(self).pos()
                &&& r is None
            },
    {
        let ghost m = self.arena;
        proof {
            lemma_lists_at(m.link_view(), m.order@, m.free@, self.pos@);
        }
        if self.current == NONE_VALUE {
            return None;
        }
        let index = self.current as usize;
        match (&self.arena.slots[index], &self.arena.links[index]) {
            (Slot::Occupied(data), Some(link)) => {
                self.current = link.next;
                proof {
                    self.pos@ = self.pos@ + 1;
                    lemma_lists_at(m.link_view(), m.order@, m.free@, self.pos@);
                }
                Some(data)
            },
            _ => {
                self.current = NONE_VALUE;
                None
            },
        }
    }
}

} // verus!
