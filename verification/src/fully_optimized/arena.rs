//! An arena of packed slots whose list links are kept in a vector of their
//! own.
use vstd::prelude::*;

use crate::fully_optimized::slot::{Occupied, Slot, Tagged, VALUE_MASK};
use crate::fully_optimized::types::NonZeroIndex;

verus! {

/// Packed slots with a doubly linked list of the occupied ones.
pub struct Arena {
    pub slots: Vec<Slot<Tagged>>,
    pub head: Option<NonZeroIndex>,
    pub tail: Option<NonZeroIndex>,
    pub next_free: Option<NonZeroIndex>,
    pub links: Vec<Link>,
    capacity: usize,
}

/// The neighbours of an occupied slot.
pub struct Link {
    pub prev: Option<NonZeroIndex>,
    pub next: Option<NonZeroIndex>,
}

/// The index that an optional link holds.
pub open spec fn link_index(l: Option<NonZeroIndex>) -> Option<int> {
    match l {
        Some(x) => Some(x.index()),
        None => None,
    }
}

/// The links `links` after the neighbours of a slot with links `prev` and
/// `next` are linked to each other.
pub open spec fn bypassed(links: Seq<Link>, prev: Option<NonZeroIndex>, next: Option<NonZeroIndex>) -> Seq<Link> {
    let l1 = match prev {
        Some(p) => links.update(p.index(), Link { prev: links[p.index()].prev, next }),
        None => links,
    };
    match next {
        Some(n) => l1.update(n.index(), Link { prev, next: l1[n.index()].next }),
        None => l1,
    }
}

impl Arena {
    /// The slots.
    pub closed spec fn slot_seq(&self) -> Seq<Slot<Tagged>> {
        self.slots@
    }

    /// The links, one per slot.
    pub closed spec fn link_seq(&self) -> Seq<Link> {
        self.links@
    }

    /// The first occupied slot.
    pub closed spec fn head_spec(&self) -> Option<NonZeroIndex> {
        self.head
    }

    /// The last occupied slot.
    pub closed spec fn tail_spec(&self) -> Option<NonZeroIndex> {
        self.tail
    }

    /// The free slot to be reused next.
    pub closed spec fn next_free_spec(&self) -> Option<NonZeroIndex> {
        self.next_free
    }

    /// The number of occupied slots.
    pub closed spec fn capacity_spec(&self) -> nat {
        self.capacity as nat
    }

    /// The first occupied slot.
    pub fn head(&self) -> (r: &Option<NonZeroIndex>)
        ensures
            *r == self.head_spec(),
    {
        &self.head
    }

    /// The last occupied slot.
    pub fn tail(&self) -> (r: &Option<NonZeroIndex>)
        ensures
            *r == self.tail_spec(),
    {
        &self.tail
    }

    /// The free slot to be reused next.
    pub fn next_free(&self) -> (r: &Option<NonZeroIndex>)
        ensures
            *r == self.next_free_spec(),
    {
        &self.next_free
    }

    /// The number of slots, free or occupied.
    pub fn total(&self) -> (r: usize)
        ensures
            r == self.slot_seq().len(),
    {
        self.slots.len()
    }

    /// The number of occupied slots.
    pub fn capacity(&self) -> (r: usize)
        ensures
            r == self.capacity_spec(),
    {
        self.capacity
    }

    /// Whether no slot is occupied.
    pub fn is_empty(&self) -> (r: bool)
        ensures
            r == (self.capacity_spec() == 0),
    {
        self.capacity == 0
    }

    /// Whether slot `index`, which must exist, is occupied.
    pub fn is_occupied_unchecked(&self, index: usize) -> (r: bool)
        requires
            index < self.slot_seq().len(),
        ensures
            r == self.slot_seq()[index as int].tagged_occupied(),
    {
        self.slots[index].is_occupied()
    }

    /// Whether slot `index`, which must exist, is free.
    pub fn is_free_unchecked(&self, index: usize) -> (r: bool)
        requires
            index < self.slot_seq().len(),
        ensures
            r == !self.slot_seq()[index as int].tagged_occupied(),
    {
        self.slots[index].is_free()
    }

    /// Slot `index`, which must exist.
    pub fn get_unchecked(&self, index: usize) -> (r: &Slot<Tagged>)
        requires
            index < self.slot_seq().len(),
        ensures
            *r == self.slot_seq()[index as int],
    {
        &self.slots[index]
    }

    /// Slot `index`, which must exist, to be changed in place; nothing else
    /// of the arena changes.
    pub fn get_unchecked_mut(&mut self, index: usize) -> (r: &mut Slot<Tagged>)
        requires
            index < old(self).slot_seq().len(),
        ensures
            *r == old(self).slot_seq()[index as int],
            final(self).slot_seq() == old(self).slot_seq().update(index as int, *final(r)),
            final(self).link_seq() == old(self).link_seq(),
            final(self).head_spec() == old(self).head_spec(),
            final(self).tail_spec() == old(self).tail_spec(),
            final(self).next_free_spec() == old(self).next_free_spec(),
            final(self).capacity_spec() == old(self).capacity_spec(),
    {
        &mut self.slots[index]
    }

    /// Stores `order_id` in the free slot to be reused next, or in a new slot
    /// at the end, and links it after the tail.  Returns the slot's index.
    pub fn insert(&mut self, order_id: u64) -> (r: usize)
        requires
            order_id <= VALUE_MASK,
            old(self).link_seq().len() == old(self).slot_seq().len(),
            old(self).slot_seq().len() + 1 < usize::MAX,
            old(self).capacity_spec() + 1 <= usize::MAX,
            old(self).next_free_spec() matches Some(f) ==> {
                &&& f.index() < old(self).slot_seq().len()
                &&& old(self).slot_seq()[f.index()].payload() + 1 < usize::MAX
            },
            old(self).tail_spec() matches Some(t) ==> t.index() < old(self).slot_seq().len(),
        ensures
            ({
                let n = old(self).slot_seq().len();
                let reuse = old(self).next_free_spec() is Some;
                let ii = r as int;
                &&& r == (if reuse {
                    old(self).next_free_spec()->0.index()
                } else {
                    n as int
                })
                &&& final(self).slot_seq().len() == (if reuse {
                    n
                } else {
                    n + 1
                })
                &&& final(self).link_seq().len() == final(self).slot_seq().len()
                &&& final(self).slot_seq()[ii].payload() == order_id
                &&& final(self).slot_seq()[ii].tagged_occupied()
                &&& forall|j: int| 0 <= j < n && j != ii ==> #[trigger] final(self).slot_seq()[j] == old(self).slot_seq()[j]
                &&& final(self).link_seq()[ii] == (Link { prev: old(self).tail_spec(), next: None })
                &&& (old(self).tail_spec() matches Some(t) ==> (t.index() != ii ==> (link_index(
                    final(self).link_seq()[t.index()].next,
                ) == Some(ii) && final(self).link_seq()[t.index()].prev == old(self).link_seq()[t.index()].prev)))
                &&& forall|j: int|
                    0 <= j < n && j != ii && (old(self).tail_spec() is None || j != old(self).tail_spec()->0.index())
                        ==> #[trigger] final(self).link_seq()[j] == old(self).link_seq()[j]
                &&& reuse ==> link_index(final(self).next_free_spec()) == Some(
                    old(self).slot_seq()[old(self).next_free_spec()->0.index()].payload() as int,
                )
                &&& !reuse ==> final(self).next_free_spec() == old(self).next_free_spec()
                &&& link_index(final(self).head_spec()) == (if old(self).head_spec() is None {
                    Some(ii)
                } else {
                    link_index(old(self).head_spec())
                })
                &&& link_index(final(self).tail_spec()) == Some(ii)
                &&& final(self).capacity_spec() == old(self).capacity_spec() + 1
            }),
    {
        let insert_idx: usize = match self.next_free {
            Some(free_idx) => {
                let f = free_idx.to_raw();
                let next = self.slots[f].value();
                self.next_free = Some(NonZeroIndex::from_raw(next as usize));
                f
            },
            None => self.slots.len(),
        };
        let tail_idx = self.tail;
        let some_insert_idx = Some(NonZeroIndex::from_raw(insert_idx));
        match tail_idx {
            Some(t) => {
                let t = t.to_raw();
                self.links[t].next = some_insert_idx;
            },
            None => {},
        }
        let new_link = Link::from_prev_tail(tail_idx);
        if insert_idx < self.slots.len() {
            self.slots[insert_idx].make_occupied();
            self.slots[insert_idx].set_value(order_id);
            self.links.set(insert_idx, new_link);
        } else {
            self.slots.push(Slot::<Occupied>::new(order_id).to_tagged());
            self.links.push(new_link);
        }
        if self.head.is_none() {
            self.head = some_insert_idx;
        }
        self.tail = some_insert_idx;
        self.capacity = self.capacity + 1;
        insert_idx
    }

    /// Links the neighbours of slot `index` to each other and tags the slot
    /// free; an index past the last link is ignored.  The list ends, the free
    /// list and the count are left as they are.
    pub fn remove(&mut self, index: usize)
        requires
            old(self).link_seq().len() == old(self).slot_seq().len(),
            index < old(self).link_seq().len() ==> {
                let l = old(self).link_seq()[index as int];
                &&& (l.prev is Some ==> l.prev->0.index() < old(self).link_seq().len())
                &&& (l.next is Some ==> l.next->0.index() < old(self).link_seq().len())
            },
        ensures
            index >= old(self).link_seq().len() ==> *final(self) == *old(self),
            index < old(self).link_seq().len() ==> {
                let l = old(self).link_seq()[index as int];
                &&& final(self).link_seq() == bypassed(old(self).link_seq(), l.prev, l.next)
                &&& final(self).slot_seq().len() == old(self).slot_seq().len()
                &&& !final(self).slot_seq()[index as int].tagged_occupied()
                &&& final(self).slot_seq()[index as int].payload() == old(self).slot_seq()[index as int].payload()
                &&& forall|j: int| 0 <= j < old(self).slot_seq().len() && j != index ==> #[trigger] final(self).slot_seq()[j]
                    == old(self).slot_seq()[j]
                &&& final(self).head_spec() == old(self).head_spec()
                &&& final(self).tail_spec() == old(self).tail_spec()
                &&& final(self).next_free_spec() == old(self).next_free_spec()
                &&& final(self).capacity_spec() == old(self).capacity_spec()
            },
    {
        if index >= self.links.len() {
            return ;
        }
        let prev = self.links[index].prev;
        let next = self.links[index].next;
        match prev {
            Some(p) => {
                let p = p.to_raw();
                self.links[p].next = next;
            },
            None => {},
        }
        match next {
            Some(n) => {
                let n = n.to_raw();
                self.links[n].prev = prev;
            },
            None => {},
        }
        self.slots[index].make_free();
    }
}

impl Link {
    /// The links of a new tail that follows `prev_tail`.
    pub fn from_prev_tail(prev_tail: Option<NonZeroIndex>) -> (link: Self)
        ensures
            link == (Link { prev: prev_tail, next: None }),
    {
        Self { prev: prev_tail, next: None }
    }
}

} // verus!
