//! A slot map of the packed design whose slots link by raw `u32` indices,
//! `u32::MAX` standing for none.
use vstd::prelude::*;

verus! {

/// A slot map over slots of type `S`.
pub struct SlotMap<S: Slot> {
    pub slots: Vec<S>,
    pub head: u32,
    pub tail: u32,
    pub next_free: u32,
    capacity: usize,
}

/// A type that can be a slot of a `SlotMap`.
pub trait Slot {}

impl<S: Slot> SlotMap<S> {
    /// The number of occupied slots.
    pub closed spec fn capacity_spec(&self) -> nat {
        self.capacity as nat
    }

    /// The first occupied slot, `u32::MAX` for none.
    pub closed spec fn head_spec(&self) -> u32 {
        self.head
    }

    /// The last occupied slot, `u32::MAX` for none.
    pub closed spec fn tail_spec(&self) -> u32 {
        self.tail
    }

    /// The free slot to be reused next, `u32::MAX` for none.
    pub closed spec fn next_free_spec(&self) -> u32 {
        self.next_free
    }

    /// The number of slots.
    pub closed spec fn slot_count(&self) -> nat {
        self.slots@.len()
    }

    /// The first occupied slot, `u32::MAX` for none.
    pub fn head(&self) -> (r: u32)
        ensures
            r == self.head_spec(),
    {
        self.head
    }

    /// The last occupied slot, `u32::MAX` for none.
    pub fn tail(&self) -> (r: u32)
        ensures
            r == self.tail_spec(),
    {
        self.tail
    }

    /// The free slot to be reused next, `u32::MAX` for none.
    pub fn next_free(&self) -> (r: u32)
        ensures
            r == self.next_free_spec(),
    {
        self.next_free
    }

    /// The number of slots, free or occupied.
    pub fn total(&self) -> (r: usize)
        ensures
            r == self.slot_count(),
    {
        self.slots.len()
    }

    /// The number of occupied slots.
    pub fn capacity(&self) -> (r: usize)
        ensures
            r == self.capacity_spec(),
    {
        self.capacity
    }

    /// Whether no slot is occupied.
    pub fn is_empty(&self) -> (r: bool)
        ensures
            r == (self.capacity_spec() == 0),
    {
        self.capacity == 0
    }

    /// Picks the slot an insertion would use (the next free one, or a new one
    /// at the end) but stores nothing yet, and answers slot 0.
    pub fn insert(&mut self, order_id: u32) -> (r: usize)
        requires
            old(self).next_free_spec() != u32::MAX ==> old(self).next_free_spec() < old(self).slot_count(),
        ensures
            r == 0,
            *final(self) == *old(self),
    {
        let free_idx = self.next_free;
        let _insert_idx: usize = if free_idx != u32::MAX {
            let _slot = &self.slots[free_idx as usize];
            free_idx as usize
        } else {
            self.total()
        };
        0
    }
}

} // verus!
