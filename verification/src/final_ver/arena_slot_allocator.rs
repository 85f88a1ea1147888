use vstd::prelude::*;

use crate::final_ver::arena_slot_map::{with_amount, ArenaSlot};
use crate::slot_map::NonMaxU32;

verus! {

/// A fixed pool of slots cut into `chunk_count` chunks of `chunk_size` slots;
/// whole chunks are claimed and released, last released first claimed.
pub struct ArenaSlotAllocator {
    slots: Vec<ArenaSlot>,
    pub free_stack: Vec<usize>,
    chunk_count: usize,
    chunk_size: usize,
}

/// The number of a chunk of the arena.
pub struct ArenaChunkIndex(pub usize);

/// The identifier of an order: the index of its slot in the arena and the
/// slot's generation.
#[derive(Clone, Copy)]
pub struct ArenaId {
    pub generation: u32,
    pub index: u32,
}

impl ArenaSlotAllocator {
    /// The slots of the arena.
    pub closed spec fn slots(&self) -> Seq<ArenaSlot> {
        self.slots@
    }

    /// The free chunks; the last one is claimed next.
    pub closed spec fn free_chunks(&self) -> Seq<int> {
        self.free_stack@.map_values(|c: usize| c as int)
    }

    pub closed spec fn chunk_count_spec(&self) -> nat {
        self.chunk_count as nat
    }

    pub closed spec fn chunk_size_spec(&self) -> nat {
        self.chunk_size as nat
    }

    pub closed spec fn wf(&self) -> bool {
        &&& self.slots@.len() == self.chunk_count * self.chunk_size
        &&& self.chunk_count * self.chunk_size < crate::slot_map::NONE_VALUE
        &&& self.free_stack@.no_duplicates()
        &&& forall|i: int| 0 <= i < self.free_stack@.len() ==> #[trigger] self.free_stack@[i] < self.chunk_count
    }

    /// What well-formedness says of the free chunks and the number of slots.
    pub proof fn lemma_wf(&self)
        requires
            self.wf(),
        ensures
            self.free_chunks().no_duplicates(),
            forall|k: int|
                0 <= k < self.free_chunks().len() ==> 0 <= #[trigger] self.free_chunks()[k]
                    < self.chunk_count_spec(),
            self.slots().len() == self.chunk_count_spec() * self.chunk_size_spec(),
            self.slots().len() < crate::slot_map::NONE_VALUE,
    {
        assert forall|k: int| 0 <= k < self.free_chunks().len() implies 0 <= #[trigger] self.free_chunks()[k]
            < self.chunk_count_spec() by {
            assert(self.free_stack@[k] < self.chunk_count);
        }
        assert forall|a: int, b: int| 0 <= a < b < self.free_chunks().len() implies self.free_chunks()[a]
            != self.free_chunks()[b] by {
            assert(self.free_stack@[a] != self.free_stack@[b]);
        }
    }

    /// An arena of `chunk_count` free chunks of `chunk_size` slots each; chunk 0
    /// is claimed first.
    pub fn new(chunk_count: usize, chunk_size: usize) -> (arena: Self)
        requires
            chunk_count * chunk_size < crate::slot_map::NONE_VALUE,
        ensures
            arena.wf(),
            arena.chunk_count_spec() == chunk_count,
            arena.chunk_size_spec() == chunk_size,
            arena.free_chunks() == Seq::new(chunk_count as nat, |i: int| chunk_count - 1 - i),
            arena.slots().len() == chunk_count * chunk_size,
            forall|i: int| 0 <= i < arena.slots().len() ==> #[trigger] arena.slots()[i] is Free,
    {
        let total: usize = chunk_count * chunk_size;
        let mut slots: Vec<ArenaSlot> = Vec::with_capacity(total);
        let mut i: usize = 0;
        while i < total
            invariant
                i <= total,
                slots@.len() == i,
                forall|j: int| 0 <= j < i ==> #[trigger] slots@[j] is Free,
            decreases total - i,
        {
            slots.push(ArenaSlot::free_with_next(NonMaxU32::new_none()));
            i = i + 1;
        }
        let mut free_stack: Vec<usize> = Vec::with_capacity(chunk_count);
        let mut c: usize = chunk_count;
        while c > 0
            invariant
                c <= chunk_count,
                free_stack@.len() == chunk_count - c,
                forall|j: int|
                    0 <= j < free_stack@.len() ==> #[trigger] free_stack@[j] == chunk_count - 1 - j,
            decreases c,
        {
            c = c - 1;
            free_stack.push(c);
        }
        let arena = Self { slots, free_stack, chunk_count, chunk_size };
        assert(arena.free_chunks() =~= Seq::new(chunk_count as nat, |i: int| chunk_count - 1 - i));
        arena
    }

    /// Takes the chunk that was released last, or the lowest one never claimed.
    pub fn claim_chunk(&mut self) -> (chunk_index: ArenaChunkIndex)
        requires
            old(self).wf(),
            old(self).free_chunks().len() > 0,
        ensures
            final(self).wf(),
            chunk_index.0 == old(self).free_chunks().last(),
            final(self).free_chunks() == old(self).free_chunks().drop_last(),
            final(self).slots() == old(self).slots(),
            final(self).chunk_count_spec() == old(self).chunk_count_spec(),
            final(self).chunk_size_spec() == old(self).chunk_size_spec(),
    {
        let ghost old_stack = self.free_stack@;
        let chunk_index = self.free_stack.pop().unwrap();
        assert(self.free_stack@ == old_stack.drop_last());
        assert(self.free_chunks() =~= old(self).free_chunks().drop_last());
        ArenaChunkIndex(chunk_index)
    }

    /// Gives a chunk back; it is the next one to be claimed.
    pub fn release_chunk(&mut self, chunk_index: ArenaChunkIndex)
        requires
            old(self).wf(),
            chunk_index.0 < old(self).chunk_count_spec(),
            !old(self).free_chunks().contains(chunk_index.0 as int),
        ensures
            final(self).wf(),
            final(self).free_chunks() == old(self).free_chunks().push(chunk_index.0 as int),
            final(self).slots() == old(self).slots(),
            final(self).chunk_count_spec() == old(self).chunk_count_spec(),
            final(self).chunk_size_spec() == old(self).chunk_size_spec(),
    {
        let ghost old_stack = self.free_stack@;
        proof {
            assert forall|j: int| 0 <= j < old_stack.len() implies old_stack[j] != chunk_index.0 by {
                assert(old(self).free_chunks()[j] == old_stack[j] as int);
            }
        }
        self.free_stack.push(chunk_index.0);
        assert(self.free_chunks() =~= old(self).free_chunks().push(chunk_index.0 as int));
    }

    pub fn chunk_count(&self) -> (n: usize)
        ensures
            n == self.chunk_count_spec(),
    {
        self.chunk_count
    }

    pub fn chunk_size(&self) -> (n: usize)
        ensures
            n == self.chunk_size_spec(),
    {
        self.chunk_size
    }

    /// The number of chunks that can still be claimed.
    pub fn free_count(&self) -> (n: usize)
        ensures
            n == self.free_chunks().len(),
    {
        self.free_stack.len()
    }

    /// The number of slots, free or not.
    pub fn slot_count(&self) -> (n: usize)
        requires
            self.wf(),
        ensures
            n == self.slots().len(),
    {
        self.chunk_count * self.chunk_size
    }

    /// The slot at `index`, which must lie in the arena.
    pub fn get(&self, index: usize) -> (r: Option<&ArenaSlot>)
        requires
            index < self.slots().len(),
        ensures
            r == Some(&self.slots()[index as int]),
    {
        Some(&self.slots[index])
    }

    /// The slot at `index`, which must lie in the arena.
    pub fn get_unchecked(&self, index: usize) -> (r: &ArenaSlot)
        requires
            index < self.slots().len(),
        ensures
            *r == self.slots()[index as int],
    {
        &self.slots[index]
    }

    /// A mutable reference to the slot at `index`, which must lie in the arena.
    pub fn get_unchecked_mut(&mut self, index: usize) -> (r: &mut ArenaSlot)
        requires
            index < old(self).slots().len(),
        ensures
            *r == old(self).slots()[index as int],
            final(self).slots() == old(self).slots().update(index as int, *final(r)),
            final(self).free_chunks() == old(self).free_chunks(),
            final(self).chunk_count_spec() == old(self).chunk_count_spec(),
            final(self).chunk_size_spec() == old(self).chunk_size_spec(),
            old(self).wf() ==> final(self).wf(),
    {
        &mut self.slots[index]
    }

    /// Sets the amount of the order in the occupied slot at `index`.
    pub fn set_amount(&mut self, index: usize, amount: u32)
        requires
            index < old(self).slots().len(),
            old(self).slots()[index as int] is Occupied,
        ensures
            final(self).slots() == old(self).slots().update(
                index as int,
                with_amount(old(self).slots()[index as int], amount),
            ),
            final(self).free_chunks() == old(self).free_chunks(),
            final(self).chunk_count_spec() == old(self).chunk_count_spec(),
            final(self).chunk_size_spec() == old(self).chunk_size_spec(),
            old(self).wf() ==> final(self).wf(),
    {
        let slot = &mut self.slots[index];
        match slot {
            ArenaSlot::Occupied { data, .. } => {
                data.amount = amount;
            },
            ArenaSlot::Free { .. } => {},
        }
    }

    /// Overwrites the slot at `index`, which must lie in the arena.
    pub fn set(&mut self, index: usize, slot: ArenaSlot)
        requires
            index < old(self).slots().len(),
        ensures
            final(self).slots() == old(self).slots().update(index as int, slot),
            final(self).free_chunks() == old(self).free_chunks(),
            final(self).chunk_count_spec() == old(self).chunk_count_spec(),
            final(self).chunk_size_spec() == old(self).chunk_size_spec(),
            old(self).wf() ==> final(self).wf(),
    {
        self.slots.set(index, slot);
    }
}

} // verus!
