use vstd::prelude::*;

use crate::final_ver::arena_slot_allocator::{ArenaChunkIndex, ArenaId, ArenaSlotAllocator};
use crate::final_ver::order_book::LimitOrder;
use crate::slot_map::{seq_first, seq_last, seq_next, seq_prev, NonMaxU32, NONE_VALUE};

verus! {

/// A slot of the arena: free, with a link to the next free slot of its price
/// level, or occupied by an order, with links to the previous and next order of
/// its price level.
pub enum ArenaSlot {
    Free { generation: u32, next_free: NonMaxU32 },
    Occupied { generation: u32, data: LimitOrder, prev: NonMaxU32, next: NonMaxU32 },
}

impl ArenaSlot {
    /// The order a slot holds, if it is occupied.
    pub open spec fn data_of(self) -> Option<LimitOrder> {
        match self {
            ArenaSlot::Occupied { data, .. } => Some(data),
            ArenaSlot::Free { .. } => None,
        }
    }

    /// An occupied slot holding `data`, appended after `prev`.
    pub fn occupied_with_prev(data: LimitOrder, prev: NonMaxU32) -> (slot: Self)
        ensures
            slot == (ArenaSlot::Occupied {
                generation: 0,
                data,
                prev,
                next: NonMaxU32(NONE_VALUE),
            }),
    {
        ArenaSlot::Occupied { generation: 0, data, prev, next: NonMaxU32::new_none() }
    }

    /// A free slot linking to `next_free`.
    pub fn free_with_next(next_free: NonMaxU32) -> (slot: Self)
        ensures
            slot == (ArenaSlot::Free { generation: 0, next_free }),
    {
        ArenaSlot::Free { generation: 0, next_free }
    }

    /// The generation, order and links of an occupied slot.
    pub fn as_occupied_unchecked(&self) -> (r: (&u32, &LimitOrder, &NonMaxU32, &NonMaxU32))
        requires
            self is Occupied,
        ensures
            *r.0 == self->Occupied_generation,
            *r.1 == self->data,
            *r.2 == self->prev,
            *r.3 == self->next,
    {
        match self {
            ArenaSlot::Occupied { generation, data, prev, next } => (generation, data, prev, next),
            ArenaSlot::Free { .. } => vstd::pervasive::unreached(),
        }
    }

    /// Mutable references to the generation, order and links of an occupied slot.
    pub fn as_occupied_unchecked_mut(&mut self) -> (r: (
        &mut u32,
        &mut LimitOrder,
        &mut NonMaxU32,
        &mut NonMaxU32,
    ))
        requires
            *old(self) is Occupied,
        ensures
            *r.0 == (*old(self))->Occupied_generation,
            *r.1 == (*old(self))->data,
            *r.2 == (*old(self))->prev,
            *r.3 == (*old(self))->next,
            *final(self) == (ArenaSlot::Occupied {
                generation: *final(r.0),
                data: *final(r.1),
                prev: *final(r.2),
                next: *final(r.3),
            }),
    {
        match self {
            ArenaSlot::Occupied { generation, data, prev, next } => (generation, data, prev, next),
            ArenaSlot::Free { .. } => vstd::pervasive::unreached(),
        }
    }

    /// The generation and next free link of a free slot.
    pub fn as_free_unchecked(&self) -> (r: (&u32, &NonMaxU32))
        requires
            self is Free,
        ensures
            *r.0 == self->Free_generation,
            *r.1 == self->next_free,
    {
        match self {
            ArenaSlot::Free { generation, next_free } => (generation, next_free),
            ArenaSlot::Occupied { .. } => vstd::pervasive::unreached(),
        }
    }

    /// Mutable references to the generation and next free link of a free slot.
    pub fn as_free_unchecked_mut(&mut self) -> (r: (&mut u32, &mut NonMaxU32))
        requires
            *old(self) is Free,
        ensures
            *r.0 == (*old(self))->Free_generation,
            *r.1 == (*old(self))->next_free,
            *final(self) == (ArenaSlot::Free { generation: *final(r.0), next_free: *final(r.1) }),
    {
        match self {
            ArenaSlot::Free { generation, next_free } => (generation, next_free),
            ArenaSlot::Occupied { .. } => vstd::pervasive::unreached(),
        }
    }
}

/// Each occupied slot on `order` links to its neighbours on `order`.
#[verifier::opaque]
pub open spec fn order_links(slots: Seq<ArenaSlot>, order: Seq<int>) -> bool {
    forall|k: int|
        #![trigger order[k]]
        0 <= k < order.len() ==> {
            let i = order[k];
            &&& 0 <= i < slots.len()
            &&& slots[i] is Occupied
            &&& slots[i]->prev@ == seq_prev(order, k)
            &&& slots[i]->next@ == seq_next(order, k)
        }
}

/// Each free slot on `free` links to its successor on `free`.
#[verifier::opaque]
pub open spec fn free_links(slots: Seq<ArenaSlot>, free: Seq<int>) -> bool {
    forall|k: int|
        #![trigger free[k]]
        0 <= k < free.len() ==> {
            let i = free[k];
            &&& 0 <= i < slots.len()
            &&& slots[i] is Free
            &&& slots[i]->next_free@ == seq_next(free, k)
        }
}

/// A price level: a slot map over slots of the chunks of the arena it owns.
///
/// The chunks are used in the order in which they were claimed; `current_len`
/// slots of the last one have been handed out.
pub struct ArenaSlotMap {
    pub head: NonMaxU32,
    pub tail: NonMaxU32,
    pub free_head: NonMaxU32,
    pub owned_chunks: Vec<ArenaChunkIndex>,
    pub current_len: usize,
    pub total_capacity: usize,
    pub total_len: usize,
    /// The occupied slot indices, from head to tail.
    order: Ghost<Seq<int>>,
    /// The free slot indices, from the free head on.
    free: Ghost<Seq<int>>,
}

impl ArenaSlotMap {
    /// The occupied slot indices of this level in arrival order.
    pub closed spec fn order(&self) -> Seq<int> {
        self.order@
    }

    /// The freed slot indices of this level, the next one to be reused first.
    pub closed spec fn free_list(&self) -> Seq<int> {
        self.free@
    }

    /// The chunks this level owns, in the order in which they were claimed.
    pub closed spec fn chunks(&self) -> Seq<int> {
        self.owned_chunks@.map_values(|c: ArenaChunkIndex| c.0 as int)
    }

    /// Slot `i` has been handed out to this level: it lies in one of its chunks,
    /// and in the last one only among the first `current_len` slots.
    pub closed spec fn handed_out(&self, i: int, cs: int) -> bool {
        &&& self.chunks().contains(i / cs)
        &&& i / cs == self.chunks().last() ==> i % cs < self.current_len
        &&& i >= 0
    }

    /// The level is well formed over the slots `slots` of an arena whose
    /// chunks have `cs` slots.
    pub closed spec fn wf_in(&self, slots: Seq<ArenaSlot>, cs: int) -> bool {
        &&& cs > 0
        &&& self.owned_chunks@.len() > 0
        &&& self.chunks().no_duplicates()
        &&& forall|p: int|
            0 <= p < self.chunks().len() ==> 0 <= #[trigger] self.chunks()[p] && (self.chunks()[p]
                + 1) * cs <= slots.len()
        &&& self.current_len <= cs
        &&& self.total_capacity == self.owned_chunks@.len() * cs
        &&& self.total_len == self.order@.len()
        &&& self.order@.no_duplicates()
        &&& self.free@.no_duplicates()
        &&& order_links(slots, self.order@)
        &&& free_links(slots, self.free@)
        &&& forall|k: int|
            0 <= k < self.order@.len() ==> self.handed_out(#[trigger] self.order@[k], cs)
        &&& forall|k: int|
            0 <= k < self.free@.len() ==> self.handed_out(#[trigger] self.free@[k], cs)
        &&& self.ends_ok()
    }

    /// The head, tail and free head agree with the two lists.
    pub closed spec fn ends_ok(&self) -> bool {
        &&& self.head@ == seq_first(self.order@)
        &&& self.tail@ == seq_last(self.order@)
        &&& self.free_head@ == seq_first(self.free@)
        &&& self.total_len == self.order@.len()
    }

    /// How many slots of the last chunk have been handed out.
    pub closed spec fn current_len_spec(&self) -> nat {
        self.current_len as nat
    }

    /// The first occupied slot of the level, if any.
    pub fn first_index(&self) -> (r: NonMaxU32)
        requires
            self.ends_ok(),
        ensures
            r@ == seq_first(self.order()),
    {
        self.head
    }

    /// The number of orders on the level.
    pub fn len(&self) -> (n: usize)
        requires
            self.ends_ok(),
        ensures
            n == self.order().len(),
    {
        self.total_len
    }
}

/// A sequence of distinct integers from `[0, n)` has at most `n` elements.
pub proof fn lemma_distinct_bounded(s: Seq<int>, n: int)
    requires
        s.no_duplicates(),
        n >= 0,
        forall|k: int| 0 <= k < s.len() ==> 0 <= #[trigger] s[k] < n,
    ensures
        s.len() <= n,
{
    s.unique_seq_to_set();
    vstd::set_lib::lemma_int_range(0, n);
    assert(s.to_set().subset_of(vstd::set_lib::set_int_range(0, n)));
    vstd::set_lib::lemma_len_subset(s.to_set(), vstd::set_lib::set_int_range(0, n));
}

/// `c * cs + r` lies in chunk `c` at offset `r`.
pub proof fn lemma_chunk_of(c: int, cs: int, r: int)
    requires
        cs > 0,
        0 <= r < cs,
    ensures
        (c * cs + r) / cs == c,
        (c * cs + r) % cs == r,
{
    vstd::arithmetic::div_mod::lemma_fundamental_div_mod_converse(c * cs + r, cs, c, r);
}

/// A slot of chunk `c` lies before the end of an arena of `n` chunks.
pub proof fn lemma_in_arena(c: int, cs: int, r: int, n: int)
    requires
        cs > 0,
        0 <= r < cs,
        0 <= c < n,
    ensures
        0 <= c * cs + r < n * cs,
        (c + 1) * cs <= n * cs,
{
    assert(c * cs + r < (c + 1) * cs) by (nonlinear_arith)
        requires
            0 <= r < cs,
    ;
    assert((c + 1) * cs <= n * cs) by (nonlinear_arith)
        requires
            c + 1 <= n,
            cs > 0,
    ;
    assert(0 <= c * cs) by (nonlinear_arith)
        requires
            c >= 0,
            cs > 0,
    ;
}

/// A chunk that ends within an arena of `n` chunks is one of them.
pub proof fn lemma_chunk_lt(c: int, cs: int, n: int)
    requires
        cs > 0,
        (c + 1) * cs <= n * cs,
    ensures
        c < n,
{
    assert(c < n) by (nonlinear_arith)
        requires
            cs > 0,
            (c + 1) * cs <= n * cs,
    ;
}

/// Appending slot `f`, which was on neither list, keeps the links well formed.
proof fn lemma_insert_links(
    old_slots: Seq<ArenaSlot>,
    order: Seq<int>,
    free: Seq<int>,
    new_slots: Seq<ArenaSlot>,
    f: int,
    data: LimitOrder,
)
    requires
        order_links(old_slots, order),
        free_links(old_slots, free),
        order.no_duplicates(),
        free.no_duplicates(),
        !order.contains(f),
        free.len() > 0 ==> f == free[0],
        free.len() == 0 ==> !free.contains(f),
        0 <= f < old_slots.len(),
        old_slots.len() < NONE_VALUE,
        new_slots.len() == old_slots.len(),
        new_slots[f] == (ArenaSlot::Occupied {
            generation: 0,
            data,
            prev: NonMaxU32(if order.len() > 0 { order.last() as u32 } else { NONE_VALUE }),
            next: NonMaxU32(NONE_VALUE),
        }),
        order.len() > 0 ==> ({
            let t = order.last();
            &&& new_slots[t] is Occupied
            &&& new_slots[t]->data == old_slots[t]->data
            &&& new_slots[t]->prev == old_slots[t]->prev
            &&& new_slots[t]->next == NonMaxU32(f as u32)
        }),
        forall|j: int|
            0 <= j < old_slots.len() && j != f && (order.len() == 0 || j != order.last())
                ==> new_slots[j] == old_slots[j],
    ensures
        order_links(new_slots, order.push(f)),
        free_links(new_slots, if free.len() > 0 { free.skip(1) } else { free }),
{
    reveal(order_links);
    reveal(free_links);
    let new_order = order.push(f);
    let new_free = if free.len() > 0 { free.skip(1) } else { free };
    assert forall|k: int| 0 <= k < new_order.len() implies {
        let i = #[trigger] new_order[k];
        &&& 0 <= i < new_slots.len()
        &&& new_slots[i] is Occupied
        &&& new_slots[i]->prev@ == seq_prev(new_order, k)
        &&& new_slots[i]->next@ == seq_next(new_order, k)
    } by {
        if k < order.len() {
            assert(order[k] == new_order[k]);
            if k + 1 < order.len() {
                assert(order[k] != order.last());
            }
        }
    }
    assert forall|k: int| 0 <= k < new_free.len() implies {
        let i = #[trigger] new_free[k];
        &&& 0 <= i < new_slots.len()
        &&& new_slots[i] is Free
        &&& new_slots[i]->next_free@ == seq_next(new_free, k)
    } by {
        if free.len() > 0 {
            assert(new_free[k] == free[k + 1]);
            assert(free[k + 1] != free[0]);
            assert(old_slots[free[k + 1]] is Free);
        } else {
            assert(old_slots[free[k]] is Free);
        }
    }
}

impl ArenaSlotMap {
    /// What the level's links say of position `k` of its order and free lists.
    pub proof fn lemma_links_at(&self, slots: Seq<ArenaSlot>, cs: int, k: int)
        requires
            self.wf_in(slots, cs),
        ensures
            0 <= k < self.order().len() ==> {
                let i = self.order()[k];
                &&& 0 <= i < slots.len()
                &&& slots[i] is Occupied
                &&& slots[i]->prev@ == seq_prev(self.order(), k)
                &&& slots[i]->next@ == seq_next(self.order(), k)
                &&& self.chunks().contains(i / cs)
            },
            0 <= k < self.free_list().len() ==> {
                let i = self.free_list()[k];
                &&& 0 <= i < slots.len()
                &&& slots[i] is Free
                &&& slots[i]->next_free@ == seq_next(self.free_list(), k)
                &&& self.chunks().contains(i / cs)
            },
            self.order().no_duplicates(),
            self.free_list().no_duplicates(),
            self.ends_ok(),
    {
        reveal(order_links);
        reveal(free_links);
        if 0 <= k < self.order@.len() {
            assert(self.handed_out(self.order@[k], cs));
        }
        if 0 <= k < self.free@.len() {
            assert(self.handed_out(self.free@[k], cs));
        }
    }

    /// The number of chunks the level owns.
    pub fn owned_chunk_count(&self) -> (n: usize)
        ensures
            n == self.chunks().len(),
    {
        self.owned_chunks.len()
    }

    /// The `p`-th chunk the level claimed.
    pub fn owned_chunk(&self, p: usize) -> (c: usize)
        requires
            p < self.chunks().len(),
        ensures
            c == self.chunks()[p as int],
    {
        self.owned_chunks[p].0
    }

    /// A chunk of a well formed level lies within the arena.
    pub proof fn lemma_chunk_bound(&self, slots: Seq<ArenaSlot>, cs: int, p: int)
        requires
            self.wf_in(slots, cs),
            0 <= p < self.chunks().len(),
        ensures
            0 <= self.chunks()[p],
            (self.chunks()[p] + 1) * cs <= slots.len(),
            cs > 0,
            self.chunks().no_duplicates(),
            self.order().len() > 0 ==> self.chunks().len() > 0,
    {
    }

    /// The level's well-formedness depends only on the slots of its two lists.
    pub proof fn lemma_frame(&self, slots: Seq<ArenaSlot>, new_slots: Seq<ArenaSlot>, cs: int)
        requires
            self.wf_in(slots, cs),
            new_slots.len() == slots.len(),
            forall|i: int|
                0 <= i < slots.len() && self.chunks().contains(i / cs) ==> #[trigger] new_slots[i]
                    == slots[i],
        ensures
            self.wf_in(new_slots, cs),
    {
        reveal(order_links);
        reveal(free_links);
        assert forall|k: int| 0 <= k < self.order@.len() implies #[trigger] new_slots[self.order@[k]]
            == slots[self.order@[k]] by {
            assert(self.handed_out(self.order@[k], cs));
        }
        assert forall|k: int| 0 <= k < self.free@.len() implies #[trigger] new_slots[self.free@[k]]
            == slots[self.free@[k]] by {
            assert(self.handed_out(self.free@[k], cs));
        }
    }

    /// A new level owning the next chunk that the arena hands out.
    pub fn from_arena(arena: &mut ArenaSlotAllocator) -> (level: Self)
        requires
            old(arena).wf(),
            old(arena).free_chunks().len() > 0,
            old(arena).chunk_size_spec() > 0,
        ensures
            final(arena).wf(),
            level.wf_in(final(arena).slots(), final(arena).chunk_size_spec() as int),
            level.order() == Seq::<int>::empty(),
            level.free_list() == Seq::<int>::empty(),
            level.chunks() == seq![old(arena).free_chunks().last()],
            level.current_len_spec() == 0,
            !level.needs_chunk(final(arena).chunk_size_spec() as int),
            final(arena).free_chunks() == old(arena).free_chunks().drop_last(),
            final(arena).slots() == old(arena).slots(),
            final(arena).chunk_count_spec() == old(arena).chunk_count_spec(),
            final(arena).chunk_size_spec() == old(arena).chunk_size_spec(),
    {
        let chunk_size = arena.chunk_size();
        let ghost old_free = old(arena).free_chunks();
        proof {
            arena.lemma_wf();
            assert(0 <= old_free.last() < arena.chunk_count_spec());
        }
        let chunk_index = arena.claim_chunk();
        let mut owned_chunks: Vec<ArenaChunkIndex> = Vec::with_capacity(4);
        let ghost c = chunk_index.0 as int;
        owned_chunks.push(chunk_index);
        let level = Self {
            head: NonMaxU32::new_none(),
            tail: NonMaxU32::new_none(),
            free_head: NonMaxU32::new_none(),
            owned_chunks,
            current_len: 0,
            total_capacity: chunk_size,
            total_len: 0,
            order: Ghost(Seq::empty()),
            free: Ghost(Seq::empty()),
        };
        proof {
            reveal(order_links);
            reveal(free_links);
            assert(level.chunks() =~= seq![c]);
            lemma_in_arena(c, chunk_size as int, 0, arena.chunk_count_spec() as int);
        }
        level
    }
}

impl ArenaSlotMap {
    /// The level has no freed slot and its last chunk is full, so an insert
    /// claims a new chunk.
    pub closed spec fn needs_chunk(&self, cs: int) -> bool {
        self.free@.len() == 0 && self.current_len == cs
    }

    /// The slot that the next insert uses: the slot freed last, else the next
    /// slot of the last chunk, else the first slot of the chunk the arena hands
    /// out next.
    pub closed spec fn next_index(&self, arena_free: Seq<int>, cs: int) -> int {
        if self.free@.len() > 0 {
            self.free@[0]
        } else if self.current_len < cs {
            self.chunks().last() * cs + self.current_len
        } else {
            arena_free.last() * cs
        }
    }

    /// What `needs_chunk` and `next_index` are, over the level's free list,
    /// chunks and the count of slots handed out of its last chunk.
    pub proof fn lemma_next_index(&self, arena_free: Seq<int>, cs: int)
        ensures
            self.needs_chunk(cs) == (self.free_list().len() == 0 && self.current_len_spec() == cs),
            self.next_index(arena_free, cs) == (if self.free_list().len() > 0 {
                self.free_list()[0]
            } else if self.current_len_spec() < cs {
                self.chunks().last() * cs + self.current_len_spec()
            } else {
                arena_free.last() * cs
            }),
    {
    }

    /// Appends `data` to the level and returns the identifier of its slot.
    #[verifier::rlimit(40)]
    pub fn insert(&mut self, data: LimitOrder, arena: &mut ArenaSlotAllocator) -> (id: ArenaId)
        requires
            old(arena).wf(),
            old(self).wf_in(old(arena).slots(), old(arena).chunk_size_spec() as int),
            old(self).needs_chunk(old(arena).chunk_size_spec() as int) ==> old(arena).free_chunks().len() > 0,
            forall|k: int|
                0 <= k < old(arena).free_chunks().len() ==> !old(self).chunks().contains(
                    #[trigger] old(arena).free_chunks()[k],
                ),
        ensures
            final(arena).wf(),
            final(self).wf_in(final(arena).slots(), final(arena).chunk_size_spec() as int),
            final(arena).chunk_count_spec() == old(arena).chunk_count_spec(),
            final(arena).chunk_size_spec() == old(arena).chunk_size_spec(),
            final(arena).slots().len() == old(arena).slots().len(),
            id.generation == 0,
            id.index == old(self).next_index(old(arena).free_chunks(), old(arena).chunk_size_spec() as int),
            final(self).order() == old(self).order().push(id.index as int),
            final(self).chunks() == (if old(self).needs_chunk(old(arena).chunk_size_spec() as int) {
                old(self).chunks().push(old(arena).free_chunks().last())
            } else {
                old(self).chunks()
            }),
            final(arena).free_chunks() == (if old(self).needs_chunk(old(arena).chunk_size_spec() as int) {
                old(arena).free_chunks().drop_last()
            } else {
                old(arena).free_chunks()
            }),
            final(arena).slots()[id.index as int].data_of() == Some(data),
            final(arena).slots()[id.index as int] is Occupied,
            final(arena).slots()[id.index as int]->Occupied_generation == 0,
            final(self).free_list() == (if old(self).free_list().len() > 0 {
                old(self).free_list().skip(1)
            } else {
                old(self).free_list()
            }),
            final(self).current_len_spec() == (if old(self).free_list().len() > 0 {
                old(self).current_len_spec()
            } else if old(self).needs_chunk(old(arena).chunk_size_spec() as int) {
                1
            } else {
                old(self).current_len_spec() + 1
            }),
            forall|j: int|
                0 <= j < old(arena).slots().len() && j != id.index ==> #[trigger] final(arena).slots()[j].data_of()
                    == old(arena).slots()[j].data_of(),
            forall|j: int|
                0 <= j < old(arena).slots().len() && !final(self).chunks().contains(
                    j / (old(arena).chunk_size_spec() as int),
                ) ==> #[trigger] final(arena).slots()[j] == old(arena).slots()[j],
    {
        let ghost cs = arena.chunk_size_spec() as int;
        let ghost old_order = self.order@;
        let ghost old_free = self.free@;
        let ghost old_slots = arena.slots();
        let ghost old_chunks = self.chunks();
        let ghost arena_free = arena.free_chunks();
        let ghost needs = self.needs_chunk(cs);
        let ghost gdata = data;
        proof {
            arena.lemma_wf();
            self.lemma_links_at(old_slots, cs, 0);
            self.lemma_links_at(old_slots, cs, old_order.len() - 1);
            reveal(order_links);
            reveal(free_links);
            lemma_distinct_bounded(old_order, old_slots.len() as int);
        }
        let cs_exec = arena.chunk_size();
        let free_index: u32;
        if self.free_head.is_some() {
            free_index = self.free_head.0;
            let (_, next_free) = arena.get_unchecked(free_index as usize).as_free_unchecked();
            self.free_head = *next_free;
        } else {
            if self.current_len == cs_exec {
                let new_chunk_index = arena.claim_chunk();
                proof {
                    let c = arena_free.last();
                    assert(arena_free.contains(c));
                    let cc = arena.chunk_count_spec() as int;
                    assert forall|k: int| 0 <= k < old_chunks.push(c).len() implies 0
                        <= #[trigger] old_chunks.push(c)[k] < cc by {
                        if k < old_chunks.len() {
                            assert(old_chunks.push(c)[k] == old_chunks[k]);
                            lemma_chunk_lt(old_chunks[k], cs, cc);
                        }
                    }
                    lemma_distinct_bounded(old_chunks.push(c), cc);
                    lemma_in_arena(old_chunks.len() as int, cs, 0, cc);
                    lemma_in_arena(c, cs, 0, cc);
                    assert(old_chunks.len() * cs + cs == (old_chunks.len() + 1) * cs) by (nonlinear_arith);
                }
                self.owned_chunks.push(new_chunk_index);
                self.total_capacity = self.total_capacity + cs_exec;
                self.current_len = 0;
                proof {
                    assert(self.chunks() =~= old_chunks.push(arena_free.last()));
                }
            }
            let last = self.owned_chunks.len() - 1;
            let chunk = self.owned_chunks[last].0;
            proof {
                assert(self.chunks()[last as int] == chunk);
                assert(0 <= chunk && (chunk + 1) * cs <= old_slots.len());
                assert(chunk * cs + self.current_len < (chunk + 1) * cs) by (nonlinear_arith)
                    requires
                        self.current_len < cs,
                ;
            }
            free_index = (chunk * cs_exec + self.current_len) as u32;
            self.current_len = self.current_len + 1;
        }
        let tail_index = self.tail;
        if tail_index.is_some() {
            match arena.get_unchecked_mut(tail_index.0 as usize) {
                ArenaSlot::Occupied { next, .. } => {
                    *next = NonMaxU32(free_index);
                },
                ArenaSlot::Free { .. } => {},
            }
        }
        arena.set(free_index as usize, ArenaSlot::occupied_with_prev(data, tail_index));
        if self.head.is_none() {
            self.head = NonMaxU32(free_index);
        }
        self.tail = NonMaxU32(free_index);
        self.total_len = self.total_len + 1;
        proof {
            let f = free_index as int;
            let new_slots = arena.slots();
            let lastc = if needs { arena_free.last() } else { old_chunks.last() };
            let off = if needs { 0 } else { old(self).current_len as int };
            if old_free.len() == 0 {
                assert(f == lastc * cs + off);
                lemma_chunk_of(lastc, cs, off);
                if needs {
                    assert(arena_free[arena_free.len() - 1] == lastc);
                    assert(!old_chunks.contains(lastc));
                }
            }
            assert forall|k: int| 0 <= k < old_order.len() implies #[trigger] old_order[k] != f by {
                let i = old_order[k];
                assert(old(self).handed_out(i, cs));
                if old_free.len() > 0 {
                    assert(old_slots[old_free[0]] is Free);
                    assert(old_slots[i] is Occupied);
                } else if i == f {
                    assert(i / cs == lastc);
                }
            }
            assert(!old_order.contains(f));
            lemma_insert_links(old_slots, old_order, old_free, new_slots, f, gdata);
            self.order@ = old_order.push(f);
            if old_free.len() > 0 {
                self.free@ = old_free.skip(1);
            }
            if old_free.len() == 0 {
                assert(self.chunks().last() == lastc);
                assert(self.handed_out(f, cs));
            } else {
                assert(old(self).handed_out(f, cs));
            }
            assert forall|k: int| 0 <= k < self.order@.len() implies self.handed_out(
                #[trigger] self.order@[k],
                cs,
            ) by {
                if k < old_order.len() {
                    let i = old_order[k];
                    assert(self.order@[k] == i);
                    assert(old(self).handed_out(i, cs));
                    assert(self.chunks().contains(i / cs)) by {
                        let p = choose|p: int| 0 <= p < old_chunks.len() && old_chunks[p] == i / cs;
                        assert(self.chunks()[p] == i / cs);
                    }
                }
            }
            assert forall|k: int| 0 <= k < self.free@.len() implies self.handed_out(
                #[trigger] self.free@[k],
                cs,
            ) by {
                assert(self.free@[k] == old_free[k + 1]);
                assert(old(self).handed_out(old_free[k + 1], cs));
            }
            if needs {
                assert(self.total_capacity == (old_chunks.len() + 1) * cs) by (nonlinear_arith)
                    requires
                        self.total_capacity == old_chunks.len() * cs + cs,
                ;
                assert forall|p: int| 0 <= p < self.chunks().len() implies 0 <= #[trigger] self.chunks()[p]
                    && (self.chunks()[p] + 1) * cs <= new_slots.len() by {
                    if p == old_chunks.len() {
                        lemma_in_arena(lastc, cs, 0, arena.chunk_count_spec() as int);
                    }
                }
            }
            assert forall|j: int|
                0 <= j < old_slots.len() && !self.chunks().contains(j / cs) implies #[trigger] new_slots[j]
                == old_slots[j] by {
                if old_order.len() > 0 && j == old_order.last() {
                    self.lemma_links_at(new_slots, cs, old_order.len() - 1);
                }
            }
        }
        ArenaId { generation: 0, index: free_index }
    }
}

/// Unlinking the occupied slot at position `k` of `order` and pushing it on the
/// free list keeps the links well formed.
#[verifier::rlimit(40)]
proof fn lemma_remove_links(
    old_slots: Seq<ArenaSlot>,
    order: Seq<int>,
    free: Seq<int>,
    new_slots: Seq<ArenaSlot>,
    k: int,
)
    requires
        order_links(old_slots, order),
        free_links(old_slots, free),
        order.no_duplicates(),
        free.no_duplicates(),
        0 <= k < order.len(),
        new_slots.len() == old_slots.len(),
        new_slots[order[k]] == (ArenaSlot::Free {
            generation: 0,
            next_free: NonMaxU32(if free.len() > 0 { free[0] as u32 } else { NONE_VALUE }),
        }),
        old_slots.len() < NONE_VALUE,
        k > 0 ==> ({
            let p = order[k - 1];
            &&& new_slots[p] is Occupied
            &&& new_slots[p]->Occupied_generation == old_slots[p]->Occupied_generation
            &&& new_slots[p]->data == old_slots[p]->data
            &&& new_slots[p]->prev == old_slots[p]->prev
            &&& new_slots[p]->next == old_slots[order[k]]->next
        }),
        k + 1 < order.len() ==> ({
            let n = order[k + 1];
            &&& new_slots[n] is Occupied
            &&& new_slots[n]->Occupied_generation == old_slots[n]->Occupied_generation
            &&& new_slots[n]->data == old_slots[n]->data
            &&& new_slots[n]->next == old_slots[n]->next
            &&& new_slots[n]->prev == old_slots[order[k]]->prev
        }),
        forall|j: int|
            0 <= j < old_slots.len() && j != order[k] && (k == 0 || j != order[k - 1]) && (k
                + 1 >= order.len() || j != order[k + 1]) ==> new_slots[j] == old_slots[j],
    ensures
        order_links(new_slots, order.remove(k)),
        free_links(new_slots, seq![order[k]] + free),
        order.remove(k).no_duplicates(),
        (seq![order[k]] + free).no_duplicates(),
{
    reveal(order_links);
    reveal(free_links);
    let i = order[k];
    let new_order = order.remove(k);
    let new_free = seq![i] + free;
    assert(!free.contains(i)) by {
        if free.contains(i) {
            let m = choose|m: int| 0 <= m < free.len() && free[m] == i;
            assert(old_slots[free[m]] is Free);
        }
    }
    assert forall|a: int, b: int| 0 <= a < b < new_order.len() implies new_order[a]
        != new_order[b] by {
        let a2 = if a < k { a } else { a + 1 };
        let b2 = if b < k { b } else { b + 1 };
        assert(new_order[a] == order[a2]);
        assert(new_order[b] == order[b2]);
    }
    assert forall|a: int, b: int| 0 <= a < b < new_free.len() implies new_free[a]
        != new_free[b] by {
        if a > 0 {
            assert(new_free[a] == free[a - 1]);
        }
        assert(new_free[b] == free[b - 1]);
    }
    assert forall|m: int| 0 <= m < new_order.len() implies {
        let j = #[trigger] new_order[m];
        &&& 0 <= j < new_slots.len()
        &&& new_slots[j] is Occupied
        &&& new_slots[j]->prev@ == seq_prev(new_order, m)
        &&& new_slots[j]->next@ == seq_next(new_order, m)
    } by {
        let m2 = if m < k { m } else { m + 1 };
        assert(new_order[m] == order[m2]);
        if m > 0 {
            let pm = if m - 1 < k { m - 1 } else { m };
            assert(new_order[m - 1] == order[pm]);
        }
        if m + 1 < new_order.len() {
            let nm = if m + 1 < k { m + 1 } else { m + 2 };
            assert(new_order[m + 1] == order[nm]);
        }
        assert(order[m2] != i);
        if k > 0 && m2 != k - 1 {
            assert(order[m2] != order[k - 1]);
        }
        if k + 1 < order.len() && m2 != k + 1 {
            assert(order[m2] != order[k + 1]);
        }
    }
    assert forall|m: int| 0 <= m < new_free.len() implies {
        let j = #[trigger] new_free[m];
        &&& 0 <= j < new_slots.len()
        &&& new_slots[j] is Free
        &&& new_slots[j]->next_free@ == seq_next(new_free, m)
    } by {
        if m > 0 {
            assert(new_free[m] == free[m - 1]);
            let j = free[m - 1];
            assert(old_slots[j] is Free);
            if k > 0 {
                assert(old_slots[order[k - 1]] is Occupied);
            }
            if k + 1 < order.len() {
                assert(old_slots[order[k + 1]] is Occupied);
            }
            if m + 1 < new_free.len() {
                assert(new_free[m + 1] == free[m]);
            }
        } else {
            if free.len() > 0 {
                assert(new_free[1] == free[0]);
            }
        }
    }
}

impl ArenaSlotMap {
    /// Unlinks the order in the slot of `remove_index`, which must be on this
    /// level, and frees the slot; returns whether the level is now empty.
    pub fn remove(&mut self, remove_index: &ArenaId, arena: &mut ArenaSlotAllocator) -> (empty: bool)
        requires
            old(arena).wf(),
            old(self).wf_in(old(arena).slots(), old(arena).chunk_size_spec() as int),
            old(self).order().contains(remove_index.index as int),
        ensures
            final(arena).wf(),
            final(self).wf_in(final(arena).slots(), final(arena).chunk_size_spec() as int),
            final(arena).chunk_count_spec() == old(arena).chunk_count_spec(),
            final(arena).chunk_size_spec() == old(arena).chunk_size_spec(),
            final(arena).free_chunks() == old(arena).free_chunks(),
            final(arena).slots().len() == old(arena).slots().len(),
            final(self).chunks() == old(self).chunks(),
            final(self).current_len_spec() == old(self).current_len_spec(),
            forall|k: int|
                0 <= k < old(self).order().len() && old(self).order()[k] == remove_index.index
                    ==> #[trigger] final(self).order() == old(self).order().remove(k),
            final(self).free_list() == seq![remove_index.index as int] + old(self).free_list(),
            empty == (final(self).order().len() == 0),
            final(arena).slots()[remove_index.index as int].data_of() is None,
            forall|j: int|
                0 <= j < old(arena).slots().len() && j != remove_index.index ==> #[trigger] final(arena).slots()[j].data_of()
                    == old(arena).slots()[j].data_of(),
            forall|j: int|
                0 <= j < old(arena).slots().len() && !old(self).chunks().contains(
                    j / (old(arena).chunk_size_spec() as int),
                ) ==> #[trigger] final(arena).slots()[j] == old(arena).slots()[j],
    {
        let ghost cs = arena.chunk_size_spec() as int;
        let ghost old_order = self.order@;
        let ghost old_free = self.free@;
        let ghost old_slots = arena.slots();
        let ghost idx = remove_index.index as int;
        let ghost k = old_order.index_of(idx);
        proof {
            arena.lemma_wf();
            self.lemma_links_at(old_slots, cs, k);
            self.lemma_links_at(old_slots, cs, k - 1);
            self.lemma_links_at(old_slots, cs, k + 1);
            self.lemma_links_at(old_slots, cs, 0);
        }
        let (curr_prev, curr_next) = {
            let (_, _, prev, next) = arena.get_unchecked(remove_index.index as usize).as_occupied_unchecked();
            (*prev, *next)
        };
        if curr_prev.is_some() {
            match arena.get_unchecked_mut(curr_prev.0 as usize) {
                ArenaSlot::Occupied { next, .. } => {
                    *next = curr_next;
                },
                ArenaSlot::Free { .. } => {},
            }
        }
        if curr_next.is_some() {
            match arena.get_unchecked_mut(curr_next.0 as usize) {
                ArenaSlot::Occupied { prev, .. } => {
                    *prev = curr_prev;
                },
                ArenaSlot::Free { .. } => {},
            }
        }
        arena.set(remove_index.index as usize, ArenaSlot::free_with_next(self.free_head));
        self.free_head = NonMaxU32::from(remove_index.index);
        if curr_next.is_none() {
            self.tail = curr_prev;
        }
        if curr_prev.is_none() {
            self.head = curr_next;
        }
        self.total_len = self.total_len - 1;
        proof {
            let new_slots = arena.slots();
            lemma_remove_links(old_slots, old_order, old_free, new_slots, k);
            self.order@ = old_order.remove(k);
            self.free@ = seq![idx] + old_free;
            assert forall|m: int| 0 <= m < self.order@.len() implies self.handed_out(
                #[trigger] self.order@[m],
                cs,
            ) by {
                let m2 = if m < k { m } else { m + 1 };
                assert(self.order@[m] == old_order[m2]);
                assert(old(self).handed_out(old_order[m2], cs));
            }
            assert forall|m: int| 0 <= m < self.free@.len() implies self.handed_out(
                #[trigger] self.free@[m],
                cs,
            ) by {
                if m == 0 {
                    assert(old(self).handed_out(old_order[k], cs));
                } else {
                    assert(self.free@[m] == old_free[m - 1]);
                    assert(old(self).handed_out(old_free[m - 1], cs));
                }
            }
            assert forall|kk: int|
                0 <= kk < old_order.len() && old_order[kk] == idx implies #[trigger] self.order@
                == old_order.remove(kk) by {
                assert(kk == k);
            }
            assert forall|j: int|
                0 <= j < old_slots.len() && !self.chunks().contains(j / cs) implies #[trigger] new_slots[j]
                == old_slots[j] by {
                if k > 0 && j == old_order[k - 1] {
                }
                if k + 1 < old_order.len() && j == old_order[k + 1] {
                }
            }
        }
        self.total_len == 0
    }
}

/// The slot `s` with the amount of its order replaced by `amount`.
pub open spec fn with_amount(s: ArenaSlot, amount: u32) -> ArenaSlot {
    match s {
        ArenaSlot::Occupied { generation, data, prev, next } => ArenaSlot::Occupied {
            generation,
            data: LimitOrder { limit: data.limit, amount, side: data.side },
            prev,
            next,
        },
        ArenaSlot::Free { .. } => s,
    }
}

/// `b` is `a`, up to the amount of the order it holds.
pub open spec fn same_shape(a: ArenaSlot, b: ArenaSlot) -> bool {
    b == a || (a is Occupied && b == with_amount(a, b->data.amount))
}

impl ArenaSlotMap {
    /// Changing the amounts of orders keeps a level well formed.
    pub proof fn lemma_shape(&self, slots: Seq<ArenaSlot>, new_slots: Seq<ArenaSlot>, cs: int)
        requires
            self.wf_in(slots, cs),
            new_slots.len() == slots.len(),
            forall|i: int| 0 <= i < slots.len() ==> same_shape(#[trigger] slots[i], new_slots[i]),
        ensures
            self.wf_in(new_slots, cs),
    {
        reveal(order_links);
        reveal(free_links);
        assert forall|k: int| 0 <= k < self.free@.len() implies #[trigger] new_slots[self.free@[k]]
            == slots[self.free@[k]] by {
            assert(same_shape(slots[self.free@[k]], new_slots[self.free@[k]]));
        }
        assert forall|k: int| 0 <= k < self.order@.len() implies {
            let i = #[trigger] self.order@[k];
            &&& new_slots[i] is Occupied
            &&& new_slots[i]->prev == slots[i]->prev
            &&& new_slots[i]->next == slots[i]->next
        } by {
            assert(same_shape(slots[self.order@[k]], new_slots[self.order@[k]]));
        }
    }
}

} // verus!
